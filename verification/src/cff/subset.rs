//! Scanning a charstring for the subroutines it calls, and remapping the font DICTs of the
//! requested glyphs.
//!
//! Charstring operands are single-precision floats; the scan only ever uses an operand as a
//! subroutine index, truncated to an integer. So each operand is kept as that integer: the
//! integer operands exactly, and a 16.16 fixed-point operand as the integer that its value,
//! rounded to a float, truncates to.
use crate::cff::cid_font::{spec_font_dict_index, FDSelect, FDSelectView};
use crate::cff::subroutines::{calc_subroutine_bias, spec_subroutine_bias, spec_unapply_bias, unapply_bias};
use crate::face::pow2i;
use crate::read::{be_u16, be_u32, to_i16, to_i32, Reader};
use crate::remapper::Remapper;
use crate::Error;
use std::collections::HashSet;
use vstd::prelude::*;

verus! {

/// The maximum number of operands on the stack.
pub const MAX_ARGUMENTS_STACK_LEN: usize = 48;

/// The number of binary digits of `x`.
pub open spec fn bit_len(x: int) -> int
    decreases x,
{
    if x <= 0 {
        0
    } else {
        1 + bit_len(x / 2)
    }
}

/// `x` rounded to the nearest number with 24 significant binary digits, ties to even: the
/// value of a 32-bit integer turned into a single-precision float.
pub open spec fn round24(x: int) -> int {
    let b = bit_len(x);
    if b <= 24 {
        x
    } else {
        let p = pow2i(b - 24);
        let q = x / p;
        let r = x % p;
        if r > p / 2 || (r == p / 2 && q % 2 == 1) {
            (q + 1) * p
        } else {
            q * p
        }
    }
}

/// The integer that a 16.16 fixed-point number with the bits `raw` truncates to, once its
/// value is a single-precision float.
pub open spec fn fixed_trunc(raw: int) -> int {
    if raw >= 0 {
        round24(raw) / 65536
    } else {
        -(round24(-raw) / 65536)
    }
}

/// A number below `2^n` has at most `n` binary digits.
proof fn lemma_bit_len_lt(x: int, n: int)
    requires
        0 <= n,
        0 <= x < pow2i(n),
    ensures
        bit_len(x) <= n,
    decreases n,
{
    if x > 0 {
        assert(n >= 1);
        lemma_bit_len_lt(x / 2, n - 1);
    }
}

/// A number has a non-negative number of binary digits.
proof fn lemma_bit_len_nonneg(x: int)
    ensures
        bit_len(x) >= 0,
        x > 0 ==> bit_len(x) >= 1,
    decreases x,
{
    if x > 0 {
        lemma_bit_len_nonneg(x / 2);
    }
}

/// 2^24 and 2^32.
proof fn lemma_pow2_values()
    ensures
        pow2i(24) == 0x100_0000,
        pow2i(32) == 0x1_0000_0000,
{
    reveal_with_fuel(pow2i, 33);
}

/// The number of binary digits of `x`.
fn bit_len_of(x: u64) -> (res: u64)
    requires
        x <= 0x8000_0000,
    ensures
        res == bit_len(x as int),
        res <= 32,
        res > 24 ==> x >= 0x100_0000,
{
    proof {
        lemma_pow2_values();
        lemma_bit_len_lt(x as int, 32);
        if x < 0x100_0000 {
            lemma_bit_len_lt(x as int, 24);
        }
        lemma_bit_len_nonneg(x as int);
    }
    let mut m: u64 = x;
    let mut b: u64 = 0;
    while m > 0
        invariant
            b + bit_len(m as int) == bit_len(x as int),
            bit_len(x as int) <= 32,
            bit_len(m as int) >= 0,
        decreases m,
    {
        proof {
            lemma_bit_len_nonneg(m as int);
            lemma_bit_len_nonneg(m as int / 2);
        }
        m = m / 2;
        b = b + 1;
    }
    proof {
        lemma_bit_len_nonneg(m as int);
    }
    b
}

/// 2 to the power `e`.
fn pow2_of(e: u64) -> (res: u64)
    requires
        e <= 8,
    ensures
        res == pow2i(e as int),
        1 <= res <= 256,
{
    let mut p: u64 = 1;
    let mut i: u64 = 0;
    while i < e
        invariant
            i <= e <= 8,
            p == pow2i(i as int),
            1 <= p,
        decreases e - i,
    {
        proof {
            lemma_pow2_le(i as int + 1, 8);
            reveal_with_fuel(pow2i, 9);
        }
        p = p * 2;
        i = i + 1;
    }
    proof {
        lemma_pow2_le(e as int, 8);
        reveal_with_fuel(pow2i, 9);
    }
    p
}

/// The integer that a 16.16 fixed-point number truncates to once it is a float.
fn fixed_to_int(raw: i32) -> (res: i32)
    ensures
        res == fixed_trunc(raw as int),
        -32768 <= res <= 32768,
{
    let x: u64 = if raw >= 0 {
        raw as u64
    } else {
        (-(raw as i64)) as u64
    };
    let b = bit_len_of(x);
    let rounded: u64 = if b <= 24 {
        x
    } else {
        let p = pow2_of(b - 24);
        let q = x / p;
        let r = x % p;
        proof {
            assert(q * p <= x) by (nonlinear_arith)
                requires
                    q == x / p,
                    p > 0,
            ;
            assert((q + 1) * p <= x + p) by (nonlinear_arith)
                requires
                    q * p <= x,
            ;
        }
        if r > p / 2 || (r == p / 2 && q % 2 == 1) {
            (q + 1) * p
        } else {
            q * p
        }
    };
    assert(rounded <= 0x8000_0000 + 256);
    let t = (rounded / 65536) as i32;
    if raw >= 0 {
        t
    } else {
        -t
    }
}

/// Powers of two grow.
proof fn lemma_pow2_le(a: int, b: int)
    requires
        0 <= a <= b,
    ensures
        1 <= pow2i(a) <= pow2i(b),
    decreases b,
{
    if a < b {
        lemma_pow2_le(a, b - 1);
    } else if a > 0 {
        lemma_pow2_le(a - 1, a - 1);
    }
}

/// The state of a scan of a charstring for the subroutines it calls: the position, the
/// operands (as the integers they truncate to), the number of stem hints so far, whether the
/// width was seen, and the global and local subroutines found.
pub struct SubrScan {
    pub pos: int,
    pub stack: Seq<int>,
    pub stems: int,
    pub width: bool,
    pub gsubrs: Set<u32>,
    pub lsubrs: Set<u32>,
}

/// The state with an operand pushed and the position at `pos`; a full stack is an error.
pub open spec fn scan_push(s: SubrScan, pos: int, v: int) -> Result<SubrScan, Error> {
    if s.stack.len() >= MAX_ARGUMENTS_STACK_LEN {
        Err(Error::CFFError)
    } else {
        Ok(SubrScan { pos, stack: s.stack.push(v), ..s })
    }
}

/// Whether an operator byte is reserved.
pub open spec fn is_reserved(op: u8) -> bool {
    op == 0 || op == 2 || op == 9 || op == 13 || op == 15 || op == 16 || op == 17
}

/// Whether an operator declares stem hints.
pub open spec fn is_stem(op: u8) -> bool {
    op == 1 || op == 3 || op == 18 || op == 23
}

/// The scan of the operator at the state's position. Stem operators count their stems (an
/// odd operand first is the width, once); a subroutine call records its unbiased index; a
/// hint or counter mask counts the stems of its operands and skips the mask bytes, when
/// they are there; `endchar` with four operands (`seac`) is unsupported. An operand that
/// runs past the end, a reserved operator and an unusable subroutine index are malformed.
pub open spec fn scan_step(d: Seq<u8>, num_g: u32, num_l: u32, s: SubrScan) -> Result<SubrScan, Error> {
    let op = d[s.pos];
    let p = s.pos + 1;
    if is_reserved(op) {
        Err(Error::MalformedFont)
    } else if is_stem(op) {
        let odd = s.stack.len() % 2 == 1 && !s.width;
        let len = if odd { s.stack.len() - 1 } else { s.stack.len() as int };
        let stems = s.stems + len / 2;
        if stems > u32::MAX {
            Err(Error::OverflowError)
        } else {
            Ok(SubrScan { pos: p, stack: Seq::empty(), stems, width: s.width || odd, ..s })
        }
    } else if op == 10 || op == 29 {
        if s.stack.len() == 0 {
            Err(Error::MalformedFont)
        } else {
            let bias = spec_subroutine_bias(if op == 10 { num_l as int } else { num_g as int });
            match spec_unapply_bias(s.stack.last() as i32, bias) {
                None => Err(Error::MalformedFont),
                Some(i) => Ok(
                    SubrScan {
                        pos: p,
                        stack: Seq::empty(),
                        gsubrs: if op == 29 { s.gsubrs.insert(i) } else { s.gsubrs },
                        lsubrs: if op == 10 { s.lsubrs.insert(i) } else { s.lsubrs },
                        ..s
                    },
                ),
            }
        }
    } else if op == 28 {
        if p + 2 > d.len() {
            Err(Error::MalformedFont)
        } else {
            scan_push(s, p + 2, to_i16(be_u16(d[p], d[p + 1])))
        }
    } else if op == 14 {
        if s.stack.len() == 4 {
            Err(Error::Unimplemented)
        } else {
            Ok(SubrScan { pos: p, ..s })
        }
    } else if op == 19 || op == 20 {
        let stems = s.stems + s.stack.len() / 2;
        if stems + 7 > u32::MAX {
            Err(Error::OverflowError)
        } else {
            let n = (stems + 7) / 8;
            Ok(
                SubrScan {
                    pos: if p + n <= d.len() { p + n } else { p },
                    stack: Seq::empty(),
                    stems,
                    ..s
                },
            )
        }
    } else if op == 12 {
        if p + 1 > d.len() {
            Err(Error::MalformedFont)
        } else {
            Ok(SubrScan { pos: p + 1, stack: Seq::empty(), ..s })
        }
    } else if 32 <= op <= 246 {
        scan_push(s, p, op - 139)
    } else if 247 <= op <= 250 {
        if p + 1 > d.len() {
            Err(Error::MalformedFont)
        } else {
            scan_push(s, p + 1, (op - 247) * 256 + d[p] + 108)
        }
    } else if 251 <= op <= 254 {
        if p + 1 > d.len() {
            Err(Error::MalformedFont)
        } else {
            scan_push(s, p + 1, -(op - 251) * 256 - d[p] - 108)
        }
    } else if op == 255 {
        if p + 4 > d.len() {
            Err(Error::MalformedFont)
        } else {
            scan_push(s, p + 4, fixed_trunc(to_i32(be_u32(d[p], d[p + 1], d[p + 2], d[p + 3]))))
        }
    } else {
        Ok(SubrScan { pos: p, stack: Seq::empty(), ..s })
    }
}

/// The scan of a charstring from a state to its end: the result and the subroutines found.
pub open spec fn scan(d: Seq<u8>, num_g: u32, num_l: u32, s: SubrScan) -> (
    Result<(), Error>,
    Set<u32>,
    Set<u32>,
)
    decreases d.len() - s.pos,
{
    if s.pos < 0 || s.pos >= d.len() {
        (Ok(()), s.gsubrs, s.lsubrs)
    } else {
        match scan_step(d, num_g, num_l, s) {
            Err(e) => (Err(e), s.gsubrs, s.lsubrs),
            Ok(s2) => if s2.pos > s.pos {
                scan(d, num_g, num_l, s2)
            } else {
                (Ok(()), s2.gsubrs, s2.lsubrs)
            },
        }
    }
}

/// The operands as integers.
pub open spec fn stack_view(v: Seq<i32>) -> Seq<int> {
    v.map_values(|x: i32| x as int)
}

/// Push an operand; a full stack is an error.
fn push_operand(stack: &mut Vec<i32>, v: i32) -> (res: Result<(), Error>)
    ensures
        old(stack)@.len() >= MAX_ARGUMENTS_STACK_LEN ==> res == Err::<(), Error>(Error::CFFError)
            && final(stack)@ == old(stack)@,
        old(stack)@.len() < MAX_ARGUMENTS_STACK_LEN ==> res is Ok && stack_view(final(stack)@)
            == stack_view(old(stack)@).push(v as int) && final(stack)@.len() == old(stack)@.len() + 1,
{
    if stack.len() >= MAX_ARGUMENTS_STACK_LEN {
        Err(Error::CFFError)
    } else {
        stack.push(v);
        assert(stack_view(stack@) =~= stack_view(old(stack)@).push(v as int));
        Ok(())
    }
}

/// The integer of a one-byte operand.
pub fn parse_int1(op: u8) -> (res: i32)
    requires
        32 <= op <= 246,
    ensures
        res == op - 139,
{
    op as i32 - 139
}

/// The integer of a two-byte positive operand, whose second byte the reader reads.
pub fn parse_int2(op: u8, r: &mut Reader) -> (res: Result<i32, Error>)
    requires
        247 <= op <= 250,
    ensures
        final(r).spec_data() == old(r).spec_data(),
        old(r).has(1) ==> (res matches Ok(n) && n == (op - 247) * 256 + old(r).spec_data()[old(
            r,
        ).spec_offset()] + 108 && final(r).spec_offset() == old(r).spec_offset() + 1),
        !old(r).has(1) ==> res == Err::<i32, Error>(Error::MalformedFont),
{
    let ghost r0 = *r;
    proof {
        crate::read::lemma_has_rest(r0, 1);
    }
    let b1 = match r.read::<u8>() {
        Some(b) => b,
        None => return Err(Error::MalformedFont),
    };
    assert(r0.peek_bytes(1)[0] == r0.spec_data()[r0.spec_offset()]);
    Ok((op as i32 - 247) * 256 + b1 as i32 + 108)
}

/// The integer of a two-byte negative operand, whose second byte the reader reads.
pub fn parse_int3(op: u8, r: &mut Reader) -> (res: Result<i32, Error>)
    requires
        251 <= op <= 254,
    ensures
        final(r).spec_data() == old(r).spec_data(),
        old(r).has(1) ==> (res matches Ok(n) && n == -(op - 251) * 256 - old(r).spec_data()[old(
            r,
        ).spec_offset()] - 108 && final(r).spec_offset() == old(r).spec_offset() + 1),
        !old(r).has(1) ==> res == Err::<i32, Error>(Error::MalformedFont),
{
    let ghost r0 = *r;
    proof {
        crate::read::lemma_has_rest(r0, 1);
    }
    let b1 = match r.read::<u8>() {
        Some(b) => b,
        None => return Err(Error::MalformedFont),
    };
    assert(r0.peek_bytes(1)[0] == r0.spec_data()[r0.spec_offset()]);
    Ok(-(op as i32 - 251) * 256 - b1 as i32 - 108)
}

/// The bits of a 16.16 fixed-point operand, which the reader reads.
pub fn parse_fixed(r: &mut Reader) -> (res: Result<i32, Error>)
    ensures
        final(r).spec_data() == old(r).spec_data(),
        old(r).has(4) ==> ({
            let d = old(r).spec_data();
            let p = old(r).spec_offset();
            res matches Ok(n) && n == to_i32(be_u32(d[p], d[p + 1], d[p + 2], d[p + 3]))
                && final(r).spec_offset() == p + 4
        }),
        !old(r).has(4) ==> res == Err::<i32, Error>(Error::MalformedFont),
{
    let ghost r0 = *r;
    match r.read::<i32>() {
        Some(n) => {
            proof {
                crate::read::lemma_has_rest(r0, 1);
                let d = r0.spec_data();
                let p = r0.spec_offset();
                let b = r0.peek_bytes(4);
                assert(b[0] == d[p] && b[1] == d[p + 1] && b[2] == d[p + 2] && b[3] == d[p + 3]);
            }
            Ok(n)
        },
        None => Err(Error::MalformedFont),
    }
}

/// The state of a scan in the given variables.
pub open spec fn scan_state(
    pos: int,
    stack: Seq<i32>,
    stems: u32,
    width: bool,
    gsubr: Set<u32>,
    lsubr: Set<u32>,
) -> SubrScan {
    SubrScan {
        pos,
        stack: stack_view(stack),
        stems: stems as int,
        width,
        gsubrs: gsubr,
        lsubrs: lsubr,
    }
}

/// Scan the operator at the reader's position.
#[verifier::rlimit(30)]
fn scan_operator(
    r: &mut Reader,
    stack: &mut Vec<i32>,
    stems_len: &mut u32,
    width: &mut bool,
    gsubr: &mut HashSet<u32>,
    lsubr: &mut HashSet<u32>,
    num_gsubr: u32,
    num_lsubr: u32,
) -> (res: Result<(), Error>)
    requires
        old(r).spec_offset() < old(r).spec_data().len(),
        old(stack)@.len() <= MAX_ARGUMENTS_STACK_LEN,
    ensures
        final(r).spec_data() == old(r).spec_data(),
        final(stack)@.len() <= MAX_ARGUMENTS_STACK_LEN,
        res is Err ==> final(gsubr)@ == old(gsubr)@ && final(lsubr)@ == old(lsubr)@,
        ({
            let s = scan_state(
                old(r).spec_offset(),
                old(stack)@,
                *old(stems_len),
                *old(width),
                old(gsubr)@,
                old(lsubr)@,
            );
            let s2 = scan_state(
                final(r).spec_offset(),
                final(stack)@,
                *final(stems_len),
                *final(width),
                final(gsubr)@,
                final(lsubr)@,
            );
            match scan_step(old(r).spec_data(), num_gsubr, num_lsubr, s) {
                Err(e) => res == Err::<(), Error>(e),
                Ok(t) => res is Ok && t == s2 && s2.pos > s.pos && s2.pos <= old(r).spec_data().len(),
            }
        }),
{
    let ghost d = r.spec_data();
    let ghost p0 = r.spec_offset();
    proof {
        crate::read::lemma_has_rest(*r, 1);
    }
    let op = match r.read::<u8>() {
        Some(op) => op,
        None => return Err(Error::MalformedFont),
    };
    assert(op == d[p0]) by {
        assert(old(r).peek_bytes(1)[0] == d[p0]);
    }
    if op == 0 || op == 2 || op == 9 || op == 13 || op == 15 || op == 16 || op == 17 {
        // Reserved.
        return Err(Error::MalformedFont);
    } else if op == 1 || op == 3 || op == 18 || op == 23 {
        let len = if stack.len() % 2 == 1 && !*width {
            *width = true;
            stack.len() - 1
        } else {
            stack.len()
        };
        *stems_len = match stems_len.checked_add((len / 2) as u32) {
            Some(v) => v,
            None => return Err(Error::OverflowError),
        };
        *stack = Vec::new();
        assert(stack_view(stack@) =~= Seq::<int>::empty());
    } else if op == 10 || op == 29 {
        let biased = match stack.pop() {
            Some(v) => v,
            None => return Err(Error::MalformedFont),
        };
        let bias = calc_subroutine_bias(if op == 10 { num_lsubr } else { num_gsubr });
        let subroutine = match unapply_bias(biased, bias) {
            Some(i) => i,
            None => return Err(Error::MalformedFont),
        };
        proof {
            broadcast use vstd::std_specs::hash::group_hash_axioms;
        }
        if op == 10 {
            lsubr.insert(subroutine);
        } else {
            gsubr.insert(subroutine);
        }
        *stack = Vec::new();
        assert(stack_view(stack@) =~= Seq::<int>::empty());
    } else if op == 28 {
        let ghost r1 = *r;
        let v = match r.read::<i16>() {
            Some(v) => v,
            None => return Err(Error::MalformedFont),
        };
        proof {
            let b = r1.peek_bytes(2);
            assert(b[0] == d[p0 + 1] && b[1] == d[p0 + 2]);
        }
        match push_operand(stack, v as i32) {
            Ok(()) => {},
            Err(e) => return Err(e),
        }
    } else if op == 14 {
        if stack.len() == 4 {
            // `seac` is not supported.
            return Err(Error::Unimplemented);
        }
    } else if op == 19 || op == 20 {
        let len = stack.len();
        *stack = Vec::new();
        assert(stack_view(stack@) =~= Seq::<int>::empty());
        *stems_len = match stems_len.checked_add((len / 2) as u32) {
            Some(v) => v,
            None => return Err(Error::OverflowError),
        };
        if *stems_len > u32::MAX - 7 {
            return Err(Error::OverflowError);
        }
        r.skip_bytes(((*stems_len + 7) / 8) as usize);
    } else if op == 12 {
        // A two-byte operator.
        match r.read::<u8>() {
            Some(_) => {},
            None => return Err(Error::MalformedFont),
        }
        *stack = Vec::new();
        assert(stack_view(stack@) =~= Seq::<int>::empty());
    } else if 32 <= op && op <= 246 {
        match push_operand(stack, parse_int1(op)) {
            Ok(()) => {},
            Err(e) => return Err(e),
        }
    } else if 247 <= op && op <= 250 {
        let v = match parse_int2(op, r) {
            Ok(v) => v,
            Err(e) => return Err(e),
        };
        match push_operand(stack, v) {
            Ok(()) => {},
            Err(e) => return Err(e),
        }
    } else if 251 <= op && op <= 254 {
        let v = match parse_int3(op, r) {
            Ok(v) => v,
            Err(e) => return Err(e),
        };
        match push_operand(stack, v) {
            Ok(()) => {},
            Err(e) => return Err(e),
        }
    } else if op == 255 {
        let raw = match parse_fixed(r) {
            Ok(v) => v,
            Err(e) => return Err(e),
        };
        match push_operand(stack, fixed_to_int(raw)) {
            Ok(()) => {},
            Err(e) => return Err(e),
        }
    } else {
        *stack = Vec::new();
        assert(stack_view(stack@) =~= Seq::<int>::empty());
    }
    Ok(())
}

/// The scan at the start of a charstring, with the subroutines found before.
pub open spec fn scan_start(gsubrs: Set<u32>, lsubrs: Set<u32>) -> SubrScan {
    SubrScan { pos: 0, stack: Seq::empty(), stems: 0, width: false, gsubrs, lsubrs }
}

/// Add the global and local subroutines that a charstring calls to `gsubr` and `lsubr`.
pub fn discover_subrs(
    gsubr: &mut HashSet<u32>,
    lsubr: &mut HashSet<u32>,
    num_gsubr: u32,
    num_lsubr: u32,
    char_string: &[u8],
) -> (res: Result<(), Error>)
    ensures
        scan(
            char_string@,
            num_gsubr,
            num_lsubr,
            scan_start(old(gsubr)@, old(lsubr)@),
        ) == (res, final(gsubr)@, final(lsubr)@),
{
    let ghost d = char_string@;
    let ghost start = scan_start(gsubr@, lsubr@);
    let mut stems_len: u32 = 0;
    let mut width: bool = false;
    let mut stack: Vec<i32> = Vec::new();
    let mut r = Reader::new(char_string);
    assert(scan_state(0, stack@, stems_len, width, gsubr@, lsubr@) == start) by {
        assert(stack_view(stack@) =~= Seq::<int>::empty());
    }
    while !r.at_end()
        invariant
            r.spec_data() == d,
            d == char_string@,
            start == scan_start(old(gsubr)@, old(lsubr)@),
            0 <= r.spec_offset() <= d.len(),
            stack@.len() <= MAX_ARGUMENTS_STACK_LEN,
            scan(d, num_gsubr, num_lsubr, start) == scan(
                d,
                num_gsubr,
                num_lsubr,
                scan_state(r.spec_offset(), stack@, stems_len, width, gsubr@, lsubr@),
            ),
        decreases d.len() - r.spec_offset(),
    {
        let ghost s = scan_state(r.spec_offset(), stack@, stems_len, width, gsubr@, lsubr@);
        match scan_operator(
            &mut r,
            &mut stack,
            &mut stems_len,
            &mut width,
            gsubr,
            lsubr,
            num_gsubr,
            num_lsubr,
        ) {
            Ok(()) => {},
            Err(e) => {
                assert(scan(d, num_gsubr, num_lsubr, s) == (
                    Err::<(), Error>(e),
                    s.gsubrs,
                    s.lsubrs,
                ));
                return Err(e);
            },
        }
    }
    Ok(())
}

/// Whether font DICT `fd` is the one of a requested glyph.
pub open spec fn fd_used(sel: FDSelectView, requested: Seq<u16>, fd: int) -> bool {
    exists|i: int|
        0 <= i < requested.len() && (#[trigger] spec_font_dict_index(sel, requested[i]) matches Some(
            f,
        ) && f == fd)
}

/// A remapper of the font DICTs of the requested glyphs, in ascending order; none if a
/// requested glyph has no font DICT.
pub fn remap_font_dicts(requested: &[u16], fd_select: &FDSelect) -> (res: Option<Remapper>)
    ensures
        (forall|i: int| 0 <= i < requested@.len() ==> (#[trigger] spec_font_dict_index(fd_select@, requested@[i])) is Some) <==> res is Some,
        res matches Some(m) ==> {
            &&& m.wf()
            &&& forall|i: int, j: int| 0 <= i < j < m.spec_len() ==> m.spec_backward()[i] < m.spec_backward()[j]
            &&& forall|x: u16| m.spec_backward().contains(x) <==> fd_used(fd_select@, requested@, x as int)
        },
{
    let mut used: Vec<bool> = Vec::new();
    let mut k: usize = 0;
    while k < 256
        invariant
            k <= 256,
            used@.len() == k,
            forall|j: int| 0 <= j < k ==> !used@[j],
        decreases 256 - k,
    {
        used.push(false);
        k = k + 1;
    }
    let mut i: usize = 0;
    while i < requested.len()
        invariant
            i <= requested@.len(),
            used@.len() == 256,
            forall|x: int| 0 <= x < 256 ==> (#[trigger] used@[x] <==> exists|j: int| 0 <= j < i && spec_font_dict_index(fd_select@, requested@[j]) == Some(x as u8)),
            forall|j: int| 0 <= j < i ==> (#[trigger] spec_font_dict_index(fd_select@, requested@[j])) is Some,
        decreases requested@.len() - i,
    {
        let fd = match fd_select.font_dict_index(requested[i]) {
            Some(fd) => fd,
            None => return None,
        };
        used.set(fd as usize, true);
        proof {
            assert forall|x: int| 0 <= x < 256 implies (#[trigger] used@[x] <==> exists|j: int| 0 <= j < i + 1 && spec_font_dict_index(fd_select@, requested@[j]) == Some(x as u8)) by {
                if x == fd as int {
                    assert(spec_font_dict_index(fd_select@, requested@[i as int]) == Some(x as u8));
                }
                if exists|j: int| 0 <= j < i + 1 && spec_font_dict_index(fd_select@, requested@[j]) == Some(x as u8) {
                    let j = choose|j: int| 0 <= j < i + 1 && spec_font_dict_index(fd_select@, requested@[j]) == Some(x as u8);
                    if j == i {
                        assert(x == fd as int);
                    }
                }
            }
        }
        i = i + 1;
    }
    let mut remapper = Remapper::new();
    let mut fd: usize = 0;
    while fd < 256
        invariant
            fd <= 256,
            used@.len() == 256,
            remapper.wf(),
            remapper.spec_len() <= fd,
            forall|a: int, b: int| 0 <= a < b < remapper.spec_len() ==> remapper.spec_backward()[a] < remapper.spec_backward()[b],
            forall|a: int| 0 <= a < remapper.spec_len() ==> remapper.spec_backward()[a] < fd,
            forall|x: u16| remapper.spec_backward().contains(x) <==> (x < fd && used@[x as int]),
        decreases 256 - fd,
    {
        if used[fd] {
            proof {
                if remapper.spec_get(fd as u16) is Some {
                    let w = choose|w: int| 0 <= w < remapper.spec_len() && remapper.spec_backward()[w] == fd as u16;
                    assert(false);
                }
            }
            let ghost before = remapper.spec_backward();
            remapper.remap(fd as u16);
            proof {
                assert forall|x: u16| remapper.spec_backward().contains(x) <==> (x < fd + 1 && used@[x as int]) by {
                    if x == fd as u16 {
                        assert(remapper.spec_backward()[before.len() as int] == x);
                    }
                    if remapper.spec_backward().contains(x) {
                        let w = choose|w: int| 0 <= w < remapper.spec_len() && remapper.spec_backward()[w] == x;
                        if w < before.len() {
                            assert(before[w] == x);
                        }
                    }
                    if before.contains(x) {
                        let w = choose|w: int| 0 <= w < before.len() && before[w] == x;
                        assert(remapper.spec_backward()[w] == x);
                    }
                }
            }
        } else {
            proof {
                assert forall|x: u16| remapper.spec_backward().contains(x) <==> (x < fd + 1 && used@[x as int]) by {
                    if remapper.spec_backward().contains(x) {
                        let w = choose|w: int| 0 <= w < remapper.spec_len() && remapper.spec_backward()[w] == x;
                    }
                }
            }
        }
        fd = fd + 1;
    }
    proof {
        assert forall|x: u16| remapper.spec_backward().contains(x) <==> fd_used(fd_select@, requested@, x as int) by {
            if x < 256 {
                if used@[x as int] {
                    let j = choose|j: int| 0 <= j < requested@.len() && spec_font_dict_index(fd_select@, requested@[j]) == Some(x as u8);
                    assert(fd_used(fd_select@, requested@, x as int));
                }
                if fd_used(fd_select@, requested@, x as int) {
                    let j = choose|j: int| 0 <= j < requested@.len() && (#[trigger] spec_font_dict_index(fd_select@, requested@[j]) matches Some(f) && f == x as int);
                    assert(spec_font_dict_index(fd_select@, requested@[j]) == Some(x as u8));
                    assert(used@[x as int]);
                }
            }
        }
    }
    Some(remapper)
}

} // verus!
