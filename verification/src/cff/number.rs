//! Numbers as they appear in CFF DICTs and charstrings.
use crate::read::{be_u16, be_u32, lemma_has_rest, lemma_reader_advance, lemma_reader_rest, to_i16, to_i32, Readable, Reader};
use crate::write::{u16_bytes, u32_bytes, Writeable, Writer};
use vstd::prelude::*;

verus! {

/// The largest number of characters a real number may expand to.
pub const FLOAT_STACK_LEN: usize = 64;

/// The nibble that ends a real number.
pub const END_OF_FLOAT_FLAG: u8 = 0xf;

/// The largest number of bytes (after the prefix) that a real number can occupy.
pub const REAL_MAX_BYTES: usize = 33;

/// An integer operand.
#[derive(Clone, Copy, PartialEq, Eq, Structural, Debug)]
pub struct IntegerNumber(pub i32);

/// A 16.16 fixed-point operand (charstrings only), stored as its raw 32 bits.
#[derive(Clone, Copy, PartialEq, Eq, Structural, Debug)]
pub struct FixedNumber(pub i32);

/// A real operand, kept as the nibble bytes that encode it in the font
/// (everything after the prefix byte 30, up to and including the byte
/// with the terminating nibble).
#[derive(Clone, Copy, Debug)]
pub struct RealNumber {
    bytes: [u8; 33],
    len: usize,
}

/// A number operand.
#[derive(Clone, Copy, Debug)]
pub enum Number {
    /// A real number.
    Real(RealNumber),
    /// An integer.
    Integer(IntegerNumber),
    /// A fixed-point number.
    Fixed(FixedNumber),
}

/// The mathematical value of a number operand: a real number by the nibble bytes that
/// encode it, the others by their 32-bit value.
pub enum NumberView {
    /// A real number.
    Real(Seq<u8>),
    /// An integer.
    Integer(i32),
    /// A fixed-point number, by its raw bits.
    Fixed(i32),
}

impl View for Number {
    type V = NumberView;

    open spec fn view(&self) -> NumberView {
        match self {
            Number::Real(r) => NumberView::Real(r.spec_bytes_of()),
            Number::Integer(i) => NumberView::Integer(i.0),
            Number::Fixed(f) => NumberView::Fixed(f.0),
        }
    }
}

/// The bytes of a 32-bit signed value, big-endian two's complement.
pub open spec fn i32_bytes(v: int) -> Seq<u8> {
    u32_bytes(if v < 0 { v + 0x1_0000_0000 } else { v })
}

/// The bytes of a 16-bit signed value, big-endian two's complement.
pub open spec fn i16_bytes(v: int) -> Seq<u8> {
    u16_bytes(if v < 0 { v + 0x10000 } else { v })
}

/// Decode an integer operand at the start of `s`: the value and the number of bytes it takes.
pub open spec fn spec_parse_integer(s: Seq<u8>) -> Option<(IntegerNumber, nat)> {
    if s.len() < 1 {
        None
    } else {
        let b0 = s[0];
        if b0 == 28 {
            if s.len() >= 3 {
                Some((IntegerNumber(to_i16(be_u16(s[1], s[2])) as i32), 3))
            } else {
                None
            }
        } else if b0 == 29 {
            if s.len() >= 5 {
                Some((IntegerNumber(to_i32(be_u32(s[1], s[2], s[3], s[4])) as i32), 5))
            } else {
                None
            }
        } else if 32 <= b0 <= 246 {
            Some((IntegerNumber((b0 - 139) as i32), 1))
        } else if 247 <= b0 <= 250 {
            if s.len() >= 2 {
                Some((IntegerNumber(((b0 - 247) * 256 + s[1] + 108) as i32), 2))
            } else {
                None
            }
        } else if 251 <= b0 <= 254 {
            if s.len() >= 2 {
                Some((IntegerNumber((-(b0 - 251) * 256 - s[1] - 108) as i32), 2))
            } else {
                None
            }
        } else {
            None
        }
    }
}

/// The five-byte encoding of an integer, whatever its size.
pub open spec fn spec_int_5_bytes(v: i32) -> Seq<u8> {
    seq![29u8] + i32_bytes(v as int)
}

/// The shortest encoding of an integer operand.
pub open spec fn spec_int_bytes(v: i32) -> Seq<u8> {
    if -107 <= v <= 107 {
        seq![(v + 139) as u8]
    } else if 108 <= v <= 1131 {
        seq![((v - 108) / 256 + 247) as u8, ((v - 108) % 256) as u8]
    } else if -1131 <= v <= -108 {
        seq![((-v - 108) / 256 + 251) as u8, ((-v - 108) % 256) as u8]
    } else if -32768 <= v <= 32767 {
        seq![28u8] + i16_bytes(v as int)
    } else {
        spec_int_5_bytes(v)
    }
}

/// Decode a fixed-point operand at the start of `s`.
pub open spec fn spec_parse_fixed(s: Seq<u8>) -> Option<(FixedNumber, nat)> {
    if s.len() >= 5 && s[0] == 255 {
        Some((FixedNumber(to_i32(be_u32(s[1], s[2], s[3], s[4])) as i32), 5))
    } else {
        None
    }
}

/// The characters that a nibble of a real number stands for.
pub open spec fn nibble_chars(n: u8) -> Option<Seq<u8>> {
    if n <= 9 {
        Some(seq![(48 + n) as u8])
    } else if n == 10 {
        Some(seq![46u8])
    } else if n == 11 {
        Some(seq![69u8])
    } else if n == 12 {
        Some(seq![69u8, 45u8])
    } else if n == 14 {
        Some(seq![45u8])
    } else {
        None
    }
}

/// Append the characters of a nibble to a real number's text, as long as the text stays
/// within `FLOAT_STACK_LEN` characters.
pub open spec fn push_nibble(acc: Seq<u8>, n: u8) -> Option<Seq<u8>> {
    match nibble_chars(n) {
        Some(c) => if acc.len() + c.len() <= FLOAT_STACK_LEN {
            Some(acc + c)
        } else {
            None
        },
        None => None,
    }
}

/// Scan the nibble bytes of a real number from byte `i` on, with the text `acc` so far:
/// the number of bytes up to and including the one with the end nibble, and the full text.
pub open spec fn scan_real(bytes: Seq<u8>, i: int, acc: Seq<u8>) -> Option<(nat, Seq<u8>)>
    decreases bytes.len() - i,
{
    if i < 0 || i >= bytes.len() {
        None
    } else {
        let hi = (bytes[i] / 16) as u8;
        let lo = (bytes[i] % 16) as u8;
        if hi == END_OF_FLOAT_FLAG {
            Some(((i + 1) as nat, acc))
        } else {
            match push_nibble(acc, hi) {
                None => None,
                Some(acc2) => if lo == END_OF_FLOAT_FLAG {
                    Some(((i + 1) as nat, acc2))
                } else {
                    match push_nibble(acc2, lo) {
                        None => None,
                        Some(acc3) => scan_real(bytes, i + 1, acc3),
                    }
                },
            }
        }
    }
}

/// Whether a character is a decimal digit.
pub open spec fn is_digit(c: u8) -> bool {
    48 <= c <= 57
}

/// The number of digits in `s`.
pub open spec fn count_digits(s: Seq<u8>) -> nat
    decreases s.len(),
{
    if s.len() == 0 {
        0
    } else {
        count_digits(s.drop_last()) + if is_digit(s.last()) { 1nat } else { 0nat }
    }
}

/// The number of decimal points in `s`.
pub open spec fn count_dots(s: Seq<u8>) -> nat
    decreases s.len(),
{
    if s.len() == 0 {
        0
    } else {
        count_dots(s.drop_last()) + if s.last() == 46 { 1nat } else { 0nat }
    }
}

/// Whether `s` is a mantissa: digits with at most one decimal point and at least one digit.
pub open spec fn is_mantissa(s: Seq<u8>) -> bool {
    &&& count_digits(s) + count_dots(s) == s.len()
    &&& count_dots(s) <= 1
    &&& count_digits(s) >= 1
}

/// Whether `s` is an exponent: an optional minus sign and at least one digit.
pub open spec fn is_exponent(s: Seq<u8>) -> bool {
    let d = if s.len() > 0 && s[0] == 45 { s.drop_first() } else { s };
    d.len() >= 1 && count_digits(d) == d.len()
}

/// The index of the first `E` in `s`, or its length if there is none.
pub open spec fn first_exp(s: Seq<u8>) -> int
    decreases s.len(),
{
    if s.len() == 0 {
        0
    } else if s[0] == 69 {
        0
    } else {
        1 + first_exp(s.drop_first())
    }
}

/// Whether `s` is the text of a decimal floating-point number, as Rust's `f32` parser
/// accepts it (over the characters a real number can expand to).
pub open spec fn is_float_text(s: Seq<u8>) -> bool {
    let body = if s.len() > 0 && s[0] == 45 { s.drop_first() } else { s };
    let e = first_exp(body);
    &&& is_mantissa(body.subrange(0, e))
    &&& e < body.len() ==> is_exponent(body.subrange(e + 1, body.len() as int))
}

/// Decode a real operand at the start of `s`.
pub open spec fn spec_parse_real(s: Seq<u8>) -> Option<(Seq<u8>, nat)> {
    if s.len() >= 1 && s[0] == 30 {
        match scan_real(s.drop_first(), 0, Seq::empty()) {
            Some((n, text)) => if is_float_text(text) {
                Some((s.subrange(1, n as int + 1), n + 1))
            } else {
                None
            },
            None => None,
        }
    } else {
        None
    }
}

/// Decode a number operand at the start of `s`; `charstring` says whether fixed-point
/// numbers are allowed.
pub open spec fn spec_parse_number(s: Seq<u8>, charstring: bool) -> Option<(NumberView, nat)> {
    if s.len() < 1 {
        None
    } else if s[0] == 30 {
        match spec_parse_real(s) {
            Some((b, n)) => Some((NumberView::Real(b), n)),
            None => None,
        }
    } else if s[0] == 255 {
        if charstring {
            match spec_parse_fixed(s) {
                Some((f, n)) => Some((NumberView::Fixed(f.0), n)),
                None => None,
            }
        } else {
            None
        }
    } else {
        match spec_parse_integer(s) {
            Some((i, n)) => Some((NumberView::Integer(i.0), n)),
            None => None,
        }
    }
}

impl RealNumber {
    /// The nibble bytes of the number.
    pub closed spec fn spec_bytes_of(&self) -> Seq<u8> {
        self.bytes@.subrange(0, self.len as int)
    }

    /// Whether the number holds a well-formed byte count.
    #[verifier::type_invariant]
    pub closed spec fn wf(&self) -> bool {
        1 <= self.len <= REAL_MAX_BYTES
    }

}

impl IntegerNumber {
    /// Parse an integer operand.
    pub fn parse(r: &mut Reader) -> (res: Option<IntegerNumber>)
        ensures
            final(r).spec_data() == old(r).spec_data(),
            match spec_parse_integer(old(r).spec_rest()) {
                Some((n, len)) => res == Some(n) && final(r).spec_offset() == old(r).spec_offset()
                    + len,
                None => res is None,
            },
    {
        let ghost r0 = *r;
        let ghost rest = r0.spec_rest();
        proof {
            lemma_has_rest(r0, 1nat);
            if !r0.has(1nat) {
                assert(rest.len() < 1);
            }
        }
        let b0 = r.read::<u8>()?;
        proof {
            lemma_reader_rest(r0, 1nat);
            lemma_reader_advance(r0, *r, 1nat);
        }
        let ghost r1 = *r;
        match b0 {
            28 => {
                proof {
                    lemma_has_rest(r1, 2nat);
                    if !r1.has(2nat) {
                        assert(rest.len() < 3);
                    }
                }
                let v = r.read::<i16>()?;
                proof {
                    lemma_reader_rest(r1, 2nat);
                }
                Some(IntegerNumber(v as i32))
            },
            29 => {
                proof {
                    lemma_has_rest(r1, 4nat);
                    if !r1.has(4nat) {
                        assert(rest.len() < 5);
                    }
                }
                let v = r.read::<i32>()?;
                proof {
                    lemma_reader_rest(r1, 4nat);
                }
                Some(IntegerNumber(v))
            },
            32..=246 => Some(IntegerNumber(b0 as i32 - 139)),
            247..=250 => {
                proof {
                    lemma_has_rest(r1, 1nat);
                    if !r1.has(1nat) {
                        assert(rest.len() < 2);
                    }
                }
                let b1 = r.read::<u8>()?;
                proof {
                    lemma_reader_rest(r1, 1nat);
                }
                Some(IntegerNumber((b0 as i32 - 247) * 256 + b1 as i32 + 108))
            },
            251..=254 => {
                proof {
                    lemma_has_rest(r1, 1nat);
                    if !r1.has(1nat) {
                        assert(rest.len() < 2);
                    }
                }
                let b1 = r.read::<u8>()?;
                proof {
                    lemma_reader_rest(r1, 1nat);
                }
                Some(IntegerNumber(-(b0 as i32 - 251) * 256 - b1 as i32 - 108))
            },
            _ => None,
        }
    }

    /// Write the number as a 5 byte sequence. This is necessary when writing offsets,
    /// because the length of the number has to stay stable, since it would
    /// otherwise shift everything.
    pub fn write_as_5_bytes(&self, w: &mut Writer)
        ensures
            final(w)@ == old(w)@ + spec_int_5_bytes(self.0),
    {
        w.push(29);
        self.0.write(w);
        assert(final(w)@ =~= old(w)@ + spec_int_5_bytes(self.0));
    }
}

impl Writeable for IntegerNumber {
    open spec fn spec_bytes(&self) -> Seq<u8> {
        spec_int_bytes(self.0)
    }

    fn write(&self, w: &mut Writer) {
        let v = self.0;
        if -107 <= v && v <= 107 {
            w.push((v + 139) as u8);
        } else if 108 <= v && v <= 1131 {
            let temp = v - 108;
            w.push((temp / 256 + 247) as u8);
            w.push((temp % 256) as u8);
        } else if -1131 <= v && v <= -108 {
            let temp = -v - 108;
            w.push((temp / 256 + 251) as u8);
            w.push((temp % 256) as u8);
        } else if -32768 <= v && v <= 32767 {
            w.push(28);
            (v as i16).write(w);
        } else {
            self.write_as_5_bytes(w);
        }
        assert(w@ =~= old(w)@ + self.spec_bytes());
    }
}

impl FixedNumber {
    /// Parse a fixed-point operand.
    pub fn parse(r: &mut Reader) -> (res: Option<FixedNumber>)
        ensures
            final(r).spec_data() == old(r).spec_data(),
            match spec_parse_fixed(old(r).spec_rest()) {
                Some((n, len)) => res == Some(n) && final(r).spec_offset() == old(r).spec_offset()
                    + len,
                None => res is None,
            },
    {
        let ghost r0 = *r;
        let ghost rest = r0.spec_rest();
        proof {
            lemma_has_rest(r0, 1nat);
        }
        let b0 = r.read::<u8>()?;
        proof {
            lemma_reader_rest(r0, 1nat);
            lemma_reader_advance(r0, *r, 1nat);
        }
        if b0 != 255 {
            return None;
        }
        let ghost r1 = *r;
        proof {
            lemma_has_rest(r1, 4nat);
        }
        let num = r.read::<i32>()?;
        proof {
            lemma_reader_rest(r1, 4nat);
        }
        Some(FixedNumber(num))
    }
}

impl Writeable for FixedNumber {
    open spec fn spec_bytes(&self) -> Seq<u8> {
        seq![255u8] + i32_bytes(self.0 as int)
    }

    fn write(&self, w: &mut Writer) {
        w.push(255);
        self.0.write(w);
        assert(w@ =~= old(w)@ + self.spec_bytes());
    }
}

/// Writing a fixed-point operand and parsing it back gives the same value.
pub proof fn lemma_fixed_roundtrip(v: FixedNumber, rest: Seq<u8>)
    ensures
        spec_parse_fixed(v.spec_bytes() + rest) == Some((v, 5nat)),
{
    let b = v.spec_bytes();
    let u: int = if v.0 < 0 { v.0 + 0x1_0000_0000 } else { v.0 as int };
    assert(be_u32(b[1], b[2], b[3], b[4]) == u);
}

/// Expand a nibble of a real number into characters on the stack `data`, which holds
/// `idx` characters; returns the new number of characters.
pub fn parse_float_nibble(nibble: u8, idx: usize, data: &mut Vec<u8>) -> (res: Option<usize>)
    requires
        old(data)@.len() == idx,
        idx <= FLOAT_STACK_LEN,
    ensures
        match push_nibble(old(data)@, nibble) {
            Some(t) => res == Some(t.len() as usize) && final(data)@ == t,
            None => res is None,
        },
{
    if idx == FLOAT_STACK_LEN {
        return None;
    }
    if nibble <= 9 {
        data.push(48 + nibble);
    } else if nibble == 10 {
        data.push(46);
    } else if nibble == 11 {
        data.push(69);
    } else if nibble == 12 {
        if idx + 1 == FLOAT_STACK_LEN {
            return None;
        }
        data.push(69);
        data.push(45);
        assert(data@ =~= old(data)@ + seq![69u8, 45u8]);
        return Some(idx + 2);
    } else if nibble == 14 {
        data.push(45);
    } else {
        return None;
    }
    assert(data@ =~= old(data)@ + nibble_chars(nibble).unwrap());
    Some(idx + 1)
}

/// Count the digits and decimal points of `s` from `start` to `end`, failing at any
/// other character.
fn check_mantissa(s: &[u8], start: usize, end: usize) -> (res: bool)
    requires
        start <= end <= s@.len(),
    ensures
        res == is_mantissa(s@.subrange(start as int, end as int)),
{
    let mut digits: usize = 0;
    let mut dots: usize = 0;
    let mut i: usize = start;
    while i < end
        invariant
            start <= i <= end <= s@.len(),
            digits == count_digits(s@.subrange(start as int, i as int)),
            dots == count_dots(s@.subrange(start as int, i as int)),
            digits + dots == i - start,
        decreases end - i,
    {
        let c = s[i];
        proof {
            assert(s@.subrange(start as int, i + 1).drop_last() =~= s@.subrange(
                start as int,
                i as int,
            ));
        }
        if 48 <= c && c <= 57 {
            digits = digits + 1;
        } else if c == 46 {
            dots = dots + 1;
        } else {
            proof {
                assert(s@.subrange(start as int, end as int).subrange(0, i - start)
                    =~= s@.subrange(start as int, i as int));
                lemma_counts_bounded(s@.subrange(start as int, end as int), (i - start) as int);
            }
            return false;
        }
        i = i + 1;
    }
    dots <= 1 && digits >= 1
}

/// When a character that is neither a digit nor a point occurs, the counts fall short.
proof fn lemma_counts_bounded(s: Seq<u8>, k: int)
    requires
        0 <= k < s.len(),
        !is_digit(s[k]),
        s[k] != 46,
        count_digits(s.subrange(0, k)) + count_dots(s.subrange(0, k)) == k,
    ensures
        count_digits(s) + count_dots(s) < s.len(),
    decreases s.len(),
{
    lemma_counts_le(s.drop_last());
    if k == s.len() - 1 {
        assert(s.drop_last() =~= s.subrange(0, k));
    } else {
        assert(s.drop_last().subrange(0, k) =~= s.subrange(0, k));
        lemma_counts_bounded(s.drop_last(), k);
    }
}

/// The digits and points of a sequence are no more than its length.
proof fn lemma_counts_le(s: Seq<u8>)
    ensures
        count_digits(s) + count_dots(s) <= s.len(),
    decreases s.len(),
{
    if s.len() > 0 {
        lemma_counts_le(s.drop_last());
    }
}

/// The index of the first `E` from `start` on, or `s.len()` if there is none.
fn find_exp(s: &[u8], start: usize) -> (res: usize)
    requires
        start <= s@.len(),
    ensures
        res == start + first_exp(s@.subrange(start as int, s@.len() as int)),
        start <= res <= s@.len(),
{
    let mut i: usize = start;
    while i < s.len()
        invariant
            start <= i <= s@.len(),
            first_exp(s@.subrange(start as int, s@.len() as int)) == (i - start) + first_exp(
                s@.subrange(i as int, s@.len() as int),
            ),
        decreases s@.len() - i,
    {
        if s[i] == 69 {
            return i;
        }
        proof {
            assert(s@.subrange(i as int, s@.len() as int).drop_first() =~= s@.subrange(
                i + 1,
                s@.len() as int,
            ));
        }
        i = i + 1;
    }
    i
}

/// Whether the characters are the text of a decimal number, as Rust's float parser accepts it.
pub fn is_float_literal(s: &[u8]) -> (res: bool)
    ensures
        res == is_float_text(s@),
{
    let start: usize = if s.len() > 0 && s[0] == 45 { 1 } else { 0 };
    let ghost body = if s@.len() > 0 && s@[0] == 45 { s@.drop_first() } else { s@ };
    assert(body =~= s@.subrange(start as int, s@.len() as int));
    let e = find_exp(s, start);
    assert(body.subrange(0, e - start) =~= s@.subrange(start as int, e as int));
    if !check_mantissa(s, start, e) {
        return false;
    }
    if e == s.len() {
        return true;
    }
    let ghost ex = body.subrange(e - start + 1, body.len() as int);
    assert(ex =~= s@.subrange(e + 1, s@.len() as int));
    let ds: usize = if e + 1 < s.len() && s[e + 1] == 45 { e + 2 } else { e + 1 };
    assert((if ex.len() > 0 && ex[0] == 45 { ex.drop_first() } else { ex }) =~= s@.subrange(
        ds as int,
        s@.len() as int,
    ));
    if ds >= s.len() {
        return false;
    }
    check_mantissa_digits(s, ds)
}

/// Whether all characters from `start` on are digits.
fn check_mantissa_digits(s: &[u8], start: usize) -> (res: bool)
    requires
        start <= s@.len(),
    ensures
        res == (count_digits(s@.subrange(start as int, s@.len() as int)) == s@.len() - start),
{
    let mut i: usize = start;
    while i < s.len()
        invariant
            start <= i <= s@.len(),
            count_digits(s@.subrange(start as int, i as int)) == i - start,
        decreases s@.len() - i,
    {
        proof {
            assert(s@.subrange(start as int, i + 1).drop_last() =~= s@.subrange(
                start as int,
                i as int,
            ));
        }
        if !(48 <= s[i] && s[i] <= 57) {
            proof {
                lemma_digits_bounded(s@.subrange(start as int, s@.len() as int), (i - start) as int);
            }
            return false;
        }
        i = i + 1;
    }
    true
}

/// When a non-digit occurs, the digit count falls short of the length.
proof fn lemma_digits_bounded(s: Seq<u8>, k: int)
    requires
        0 <= k < s.len(),
        !is_digit(s[k]),
    ensures
        count_digits(s) < s.len(),
    decreases s.len(),
{
    lemma_counts_le(s.drop_last());
    lemma_digits_le(s.drop_last());
    if k < s.len() - 1 {
        lemma_digits_bounded(s.drop_last(), k);
    }
}

/// The digits of a sequence are no more than its length.
proof fn lemma_digits_le(s: Seq<u8>)
    ensures
        count_digits(s) <= s.len(),
    decreases s.len(),
{
    if s.len() > 0 {
        lemma_digits_le(s.drop_last());
    }
}

/// Each byte scanned before the end of a real number adds at least two characters,
/// so the scan ends within `REAL_MAX_BYTES` bytes.
proof fn lemma_scan_real_bound(bytes: Seq<u8>, i: int, acc: Seq<u8>)
    requires
        0 <= i,
        acc.len() >= 2 * i,
        acc.len() <= FLOAT_STACK_LEN,
    ensures
        scan_real(bytes, i, acc) matches Some((n, t)) ==> n <= REAL_MAX_BYTES && t.len()
            <= FLOAT_STACK_LEN && acc.len() <= t.len(),
    decreases bytes.len() - i,
{
    if 0 <= i < bytes.len() {
        let hi = (bytes[i] / 16) as u8;
        let lo = (bytes[i] % 16) as u8;
        if hi != END_OF_FLOAT_FLAG {
            if let Some(acc2) = push_nibble(acc, hi) {
                if lo != END_OF_FLOAT_FLAG {
                    if let Some(acc3) = push_nibble(acc2, lo) {
                        lemma_scan_real_bound(bytes, i + 1, acc3);
                    }
                }
            }
        }
    }
}

/// A scan ends within the scanned bytes.
pub proof fn lemma_scan_real_len(bytes: Seq<u8>, i: int, acc: Seq<u8>)
    ensures
        scan_real(bytes, i, acc) matches Some((n, t)) ==> n <= bytes.len(),
    decreases bytes.len() - i,
{
    if 0 <= i < bytes.len() {
        let hi = (bytes[i] / 16) as u8;
        let lo = (bytes[i] % 16) as u8;
        if hi != END_OF_FLOAT_FLAG {
            if let Some(acc2) = push_nibble(acc, hi) {
                if lo != END_OF_FLOAT_FLAG {
                    if let Some(acc3) = push_nibble(acc2, lo) {
                        lemma_scan_real_len(bytes, i + 1, acc3);
                    }
                }
            }
        }
    }
}

impl RealNumber {
    /// Parse a real operand.
    pub fn parse(r: &mut Reader) -> (res: Option<RealNumber>)
        ensures
            final(r).spec_data() == old(r).spec_data(),
            match spec_parse_real(old(r).spec_rest()) {
                Some((b, len)) => res matches Some(n) && n.spec_bytes_of() == b
                    && final(r).spec_offset() == old(r).spec_offset() + len,
                None => res is None,
            },
    {
        let ghost r0 = *r;
        let ghost rest = r0.spec_rest();
        proof {
            lemma_has_rest(r0, 1nat);
        }
        let b0 = r.read::<u8>()?;
        proof {
            lemma_reader_rest(r0, 1nat);
            lemma_reader_advance(r0, *r, 1nat);
        }
        if b0 != 30 {
            return None;
        }
        let ghost r1 = *r;
        let ghost body = rest.drop_first();
        assert(r1.spec_rest() =~= body);
        let mut text: Vec<u8> = Vec::new();
        let mut idx: usize = 0;
        let mut bytes: [u8; 33] = [0u8; 33];
        let mut n: usize = 0;
        proof {
            lemma_scan_real_bound(body, 0, Seq::empty());
        }
        loop
            invariant_except_break
                r.spec_data() == r0.spec_data(),
                r0.spec_data() == old(r).spec_data(),
                rest == old(r).spec_rest(),
                r.spec_offset() == r1.spec_offset() + n,
                r.spec_rest() == body.subrange(n as int, body.len() as int),
                r1.spec_rest() == body,
                rest == r0.spec_rest(),
                body == rest.drop_first(),
                rest.len() >= 1 && rest[0] == 30,
                idx == text@.len(),
                idx <= FLOAT_STACK_LEN,
                idx >= 2 * n,
                n <= body.len(),
                n <= 32,
                bytes@.subrange(0, n as int) == body.subrange(0, n as int),
                scan_real(body, 0, Seq::empty()) == scan_real(body, n as int, text@),
            ensures
                scan_real(body, 0, Seq::empty()) matches Some((m, t)) && m == n && t == text@
                    && n <= REAL_MAX_BYTES && n >= 1
                    && bytes@.subrange(0, n as int) == body.subrange(0, n as int),
                n <= body.len(),
                r.spec_offset() == r1.spec_offset() + n,
                r.spec_data() == r0.spec_data(),
            decreases body.len() - n,
        {
            let ghost rn = *r;
            proof {
                lemma_has_rest(rn, 1nat);
                if n >= body.len() {
                    assert(scan_real(body, n as int, text@) is None);
                }
            }
            let b1 = r.read::<u8>()?;
            proof {
                lemma_reader_rest(rn, 1nat);
                lemma_reader_advance(rn, *r, 1nat);
                assert(b1 == body[n as int]);
                lemma_scan_real_bound(body, n as int, text@);
                assert(r.spec_rest() =~= body.subrange(n + 1, body.len() as int));
            }
            if n >= 32 {
                // Impossible: each earlier byte added two characters.
                proof {
                    assert(idx >= 64);
                    let hi = (b1 / 16) as u8;
                    if hi != END_OF_FLOAT_FLAG {
                        assert(push_nibble(text@, hi) is None);
                    }
                }
            }
            bytes[n] = b1;
            let ghost prev_text = text@;
            proof {
                assert(bytes@.subrange(0, n + 1) =~= body.subrange(0, n + 1));
            }
            let nibble1 = b1 / 16;
            let nibble2 = b1 % 16;
            if nibble1 == END_OF_FLOAT_FLAG {
                n = n + 1;
                break;
            }
            match parse_float_nibble(nibble1, idx, &mut text) {
                Some(v) => idx = v,
                None => {
                    proof {
                        assert(nibble1 == (body[n as int] / 16) as u8);
                        assert(scan_real(body, n as int, prev_text) is None);
                    }
                    return None;
                },
            }
            if nibble2 == END_OF_FLOAT_FLAG {
                n = n + 1;
                break;
            }
            let ghost mid_text = text@;
            match parse_float_nibble(nibble2, idx, &mut text) {
                Some(v) => idx = v,
                None => {
                    proof {
                        assert(nibble1 == (body[n as int] / 16) as u8);
                        assert(nibble2 == (body[n as int] % 16) as u8);
                        assert(push_nibble(prev_text, nibble1) == Some(mid_text));
                        assert(scan_real(body, n as int, prev_text) is None);
                    }
                    return None;
                },
            }
            n = n + 1;
        }
        if !is_float_literal(text.as_slice()) {
            return None;
        }
        proof {
            lemma_reader_advance(r0, r1, 1nat);
            assert(rest.subrange(1, n as int + 1) =~= body.subrange(0, n as int));
        }
        Some(RealNumber { bytes, len: n })
    }
}

impl Writeable for RealNumber {
    open spec fn spec_bytes(&self) -> Seq<u8> {
        seq![30u8] + self.spec_bytes_of()
    }

    fn write(&self, w: &mut Writer) {
        proof {
            use_type_invariant(self);
        }
        w.push(30);
        let mut i: usize = 0;
        while i < self.len
            invariant
                1 <= self.len <= REAL_MAX_BYTES,
                i <= self.len,
                w@ == old(w)@ + seq![30u8] + self.bytes@.subrange(0, i as int),
            decreases self.len - i,
        {
            w.push(self.bytes[i]);
            i = i + 1;
            assert(w@ =~= old(w)@ + seq![30u8] + self.bytes@.subrange(0, i as int));
        }
        assert(w@ =~= old(w)@ + self.spec_bytes());
    }
}

/// The integer value of a number, when it has one that this library can compute exactly.
pub open spec fn spec_as_i32(n: NumberView) -> Option<i32> {
    match n {
        NumberView::Integer(v) => Some(v),
        NumberView::Fixed(v) => if v % 65536 == 0 {
            Some((v / 65536) as i32)
        } else {
            None
        },
        NumberView::Real(_) => None,
    }
}

impl Number {
    /// Parse a number in a DICT.
    pub fn parse_cff_number(r: &mut Reader) -> (res: Option<Number>)
        ensures
            final(r).spec_data() == old(r).spec_data(),
            match spec_parse_number(old(r).spec_rest(), false) {
                Some((n, len)) => res matches Some(m) && m@ == n && final(r).spec_offset()
                    == old(r).spec_offset() + len,
                None => res is None,
            },
    {
        Self::parse_number(r, false)
    }

    /// Parse a number in a charstring.
    pub fn parse_char_string_number(r: &mut Reader) -> (res: Option<Number>)
        ensures
            final(r).spec_data() == old(r).spec_data(),
            match spec_parse_number(old(r).spec_rest(), true) {
                Some((n, len)) => res matches Some(m) && m@ == n && final(r).spec_offset()
                    == old(r).spec_offset() + len,
                None => res is None,
            },
    {
        Self::parse_number(r, true)
    }

    fn parse_number(r: &mut Reader, charstring_num: bool) -> (res: Option<Number>)
        ensures
            final(r).spec_data() == old(r).spec_data(),
            match spec_parse_number(old(r).spec_rest(), charstring_num) {
                Some((n, len)) => res matches Some(m) && m@ == n && final(r).spec_offset()
                    == old(r).spec_offset() + len,
                None => res is None,
            },
    {
        proof {
            lemma_has_rest(*r, 1nat);
            if r.has(1nat) {
                lemma_reader_rest(*r, 1nat);
            }
        }
        let b0 = r.peak::<u8>()?;
        if b0 == 30 {
            let n = RealNumber::parse(r)?;
            Some(Number::Real(n))
        } else if b0 == 255 {
            if charstring_num {
                let n = FixedNumber::parse(r)?;
                Some(Number::Fixed(n))
            } else {
                None
            }
        } else {
            let n = IntegerNumber::parse(r)?;
            Some(Number::Integer(n))
        }
    }

    /// An integer number.
    pub fn from_i32(num: i32) -> (res: Self)
        ensures
            res@ == NumberView::Integer(num),
    {
        Number::Integer(IntegerNumber(num))
    }

    /// The real number 0.001, encoded as ".001".
    pub fn thousandth() -> (res: Self)
        ensures
            res@ == NumberView::Real(seq![0x0au8, 0x00u8, 0x1fu8]),
    {
        let mut bytes = [0u8; 33];
        bytes[0] = 0x0a;
        bytes[2] = 0x1f;
        let r = RealNumber { bytes, len: 3 };
        assert(r.spec_bytes_of() =~= seq![0x0au8, 0x00u8, 0x1fu8]);
        Number::Real(r)
    }

    /// The number zero.
    pub fn zero() -> (res: Self)
        ensures
            res@ == NumberView::Integer(0),
    {
        Number::Integer(IntegerNumber(0))
    }

    /// The number one.
    pub fn one() -> (res: Self)
        ensures
            res@ == NumberView::Integer(1),
    {
        Number::Integer(IntegerNumber(1))
    }

    /// The number as an integer, if it is an integer or a whole fixed-point number.
    pub fn as_i32(&self) -> (res: Option<i32>)
        ensures
            res == spec_as_i32(self@),
    {
        match self {
            Number::Integer(iv) => Some(iv.0),
            Number::Real(_) => None,
            Number::Fixed(fixn) => {
                if fixn.0 % 65536 == 0 {
                    Some(fixn.0 / 65536)
                } else {
                    None
                }
            },
        }
    }

    /// The number as an unsigned integer, if it is a non-negative integer.
    pub fn as_u32(&self) -> (res: Option<u32>)
        ensures
            res == match spec_as_i32(self@) {
                Some(v) => if v >= 0 {
                    Some(v as u32)
                } else {
                    None
                },
                None => None,
            },
    {
        match self.as_i32() {
            Some(v) => if v >= 0 {
                Some(v as u32)
            } else {
                None
            },
            None => None,
        }
    }
}

/// The encoding of a number operand.
pub open spec fn spec_number_bytes(n: NumberView) -> Seq<u8> {
    match n {
        NumberView::Real(b) => seq![30u8] + b,
        NumberView::Integer(v) => spec_int_bytes(v),
        NumberView::Fixed(v) => seq![255u8] + i32_bytes(v as int),
    }
}

/// The encoding of a sequence of number operands, one after the other.
pub open spec fn numbers_bytes(s: Seq<NumberView>) -> Seq<u8>
    decreases s.len(),
{
    if s.len() == 0 {
        Seq::empty()
    } else {
        numbers_bytes(s.drop_last()) + spec_number_bytes(s.last())
    }
}

/// Write a sequence of numbers.
pub fn write_numbers(w: &mut Writer, nums: &[Number])
    ensures
        final(w)@ == old(w)@ + numbers_bytes(nums@.map_values(|n: Number| n@)),
{
    let ghost all = nums@.map_values(|n: Number| n@);
    let mut i: usize = 0;
    while i < nums.len()
        invariant
            i <= nums@.len(),
            all == nums@.map_values(|n: Number| n@),
            w@ == old(w)@ + numbers_bytes(all.take(i as int)),
        decreases nums@.len() - i,
    {
        nums[i].write(w);
        proof {
            assert(all.take(i + 1).drop_last() =~= all.take(i as int));
            assert(all.take(i + 1).last() == nums@[i as int]@);
            assert(w@ =~= old(w)@ + numbers_bytes(all.take(i + 1)));
        }
        i = i + 1;
    }
    assert(all.take(i as int) =~= all);
}

impl Writeable for Number {
    open spec fn spec_bytes(&self) -> Seq<u8> {
        spec_number_bytes(self@)
    }

    fn write(&self, w: &mut Writer) {
        match self {
            Number::Real(real_num) => real_num.write(w),
            Number::Integer(int_num) => int_num.write(w),
            Number::Fixed(fixed_num) => fixed_num.write(w),
        }
    }
}

/// Writing a parsed real or fixed-point number gives back exactly the bytes it was parsed
/// from.
#[verifier::rlimit(40)]
pub proof fn lemma_non_integer_reencode(s: Seq<u8>, charstring: bool)
    ensures
        spec_parse_number(s, charstring) matches Some((n, len)) ==> (!(n is Integer) ==> len
            <= s.len() && spec_number_bytes(n) == s.subrange(0, len as int)),
{
    if let Some((n, len)) = spec_parse_number(s, charstring) {
        if s[0] == 30 {
            lemma_scan_real_len(s.drop_first(), 0, Seq::empty());
            assert(spec_number_bytes(n) =~= s.subrange(0, len as int));
        } else if s[0] == 255 {
            let v = to_i32(be_u32(s[1], s[2], s[3], s[4]));
            let u: int = if v < 0 { v + 0x1_0000_0000 } else { v };
            assert(u == be_u32(s[1], s[2], s[3], s[4]));
            assert(spec_number_bytes(n) =~= s.subrange(0, len as int));
        }
    }
}

/// A string identifier.
#[derive(Clone, Copy, PartialEq, Eq, Structural, Debug, Hash, PartialOrd, Ord)]
pub struct StringId(pub u16);

/// The number of standard strings, which have the SIDs below it.
pub const STANDARD_STRING_LEN: u16 = 391;

impl StringId {
    /// Whether the SID refers to a standard string.
    pub fn is_standard_string(&self) -> (res: bool)
        ensures
            res == (self.0 < STANDARD_STRING_LEN),
    {
        self.0 < STANDARD_STRING_LEN
    }
}

impl Readable for StringId {
    open spec fn spec_size() -> nat { 2 }

    open spec fn spec_parse(bytes: Seq<u8>) -> Option<StringId> {
        Some(StringId(be_u16(bytes[0], bytes[1]) as u16))
    }

    fn size() -> usize { 2 }

    fn read(r: &mut Reader) -> (res: Option<StringId>) {
        let v = r.read::<u16>()?;
        Some(StringId(v))
    }
}

impl Writeable for StringId {
    open spec fn spec_bytes(&self) -> Seq<u8> {
        u16_bytes(self.0 as int)
    }

    fn write(&self, w: &mut Writer) {
        self.0.write(w)
    }
}

/// A 24-bit unsigned number.
#[derive(Clone, Copy, PartialEq, Eq, Structural, Debug)]
pub struct U24(pub u32);

/// The largest 24-bit number.
pub const U24_MAX: u32 = 16777215;

/// The three big-endian bytes of the low 24 bits of a value.
pub open spec fn u24_bytes(v: int) -> Seq<u8> {
    seq![(v / 0x1_0000 % 256) as u8, (v / 256 % 256) as u8, (v % 256) as u8]
}

impl Readable for U24 {
    open spec fn spec_size() -> nat { 3 }

    open spec fn spec_parse(bytes: Seq<u8>) -> Option<U24> {
        Some(U24(((bytes[0] * 256 + bytes[1]) * 256 + bytes[2]) as u32))
    }

    fn size() -> usize { 3 }

    fn read(r: &mut Reader) -> (res: Option<U24>) {
        let b = r.read_bytes(3)?;
        Some(U24((b[0] as u32 * 256 + b[1] as u32) * 256 + b[2] as u32))
    }
}

impl Writeable for U24 {
    open spec fn spec_bytes(&self) -> Seq<u8> {
        u24_bytes(self.0 as int)
    }

    fn write(&self, w: &mut Writer) {
        let v = self.0;
        w.push((v / 0x1_0000 % 256) as u8);
        w.push((v / 256 % 256) as u8);
        w.push((v % 256) as u8);
        assert(w@ =~= old(w)@ + self.spec_bytes());
    }
}

/// Reading back a written 24-bit number gives its low 24 bits, so writing that again gives
/// the same bytes; a number up to `U24_MAX` comes back unchanged.
pub proof fn lemma_u24_roundtrip(v: U24)
    ensures
        v.spec_bytes().len() == 3,
        U24::spec_parse(v.spec_bytes()) == Some(U24((v.0 % 0x100_0000) as u32)),
        U24::spec_parse(v.spec_bytes()).unwrap().spec_bytes() == v.spec_bytes(),
        v.0 <= U24_MAX ==> U24::spec_parse(v.spec_bytes()) == Some(v),
{
    let b = v.spec_bytes();
    let x = v.0 as int;
    assert(((x / 0x1_0000 % 256) * 256 + x / 256 % 256) * 256 + x % 256 == x % 0x100_0000)
        by (nonlinear_arith) requires x >= 0;
    let y = x % 0x100_0000;
    assert(y / 0x1_0000 % 256 == x / 0x1_0000 % 256 && y / 256 % 256 == x / 256 % 256 && y
        % 256 == x % 256) by (nonlinear_arith) requires x >= 0, y == x % 0x100_0000;
}

/// Writing a string identifier and reading it back gives the same value.
pub proof fn lemma_sid_roundtrip(v: StringId)
    ensures
        v.spec_bytes().len() == 2,
        StringId::spec_parse(v.spec_bytes()) == Some(v),
{
    let b = v.spec_bytes();
    assert(be_u16(b[0], b[1]) == v.0);
}

/// Writing an integer operand and parsing it back, whatever follows it, gives the same
/// value and consumes exactly the written bytes; the encoding takes 1 byte for
/// -107..=107, 2 bytes up to 1131 in magnitude, 3 bytes within the 16-bit range and
/// 5 bytes otherwise.
pub proof fn lemma_integer_roundtrip(v: i32, rest: Seq<u8>)
    ensures
        spec_parse_integer(spec_int_bytes(v) + rest) == Some(
            (IntegerNumber(v), spec_int_bytes(v).len()),
        ),
        spec_int_bytes(v).len() == if -107 <= v <= 107 {
            1nat
        } else if -1131 <= v <= 1131 {
            2nat
        } else if -32768 <= v <= 32767 {
            3nat
        } else {
            5nat
        },
{
    let b = spec_int_bytes(v);
    let s = b + rest;
    assert(s.subrange(0, b.len() as int) =~= b);
    if -107 <= v <= 107 {
    } else if 108 <= v <= 1131 {
    } else if -1131 <= v <= -108 {
    } else if -32768 <= v <= 32767 {
        let u: int = if v < 0 { v + 0x10000 } else { v as int };
        assert(be_u16(b[1], b[2]) == u);
    } else {
        let u: int = if v < 0 { v + 0x1_0000_0000 } else { v as int };
        assert(be_u32(b[1], b[2], b[3], b[4]) == u);
    }
}

/// Writing an integer as five bytes and parsing it back gives the same value.
pub proof fn lemma_integer_5_bytes_roundtrip(v: i32, rest: Seq<u8>)
    ensures
        spec_parse_integer(spec_int_5_bytes(v) + rest) == Some((IntegerNumber(v), 5nat)),
        spec_int_5_bytes(v).len() == 5,
{
    let b = spec_int_5_bytes(v);
    let u: int = if v < 0 { v + 0x1_0000_0000 } else { v as int };
    assert(be_u32(b[1], b[2], b[3], b[4]) == u);
}

} // verus!
