//! Lists of glyph IDs as the command line gives them: `*` for all glyphs, or glyph IDs and
//! inclusive ranges `first-last`, separated by commas.
use vstd::prelude::*;

verus! {

/// The pieces of `s` between the separator bytes, as `str::split` gives them: there is
/// always at least one, possibly empty.
pub open spec fn split_on(s: Seq<u8>, sep: u8) -> Seq<Seq<u8>>
    decreases s.len(),
{
    if s.len() == 0 {
        seq![Seq::empty()]
    } else {
        let p = split_on(s.drop_last(), sep);
        if s.last() == sep {
            p.push(Seq::empty())
        } else {
            p.update(p.len() - 1, p.last().push(s.last()))
        }
    }
}

/// The value of decimal digits.
pub open spec fn decimal_value(d: Seq<u8>) -> int
    decreases d.len(),
{
    if d.len() == 0 {
        0
    } else {
        decimal_value(d.drop_last()) * 10 + (d.last() - 48)
    }
}

/// Whether all bytes are decimal digits.
pub open spec fn all_digits(d: Seq<u8>) -> bool {
    forall|i: int| 0 <= i < d.len() ==> 48 <= #[trigger] d[i] <= 57
}

/// A 16-bit number as `str::parse` reads it: decimal digits, possibly after a `+`, whose
/// value fits.
pub open spec fn parse_u16(s: Seq<u8>) -> Option<u16> {
    let d = if s.len() > 0 && s[0] == 43 { s.drop_first() } else { s };
    if d.len() == 0 || !all_digits(d) || decimal_value(d) > 65535 {
        None
    } else {
        Some(decimal_value(d) as u16)
    }
}

/// The glyphs `first..=last`.
pub open spec fn glyph_range(first: u16, last: u16) -> Seq<u16> {
    Seq::new(
        if last >= first { (last - first + 1) as nat } else { 0 },
        |i: int| (first + i) as u16,
    )
}

/// The glyphs of an element of the list: a range `first-last` (what follows a second `-`
/// is ignored) or a single glyph.
pub open spec fn parse_element(e: Seq<u8>) -> Option<Seq<u16>> {
    if e.contains(45) {
        let parts = split_on(e, 45);
        match (parse_u16(parts[0]), parse_u16(parts[1])) {
            (Some(a), Some(b)) => Some(glyph_range(a, b)),
            _ => None,
        }
    } else {
        match parse_u16(e) {
            Some(g) => Some(seq![g]),
            None => None,
        }
    }
}

/// The glyphs of the first `k` pieces, empty pieces skipped.
pub open spec fn parse_pieces(ps: Seq<Seq<u8>>, k: int) -> Option<Seq<u16>>
    decreases k,
{
    if k <= 0 {
        Some(Seq::empty())
    } else {
        match parse_pieces(ps, k - 1) {
            None => None,
            Some(v) => if ps[k - 1].len() == 0 {
                Some(v)
            } else {
                match parse_element(ps[k - 1]) {
                    Some(g) => Some(v + g),
                    None => None,
                }
            },
        }
    }
}

/// The glyphs of a list: all glyphs but the last one for `*`, else those of its elements in
/// order; `None` if an element is not a glyph or a range.
pub open spec fn spec_parse_gids(s: Seq<u8>) -> Option<Seq<u16>> {
    if s == seq![42u8] {
        Some(Seq::new(65535, |i: int| i as u16))
    } else {
        let ps = split_on(s, 44);
        parse_pieces(ps, ps.len() as int)
    }
}

/// Split bytes at a separator.
pub fn split(s: &[u8], sep: u8) -> (res: Vec<Vec<u8>>)
    ensures
        res@.map_values(|p: Vec<u8>| p@) == split_on(s@, sep),
{
    let mut pieces: Vec<Vec<u8>> = Vec::new();
    let mut cur: Vec<u8> = Vec::new();
    let mut i: usize = 0;
    while i < s.len()
        invariant
            i <= s@.len(),
            pieces@.map_values(|p: Vec<u8>| p@).push(cur@) == split_on(s@.take(i as int), sep),
        decreases s@.len() - i,
    {
        let ghost before = pieces@.map_values(|p: Vec<u8>| p@).push(cur@);
        assert(s@.take(i + 1).drop_last() =~= s@.take(i as int));
        if s[i] == sep {
            pieces.push(cur);
            cur = Vec::new();
            assert(pieces@.map_values(|p: Vec<u8>| p@).push(cur@) =~= before.push(Seq::empty()));
        } else {
            let ghost prefix = pieces@.map_values(|p: Vec<u8>| p@);
            cur.push(s[i]);
            assert(pieces@.map_values(|p: Vec<u8>| p@).push(cur@) =~= before.update(
                before.len() - 1,
                before.last().push(s@[i as int]),
            ));
        }
        i = i + 1;
    }
    assert(s@.take(i as int) =~= s@);
    let ghost before = pieces@.map_values(|p: Vec<u8>| p@);
    pieces.push(cur);
    assert(pieces@.map_values(|p: Vec<u8>| p@) =~= before.push(cur@));
    pieces
}

/// Parse a 16-bit number as `str::parse` does.
pub fn parse_number(s: &[u8]) -> (res: Option<u16>)
    ensures
        res == parse_u16(s@),
{
    let start: usize = if s.len() > 0 && s[0] == 43 { 1 } else { 0 };
    let ghost d = if s@.len() > 0 && s@[0] == 43 { s@.drop_first() } else { s@ };
    assert(d =~= s@.subrange(start as int, s@.len() as int));
    if start >= s.len() {
        return None;
    }
    let mut value: u32 = 0;
    let mut i: usize = start;
    while i < s.len()
        invariant
            start <= i <= s@.len(),
            d == s@.subrange(start as int, s@.len() as int),
            d == (if s@.len() > 0 && s@[0] == 43 { s@.drop_first() } else { s@ }),
            d.len() > 0,
            all_digits(d.take(i - start)),
            value == decimal_value(d.take(i - start)),
            value <= 65535,
        decreases s@.len() - i,
    {
        let c = s[i];
        assert(d.take(i + 1 - start).drop_last() =~= d.take(i - start));
        if c < 48 || c > 57 {
            assert(!all_digits(d)) by {
                assert(d[i - start] == c);
            }
            return None;
        }
        let next = value * 10 + (c - 48) as u32;
        if next > 65535 {
            proof {
                assert(all_digits(d.take(i + 1 - start))) by {
                    assert forall|j: int| 0 <= j < d.take(i + 1 - start).len() implies 48 <= #[trigger] d.take(i + 1 - start)[j] <= 57 by {
                        if j < i - start {
                            assert(d.take(i - start)[j] == d.take(i + 1 - start)[j]);
                        }
                    }
                }
                lemma_decimal_prefix(d, i + 1 - start);
            }
            return None;
        }
        value = next;
        i = i + 1;
        assert(all_digits(d.take(i - start))) by {
            assert forall|j: int| 0 <= j < d.take(i - start).len() implies 48 <= #[trigger] d.take(i - start)[j] <= 57 by {
                if j < i - 1 - start {
                    assert(d.take(i - 1 - start)[j] == d.take(i - start)[j]);
                }
            }
        }
    }
    assert(d.take(i - start) =~= d);
    Some(value as u16)
}

/// Digits after a prefix of digits only make the value larger.
proof fn lemma_decimal_prefix(d: Seq<u8>, k: int)
    requires
        0 <= k <= d.len(),
        all_digits(d.take(k)),
    ensures
        all_digits(d) ==> decimal_value(d) >= decimal_value(d.take(k)),
    decreases d.len() - k,
{
    if all_digits(d) {
        if k == d.len() {
            assert(d.take(k) =~= d);
        } else {
            assert(all_digits(d.take(k + 1)));
            lemma_decimal_prefix(d, k + 1);
            assert(d.take(k + 1).drop_last() =~= d.take(k));
            lemma_decimal_nonneg(d.take(k));
            let v = decimal_value(d.take(k));
            let c = d.take(k + 1).last();
            assert(48 <= c <= 57);
            assert(decimal_value(d.take(k + 1)) == v * 10 + (c - 48));
        }
    }
}

/// Digits have a non-negative value.
proof fn lemma_decimal_nonneg(d: Seq<u8>)
    requires
        all_digits(d),
    ensures
        decimal_value(d) >= 0,
    decreases d.len(),
{
    if d.len() > 0 {
        assert(all_digits(d.drop_last()));
        lemma_decimal_nonneg(d.drop_last());
    }
}

/// Whether bytes hold a byte.
fn has_byte(s: &[u8], b: u8) -> (res: bool)
    ensures
        res == s@.contains(b),
{
    let mut i: usize = 0;
    while i < s.len()
        invariant
            i <= s@.len(),
            forall|j: int| 0 <= j < i ==> s@[j] != b,
        decreases s@.len() - i,
    {
        if s[i] == b {
            assert(s@[i as int] == b);
            return true;
        }
        i = i + 1;
    }
    false
}

/// Add the glyphs `first..=last`.
fn push_range(v: &mut Vec<u16>, first: u16, last: u16)
    ensures
        final(v)@ == old(v)@ + glyph_range(first, last),
{
    if first > last {
        assert(glyph_range(first, last) =~= Seq::<u16>::empty());
        assert(v@ =~= old(v)@ + glyph_range(first, last));
        return;
    }
    let mut g: u32 = first as u32;
    while g <= last as u32
        invariant
            first <= g <= last as u32 + 1,
            first <= last,
            v@ == old(v)@ + glyph_range(first, last).take(g - first),
        decreases last as u32 + 1 - g,
    {
        v.push(g as u16);
        assert(v@ =~= old(v)@ + glyph_range(first, last).take(g + 1 - first));
        g = g + 1;
    }
    assert(glyph_range(first, last).take(g - first) =~= glyph_range(first, last));
}

/// The glyphs of an element of the list.
fn parse_element_exec(e: &[u8], v: &mut Vec<u16>) -> (res: bool)
    ensures
        match parse_element(e@) {
            Some(g) => res && final(v)@ == old(v)@ + g,
            None => !res,
        },
{
    if has_byte(e, 45) {
        let parts = split(e, 45);
        proof {
            lemma_split_len(e@, 45);
        }
        assert(parts@[0]@ == split_on(e@, 45)[0]);
        if parts.len() < 2 {
            return false;
        }
        assert(parts@[1]@ == split_on(e@, 45)[1]);
        let first = parse_number(parts[0].as_slice());
        let last = parse_number(parts[1].as_slice());
        match (first, last) {
            (Some(a), Some(b)) => {
                push_range(v, a, b);
                true
            },
            _ => false,
        }
    } else {
        match parse_number(e) {
            Some(g) => {
                v.push(g);
                true
            },
            None => false,
        }
    }
}

/// A separator splits bytes in at least two pieces.
proof fn lemma_split_len(s: Seq<u8>, sep: u8)
    ensures
        split_on(s, sep).len() >= 1,
        s.contains(sep) ==> split_on(s, sep).len() >= 2,
    decreases s.len(),
{
    if s.len() > 0 {
        lemma_split_len(s.drop_last(), sep);
        if s.contains(sep) && s.last() != sep {
            let i = choose|i: int| 0 <= i < s.len() && s[i] == sep;
            assert(s.drop_last()[i] == sep);
        }
    }
}

/// Parse a list of glyph IDs: `*` for all glyphs but the last one, or glyph IDs and
/// inclusive ranges `first-last` separated by commas; `None` if an element is neither.
pub fn parse_gids(gids: &[u8]) -> (res: Option<Vec<u16>>)
    ensures
        match spec_parse_gids(gids@) {
            Some(g) => res matches Some(v) && v@ == g,
            None => res is None,
        },
{
    if gids.len() == 1 && gids[0] == 42 {
        assert(gids@ =~= seq![42u8]);
        let mut all: Vec<u16> = Vec::new();
        let mut g: u32 = 0;
        while g < 65535
            invariant
                g <= 65535,
                all@ == Seq::new(g as nat, |i: int| i as u16),
            decreases 65535 - g,
        {
            all.push(g as u16);
            assert(all@ =~= Seq::new((g + 1) as nat, |i: int| i as u16));
            g = g + 1;
        }
        return Some(all);
    }
    assert(gids@ != seq![42u8]);
    let pieces = split(gids, 44);
    let ghost ps = split_on(gids@, 44);
    let mut res: Vec<u16> = Vec::new();
    let mut k: usize = 0;
    while k < pieces.len()
        invariant
            k <= pieces@.len(),
            gids@ != seq![42u8],
            ps == split_on(gids@, 44),
            pieces@.map_values(|p: Vec<u8>| p@) == ps,
            parse_pieces(ps, k as int) == Some(res@),
        decreases pieces@.len() - k,
    {
        assert(pieces@[k as int]@ == ps[k as int]);
        if pieces[k].len() > 0 {
            if !parse_element_exec(pieces[k].as_slice(), &mut res) {
                proof {
                    lemma_pieces_none(ps, k + 1, ps.len() as int);
                }
                return None;
            }
        }
        k = k + 1;
    }
    Some(res)
}

/// Once an element fails, the list fails.
proof fn lemma_pieces_none(ps: Seq<Seq<u8>>, k: int, m: int)
    requires
        0 <= k <= m,
        parse_pieces(ps, k) is None,
    ensures
        parse_pieces(ps, m) is None,
    decreases m - k,
{
    if k < m {
        lemma_pieces_none(ps, k, m - 1);
    }
}

/// Bytes without the separator form one piece.
proof fn lemma_split_none(x: Seq<u8>, sep: u8)
    requires
        !x.contains(sep),
    ensures
        split_on(x, sep) == seq![x],
    decreases x.len(),
{
    if x.len() > 0 {
        assert(!x.drop_last().contains(sep)) by {
            if x.drop_last().contains(sep) {
                let i = choose|i: int| 0 <= i < x.drop_last().len() && x.drop_last()[i] == sep;
                assert(x[i] == sep);
            }
        }
        lemma_split_none(x.drop_last(), sep);
        assert(x.last() != sep) by {
            assert(x[x.len() - 1] == x.last());
        }
        assert(x.drop_last().push(x.last()) =~= x);
        assert(seq![x.drop_last()].update(0, x.drop_last().push(x.last())) =~= seq![x]);
    } else {
        assert(x =~= Seq::<u8>::empty());
    }
}

/// Splitting always gives at least one piece.
proof fn lemma_split_nonempty(x: Seq<u8>, sep: u8)
    ensures
        split_on(x, sep).len() >= 1,
    decreases x.len(),
{
    if x.len() > 0 {
        lemma_split_nonempty(x.drop_last(), sep);
    }
}

/// Splitting bytes joined by the separator gives the pieces of each part.
proof fn lemma_split_join(a: Seq<u8>, b: Seq<u8>, sep: u8)
    ensures
        split_on(a + seq![sep] + b, sep) == split_on(a, sep) + split_on(b, sep),
    decreases b.len(),
{
    let s = a + seq![sep] + b;
    if b.len() == 0 {
        assert(s.drop_last() =~= a);
        assert(split_on(b, sep) == seq![Seq::<u8>::empty()]);
        assert(split_on(a, sep).push(Seq::empty()) =~= split_on(a, sep) + seq![Seq::<u8>::empty()]);
    } else {
        let b0 = b.drop_last();
        lemma_split_join(a, b0, sep);
        assert(s.drop_last() =~= a + seq![sep] + b0);
        assert(s.last() == b.last());
        let pa = split_on(a, sep);
        let pb = split_on(b0, sep);
        if b.last() == sep {
            assert((pa + pb).push(Seq::empty()) =~= pa + pb.push(Seq::empty()));
        } else {
            let p = pa + pb;
            lemma_split_nonempty(b0, sep);
            assert(p.update(p.len() - 1, p.last().push(b.last())) =~= pa + pb.update(
                pb.len() - 1,
                pb.last().push(b.last()),
            ));
        }
    }
}

/// Law: a range element `first-last` stands for every glyph from `first` up to and
/// including `last`, in order: exactly `last - first + 1` glyphs when `first <= last`, and
/// none otherwise. `x` and `y` are the two numbers as written, without a comma or a dash.
pub proof fn lemma_parse_range(x: Seq<u8>, y: Seq<u8>)
    requires
        !x.contains(44) && !x.contains(45),
        !y.contains(44) && !y.contains(45),
        parse_u16(x) is Some,
        parse_u16(y) is Some,
    ensures
        ({
            let a = parse_u16(x).unwrap() as int;
            let b = parse_u16(y).unwrap() as int;
            spec_parse_gids(x + seq![45u8] + y) matches Some(v) && {
                &&& v.len() == (if a <= b { b - a + 1 } else { 0 })
                &&& forall|i: int| 0 <= i < v.len() ==> #[trigger] v[i] == a + i
                &&& forall|g: u16| a <= g <= b ==> #[trigger] v.contains(g)
            }
        }),
{
    let s = x + seq![45u8] + y;
    let a = parse_u16(x).unwrap() as int;
    let b = parse_u16(y).unwrap() as int;
    assert(s[x.len() as int] == 45u8);
    assert(s != seq![42u8]);
    assert(!s.contains(44)) by {
        if s.contains(44) {
            let i = choose|i: int| 0 <= i < s.len() && s[i] == 44;
            if i < x.len() {
                assert(x[i] == 44);
            } else if i > x.len() {
                assert(y[i - x.len() - 1] == 44);
            }
        }
    }
    lemma_split_none(s, 44);
    lemma_split_join(x, y, 45);
    lemma_split_none(x, 45);
    lemma_split_none(y, 45);
    assert(s.contains(45));
    let ps = split_on(s, 44);
    assert(ps == seq![s]);
    assert(split_on(s, 45) == seq![x] + seq![y]);
    assert(split_on(s, 45)[0] == x && split_on(s, 45)[1] == y);
    assert(parse_pieces(ps, 0) == Some(Seq::<u16>::empty()));
    let v = glyph_range(a as u16, b as u16);
    assert(Seq::<u16>::empty() + v =~= v);
    assert forall|g: u16| a <= g <= b implies #[trigger] v.contains(g) by {
        assert(v[g - a] == g);
    }
}

/// The glyphs of pieces joined one after the other: those of the first pieces, then those
/// of the others; an error in either is an error.
proof fn lemma_pieces_join(p1: Seq<Seq<u8>>, p2: Seq<Seq<u8>>, k: int)
    requires
        0 <= k <= p2.len(),
    ensures
        parse_pieces(p1 + p2, p1.len() + k) == match (
            parse_pieces(p1, p1.len() as int),
            parse_pieces(p2, k),
        ) {
            (Some(v1), Some(v2)) => Some(v1 + v2),
            _ => None::<Seq<u16>>,
        },
    decreases k,
{
    if k == 0 {
        assert forall|m: int| 0 <= m <= p1.len() implies parse_pieces(p1 + p2, m)
            == parse_pieces(p1, m) by {
            lemma_pieces_prefix(p1, p2, m);
        }
        match parse_pieces(p1, p1.len() as int) {
            Some(v1) => {
                assert(v1 + Seq::<u16>::empty() =~= v1);
            },
            None => {},
        }
    } else {
        lemma_pieces_join(p1, p2, k - 1);
        assert((p1 + p2)[p1.len() + k - 1] == p2[k - 1]);
        match (parse_pieces(p1, p1.len() as int), parse_pieces(p2, k - 1)) {
            (Some(v1), Some(v2)) => {
                match parse_element(p2[k - 1]) {
                    Some(g) => {
                        assert(v1 + v2 + g =~= v1 + (v2 + g));
                    },
                    None => {},
                }
            },
            _ => {},
        }
    }
}

/// The glyphs of a prefix of the first pieces do not depend on what follows.
proof fn lemma_pieces_prefix(p1: Seq<Seq<u8>>, p2: Seq<Seq<u8>>, m: int)
    requires
        0 <= m <= p1.len(),
    ensures
        parse_pieces(p1 + p2, m) == parse_pieces(p1, m),
    decreases m,
{
    if m > 0 {
        lemma_pieces_prefix(p1, p2, m - 1);
        assert((p1 + p2)[m - 1] == p1[m - 1]);
    }
}

/// Law: a list joined from two lists by a comma stands for the glyphs of the first list
/// followed by those of the second, and is invalid when either is (neither being `*`).
pub proof fn lemma_parse_join(s1: Seq<u8>, s2: Seq<u8>)
    requires
        s1 != seq![42u8],
        s2 != seq![42u8],
    ensures
        spec_parse_gids(s1 + seq![44u8] + s2) == match (spec_parse_gids(s1), spec_parse_gids(s2)) {
            (Some(v1), Some(v2)) => Some(v1 + v2),
            _ => None::<Seq<u16>>,
        },
{
    let s = s1 + seq![44u8] + s2;
    assert(s.len() >= 1);
    assert(s != seq![42u8]) by {
        if s.len() == 1 {
            assert(s[0] == 44u8);
        }
    }
    lemma_split_join(s1, s2, 44);
    let p1 = split_on(s1, 44);
    let p2 = split_on(s2, 44);
    lemma_pieces_join(p1, p2, p2.len() as int);
}

} // verus!
