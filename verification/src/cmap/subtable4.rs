//! A format 4 subtable: segments of consecutive 16-bit character codes, each mapped to glyphs
//! by a delta or through an array of glyph IDs.
use super::{
    contains_glyph, is_sorted_perm, sorted_mappings, lemma_search_holds, lemma_search_sorted, new_glyph,
    segments_sorted, sort_mappings, spec_containing, spec_search,
};
use crate::face::{floor_log2, pow2i};
use crate::read::{be_u16, spec_parse_vector, to_i16, Reader};
use crate::remapper::GlyphRemapper;
use crate::write::{seq_bytes, u16_bytes, Writeable, Writer};
use crate::Error;
use vstd::prelude::*;

verus! {

/// A format 4 subtable.
pub struct Subtable4 {
    language: u16,
    seg_count: u16,
    end_codes: Vec<u16>,
    start_codes: Vec<u16>,
    id_deltas: Vec<i16>,
    id_range_offsets: Vec<u16>,
    glyph_id_array: Vec<u8>,
}

/// The contents of a format 4 subtable.
pub struct Subtable4View {
    /// The language.
    pub language: u16,
    /// The number of segments.
    pub seg_count: u16,
    /// The last character code of each segment.
    pub end_codes: Seq<u16>,
    /// The first character code of each segment.
    pub start_codes: Seq<u16>,
    /// The delta of each segment.
    pub id_deltas: Seq<i16>,
    /// The offset of each segment into the glyph ID array, from its own position.
    pub id_range_offsets: Seq<u16>,
    /// The range offsets and the glyph ID array that follows them, as bytes.
    pub glyph_id_array: Seq<u8>,
}

impl View for Subtable4 {
    type V = Subtable4View;

    closed spec fn view(&self) -> Subtable4View {
        Subtable4View {
            language: self.language,
            seg_count: self.seg_count,
            end_codes: self.end_codes@,
            start_codes: self.start_codes@,
            id_deltas: self.id_deltas@,
            id_range_offsets: self.id_range_offsets@,
            glyph_id_array: self.glyph_id_array@,
        }
    }
}

/// `n` big-endian 16-bit numbers at `at`.
pub open spec fn u16_seq(d: Seq<u8>, at: int, n: int) -> Seq<u16> {
    Seq::new(n as nat, |i: int| be_u16(d[at + 2 * i], d[at + 2 * i + 1]) as u16)
}

/// `n` big-endian signed 16-bit numbers at `at`.
pub open spec fn i16_seq(d: Seq<u8>, at: int, n: int) -> Seq<i16> {
    Seq::new(n as nat, |i: int| to_i16(be_u16(d[at + 2 * i], d[at + 2 * i + 1])) as i16)
}

/// The format 4 subtable at the start of `d`: format, length, language, twice the number of
/// segments (at least 2), three fields for binary searching, the end codes, a reserved pad,
/// the start codes, the deltas and the range offsets. The glyph ID array is what follows the
/// deltas, range offsets included.
pub open spec fn spec_parse4(d: Seq<u8>) -> Option<Subtable4View> {
    if d.len() < 8 {
        None
    } else {
        let x2 = be_u16(d[6], d[7]);
        let n = x2 / 2;
        if x2 < 2 || 16 + 8 * n > d.len() {
            None
        } else {
            Some(
                Subtable4View {
                    language: be_u16(d[4], d[5]) as u16,
                    seg_count: n as u16,
                    end_codes: u16_seq(d, 14, n),
                    start_codes: u16_seq(d, 16 + 2 * n, n),
                    id_deltas: i16_seq(d, 16 + 4 * n, n),
                    id_range_offsets: u16_seq(d, 16 + 6 * n, n),
                    glyph_id_array: d.subrange(16 + 6 * n, d.len() as int),
                },
            )
        }
    }
}

/// The start codes as numbers.
pub open spec fn starts_of(v: Subtable4View) -> Seq<int> {
    v.start_codes.map_values(|c: u16| c as int)
}

/// The end codes as numbers.
pub open spec fn ends_of(v: Subtable4View) -> Seq<int> {
    v.end_codes.map_values(|c: u16| c as int)
}

/// The signed 16-bit number that `x` wraps to.
pub open spec fn wrap_i16(x: int) -> int {
    (x + 32768) % 65536 - 32768
}

/// The glyph that segment `i` maps code point `cp` to: `cp` plus the delta if the segment has
/// no range offset; else the entry of the glyph ID array at the range offset (counted from
/// the offset's own position) plus the delta, with 0 meaning no glyph. A range offset of
/// 0xFFFF is invalid and maps nothing.
pub open spec fn segment_glyph(v: Subtable4View, i: int, cp: int) -> Option<u16> {
    let iro = v.id_range_offsets[i] as int;
    let delta = v.id_deltas[i] as int;
    if iro == 0 {
        Some(((cp + delta) % 65536) as u16)
    } else if iro == 0xFFFF {
        None
    } else {
        let d = (cp - v.start_codes[i]) * 2;
        if d > 65535 {
            None
        } else {
            let pos = ((i * 2) % 65536 + d + iro) % 65536;
            if pos + 2 > v.glyph_id_array.len() {
                None
            } else {
                let val = be_u16(v.glyph_id_array[pos], v.glyph_id_array[pos + 1]);
                if val == 0 {
                    None
                } else {
                    let g = wrap_i16(to_i16(val) + delta);
                    if g < 0 {
                        None
                    } else {
                        Some(g as u16)
                    }
                }
            }
        }
    }
}

/// The glyph of a code point: the segment that a binary search finds for it maps it.
pub open spec fn spec_glyph_index4(v: Subtable4View, cp: int) -> Option<u16> {
    if cp > 65535 {
        None
    } else {
        match spec_search(starts_of(v), ends_of(v), cp, 0, v.start_codes.len() as int, true) {
            Some(i) => segment_glyph(v, i, cp),
            None => None,
        }
    }
}

/// The code points `s..=e`.
pub open spec fn code_range(s: int, e: int) -> Seq<u32> {
    Seq::new(if e >= s { (e - s + 1) as nat } else { 0 }, |j: int| (s + j) as u32)
}

/// The code points of the segments from `i` on, up to the closing segment of 0xFFFF.
pub open spec fn codepoints_from(v: Subtable4View, i: int) -> Seq<u32>
    decreases v.start_codes.len() - i,
{
    if i < 0 || i >= v.start_codes.len() || i >= v.end_codes.len() || (v.start_codes[i] == 0xFFFF
        && v.end_codes[i] == 0xFFFF) {
        Seq::empty()
    } else {
        code_range(v.start_codes[i] as int, v.end_codes[i] as int) + codepoints_from(v, i + 1)
    }
}

/// Parsing 16-bit numbers one after the other gives them all.
proof fn lemma_parse_u16s(b: Seq<u8>, n: nat)
    requires
        b.len() >= 2 * n,
    ensures
        spec_parse_vector::<u16>(b, n) == Some(u16_seq(b, 0, n as int)),
    decreases n,
{
    if n > 0 {
        lemma_parse_u16s(b, (n - 1) as nat);
        let sub = b.subrange((n - 1) * 2, (n * 2) as int);
        assert(sub[0] == b[2 * (n - 1)]);
        assert(sub[1] == b[2 * (n - 1) + 1]);
        assert(u16_seq(b, 0, n - 1).push(be_u16(sub[0], sub[1]) as u16) =~= u16_seq(b, 0, n as int));
    }
}

/// Parsing signed 16-bit numbers one after the other gives them all.
proof fn lemma_parse_i16s(b: Seq<u8>, n: nat)
    requires
        b.len() >= 2 * n,
    ensures
        spec_parse_vector::<i16>(b, n) == Some(i16_seq(b, 0, n as int)),
    decreases n,
{
    if n > 0 {
        lemma_parse_i16s(b, (n - 1) as nat);
        let sub = b.subrange((n - 1) * 2, (n * 2) as int);
        assert(sub[0] == b[2 * (n - 1)]);
        assert(sub[1] == b[2 * (n - 1) + 1]);
        assert(i16_seq(b, 0, n - 1).push(to_i16(be_u16(sub[0], sub[1])) as i16) =~= i16_seq(
            b,
            0,
            n as int,
        ));
    }
}

/// Read `n` 16-bit numbers at the reader's offset, which has them.
fn read_u16s(r: &mut Reader, n: usize) -> (res: Vec<u16>)
    requires
        old(r).has((2 * n) as nat),
    ensures
        final(r).spec_data() == old(r).spec_data(),
        final(r).spec_offset() == old(r).spec_offset() + 2 * n,
        res@ == u16_seq(old(r).spec_data(), old(r).spec_offset(), n as int),
{
    let ghost b = r.peek_bytes((2 * n) as nat);
    let ghost d = r.spec_data();
    let ghost off = r.spec_offset();
    proof {
        assert(off >= 0) by {
            crate::read::lemma_has_rest(*r, 1);
        }
        assert(b.len() == 2 * n);
        lemma_parse_u16s(b, n as nat);
    }
    let v = r.read_vector::<u16>(n).unwrap();
    proof {
        assert forall|i: int| 0 <= i < n implies #[trigger] u16_seq(b, 0, n as int)[i] == u16_seq(d, off, n as int)[i] by {
            assert(b[2 * i] == d[off + 2 * i]);
            assert(b[2 * i + 1] == d[off + 2 * i + 1]);
        }
        assert(v@ =~= u16_seq(d, off, n as int));
    }
    v
}

/// Read `n` signed 16-bit numbers at the reader's offset, which has them.
fn read_i16s(r: &mut Reader, n: usize) -> (res: Vec<i16>)
    requires
        old(r).has((2 * n) as nat),
    ensures
        final(r).spec_data() == old(r).spec_data(),
        final(r).spec_offset() == old(r).spec_offset() + 2 * n,
        res@ == i16_seq(old(r).spec_data(), old(r).spec_offset(), n as int),
{
    let ghost b = r.peek_bytes((2 * n) as nat);
    let ghost d = r.spec_data();
    let ghost off = r.spec_offset();
    proof {
        assert(off >= 0) by {
            crate::read::lemma_has_rest(*r, 1);
        }
        assert(b.len() == 2 * n);
        lemma_parse_i16s(b, n as nat);
    }
    let v = r.read_vector::<i16>(n).unwrap();
    proof {
        assert forall|i: int| 0 <= i < n implies #[trigger] i16_seq(b, 0, n as int)[i] == i16_seq(d, off, n as int)[i] by {
            assert(b[2 * i] == d[off + 2 * i]);
            assert(b[2 * i + 1] == d[off + 2 * i + 1]);
        }
        assert(v@ =~= i16_seq(d, off, n as int));
    }
    v
}

/// A code point plus a delta, wrapping around in 16 bits.
fn add_delta(code_point: u16, delta: i16) -> (res: u16)
    ensures
        res == ((code_point + delta) % 65536) as u16,
{
    let g: i32 = (code_point as i32 + delta as i32 + 65536) % 65536;
    g as u16
}

/// The glyph of a glyph ID array entry with a delta: its value as a signed number plus the
/// delta, wrapping around in 16 bits; none if that is negative.
fn array_glyph(value: u16, delta: i16) -> (res: Option<u16>)
    ensures
        res == (if wrap_i16(to_i16(value as int) + delta) < 0 {
            None
        } else {
            Some(wrap_i16(to_i16(value as int) + delta) as u16)
        }),
{
    let signed: i32 = if value >= 32768 {
        value as i32 - 65536
    } else {
        value as i32
    };
    let glyph_id: i32 = (signed + delta as i32 + 32768 + 65536) % 65536 - 32768;
    if glyph_id < 0 {
        None
    } else {
        Some(glyph_id as u16)
    }
}

impl Subtable4 {
    /// Whether each segment has its four fields.
    pub open spec fn wf(&self) -> bool {
        &&& self@.end_codes.len() == self@.seg_count
        &&& self@.start_codes.len() == self@.seg_count
        &&& self@.id_deltas.len() == self@.seg_count
        &&& self@.id_range_offsets.len() == self@.seg_count
    }

    /// Parse the format 4 subtable at the start of `data`.
    pub fn parse(data: &[u8]) -> (res: Result<Subtable4, Error>)
        ensures
            match spec_parse4(data@) {
                Some(v) => res matches Ok(t) && t@ == v && t.wf(),
                None => res matches Err(e) && e == Error::MalformedFont,
            },
    {
        let ghost d = data@;
        if data.len() < 8 {
            return Err(Error::MalformedFont);
        }
        let mut r = Reader::new(data);
        r.skip_bytes(4);
        // The format and the length.
        let language = match r.read::<u16>() {
            Some(v) => v,
            None => return Err(Error::MalformedFont),
        };
        assert(r.spec_data().subrange(4, 6) =~= d.subrange(4, 6));
        let seg_count_x2 = match r.read::<u16>() {
            Some(v) => v,
            None => return Err(Error::MalformedFont),
        };
        assert(r.spec_data().subrange(6, 8) =~= d.subrange(6, 8));
        if seg_count_x2 < 2 {
            return Err(Error::MalformedFont);
        }
        let seg_count = seg_count_x2 / 2;
        let n = seg_count as usize;
        if 16 + 8 * n > data.len() {
            return Err(Error::MalformedFont);
        }
        // The search range, entry selector and range shift.
        r.skip_bytes(6);
        let end_codes = read_u16s(&mut r, n);
        // The reserved pad.
        r.skip_bytes(2);
        let start_codes = read_u16s(&mut r, n);
        let id_deltas = read_i16s(&mut r, n);
        let glyph_id_array = vstd::slice::slice_to_vec(r.tail().unwrap());
        let id_range_offsets = read_u16s(&mut r, n);
        let t = Subtable4 {
            language,
            seg_count,
            end_codes,
            start_codes,
            id_deltas,
            id_range_offsets,
            glyph_id_array,
        };
        proof {
            let v = spec_parse4(d).unwrap();
            assert(t@.end_codes =~= v.end_codes);
            assert(t@.start_codes =~= v.start_codes);
            assert(t@.id_deltas =~= v.id_deltas);
            assert(t@.id_range_offsets =~= v.id_range_offsets);
            assert(t@.glyph_id_array =~= v.glyph_id_array);
        }
        Ok(t)
    }

    /// The glyph that segment `index` maps the code point to.
    fn segment_glyph(&self, index: usize, code_point: u16) -> (res: Option<u16>)
        requires
            self.wf(),
            index < self@.seg_count,
            self@.start_codes[index as int] <= code_point,
        ensures
            res == segment_glyph(self@, index as int, code_point as int),
    {
        let start_value = self.start_codes[index];
        let id_range_offset = self.id_range_offsets[index];
        let id_delta = self.id_deltas[index];
        if id_range_offset == 0 {
            return Some(add_delta(code_point, id_delta));
        } else if id_range_offset == 0xFFFF {
            // Some malformed fonts have 0xFFFF as the last offset, which is invalid and
            // should be ignored.
            return None;
        }
        let delta: u32 = (code_point as u32 - start_value as u32) * 2;
        if delta > 65535 {
            return None;
        }
        let id_range_offset_pos: u32 = ((index * 2) % 65536) as u32;
        let pos = ((id_range_offset_pos + delta + id_range_offset as u32) % 65536) as usize;
        if pos + 2 > self.glyph_id_array.len() {
            return None;
        }
        let glyph_array_value: u16 = self.glyph_id_array[pos] as u16 * 256
            + self.glyph_id_array[pos + 1] as u16;
        // 0 indicates missing glyph.
        if glyph_array_value == 0 {
            return None;
        }
        array_glyph(glyph_array_value, id_delta)
    }

    /// Returns a glyph index for a code point.
    pub fn glyph_index(&self, code_point: u32) -> (res: Option<u16>)
        requires
            self.wf(),
        ensures
            res == spec_glyph_index4(self@, code_point as int),
    {
        // This subtable supports code points only in a u16 range.
        if code_point > 65535 {
            return None;
        }
        let cp = code_point as u16;
        assert(cp as int == code_point as int);
        let ghost starts = starts_of(self@);
        let ghost ends = ends_of(self@);
        let ghost len = self@.start_codes.len() as int;
        // A custom binary search.
        let mut start: usize = 0;
        let mut end: usize = self.start_codes.len();
        while end > start
            invariant
                self.wf(),
                code_point <= 65535,
                cp as int == code_point as int,
                start <= end <= self@.seg_count,
                starts == starts_of(self@),
                ends == ends_of(self@),
                len == self@.seg_count,
                spec_search(starts, ends, cp as int, start as int, end as int, true) == spec_search(
                    starts,
                    ends,
                    cp as int,
                    0,
                    len,
                    true,
                ),
            decreases end - start,
        {
            let index = start + (end - start) / 2;
            assert(index == (start + end) / 2);
            assert(ends[index as int] == self@.end_codes[index as int]);
            assert(starts[index as int] == self@.start_codes[index as int]);
            let end_value = self.end_codes[index];
            if end_value >= cp {
                let start_value = self.start_codes[index];
                if start_value > cp {
                    end = index;
                } else {
                    assert(starts.len() == len && ends.len() == len);
                    assert(spec_search(starts, ends, cp as int, start as int, end as int, true)
                        == Some(index as int));
                    assert(spec_search(starts, ends, cp as int, 0, self@.start_codes.len() as int, true)
                        == Some(index as int));
                    return self.segment_glyph(index, cp);
                }
            } else {
                start = index + 1;
            }
        }
        None
    }

    /// The code points that this table maps, segment by segment, up to the closing segment
    /// of 0xFFFF.
    pub fn codepoints(&self) -> (res: Vec<u32>)
        requires
            self.wf(),
        ensures
            res@ == codepoints_from(self@, 0),
    {
        let mut v: Vec<u32> = Vec::new();
        let mut i: usize = 0;
        while i < self.start_codes.len()
            invariant_except_break
                self.wf(),
                i <= self@.seg_count,
                v@ + codepoints_from(self@, i as int) == codepoints_from(self@, 0),
            ensures
                v@ == codepoints_from(self@, 0),
            decreases self@.seg_count - i,
        {
            let start = self.start_codes[i];
            let end = self.end_codes[i];
            // 0xFFFF is special and indicates the end of the codes.
            if start == end && start == 0xFFFF {
                assert(v@ + Seq::<u32>::empty() =~= v@);
                break;
            }
            let ghost before = v@;
            let mut c: u32 = start as u32;
            while c <= end as u32
                invariant
                    start <= c <= end as u32 + 1 || (start > end && c == start),
                    v@ == before + code_range(start as int, end as int).take(c - start),
                decreases end as u32 + 1 - c,
            {
                v.push(c);
                proof {
                    assert(v@ =~= before + code_range(start as int, end as int).take(c + 1 - start));
                }
                c = c + 1;
            }
            proof {
                assert(code_range(start as int, end as int).take(c - start) =~= code_range(
                    start as int,
                    end as int,
                ));
                assert(before + code_range(start as int, end as int) + codepoints_from(
                    self@,
                    i + 1,
                ) =~= before + codepoints_from(self@, i as int));
            }
            i = i + 1;
        }
        v
    }
}

/// The bytes of a format 4 subtable: format 4, the length, the language, twice the number of
/// segments, the search range, entry selector and range shift, the end codes, a zero pad,
/// the start codes, the deltas and the range offsets. The glyph ID array is not written.
pub open spec fn spec_write4(v: Subtable4View) -> Seq<u8> {
    let n = v.seg_count as int;
    let es = floor_log2(n);
    let sr = 2 * pow2i(es);
    u16_bytes(4) + u16_bytes(16 + 8 * n) + u16_bytes(v.language as int) + u16_bytes(2 * n)
        + u16_bytes(sr) + u16_bytes(es) + u16_bytes(2 * n - sr) + seq_bytes(v.end_codes)
        + u16_bytes(0) + seq_bytes(v.start_codes) + seq_bytes(v.id_deltas) + seq_bytes(
        v.id_range_offsets,
    )
}

/// The search range (twice the largest power of two at most `n`) and the entry selector
/// (its binary logarithm) for `n` segments.
fn search_params(n: u16) -> (res: (u16, u16))
    requires
        1 <= n <= 8189,
    ensures
        res.1 == floor_log2(n as int),
        res.0 == 2 * pow2i(floor_log2(n as int)),
        res.0 <= 2 * n,
{
    let mut es: u16 = 0;
    let mut m: u16 = n;
    let mut p: u16 = 1;
    while m > 1
        invariant
            1 <= m <= n,
            1 <= p,
            p * m <= n,
            n <= 8189,
            p == pow2i(es as int),
            floor_log2(n as int) == es + floor_log2(m as int),
            p >= es + 1,
        decreases m,
    {
        assert(p * (m / 2) * 2 <= p * m) by (nonlinear_arith)
            requires
                m >= 2,
                p >= 1,
        ;
        assert(p * 2 * (m / 2) == p * (m / 2) * 2) by (nonlinear_arith);
        assert(p * 2 <= 8189) by (nonlinear_arith)
            requires
                p * m <= 8189,
                m >= 2,
        ;
        m = m / 2;
        p = p * 2;
        es = es + 1;
    }
    assert(p <= n);
    (2 * p, es)
}

impl Subtable4 {
    /// Write the subtable.
    pub fn write(&self, w: &mut Writer)
        requires
            self.wf(),
            1 <= self@.seg_count <= 8189,
        ensures
            final(w)@ == old(w)@ + spec_write4(self@),
    {
        let n = self.seg_count;
        // (format + length + language + seg_count_x2 + search_range + entry_selector +
        // range_shift + reserved_pad) + seg_count * (end_code + start_code + id_delta +
        // id_range_offset)
        let length: u16 = 2 * 8 + 2 * n * 4;
        let seg_count_x2: u16 = 2 * n;
        let (search_range, entry_selector) = search_params(n);
        let range_shift: u16 = seg_count_x2 - search_range;
        4u16.write(w);
        length.write(w);
        self.language.write(w);
        seg_count_x2.write(w);
        search_range.write(w);
        entry_selector.write(w);
        range_shift.write(w);
        w.write_vector(self.end_codes.as_slice());
        0u16.write(w);
        w.write_vector(self.start_codes.as_slice());
        w.write_vector(self.id_deltas.as_slice());
        w.write_vector(self.id_range_offsets.as_slice());
        assert(w@ =~= old(w)@ + spec_write4(self@));
    }
}

/// The new mappings of the code points `cps`: in order, each code point whose glyph is
/// requested and has a new ID, with that ID.
pub open spec fn spec_mappings4(
    v: Subtable4View,
    cps: Seq<u32>,
    requested: Seq<u16>,
    mapper: GlyphRemapper,
) -> Seq<(u32, u16)>
    decreases cps.len(),
{
    if cps.len() == 0 {
        Seq::empty()
    } else {
        let prev = spec_mappings4(v, cps.drop_last(), requested, mapper);
        match new_glyph(spec_glyph_index4(v, cps.last() as int), requested, mapper) {
            Some(g) => prev.push((cps.last(), g)),
            None => prev,
        }
    }
}

/// The delta of a mapping: the glyph minus the code point, wrapped to 16 bits.
pub open spec fn mapping_delta(m: (u32, u16)) -> int {
    wrap_i16(m.1 - m.0)
}

/// The segments `(start, end, delta)` of mappings from `i` on, the current segment starting
/// at `cs` with delta `cd` and `cr` more code points: a mapping continues the segment when
/// its code point follows the segment and it has the same delta.
pub open spec fn segments_from(ms: Seq<(u32, u16)>, i: int, cs: int, cd: int, cr: int) -> Seq<
    (int, int, int),
>
    decreases ms.len() - i,
{
    if i < 0 || i >= ms.len() {
        seq![(cs, cs + cr, cd)]
    } else {
        let c = ms[i].0 as int;
        let d = mapping_delta(ms[i]);
        if c == cs + cr + 1 && d == cd {
            segments_from(ms, i + 1, cs, cd, cr + 1)
        } else {
            seq![(cs, cs + cr, cd)] + segments_from(ms, i + 1, c, d, 0)
        }
    }
}

/// The segments of sorted mappings, closed by the segment of 0xFFFF that ends the search.
pub open spec fn spec_segments4(ms: Seq<(u32, u16)>) -> Seq<(int, int, int)> {
    (if ms.len() == 0 {
        Seq::empty()
    } else {
        segments_from(ms, 1, ms[0].0 as int, mapping_delta(ms[0]), 0)
    }).push((0xFFFF, 0xFFFF, 1))
}

/// The new subtable with the given segments, mapped by their deltas alone.
pub open spec fn new_subtable4(language: u16, segs: Seq<(int, int, int)>) -> Subtable4View {
    Subtable4View {
        language,
        seg_count: segs.len() as u16,
        end_codes: segs.map_values(|t: (int, int, int)| t.1 as u16),
        start_codes: segs.map_values(|t: (int, int, int)| t.0 as u16),
        id_deltas: segs.map_values(|t: (int, int, int)| t.2 as i16),
        id_range_offsets: Seq::new(segs.len(), |i: int| 0u16),
        glyph_id_array: Seq::empty(),
    }
}

/// The segments as numbers.
pub open spec fn segs_view(s: Seq<(u16, u16, i16)>) -> Seq<(int, int, int)> {
    s.map_values(|t: (u16, u16, i16)| (t.0 as int, t.1 as int, t.2 as int))
}

/// The delta of a mapping.
fn delta_of(m: (u32, u16)) -> (res: i16)
    requires
        m.0 <= 65535,
    ensures
        res == mapping_delta(m),
{
    let d: i32 = m.1 as i32 - m.0 as i32;
    ((d + 32768 + 65536) % 65536 - 32768) as i16
}

/// The segments of sorted mappings of 16-bit code points.
fn build_segments(ms: &Vec<(u32, u16)>) -> (res: Vec<(u16, u16, i16)>)
    requires
        forall|i: int| 0 <= i < ms@.len() ==> (#[trigger] ms@[i]).0 <= 65535,
    ensures
        segs_view(res@) == spec_segments4(ms@),
{
    let mut segments: Vec<(u16, u16, i16)> = Vec::new();
    if ms.len() > 0 {
        let first = ms[0];
        let mut cur_start: u16 = first.0 as u16;
        let mut cur_delta: i16 = delta_of(first);
        let mut cur_range: u16 = 0;
        let ghost all = segments_from(ms@, 1, first.0 as int, mapping_delta(first), 0);
        let mut i: usize = 1;
        while i < ms.len()
            invariant
                1 <= i <= ms@.len(),
                forall|k: int| 0 <= k < ms@.len() ==> (#[trigger] ms@[k]).0 <= 65535,
                cur_start + cur_range <= 65535,
                segs_view(segments@) + segments_from(
                    ms@,
                    i as int,
                    cur_start as int,
                    cur_delta as int,
                    cur_range as int,
                ) == all,
            decreases ms@.len() - i,
        {
            let next = ms[i];
            let d = delta_of(next);
            let ghost before = segs_view(segments@);
            if next.0 == cur_start as u32 + cur_range as u32 + 1 && d == cur_delta {
                cur_range = cur_range + 1;
            } else {
                segments.push((cur_start, cur_start + cur_range, cur_delta));
                proof {
                    assert(segs_view(segments@) =~= before.push(
                        (cur_start as int, cur_start + cur_range, cur_delta as int),
                    ));
                    assert(before.push((cur_start as int, cur_start + cur_range, cur_delta as int))
                        + segments_from(ms@, i + 1, next.0 as int, d as int, 0) =~= before + (seq![
                        (cur_start as int, cur_start + cur_range, cur_delta as int),
                    ] + segments_from(ms@, i + 1, next.0 as int, d as int, 0)));
                }
                cur_start = next.0 as u16;
                cur_delta = d;
                cur_range = 0;
            }
            i = i + 1;
        }
        // The last segment.
        let ghost before = segs_view(segments@);
        segments.push((cur_start, cur_start + cur_range, cur_delta));
        proof {
            assert(segs_view(segments@) =~= before + segments_from(
                ms@,
                i as int,
                cur_start as int,
                cur_delta as int,
                cur_range as int,
            ));
        }
    }
    // For the search to terminate, the final start code and end code values must be 0xFFFF.
    // This segment need not contain any valid mappings, but it must be present.
    let ghost before = segs_view(segments@);
    segments.push((0xFFFF, 0xFFFF, 1));
    proof {
        assert(segs_view(segments@) =~= before.push((0xFFFF, 0xFFFF, 1)));
    }
    segments
}

/// The subsetted format 4 subtable at the start of `d`: the code points whose glyphs are
/// requested, mapped to their new glyph IDs and sorted, in segments of consecutive code
/// points with the same delta. Fails with an overflow when there are more segments than the
/// subtable's 16-bit length can hold.
pub open spec fn spec_subset4(d: Seq<u8>, requested: Seq<u16>, mapper: GlyphRemapper) -> Result<
    Seq<u8>,
    Error,
> {
    match spec_parse4(d) {
        None => Err(Error::MalformedFont),
        Some(v) => {
            let segs = spec_segments4(
                sorted_mappings(spec_mappings4(v, codepoints_from(v, 0), requested, mapper)),
            );
            if segs.len() > 8189 {
                Err(Error::OverflowError)
            } else {
                Ok(spec_write4(new_subtable4(v.language, segs)))
            }
        },
    }
}

/// The subsetted format 4 subtable at the start of `data`: the code points whose glyphs are
/// requested, mapped to their new glyph IDs, in segments of consecutive code points with the
/// same delta. Fails with an overflow when there are more segments than the subtable's
/// 16-bit length can hold.
pub fn subset_subtable4(data: &[u8], requested: &[u16], mapper: &GlyphRemapper) -> (res: Result<
    Vec<u8>,
    Error,
>)
    requires
        mapper.wf(),
    ensures
        match spec_subset4(data@, requested@, *mapper) {
            Ok(b) => res matches Ok(v) && v@ == b,
            Err(e) => res matches Err(e2) && e2 == e,
        },
{
    let subtable = Subtable4::parse(data)?;
    let all_codepoints = subtable.codepoints();
    let ghost v = subtable@;
    let ghost cps = all_codepoints@;
    // The pairs of a code point and its new glyph.
    let mut mappings: Vec<(u32, u16)> = Vec::new();
    let mut k: usize = 0;
    while k < all_codepoints.len()
        invariant
            subtable.wf(),
            mapper.wf(),
            v == subtable@,
            cps == all_codepoints@,
            k <= cps.len(),
            mappings@ == spec_mappings4(v, cps.take(k as int), requested@, *mapper),
            forall|i: int| 0 <= i < mappings@.len() ==> (#[trigger] mappings@[i]).0 <= 65535,
        decreases cps.len() - k,
    {
        let c = all_codepoints[k];
        assert(cps.take(k + 1).drop_last() =~= cps.take(k as int));
        let g = subtable.glyph_index(c);
        if let Some(g) = g {
            if contains_glyph(requested, g) {
                if let Some(new_g) = mapper.get(g) {
                    mappings.push((c, new_g));
                }
            }
        }
        proof {
            if g is Some {
                assert(c <= 65535);
            }
        }
        k = k + 1;
    }
    assert(cps.take(k as int) =~= cps);
    let sorted = sort_mappings(&mappings);
    proof {
        assert forall|i: int| 0 <= i < sorted@.len() implies (#[trigger] sorted@[i]).0 <= 65535 by {
            let x = sorted@[i];
            assert(sorted@.contains(x));
            vstd::seq_lib::to_multiset_contains(sorted@, x);
            vstd::seq_lib::to_multiset_contains(mappings@, x);
            assert(mappings@.contains(x));
        }
    }
    let segments = build_segments(&sorted);
    if segments.len() > 8189 {
        return Err(Error::OverflowError);
    }
    let n = segments.len();
    let mut end_codes: Vec<u16> = Vec::new();
    let mut start_codes: Vec<u16> = Vec::new();
    let mut id_deltas: Vec<i16> = Vec::new();
    let mut id_range_offsets: Vec<u16> = Vec::new();
    let ghost segs = segs_view(segments@);
    let mut i: usize = 0;
    while i < n
        invariant
            i <= n,
            n == segments@.len(),
            segs == segs_view(segments@),
            end_codes@ == segs.take(i as int).map_values(|t: (int, int, int)| t.1 as u16),
            start_codes@ == segs.take(i as int).map_values(|t: (int, int, int)| t.0 as u16),
            id_deltas@ == segs.take(i as int).map_values(|t: (int, int, int)| t.2 as i16),
            id_range_offsets@ == Seq::new(i as nat, |j: int| 0u16),
        decreases n - i,
    {
        let (s0, e0, d0) = segments[i];
        end_codes.push(e0);
        start_codes.push(s0);
        id_deltas.push(d0);
        id_range_offsets.push(0);
        proof {
            assert(end_codes@ =~= segs.take(i + 1).map_values(|t: (int, int, int)| t.1 as u16));
            assert(start_codes@ =~= segs.take(i + 1).map_values(|t: (int, int, int)| t.0 as u16));
            assert(id_deltas@ =~= segs.take(i + 1).map_values(|t: (int, int, int)| t.2 as i16));
            assert(id_range_offsets@ =~= Seq::new((i + 1) as nat, |j: int| 0u16));
        }
        i = i + 1;
    }
    assert(segs.take(n as int) =~= segs);
    let new_subtable = Subtable4 {
        language: subtable.language,
        seg_count: n as u16,
        end_codes,
        start_codes,
        id_deltas,
        id_range_offsets,
        glyph_id_array: Vec::new(),
    };
    assert(new_subtable@ =~= new_subtable4(v.language, segs));
    let mut w = Writer::new();
    new_subtable.write(&mut w);
    Ok(w.finish())
}

/// In a subtable whose segments are sorted and do not overlap, the glyph of a code point is
/// what the segment that holds it maps it to, and there is none if no segment holds it.
pub proof fn lemma_glyph_index4_sorted(v: Subtable4View, cp: int)
    requires
        segments_sorted(starts_of(v), ends_of(v)),
        0 <= cp <= 65535,
    ensures
        spec_glyph_index4(v, cp) == match spec_containing(starts_of(v), ends_of(v), cp) {
            Some(i) => segment_glyph(v, i, cp),
            None => None,
        },
{
    lemma_search_sorted(starts_of(v), ends_of(v), cp, true);
}

/// A code point that gets a glyph lies in the segment that maps it.
pub proof fn lemma_glyph_index4_holds(v: Subtable4View, cp: int)
    ensures
        spec_glyph_index4(v, cp) is Some ==> exists|i: int|
            super::holds(starts_of(v), ends_of(v), i, cp) && spec_glyph_index4(v, cp)
                == segment_glyph(v, i, cp),
{
    lemma_search_holds(starts_of(v), ends_of(v), cp, 0, v.start_codes.len() as int, true);
}

/// Mappings whose code points increase strictly and stay below 0xFFFF.
pub open spec fn codes_increasing(ms: Seq<(u32, u16)>) -> bool {
    &&& forall|a: int, b: int| 0 <= a < b < ms.len() ==> #[trigger] ms[a].0 < #[trigger] ms[b].0
    &&& forall|a: int| 0 <= a < ms.len() ==> #[trigger] ms[a].0 < 0xFFFF
}

/// Whether a segment holds a code point.
pub open spec fn seg_holds(t: (int, int, int), x: int) -> bool {
    t.0 <= x <= t.1
}

/// Segments in ascending order that do not overlap.
pub open spec fn segs_sorted(r: Seq<(int, int, int)>) -> bool {
    &&& forall|k: int| 0 <= k < r.len() ==> #[trigger] r[k].0 <= r[k].1
    &&& forall|a: int, b: int| 0 <= a < b < r.len() ==> #[trigger] r[a].1 < #[trigger] r[b].0
}

/// A code point plus a delta wrapped to 16 bits gives back the glyph the delta was made of.
proof fn lemma_delta_maps(c: int, g: int)
    requires
        0 <= g < 65536,
    ensures
        (c + wrap_i16(g - c)) % 65536 == g,
        -32768 <= wrap_i16(g - c) <= 32767,
{
    let y = (g - c + 32768) % 65536;
    let q = (g - c + 32768) / 65536;
    assert(g - c + 32768 == 65536 * q + y);
    assert(c + wrap_i16(g - c) == g - 65536 * q);
    vstd::arithmetic::div_mod::lemma_mod_multiples_vanish(-q, g, 65536);
    vstd::arithmetic::div_mod::lemma_small_mod(g as nat, 65536);
}

/// The segments of mappings from `i` on, the current one starting at `cs` with delta `cd`
/// and ending at the code point of mapping `i - 1`: they are sorted, start at `cs` with
/// `cd`, lie below 0xFFFF, map each later mapping by its delta, and hold no code point but
/// those of the current segment and of the later mappings.
proof fn lemma_segments_from(ms: Seq<(u32, u16)>, i: int, cs: int, cd: int, cr: int)
    requires
        codes_increasing(ms),
        1 <= i <= ms.len(),
        0 <= cr,
        0 <= cs,
        ms[i - 1].0 == cs + cr,
    ensures
        ({
            let r = segments_from(ms, i, cs, cd, cr);
            &&& r.len() >= 1
            &&& r[0].0 == cs && r[0].2 == cd && r[0].1 >= cs + cr
            &&& segs_sorted(r)
            &&& forall|k: int| 0 <= k < r.len() ==> cs <= #[trigger] r[k].0 && r[k].1 < 0xFFFF
            &&& forall|j: int|
                i <= j < ms.len() ==> exists|k: int|
                    0 <= k < r.len() && r[k].0 <= ms[j].0 <= r[k].1 && r[k].2 == mapping_delta(
                        #[trigger] ms[j],
                    )
            &&& forall|k: int, x: int|
                0 <= k < r.len() && #[trigger] seg_holds(r[k], x) ==> (cs <= x <= cs + cr || exists|j: int|
                    i <= j < ms.len() && ms[j].0 == x) && (k == 0 || x > cs + cr)
        }),
    decreases ms.len() - i,
{
    if i < ms.len() {
        let c = ms[i].0 as int;
        let d = mapping_delta(ms[i]);
        assert(c > cs + cr);
        if c == cs + cr + 1 && d == cd {
            lemma_segments_from(ms, i + 1, cs, cd, cr + 1);
            let r = segments_from(ms, i + 1, cs, cd, cr + 1);
            assert forall|j: int| i <= j < ms.len() implies exists|k: int|
                0 <= k < r.len() && r[k].0 <= ms[j].0 <= r[k].1 && r[k].2 == mapping_delta(
                    #[trigger] ms[j],
                ) by {
                if j == i {
                    assert(r[0].0 <= ms[j].0 <= r[0].1 && r[0].2 == mapping_delta(ms[j]));
                }
            }
            assert forall|k: int, x: int|
                0 <= k < r.len() && #[trigger] seg_holds(r[k], x) implies (cs <= x <= cs + cr || exists|
                j: int,
            | i <= j < ms.len() && ms[j].0 == x) && (k == 0 || x > cs + cr) by {
                if x == cs + cr + 1 {
                    assert(ms[i].0 == x);
                }
            }
        } else {
            lemma_segments_from(ms, i + 1, c, d, 0);
            let rest = segments_from(ms, i + 1, c, d, 0);
            let head = seq![(cs, cs + cr, cd)];
            let r = head + rest;
            assert(segments_from(ms, i, cs, cd, cr) == r);
            assert(ms[i].0 < 0xFFFF);
            assert forall|a: int, b: int| 0 <= a < b < r.len() implies #[trigger] r[a].1 < #[trigger] r[b].0 by {
                if a == 0 {
                    assert(r[b] == rest[b - 1]);
                } else {
                    assert(r[a] == rest[a - 1] && r[b] == rest[b - 1]);
                }
            }
            assert forall|k: int| 0 <= k < r.len() implies #[trigger] r[k].0 <= r[k].1 by {
                if k > 0 {
                    assert(r[k] == rest[k - 1]);
                }
            }
            assert forall|k: int| 0 <= k < r.len() implies cs <= #[trigger] r[k].0 && r[k].1 < 0xFFFF by {
                if k > 0 {
                    assert(r[k] == rest[k - 1]);
                }
            }
            assert forall|j: int| i <= j < ms.len() implies exists|k: int|
                0 <= k < r.len() && r[k].0 <= ms[j].0 <= r[k].1 && r[k].2 == mapping_delta(
                    #[trigger] ms[j],
                ) by {
                if j == i {
                    assert(r[1] == rest[0]);
                    assert(r[1].0 <= ms[j].0 <= r[1].1 && r[1].2 == mapping_delta(ms[j]));
                } else {
                    let k = choose|k: int|
                        0 <= k < rest.len() && rest[k].0 <= ms[j].0 <= rest[k].1 && rest[k].2
                            == mapping_delta(#[trigger] ms[j]);
                    assert(r[k + 1] == rest[k]);
                }
            }
            assert forall|k: int, x: int|
                0 <= k < r.len() && #[trigger] seg_holds(r[k], x) implies (cs <= x <= cs + cr || exists|
                j: int,
            | i <= j < ms.len() && ms[j].0 == x) && (k == 0 || x > cs + cr) by {
                if k > 0 {
                    assert(r[k] == rest[k - 1]);
                    if c <= x <= c {
                        assert(ms[i].0 == x);
                    } else {
                        let j = choose|j: int| i + 1 <= j < ms.len() && ms[j].0 == x;
                    }
                }
            }
        }
    } else {
        let r = segments_from(ms, i, cs, cd, cr);
        assert(r == seq![(cs, cs + cr, cd)]);
        assert(ms[i - 1].0 < 0xFFFF);
    }
}

/// Law: the subsetted format 4 subtable gives back the mappings it was made of. For
/// mappings with increasing code points below 0xFFFF, the subtable written from their
/// segments maps each code point below 0xFFFF to the glyph of its mapping, and maps code
/// points without a mapping to no glyph.
pub proof fn lemma_segments4_map(ms: Seq<(u32, u16)>, language: u16, c: int)
    requires
        codes_increasing(ms),
        0 <= c < 0xFFFF,
    ensures
        spec_glyph_index4(new_subtable4(language, spec_segments4(ms)), c) == (if exists|k: int|
            0 <= k < ms.len() && ms[k].0 == c {
            Some(ms[choose|k: int| 0 <= k < ms.len() && ms[k].0 == c].1)
        } else {
            None
        }),
        well_formed4(new_subtable4(language, spec_segments4(ms))),
{
    let segs = spec_segments4(ms);
    let v = new_subtable4(language, segs);
    let body = if ms.len() == 0 {
        Seq::<(int, int, int)>::empty()
    } else {
        segments_from(ms, 1, ms[0].0 as int, mapping_delta(ms[0]), 0)
    };
    assert(segs == body.push((0xFFFF, 0xFFFF, 1)));
    if ms.len() > 0 {
        lemma_segments_from(ms, 1, ms[0].0 as int, mapping_delta(ms[0]), 0);
        assert(ms[0].0 < 0xFFFF);
    }
    // The segments are sorted, all below the closing one.
    assert(segs_sorted(segs)) by {
        assert forall|a: int, b: int| 0 <= a < b < segs.len() implies #[trigger] segs[a].1 < #[trigger] segs[b].0 by {
            assert(segs[a] == body[a]);
            if b == segs.len() - 1 {
                assert(segs[b] == (0xFFFFint, 0xFFFFint, 1int));
                assert(ms[0].0 <= body[a].0);
                assert(body[a].1 < 0xFFFF);
            } else {
                assert(segs[b] == body[b]);
            }
        }
        assert forall|k: int| 0 <= k < segs.len() implies #[trigger] segs[k].0 <= segs[k].1 by {
            if k < segs.len() - 1 {
                assert(segs[k] == body[k]);
            }
        }
    }
    assert forall|k: int| 0 <= k < segs.len() implies 0 <= #[trigger] segs[k].0 <= segs[k].1 <= 0xFFFF
        && -32768 <= segs[k].2 <= 32767 by {
        if k < segs.len() - 1 {
            assert(segs[k] == body[k]);
            assert(seg_holds(body[k], body[k].0));
            if k == 0 {
                lemma_delta_maps(ms[0].0 as int, ms[0].1 as int);
            } else {
                let j = choose|j: int| 1 <= j < ms.len() && ms[j].0 == body[k].0;
                lemma_delta_maps(ms[j].0 as int, ms[j].1 as int);
                lemma_segment_delta(ms, body, k, j);
            }
        }
    }
    let starts = starts_of(v);
    let ends = ends_of(v);
    assert forall|k: int| 0 <= k < segs.len() implies #[trigger] starts[k] == segs[k].0 && ends[k]
        == segs[k].1 && v.id_deltas[k] as int == segs[k].2 && v.id_range_offsets[k] == 0 by {
        assert(0 <= segs[k].0 <= segs[k].1 <= 0xFFFF && -32768 <= segs[k].2 <= 32767);
        assert(v.start_codes[k] == segs[k].0 as u16);
        assert(v.end_codes[k] == segs[k].1 as u16);
        assert(v.id_deltas[k] == segs[k].2 as i16);
    }
    assert(segments_sorted(starts, ends)) by {
        assert forall|a: int, b: int| 0 <= a < b < starts.len() implies #[trigger] ends[a] < #[trigger] starts[b] by {
            assert(starts[a] == segs[a].0);
            assert(starts[b] == segs[b].0);
            assert(segs[a].1 < segs[b].0);
        }
        assert forall|a: int| 0 <= a < starts.len() implies starts[a] <= ends[a] by {
            assert(starts[a] == segs[a].0);
        }
    }
    lemma_glyph_index4_sorted(v, c);
    if exists|k: int| 0 <= k < ms.len() && ms[k].0 == c {
        let k = choose|k: int| 0 <= k < ms.len() && ms[k].0 == c;
        // The segment that holds the code point, with the mapping's delta.
        let kk = if k == 0 {
            0int
        } else {
            choose|kk: int|
                0 <= kk < body.len() && body[kk].0 <= ms[k].0 <= body[kk].1 && body[kk].2
                    == mapping_delta(ms[k])
        };
        assert(0 <= kk < body.len() && body[kk].0 <= c <= body[kk].1 && body[kk].2 == mapping_delta(ms[k]));
        assert(segs[kk] == body[kk]);
        assert(super::holds(starts, ends, kk, c));
        let h = choose|h: int| super::holds(starts, ends, h, c);
        super::lemma_holds_unique(starts, ends, c, h, kk);
        lemma_delta_maps(c, ms[k].1 as int);
        assert(segment_glyph(v, kk, c) == Some(ms[k].1));
    } else {
        assert forall|h: int| !super::holds(starts, ends, h, c) by {
            if super::holds(starts, ends, h, c) {
                if h == segs.len() - 1 {
                    assert(segs[h] == (0xFFFFint, 0xFFFFint, 1int));
                } else {
                    assert(segs[h] == body[h]);
                    assert(seg_holds(body[h], c));
                    if h == 0 {
                        assert(ms[0].0 == c);
                    } else {
                        let j = choose|j: int| 1 <= j < ms.len() && ms[j].0 == c;
                    }
                }
            }
        }
    }
}

/// The delta of a segment is that of the mappings it starts with.
proof fn lemma_segment_delta(ms: Seq<(u32, u16)>, body: Seq<(int, int, int)>, k: int, j: int)
    requires
        codes_increasing(ms),
        ms.len() >= 1,
        body == segments_from(ms, 1, ms[0].0 as int, mapping_delta(ms[0]), 0),
        0 < k < body.len(),
        1 <= j < ms.len(),
        ms[j].0 == body[k].0,
    ensures
        body[k].2 == mapping_delta(ms[j]),
{
    lemma_segments_from(ms, 1, ms[0].0 as int, mapping_delta(ms[0]), 0);
    let kk = choose|kk: int|
        0 <= kk < body.len() && body[kk].0 <= ms[j].0 <= body[kk].1 && body[kk].2 == mapping_delta(
            #[trigger] ms[j],
        );
    assert(segs_sorted(body));
    if kk < k {
        assert(body[kk].1 < body[k].0);
    } else if kk > k {
        assert(body[k].1 < body[kk].0);
        assert(body[k].0 <= body[k].1);
    }
}

/// A well-formed subtable: its segments are sorted and do not overlap, and the last one is
/// the closing segment of 0xFFFF alone.
pub open spec fn well_formed4(v: Subtable4View) -> bool {
    &&& v.start_codes.len() >= 1
    &&& segments_sorted(starts_of(v), ends_of(v))
    &&& v.start_codes.last() == 0xFFFF
    &&& v.end_codes.last() == 0xFFFF
}

/// In a well-formed subtable, the code points of the segments from `i` on increase, lie at
/// or after segment `i` and below 0xFFFF, and are those that the segments before the closing
/// one hold.
proof fn lemma_codepoints4(v: Subtable4View, i: int)
    requires
        well_formed4(v),
        0 <= i < v.start_codes.len(),
    ensures
        ({
            let cps = codepoints_from(v, i);
            let n = v.start_codes.len() as int;
            &&& forall|a: int, b: int| 0 <= a < b < cps.len() ==> #[trigger] cps[a] < #[trigger] cps[b]
            &&& forall|a: int| 0 <= a < cps.len() ==> v.start_codes[i] <= #[trigger] cps[a] < 0xFFFF
            &&& forall|c: int|
                #![trigger cps.contains(c as u32)]
                0 <= c <= 0xFFFF ==> (cps.contains(c as u32) <==> exists|j: int|
                    i <= j < n - 1 && #[trigger] super::holds(starts_of(v), ends_of(v), j, c))
        }),
    decreases v.start_codes.len() - i,
{
    let n = v.start_codes.len() as int;
    let starts = starts_of(v);
    let ends = ends_of(v);
    assert(starts[n - 1] == 0xFFFF && ends[n - 1] == 0xFFFF);
    assert(starts[i] == v.start_codes[i] && ends[i] == v.end_codes[i]);
    let cps = codepoints_from(v, i);
    if i == n - 1 {
        assert(cps =~= Seq::<u32>::empty());
        assert forall|c: int|
            #![trigger cps.contains(c as u32)]
            0 <= c <= 0xFFFF implies (cps.contains(c as u32) <==> exists|j: int|
            i <= j < n - 1 && super::holds(starts, ends, j, c)) by {}
    } else {
        assert(ends[i] < starts[n - 1]);
        let s0 = v.start_codes[i] as int;
        let e0 = v.end_codes[i] as int;
        let r = code_range(s0, e0);
        lemma_codepoints4(v, i + 1);
        let rest = codepoints_from(v, i + 1);
        assert(cps == r + rest);
        assert(starts[i + 1] == v.start_codes[i + 1]);
        assert(ends[i] < starts[i + 1]);
        assert forall|a: int, b: int| 0 <= a < b < cps.len() implies #[trigger] cps[a] < #[trigger] cps[b] by {
            if b < r.len() {
            } else if a < r.len() {
                assert(rest[b - r.len()] >= v.start_codes[i + 1]);
            } else {
                assert(cps[a] == rest[a - r.len()] && cps[b] == rest[b - r.len()]);
            }
        }
        assert forall|a: int| 0 <= a < cps.len() implies v.start_codes[i] <= #[trigger] cps[a] < 0xFFFF by {
            if a >= r.len() {
                assert(cps[a] == rest[a - r.len()]);
                assert(starts[i] <= starts[i + 1]);
            }
        }
        assert forall|c: int|
            #![trigger cps.contains(c as u32)]
            0 <= c <= 0xFFFF implies (cps.contains(c as u32) <==> exists|j: int|
                i <= j < n - 1 && super::holds(starts, ends, j, c)) by {
            if cps.contains(c as u32) {
                let a = choose|a: int| 0 <= a < cps.len() && cps[a] == c as u32;
                if a < r.len() {
                    assert(super::holds(starts, ends, i, c));
                } else {
                    assert(rest[a - r.len()] == c as u32);
                    assert(rest.contains(c as u32));
                }
            }
            if exists|j: int| i <= j < n - 1 && super::holds(starts, ends, j, c) {
                let j = choose|j: int| i <= j < n - 1 && super::holds(starts, ends, j, c);
                if j == i {
                    assert(cps[c - s0] == c as u32);
                } else {
                    assert(rest.contains(c as u32));
                    let a = choose|a: int| 0 <= a < rest.len() && rest[a] == c as u32;
                    assert(cps[r.len() + a] == c as u32);
                }
            }
        }
    }
}

/// The new mappings of increasing code points: their code points are among them and
/// increase, each maps to the new glyph of its old glyph, and every code point whose old
/// glyph has a new one has a mapping.
proof fn lemma_mappings4(v: Subtable4View, cps: Seq<u32>, requested: Seq<u16>, mapper: GlyphRemapper)
    requires
        forall|a: int, b: int| 0 <= a < b < cps.len() ==> #[trigger] cps[a] < #[trigger] cps[b],
    ensures
        ({
            let ms = spec_mappings4(v, cps, requested, mapper);
            &&& forall|k: int| 0 <= k < ms.len() ==> cps.contains(#[trigger] ms[k].0)
            &&& forall|a: int, b: int| 0 <= a < b < ms.len() ==> #[trigger] ms[a].0 < #[trigger] ms[b].0
            &&& forall|k: int|
                0 <= k < ms.len() ==> new_glyph(
                    spec_glyph_index4(v, #[trigger] ms[k].0 as int),
                    requested,
                    mapper,
                ) == Some(ms[k].1)
            &&& forall|a: int|
                0 <= a < cps.len() && new_glyph(
                    spec_glyph_index4(v, #[trigger] cps[a] as int),
                    requested,
                    mapper,
                ) is Some ==> exists|k: int| 0 <= k < ms.len() && ms[k].0 == cps[a]
        }),
    decreases cps.len(),
{
    if cps.len() > 0 {
        let init = cps.drop_last();
        let x = cps.last();
        lemma_mappings4(v, init, requested, mapper);
        let prev = spec_mappings4(v, init, requested, mapper);
        let ms = spec_mappings4(v, cps, requested, mapper);
        assert forall|k: int| 0 <= k < prev.len() implies #[trigger] prev[k].0 < x by {
            let a = choose|a: int| 0 <= a < init.len() && init[a] == prev[k].0;
            assert(cps[a] < cps[cps.len() - 1]);
        }
        assert forall|k: int| 0 <= k < ms.len() implies cps.contains(#[trigger] ms[k].0) by {
            if k < prev.len() {
                assert(ms[k] == prev[k]);
                let a = choose|a: int| 0 <= a < init.len() && init[a] == prev[k].0;
                assert(cps[a] == prev[k].0);
            } else {
                assert(cps[cps.len() - 1] == ms[k].0);
            }
        }
        assert forall|a: int, b: int| 0 <= a < b < ms.len() implies #[trigger] ms[a].0 < #[trigger] ms[b].0 by {
            assert(ms[a] == prev[a]);
            if b < prev.len() {
                assert(ms[b] == prev[b]);
            }
        }
        assert forall|k: int|
            0 <= k < ms.len() implies new_glyph(
                spec_glyph_index4(v, #[trigger] ms[k].0 as int),
                requested,
                mapper,
            ) == Some(ms[k].1) by {
            if k < prev.len() {
                assert(ms[k] == prev[k]);
            }
        }
        assert forall|a: int|
            0 <= a < cps.len() && new_glyph(
                spec_glyph_index4(v, #[trigger] cps[a] as int),
                requested,
                mapper,
            ) is Some implies exists|k: int| 0 <= k < ms.len() && ms[k].0 == cps[a] by {
            if a < init.len() {
                assert(init[a] == cps[a]);
                let k = choose|k: int| 0 <= k < prev.len() && prev[k].0 == init[a];
                assert(ms[k] == prev[k]);
            } else {
                assert(ms[ms.len() - 1].0 == x);
            }
        }
    }
}

/// Mappings whose code points increase are their own sorted order.
proof fn lemma_sorted_already(ms: Seq<(u32, u16)>)
    requires
        forall|a: int, b: int| 0 <= a < b < ms.len() ==> #[trigger] ms[a].0 < #[trigger] ms[b].0,
    ensures
        sorted_mappings(ms) == ms,
{
    assert(super::pairs_sorted(ms)) by {
        assert forall|a: int, b: int| 0 <= a < b < ms.len() implies super::pair_le(ms[a], ms[b]) by {
            assert(ms[a].0 < ms[b].0);
        }
    }
    assert(is_sorted_perm(ms, ms));
    let s = sorted_mappings(ms);
    assert(is_sorted_perm(s, ms));
    super::lemma_sorted_perm_unique(s, ms);
}

/// Law: subsetting a well-formed format 4 subtable keeps its mapping, filtered and
/// renumbered. Each code point below 0xFFFF maps, in the new subtable, to the new ID of the
/// glyph it mapped to in the old one, if that glyph is requested and has a new ID; otherwise
/// to no glyph.
pub proof fn lemma_subset4_maps(
    v: Subtable4View,
    requested: Seq<u16>,
    mapper: GlyphRemapper,
    c: int,
)
    requires
        well_formed4(v),
        0 <= c < 0xFFFF,
    ensures
        spec_glyph_index4(
            new_subtable4(
                v.language,
                spec_segments4(
                    sorted_mappings(spec_mappings4(v, codepoints_from(v, 0), requested, mapper)),
                ),
            ),
            c,
        ) == new_glyph(spec_glyph_index4(v, c), requested, mapper),
        well_formed4(
            new_subtable4(
                v.language,
                spec_segments4(
                    sorted_mappings(spec_mappings4(v, codepoints_from(v, 0), requested, mapper)),
                ),
            ),
        ),
{
    let cps = codepoints_from(v, 0);
    let ms = spec_mappings4(v, cps, requested, mapper);
    let n = v.start_codes.len() as int;
    lemma_codepoints4(v, 0);
    lemma_mappings4(v, cps, requested, mapper);
    lemma_sorted_already(ms);
    assert(codes_increasing(ms)) by {
        assert forall|a: int| 0 <= a < ms.len() implies #[trigger] ms[a].0 < 0xFFFF by {
            assert(cps.contains(ms[a].0));
            let q = choose|q: int| 0 <= q < cps.len() && cps[q] == ms[a].0;
            assert(cps[q] < 0xFFFF);
        }
    }
    lemma_segments4_map(ms, v.language, c);
    if exists|k: int| 0 <= k < ms.len() && ms[k].0 == c {
        let k = choose|k: int| 0 <= k < ms.len() && ms[k].0 == c;
        assert(new_glyph(spec_glyph_index4(v, ms[k].0 as int), requested, mapper) == Some(ms[k].1));
    } else {
        assert(cps.contains(c as u32) <==> exists|j: int|
            0 <= j < n - 1 && super::holds(starts_of(v), ends_of(v), j, c));
        if cps.contains(c as u32) {
            let a = choose|a: int| 0 <= a < cps.len() && cps[a] == c as u32;
            if new_glyph(spec_glyph_index4(v, cps[a] as int), requested, mapper) is Some {
                let k = choose|k: int| 0 <= k < ms.len() && ms[k].0 == cps[a];
                assert(ms[k].0 == c);
            }
        } else {
            lemma_glyph_index4_sorted(v, c);
            assert forall|j: int| !super::holds(starts_of(v), ends_of(v), j, c) by {
                if j == n - 1 {
                    assert(starts_of(v)[n - 1] == 0xFFFF);
                }
            }
        }
    }
}

/// Written 16-bit numbers read back: two bytes each, in order.
proof fn lemma_u16s_bytes(s: Seq<u16>)
    ensures
        seq_bytes(s).len() == 2 * s.len(),
        forall|i: int|
            0 <= i < s.len() ==> be_u16(#[trigger] seq_bytes(s)[2 * i], seq_bytes(s)[2 * i + 1])
                == s[i],
    decreases s.len(),
{
    if s.len() > 0 {
        let init = s.drop_last();
        lemma_u16s_bytes(init);
        let b = seq_bytes(s);
        let x = s.last();
        assert(b == seq_bytes(init) + u16_bytes(x as int));
        assert forall|i: int| 0 <= i < s.len() implies be_u16(#[trigger] b[2 * i], b[2 * i + 1]) == s[i] by {
            if i < init.len() {
                assert(b[2 * i] == seq_bytes(init)[2 * i]);
                assert(b[2 * i + 1] == seq_bytes(init)[2 * i + 1]);
                assert(s[i] == init[i]);
            }
        }
    }
}

/// Written signed 16-bit numbers read back: two bytes each, in order.
proof fn lemma_i16s_bytes(s: Seq<i16>)
    ensures
        seq_bytes(s).len() == 2 * s.len(),
        forall|i: int|
            0 <= i < s.len() ==> to_i16(be_u16(#[trigger] seq_bytes(s)[2 * i], seq_bytes(s)[2 * i + 1]))
                == s[i],
    decreases s.len(),
{
    if s.len() > 0 {
        let init = s.drop_last();
        lemma_i16s_bytes(init);
        let b = seq_bytes(s);
        let x = s.last();
        assert(b == seq_bytes(init) + u16_bytes(if x < 0 { x + 0x10000 } else { x as int }));
        assert forall|i: int|
            0 <= i < s.len() implies to_i16(be_u16(#[trigger] b[2 * i], b[2 * i + 1])) == s[i] by {
            if i < init.len() {
                assert(b[2 * i] == seq_bytes(init)[2 * i]);
                assert(b[2 * i + 1] == seq_bytes(init)[2 * i + 1]);
                assert(s[i] == init[i]);
            }
        }
    }
}

/// Parsing a written subtable with the given segments gives them back, with no range
/// offsets, so it maps every code point as the written one does.
proof fn lemma_write4_reads_back(language: u16, segs: Seq<(int, int, int)>)
    requires
        1 <= segs.len() <= 8189,
    ensures
        ({
            let w = new_subtable4(language, segs);
            spec_parse4(spec_write4(w)) matches Some(p) && {
                &&& p.start_codes == w.start_codes
                &&& p.end_codes == w.end_codes
                &&& p.id_deltas == w.id_deltas
                &&& p.id_range_offsets == w.id_range_offsets
                &&& forall|c: int| #[trigger] spec_glyph_index4(p, c) == spec_glyph_index4(w, c)
            }
        }),
{
    let w = new_subtable4(language, segs);
    let n = segs.len() as int;
    let d = spec_write4(w);
    lemma_u16s_bytes(w.end_codes);
    lemma_u16s_bytes(w.start_codes);
    lemma_i16s_bytes(w.id_deltas);
    lemma_u16s_bytes(w.id_range_offsets);
    let es = floor_log2(n);
    let sr = 2 * pow2i(es);
    let hd = u16_bytes(4) + u16_bytes(16 + 8 * n) + u16_bytes(language as int) + u16_bytes(2 * n)
        + u16_bytes(sr) + u16_bytes(es) + u16_bytes(2 * n - sr);
    let eb = seq_bytes(w.end_codes);
    let sb = seq_bytes(w.start_codes);
    let db = seq_bytes(w.id_deltas);
    let rb = seq_bytes(w.id_range_offsets);
    assert(d == hd + eb + u16_bytes(0) + sb + db + rb);
    assert(hd.len() == 14);
    assert(d.len() == 16 + 8 * n);
    assert(d[6] == u16_bytes(2 * n)[0] && d[7] == u16_bytes(2 * n)[1]);
    assert(be_u16(d[6], d[7]) == 2 * n);
    assert(d[4] == u16_bytes(language as int)[0] && d[5] == u16_bytes(language as int)[1]);
    let p = spec_parse4(d).unwrap();
    assert(p.end_codes =~= w.end_codes) by {
        assert forall|i: int| 0 <= i < n implies p.end_codes[i] == w.end_codes[i] by {
            assert(d[14 + 2 * i] == eb[2 * i] && d[14 + 2 * i + 1] == eb[2 * i + 1]);
        }
    }
    assert(p.start_codes =~= w.start_codes) by {
        assert forall|i: int| 0 <= i < n implies p.start_codes[i] == w.start_codes[i] by {
            assert(d[16 + 2 * n + 2 * i] == sb[2 * i] && d[16 + 2 * n + 2 * i + 1] == sb[2 * i + 1]);
        }
    }
    assert(p.id_deltas =~= w.id_deltas) by {
        assert forall|i: int| 0 <= i < n implies p.id_deltas[i] == w.id_deltas[i] by {
            assert(d[16 + 4 * n + 2 * i] == db[2 * i] && d[16 + 4 * n + 2 * i + 1] == db[2 * i + 1]);
        }
    }
    assert(p.id_range_offsets =~= w.id_range_offsets) by {
        assert forall|i: int| 0 <= i < n implies p.id_range_offsets[i] == w.id_range_offsets[i] by {
            assert(d[16 + 6 * n + 2 * i] == rb[2 * i] && d[16 + 6 * n + 2 * i + 1] == rb[2 * i + 1]);
        }
    }
    assert(starts_of(p) =~= starts_of(w));
    assert(ends_of(p) =~= ends_of(w));
    assert forall|c: int| #[trigger] spec_glyph_index4(p, c) == spec_glyph_index4(w, c) by {
        if c <= 65535 {
            match spec_search(starts_of(w), ends_of(w), c, 0, n, true) {
                Some(i) => {
                    lemma_search_holds(starts_of(w), ends_of(w), c, 0, n, true);
                    assert(w.id_range_offsets[i] == 0u16);
                },
                None => {},
            }
        }
    }
}

/// Law: the bytes of a subsetted well-formed format 4 subtable read back as a subtable that
/// keeps the old mapping, filtered and renumbered: each code point below 0xFFFF maps to the
/// new ID of the glyph it mapped to before, if that glyph is requested and has a new ID, and
/// to no glyph otherwise. The new subtable has no range offsets, and it ends with the
/// closing segment of 0xFFFF.
pub proof fn lemma_subset4_reads_back(d: Seq<u8>, requested: Seq<u16>, mapper: GlyphRemapper)
    requires
        spec_parse4(d) matches Some(v) && well_formed4(v),
        spec_subset4(d, requested, mapper) is Ok,
    ensures
        spec_parse4(spec_subset4(d, requested, mapper).unwrap()) matches Some(p) && {
            &&& forall|c: int|
                0 <= c < 0xFFFF ==> #[trigger] spec_glyph_index4(p, c) == new_glyph(
                    spec_glyph_index4(spec_parse4(d).unwrap(), c),
                    requested,
                    mapper,
                )
            &&& forall|i: int| 0 <= i < p.id_range_offsets.len() ==> #[trigger] p.id_range_offsets[i] == 0
            &&& well_formed4(p)
        },
{
    let v = spec_parse4(d).unwrap();
    let segs = spec_segments4(
        sorted_mappings(spec_mappings4(v, codepoints_from(v, 0), requested, mapper)),
    );
    let w = new_subtable4(v.language, segs);
    lemma_write4_reads_back(v.language, segs);
    let p = spec_parse4(spec_write4(w)).unwrap();
    assert forall|c: int|
        0 <= c < 0xFFFF implies #[trigger] spec_glyph_index4(p, c) == new_glyph(
            spec_glyph_index4(v, c),
            requested,
            mapper,
        ) by {
        lemma_subset4_maps(v, requested, mapper, c);
        assert(spec_glyph_index4(p, c) == spec_glyph_index4(w, c));
    }
    lemma_subset4_maps(v, requested, mapper, 0);
    assert(starts_of(p) =~= starts_of(w));
    assert(ends_of(p) =~= ends_of(w));
}

} // verus!
