//! A format 12 subtable: groups of consecutive 32-bit character codes mapped to consecutive
//! glyphs.
use super::subtable4::{code_range, seg_holds, segs_sorted};
use super::{
    contains_glyph, is_sorted_perm, sorted_mappings, lemma_search_holds, lemma_search_sorted, new_glyph,
    segments_sorted, sort_mappings, spec_containing, spec_search,
};
use crate::read::{be_u32, spec_parse_vector, Readable, Reader};
use crate::remapper::GlyphRemapper;
use crate::write::{seq_bytes, u16_bytes, u32_bytes, Writeable, Writer};
use crate::Error;
use vstd::prelude::*;

verus! {

/// A group of consecutive character codes mapped to consecutive glyphs.
#[derive(Clone, Copy, Debug)]
pub struct SequentialMapGroupRecord {
    /// The first character code.
    pub start_char_code: u32,
    /// The last character code.
    pub end_char_code: u32,
    /// The glyph of the first character code.
    pub start_glyph_id: u32,
}

impl Readable for SequentialMapGroupRecord {
    open spec fn spec_size() -> nat { 12 }

    open spec fn spec_parse(bytes: Seq<u8>) -> Option<SequentialMapGroupRecord> {
        Some(
            SequentialMapGroupRecord {
                start_char_code: be_u32(bytes[0], bytes[1], bytes[2], bytes[3]) as u32,
                end_char_code: be_u32(bytes[4], bytes[5], bytes[6], bytes[7]) as u32,
                start_glyph_id: be_u32(bytes[8], bytes[9], bytes[10], bytes[11]) as u32,
            },
        )
    }

    fn size() -> usize { 12 }

    fn read(r: &mut Reader) -> (res: Option<SequentialMapGroupRecord>) {
        proof {
            crate::read::lemma_has_rest(*r, 12nat);
        }
        let b = r.read_bytes(12)?;
        Some(
            SequentialMapGroupRecord {
                start_char_code: ((b[0] as u32 * 256 + b[1] as u32) * 256 + b[2] as u32) * 256
                    + b[3] as u32,
                end_char_code: ((b[4] as u32 * 256 + b[5] as u32) * 256 + b[6] as u32) * 256
                    + b[7] as u32,
                start_glyph_id: ((b[8] as u32 * 256 + b[9] as u32) * 256 + b[10] as u32) * 256
                    + b[11] as u32,
            },
        )
    }
}

impl Writeable for SequentialMapGroupRecord {
    open spec fn spec_bytes(&self) -> Seq<u8> {
        u32_bytes(self.start_char_code as int) + u32_bytes(self.end_char_code as int) + u32_bytes(
            self.start_glyph_id as int,
        )
    }

    fn write(&self, w: &mut Writer) {
        self.start_char_code.write(w);
        self.end_char_code.write(w);
        self.start_glyph_id.write(w);
        assert(w@ =~= old(w)@ + self.spec_bytes());
    }
}

/// A format 12 subtable.
pub struct Subtable12 {
    language: u32,
    groups: Vec<SequentialMapGroupRecord>,
}

/// The contents of a format 12 subtable.
pub struct Subtable12View {
    /// The language.
    pub language: u32,
    /// The groups.
    pub groups: Seq<SequentialMapGroupRecord>,
}

impl View for Subtable12 {
    type V = Subtable12View;

    closed spec fn view(&self) -> Subtable12View {
        Subtable12View { language: self.language, groups: self.groups@ }
    }
}

/// The group at `at`.
pub open spec fn group_at(d: Seq<u8>, at: int) -> SequentialMapGroupRecord {
    SequentialMapGroupRecord::spec_parse(d.subrange(at, at + 12)).unwrap()
}

/// The format 12 subtable at the start of `d`: format, reserved, length, language, the
/// number of groups and the groups.
pub open spec fn spec_parse12(d: Seq<u8>) -> Option<Subtable12View> {
    if d.len() < 16 {
        None
    } else {
        let n = be_u32(d[12], d[13], d[14], d[15]);
        if 16 + 12 * n > d.len() {
            None
        } else {
            Some(
                Subtable12View {
                    language: be_u32(d[8], d[9], d[10], d[11]) as u32,
                    groups: Seq::new(n as nat, |i: int| group_at(d, 16 + 12 * i)),
                },
            )
        }
    }
}

/// The first character codes of the groups.
pub open spec fn group_starts(v: Subtable12View) -> Seq<int> {
    v.groups.map_values(|g: SequentialMapGroupRecord| g.start_char_code as int)
}

/// The last character codes of the groups.
pub open spec fn group_ends(v: Subtable12View) -> Seq<int> {
    v.groups.map_values(|g: SequentialMapGroupRecord| g.end_char_code as int)
}

/// The glyph that a group maps a code point to: its first glyph plus the distance from its
/// first code point, if that fits in 16 bits (and the sum fits in 32).
pub open spec fn group_glyph(g: SequentialMapGroupRecord, cp: int) -> Option<u16> {
    let id = g.start_glyph_id + cp;
    if id > u32::MAX || id - g.start_char_code < 0 || id - g.start_char_code > 65535 {
        None
    } else {
        Some((id - g.start_char_code) as u16)
    }
}

/// The glyph of a code point: the group that a binary search finds for it maps it.
pub open spec fn spec_glyph_index12(v: Subtable12View, cp: int) -> Option<u16> {
    match spec_search(group_starts(v), group_ends(v), cp, 0, v.groups.len() as int, false) {
        Some(i) => group_glyph(v.groups[i], cp),
        None => None,
    }
}

/// The code points of the groups from `i` on.
pub open spec fn codepoints12_from(v: Subtable12View, i: int) -> Seq<u32>
    decreases v.groups.len() - i,
{
    if i < 0 || i >= v.groups.len() {
        Seq::empty()
    } else {
        code_range(v.groups[i].start_char_code as int, v.groups[i].end_char_code as int)
            + codepoints12_from(v, i + 1)
    }
}

/// The bytes of a format 12 subtable: format 12, a reserved zero, the length, the language,
/// the number of groups and the groups; the length and the number wrap around in 32 bits.
pub open spec fn spec_write12(v: Subtable12View) -> Seq<u8> {
    let n = v.groups.len() as int;
    u16_bytes(12) + u16_bytes(0) + u32_bytes((16 + 12 * n) % 0x1_0000_0000) + u32_bytes(
        v.language as int,
    ) + u32_bytes(n % 0x1_0000_0000) + seq_bytes(v.groups)
}

/// Parsing groups one after the other gives them all.
proof fn lemma_parse_groups(b: Seq<u8>, n: nat)
    requires
        b.len() >= 12 * n,
    ensures
        spec_parse_vector::<SequentialMapGroupRecord>(b, n) == Some(
            Seq::new(n, |i: int| group_at(b, 12 * i)),
        ),
    decreases n,
{
    if n > 0 {
        lemma_parse_groups(b, (n - 1) as nat);
        assert(Seq::new((n - 1) as nat, |i: int| group_at(b, 12 * i)).push(
            group_at(b, 12 * (n - 1)),
        ) =~= Seq::new(n, |i: int| group_at(b, 12 * i)));
    }
}

impl Subtable12 {
    /// Parse the format 12 subtable at the start of `data`.
    pub fn parse(data: &[u8]) -> (res: Result<Subtable12, Error>)
        ensures
            match spec_parse12(data@) {
                Some(v) => res matches Ok(t) && t@ == v,
                None => res matches Err(e) && e == Error::MalformedFont,
            },
    {
        let ghost d = data@;
        if data.len() < 16 {
            return Err(Error::MalformedFont);
        }
        let mut r = Reader::new(data);
        // The format, a reserved field and the length.
        r.skip_bytes(8);
        let language = match r.read::<u32>() {
            Some(v) => v,
            None => return Err(Error::MalformedFont),
        };
        assert(r.spec_data().subrange(8, 12) =~= d.subrange(8, 12));
        let num_groups = match r.read::<u32>() {
            Some(v) => v,
            None => return Err(Error::MalformedFont),
        };
        assert(r.spec_data().subrange(12, 16) =~= d.subrange(12, 16));
        let n = num_groups as usize;
        if n > (data.len() - 16) / 12 {
            return Err(Error::MalformedFont);
        }
        let ghost b = r.peek_bytes((12 * n) as nat);
        proof {
            lemma_parse_groups(b, n as nat);
        }
        let groups = match r.read_vector::<SequentialMapGroupRecord>(n) {
            Some(g) => g,
            None => return Err(Error::MalformedFont),
        };
        let t = Subtable12 { language, groups };
        proof {
            let v = spec_parse12(d).unwrap();
            assert forall|i: int| 0 <= i < n implies #[trigger] t@.groups[i] == v.groups[i] by {
                assert(b.subrange(12 * i, 12 * i + 12) =~= d.subrange(16 + 12 * i, 16 + 12 * i + 12));
            }
            assert(t@.groups =~= v.groups);
        }
        Ok(t)
    }

    /// Returns a glyph index for a code point.
    pub fn glyph_index(&self, code_point: u32) -> (res: Option<u16>)
        ensures
            res == spec_glyph_index12(self@, code_point as int),
    {
        let ghost starts = group_starts(self@);
        let ghost ends = group_ends(self@);
        let ghost len = self@.groups.len() as int;
        let mut lo: usize = 0;
        let mut hi: usize = self.groups.len();
        while lo < hi
            invariant
                lo <= hi <= len,
                len == self@.groups.len(),
                starts == group_starts(self@),
                ends == group_ends(self@),
                spec_search(starts, ends, code_point as int, lo as int, hi as int, false)
                    == spec_search(starts, ends, code_point as int, 0, len, false),
            decreases hi - lo,
        {
            let mid = lo + (hi - lo) / 2;
            assert(mid == (lo + hi) / 2);
            assert(starts[mid as int] == self@.groups[mid as int].start_char_code);
            assert(ends[mid as int] == self@.groups[mid as int].end_char_code);
            let range = self.groups[mid];
            if range.start_char_code > code_point {
                hi = mid;
            } else if range.end_char_code < code_point {
                lo = mid + 1;
            } else {
                assert(starts.len() == len && ends.len() == len);
                assert(spec_search(starts, ends, code_point as int, lo as int, hi as int, false)
                    == Some(mid as int));
                let id = match range.start_glyph_id.checked_add(code_point) {
                    Some(x) => x,
                    None => return None,
                };
                let id = match id.checked_sub(range.start_char_code) {
                    Some(x) => x,
                    None => return None,
                };
                if id > 65535 {
                    return None;
                }
                return Some(id as u16);
            }
        }
        None
    }

    /// The code points that this table maps, group by group.
    pub fn codepoints(&self) -> (res: Vec<u32>)
        ensures
            res@ == codepoints12_from(self@, 0),
    {
        let mut v: Vec<u32> = Vec::new();
        let mut i: usize = 0;
        while i < self.groups.len()
            invariant
                i <= self@.groups.len(),
                v@ + codepoints12_from(self@, i as int) == codepoints12_from(self@, 0),
            decreases self@.groups.len() - i,
        {
            let start = self.groups[i].start_char_code;
            let end = self.groups[i].end_char_code;
            let ghost before = v@;
            let mut c: u64 = start as u64;
            while c <= end as u64
                invariant
                    start <= c <= end as u64 + 1 || (start > end && c == start),
                    v@ == before + code_range(start as int, end as int).take(c - start),
                decreases end as u64 + 1 - c,
            {
                v.push(c as u32);
                proof {
                    assert(v@ =~= before + code_range(start as int, end as int).take(c + 1 - start));
                }
                c = c + 1;
            }
            proof {
                assert(code_range(start as int, end as int).take(c - start) =~= code_range(
                    start as int,
                    end as int,
                ));
                assert(before + code_range(start as int, end as int) + codepoints12_from(
                    self@,
                    i + 1,
                ) =~= before + codepoints12_from(self@, i as int));
            }
            i = i + 1;
        }
        assert(v@ + Seq::<u32>::empty() =~= v@);
        v
    }

    /// Write the subtable.
    pub fn write(&self, w: &mut Writer)
        ensures
            final(w)@ == old(w)@ + spec_write12(self@),
    {
        // format + reserved + length + language + num_groups + num_groups * (start_char,
        // end_char, start_glyph_id)
        let n = self.groups.len();
        let length = ((16u128 + 12u128 * n as u128) % 0x1_0000_0000) as u32;
        let count = ((n as u128) % 0x1_0000_0000) as u32;
        12u16.write(w);
        0u16.write(w);
        length.write(w);
        self.language.write(w);
        count.write(w);
        w.write_vector(self.groups.as_slice());
        assert(w@ =~= old(w)@ + spec_write12(self@));
    }
}

/// In a subtable whose groups are sorted and do not overlap, the glyph of a code point is
/// what the group that holds it maps it to, and there is none if no group holds it.
pub proof fn lemma_glyph_index12_sorted(v: Subtable12View, cp: int)
    requires
        segments_sorted(group_starts(v), group_ends(v)),
    ensures
        spec_glyph_index12(v, cp) == match spec_containing(group_starts(v), group_ends(v), cp) {
            Some(i) => group_glyph(v.groups[i], cp),
            None => None,
        },
{
    lemma_search_sorted(group_starts(v), group_ends(v), cp, false);
}

/// A code point that gets a glyph lies in the group that maps it.
pub proof fn lemma_glyph_index12_holds(v: Subtable12View, cp: int)
    ensures
        spec_glyph_index12(v, cp) is Some ==> exists|i: int|
            super::holds(group_starts(v), group_ends(v), i, cp) && spec_glyph_index12(v, cp)
                == group_glyph(v.groups[i], cp),
{
    lemma_search_holds(group_starts(v), group_ends(v), cp, 0, v.groups.len() as int, false);
}

/// The new mappings of the code points `cps`: in order, each code point whose glyph is
/// requested and has a new ID, with that ID.
pub open spec fn spec_mappings12(
    v: Subtable12View,
    cps: Seq<u32>,
    requested: Seq<u16>,
    mapper: GlyphRemapper,
) -> Seq<(u32, u16)>
    decreases cps.len(),
{
    if cps.len() == 0 {
        Seq::empty()
    } else {
        let prev = spec_mappings12(v, cps.drop_last(), requested, mapper);
        match new_glyph(spec_glyph_index12(v, cps.last() as int), requested, mapper) {
            Some(g) => prev.push((cps.last(), g)),
            None => prev,
        }
    }
}

/// The groups `(start, end, first glyph)` of mappings from `i` on, the current group
/// starting at code point `cs` and glyph `cg` with `cr` more code points: a mapping continues
/// the group when both its code point and its glyph follow the group's.
pub open spec fn groups_from(ms: Seq<(u32, u16)>, i: int, cs: int, cg: int, cr: int) -> Seq<
    (int, int, int),
>
    decreases ms.len() - i,
{
    if i < 0 || i >= ms.len() {
        seq![(cs, cs + cr, cg)]
    } else {
        let c = ms[i].0 as int;
        let g = ms[i].1 as int;
        if c == cs + cr + 1 && g == cg + cr + 1 {
            groups_from(ms, i + 1, cs, cg, cr + 1)
        } else {
            seq![(cs, cs + cr, cg)] + groups_from(ms, i + 1, c, g, 0)
        }
    }
}

/// The groups of sorted mappings.
pub open spec fn spec_groups12(ms: Seq<(u32, u16)>) -> Seq<(int, int, int)> {
    if ms.len() == 0 {
        Seq::empty()
    } else {
        groups_from(ms, 1, ms[0].0 as int, ms[0].1 as int, 0)
    }
}

/// The groups as records.
pub open spec fn group_records(gs: Seq<(int, int, int)>) -> Seq<SequentialMapGroupRecord> {
    gs.map_values(
        |t: (int, int, int)|
            SequentialMapGroupRecord {
                start_char_code: t.0 as u32,
                end_char_code: t.1 as u32,
                start_glyph_id: t.2 as u32,
            },
    )
}

/// The records of groups as numbers.
pub open spec fn records_view(rs: Seq<SequentialMapGroupRecord>) -> Seq<(int, int, int)> {
    rs.map_values(
        |r: SequentialMapGroupRecord|
            (r.start_char_code as int, r.end_char_code as int, r.start_glyph_id as int),
    )
}

/// The groups of sorted mappings, as records.
fn build_groups(ms: &Vec<(u32, u16)>) -> (res: Vec<SequentialMapGroupRecord>)
    ensures
        records_view(res@) == spec_groups12(ms@),
{
    let mut new_groups: Vec<SequentialMapGroupRecord> = Vec::new();
    if ms.len() > 0 {
        let first = ms[0];
        let mut cur_start: u32 = first.0;
        let mut cur_gid: u16 = first.1;
        let mut cur_range: u32 = 0;
        let ghost all = groups_from(ms@, 1, first.0 as int, first.1 as int, 0);
        let mut i: usize = 1;
        while i < ms.len()
            invariant
                1 <= i <= ms@.len(),
                cur_start + cur_range <= u32::MAX,
                cur_gid + cur_range <= 65535,
                records_view(new_groups@) + groups_from(
                    ms@,
                    i as int,
                    cur_start as int,
                    cur_gid as int,
                    cur_range as int,
                ) == all,
            decreases ms@.len() - i,
        {
            let next = ms[i];
            let ghost before = records_view(new_groups@);
            if next.0 as u64 == cur_start as u64 + cur_range as u64 + 1 && next.1 as u64
                == cur_gid as u64 + cur_range as u64 + 1 {
                cur_range = cur_range + 1;
            } else {
                new_groups.push(
                    SequentialMapGroupRecord {
                        start_char_code: cur_start,
                        end_char_code: cur_start + cur_range,
                        start_glyph_id: cur_gid as u32,
                    },
                );
                proof {
                    assert(records_view(new_groups@) =~= before.push(
                        (cur_start as int, cur_start + cur_range, cur_gid as int),
                    ));
                    assert(before.push((cur_start as int, cur_start + cur_range, cur_gid as int))
                        + groups_from(ms@, i + 1, next.0 as int, next.1 as int, 0) =~= before + (
                    seq![(cur_start as int, cur_start + cur_range, cur_gid as int)] + groups_from(
                        ms@,
                        i + 1,
                        next.0 as int,
                        next.1 as int,
                        0,
                    )));
                }
                cur_start = next.0;
                cur_gid = next.1;
                cur_range = 0;
            }
            i = i + 1;
        }
        let ghost before = records_view(new_groups@);
        new_groups.push(
            SequentialMapGroupRecord {
                start_char_code: cur_start,
                end_char_code: cur_start + cur_range,
                start_glyph_id: cur_gid as u32,
            },
        );
        proof {
            assert(records_view(new_groups@) =~= before + groups_from(
                ms@,
                i as int,
                cur_start as int,
                cur_gid as int,
                cur_range as int,
            ));
        }
    } else {
        assert(records_view(new_groups@) =~= Seq::<(int, int, int)>::empty());
    }
    new_groups
}

/// The subsetted format 12 subtable at the start of `d`: the code points whose glyphs are
/// requested, mapped to their new glyph IDs and sorted, in groups of consecutive code points
/// with consecutive glyphs.
pub open spec fn spec_subset12(d: Seq<u8>, requested: Seq<u16>, mapper: GlyphRemapper) -> Result<
    Seq<u8>,
    Error,
> {
    match spec_parse12(d) {
        None => Err(Error::MalformedFont),
        Some(v) => Ok(
            spec_write12(
                (Subtable12View {
                    language: v.language,
                    groups: group_records(
                        spec_groups12(
                            sorted_mappings(
                                spec_mappings12(v, codepoints12_from(v, 0), requested, mapper),
                            ),
                        ),
                    ),
                }),
            ),
        ),
    }
}

/// The subsetted format 12 subtable at the start of `data`: the code points whose glyphs are
/// requested, mapped to their new glyph IDs, in groups of consecutive code points with
/// consecutive glyphs.
pub fn subset_subtable12(data: &[u8], requested: &[u16], mapper: &GlyphRemapper) -> (res: Result<
    Vec<u8>,
    Error,
>)
    requires
        mapper.wf(),
    ensures
        match spec_subset12(data@, requested@, *mapper) {
            Ok(b) => res matches Ok(v) && v@ == b,
            Err(e) => res matches Err(e2) && e2 == e,
        },
{
    let subtable = Subtable12::parse(data)?;
    let all_codepoints = subtable.codepoints();
    let ghost v = subtable@;
    let ghost cps = all_codepoints@;
    let mut mappings: Vec<(u32, u16)> = Vec::new();
    let mut k: usize = 0;
    while k < all_codepoints.len()
        invariant
            mapper.wf(),
            v == subtable@,
            cps == all_codepoints@,
            k <= cps.len(),
            mappings@ == spec_mappings12(v, cps.take(k as int), requested@, *mapper),
        decreases cps.len() - k,
    {
        let c = all_codepoints[k];
        assert(cps.take(k + 1).drop_last() =~= cps.take(k as int));
        if let Some(g) = subtable.glyph_index(c) {
            if contains_glyph(requested, g) {
                if let Some(new_g) = mapper.get(g) {
                    mappings.push((c, new_g));
                }
            }
        }
        k = k + 1;
    }
    assert(cps.take(k as int) =~= cps);
    let sorted = sort_mappings(&mappings);
    let groups = build_groups(&sorted);
    let new_subtable = Subtable12 { language: subtable.language, groups };
    proof {
        assert(records_view(groups@) == spec_groups12(sorted@));
        assert forall|i: int| 0 <= i < groups@.len() implies #[trigger] groups@[i] == group_records(
            spec_groups12(sorted@),
        )[i] by {
            assert(records_view(groups@)[i] == spec_groups12(sorted@)[i]);
        }
        assert(new_subtable@.groups =~= group_records(spec_groups12(sorted@)));
    }
    let mut w = Writer::new();
    new_subtable.write(&mut w);
    Ok(w.finish())
}

/// Mappings whose code points increase strictly.
pub open spec fn codes_ascending(ms: Seq<(u32, u16)>) -> bool {
    forall|a: int, b: int| 0 <= a < b < ms.len() ==> #[trigger] ms[a].0 < #[trigger] ms[b].0
}

/// Whether group `t` (first code, last code, first glyph) maps the code point of mapping
/// `m` to its glyph.
pub open spec fn group_maps(t: (int, int, int), m: (u32, u16)) -> bool {
    t.0 <= m.0 <= t.1 && m.1 == t.2 + (m.0 - t.0)
}

/// Groups whose first glyph plus last code point fits in 32 bits.
pub open spec fn groups_fit(gs: Seq<(int, int, int)>) -> bool {
    forall|k: int| 0 <= k < gs.len() ==> #[trigger] gs[k].2 + gs[k].1 <= u32::MAX
}

/// The groups of mappings from `i` on, the current one starting at code point `cs` and glyph
/// `cg` and ending at mapping `i - 1`: they are sorted, start with the current one, map each
/// later mapping, and hold no code point but those of the current group and of the later
/// mappings.
proof fn lemma_groups_from(ms: Seq<(u32, u16)>, i: int, cs: int, cg: int, cr: int)
    requires
        codes_ascending(ms),
        1 <= i <= ms.len(),
        0 <= cr,
        0 <= cs,
        0 <= cg,
        ms[i - 1].0 == cs + cr,
        ms[i - 1].1 == cg + cr,
    ensures
        ({
            let r = groups_from(ms, i, cs, cg, cr);
            &&& r.len() >= 1
            &&& r[0].0 == cs && r[0].2 == cg && r[0].1 >= cs + cr
            &&& segs_sorted(r)
            &&& forall|k: int|
                0 <= k < r.len() ==> cs <= #[trigger] r[k].0 && r[k].1 <= u32::MAX && 0 <= r[k].2
                    <= 65535
            &&& forall|j: int|
                i <= j < ms.len() ==> exists|k: int|
                    0 <= k < r.len() && group_maps(r[k], #[trigger] ms[j])
            &&& forall|k: int, x: int|
                0 <= k < r.len() && #[trigger] seg_holds(r[k], x) ==> (cs <= x <= cs + cr || exists|j: int|
                    i <= j < ms.len() && ms[j].0 == x) && (k == 0 || x > cs + cr)
        }),
    decreases ms.len() - i,
{
    if i < ms.len() {
        let c = ms[i].0 as int;
        let g = ms[i].1 as int;
        assert(c > cs + cr);
        if c == cs + cr + 1 && g == cg + cr + 1 {
            lemma_groups_from(ms, i + 1, cs, cg, cr + 1);
            let r = groups_from(ms, i + 1, cs, cg, cr + 1);
            assert forall|j: int| i <= j < ms.len() implies exists|k: int|
                0 <= k < r.len() && group_maps(r[k], #[trigger] ms[j]) by {
                if j == i {
                    assert(group_maps(r[0], ms[j]));
                }
            }
            assert forall|k: int, x: int|
                0 <= k < r.len() && #[trigger] seg_holds(r[k], x) implies (cs <= x <= cs + cr || exists|
                j: int,
            | i <= j < ms.len() && ms[j].0 == x) && (k == 0 || x > cs + cr) by {
                if x == cs + cr + 1 {
                    assert(ms[i].0 == x);
                }
            }
        } else {
            lemma_groups_from(ms, i + 1, c, g, 0);
            let rest = groups_from(ms, i + 1, c, g, 0);
            let head = seq![(cs, cs + cr, cg)];
            let r = head + rest;
            assert(groups_from(ms, i, cs, cg, cr) == r);
            assert forall|a: int, b: int| 0 <= a < b < r.len() implies #[trigger] r[a].1 < #[trigger] r[b].0 by {
                if a == 0 {
                    assert(r[b] == rest[b - 1]);
                } else {
                    assert(r[a] == rest[a - 1] && r[b] == rest[b - 1]);
                }
            }
            assert forall|k: int| 0 <= k < r.len() implies #[trigger] r[k].0 <= r[k].1 by {
                if k > 0 {
                    assert(r[k] == rest[k - 1]);
                }
            }
            assert forall|k: int| 0 <= k < r.len() implies cs <= #[trigger] r[k].0 && r[k].1
                <= u32::MAX && 0 <= r[k].2 <= 65535 by {
                if k > 0 {
                    assert(r[k] == rest[k - 1]);
                }
            }
            assert forall|j: int| i <= j < ms.len() implies exists|k: int|
                0 <= k < r.len() && group_maps(r[k], #[trigger] ms[j]) by {
                if j == i {
                    assert(r[1] == rest[0]);
                    assert(group_maps(r[1], ms[j]));
                } else {
                    let k = choose|k: int| 0 <= k < rest.len() && group_maps(rest[k], #[trigger] ms[j]);
                    assert(r[k + 1] == rest[k]);
                }
            }
            assert forall|k: int, x: int|
                0 <= k < r.len() && #[trigger] seg_holds(r[k], x) implies (cs <= x <= cs + cr || exists|
                j: int,
            | i <= j < ms.len() && ms[j].0 == x) && (k == 0 || x > cs + cr) by {
                if k > 0 {
                    assert(r[k] == rest[k - 1]);
                    if c <= x <= c {
                        assert(ms[i].0 == x);
                    } else {
                        let j = choose|j: int| i + 1 <= j < ms.len() && ms[j].0 == x;
                    }
                }
            }
        }
    } else {
        let r = groups_from(ms, i, cs, cg, cr);
        assert(r == seq![(cs, cs + cr, cg)]);
    }
}

/// Law: the subsetted format 12 subtable gives back the mappings it was made of. For
/// mappings with increasing code points, the subtable written from their groups maps each
/// code point to the glyph of its mapping and code points without a mapping to no glyph,
/// provided each group's first glyph plus its last code point fits in 32 bits (the lookup
/// adds the two, and finds no glyph where the sum overflows).
pub proof fn lemma_groups12_map(ms: Seq<(u32, u16)>, language: u32)
    requires
        codes_ascending(ms),
        groups_fit(spec_groups12(ms)),
    ensures
        forall|c: u32|
            #[trigger] spec_glyph_index12(
                (Subtable12View { language, groups: group_records(spec_groups12(ms)) }),
                c as int,
            ) == (if exists|k: int| 0 <= k < ms.len() && ms[k].0 == c {
                Some(ms[choose|k: int| 0 <= k < ms.len() && ms[k].0 == c].1)
            } else {
                None
            }),
{
    let gs = spec_groups12(ms);
    let v = Subtable12View { language, groups: group_records(gs) };
    let starts = group_starts(v);
    let ends = group_ends(v);
    if ms.len() > 0 {
        lemma_groups_from(ms, 1, ms[0].0 as int, ms[0].1 as int, 0);
    }
    assert forall|k: int| 0 <= k < gs.len() implies #[trigger] starts[k] == gs[k].0 && ends[k]
        == gs[k].1 && v.groups[k].start_glyph_id == gs[k].2 by {
        assert(0 <= gs[k].0 <= gs[k].1 <= u32::MAX && 0 <= gs[k].2 <= 65535);
        assert(v.groups[k].start_char_code == gs[k].0 as u32);
        assert(v.groups[k].end_char_code == gs[k].1 as u32);
        assert(v.groups[k].start_glyph_id == gs[k].2 as u32);
    }
    assert(segments_sorted(starts, ends)) by {
        assert forall|a: int, b: int| 0 <= a < b < starts.len() implies #[trigger] ends[a] < #[trigger] starts[b] by {
            assert(starts[b] == gs[b].0);
            assert(ends[a] == gs[a].1);
        }
        assert forall|a: int| 0 <= a < starts.len() implies starts[a] <= ends[a] by {
            assert(starts[a] == gs[a].0);
            assert(ends[a] == gs[a].1);
        }
    }
    assert forall|c: u32|
        #[trigger] spec_glyph_index12(v, c as int) == (if exists|k: int|
            0 <= k < ms.len() && ms[k].0 == c {
            Some(ms[choose|k: int| 0 <= k < ms.len() && ms[k].0 == c].1)
        } else {
            None
        }) by {
        lemma_glyph_index12_sorted(v, c as int);
        if exists|k: int| 0 <= k < ms.len() && ms[k].0 == c {
            let k = choose|k: int| 0 <= k < ms.len() && ms[k].0 == c;
            let kk = if k == 0 {
                0int
            } else {
                choose|kk: int| 0 <= kk < gs.len() && group_maps(gs[kk], ms[k])
            };
            assert(0 <= kk < gs.len() && group_maps(gs[kk], ms[k]));
            assert(super::holds(starts, ends, kk, c as int));
            let h = choose|h: int| super::holds(starts, ends, h, c as int);
            super::lemma_holds_unique(starts, ends, c as int, h, kk);
            assert(gs[kk].2 + gs[kk].1 <= u32::MAX);
            assert(group_glyph(v.groups[kk], c as int) == Some(ms[k].1));
        } else {
            assert forall|h: int| !super::holds(starts, ends, h, c as int) by {
                if super::holds(starts, ends, h, c as int) {
                    assert(seg_holds(gs[h], c as int));
                    if h == 0 {
                        assert(ms[0].0 == c);
                    } else {
                        let j = choose|j: int| 1 <= j < ms.len() && ms[j].0 == c;
                    }
                }
            }
        }
    }
}

} // verus!
