//! The `cmap` table maps character codes to glyphs. Its Unicode subtables of format 4 and 12
//! are subsetted: only the characters whose glyphs are requested stay, mapped to the new
//! glyph IDs. The approach follows the way fonttools subsets that table.
pub mod subtable12;
pub mod subtable4;

use crate::read::{be_u16, be_u32, Readable, Reader};
use crate::remapper::GlyphRemapper;
use crate::write::{u16_bytes, u32_bytes, Writeable, Writer};
use crate::Error;
use subtable12::{spec_subset12, subset_subtable12};
use subtable4::{spec_subset4, subset_subtable4};
use vstd::prelude::*;

verus! {

/// The segment that a binary search over segments finds for code point `cp` between `lo`
/// and `hi`. With `end_first`, a segment is tested by its end first (a segment that ends
/// before `cp` sends the search right); otherwise by its start first (a segment that starts
/// after `cp` sends the search left).
pub open spec fn spec_search(
    starts: Seq<int>,
    ends: Seq<int>,
    cp: int,
    lo: int,
    hi: int,
    end_first: bool,
) -> Option<int>
    decreases hi - lo,
{
    if lo < 0 || hi > starts.len() || hi > ends.len() || lo >= hi {
        None
    } else {
        let mid = (lo + hi) / 2;
        if end_first {
            if ends[mid] >= cp {
                if starts[mid] > cp {
                    spec_search(starts, ends, cp, lo, mid, end_first)
                } else {
                    Some(mid)
                }
            } else {
                spec_search(starts, ends, cp, mid + 1, hi, end_first)
            }
        } else {
            if starts[mid] > cp {
                spec_search(starts, ends, cp, lo, mid, end_first)
            } else if ends[mid] < cp {
                spec_search(starts, ends, cp, mid + 1, hi, end_first)
            } else {
                Some(mid)
            }
        }
    }
}

/// Segments that do not overlap and come in ascending order, each with its start at most
/// its end.
pub open spec fn segments_sorted(starts: Seq<int>, ends: Seq<int>) -> bool {
    &&& starts.len() == ends.len()
    &&& forall|i: int| 0 <= i < starts.len() ==> starts[i] <= ends[i]
    &&& forall|i: int, j: int| 0 <= i < j < starts.len() ==> #[trigger] ends[i] < #[trigger] starts[j]
}

/// Whether segment `i` holds code point `cp`.
pub open spec fn holds(starts: Seq<int>, ends: Seq<int>, i: int, cp: int) -> bool {
    0 <= i < starts.len() && i < ends.len() && starts[i] <= cp <= ends[i]
}

/// The segment that holds `cp`, if one does.
pub open spec fn spec_containing(starts: Seq<int>, ends: Seq<int>, cp: int) -> Option<int> {
    if exists|i: int| holds(starts, ends, i, cp) {
        Some(choose|i: int| holds(starts, ends, i, cp))
    } else {
        None
    }
}

/// A segment found by the search holds the code point.
pub proof fn lemma_search_holds(
    starts: Seq<int>,
    ends: Seq<int>,
    cp: int,
    lo: int,
    hi: int,
    end_first: bool,
)
    ensures
        spec_search(starts, ends, cp, lo, hi, end_first) matches Some(i) ==> holds(
            starts,
            ends,
            i,
            cp,
        ) && lo <= i < hi,
    decreases hi - lo,
{
    if lo < 0 || hi > starts.len() || hi > ends.len() || lo >= hi {
    } else {
        let mid = (lo + hi) / 2;
        lemma_search_holds(starts, ends, cp, lo, mid, end_first);
        lemma_search_holds(starts, ends, cp, mid + 1, hi, end_first);
    }
}

/// In sorted segments, at most one holds a code point.
pub proof fn lemma_holds_unique(starts: Seq<int>, ends: Seq<int>, cp: int, i: int, j: int)
    requires
        segments_sorted(starts, ends),
        holds(starts, ends, i, cp),
        holds(starts, ends, j, cp),
    ensures
        i == j,
{
    if i < j {
        assert(ends[i] < starts[j]);
    } else if j < i {
        assert(ends[j] < starts[i]);
    }
}

/// Between `lo` and `hi` of sorted segments, where those before `lo` end before `cp` and
/// those from `hi` on start after it, the search finds the segment that holds `cp`.
proof fn lemma_search_sorted_range(
    starts: Seq<int>,
    ends: Seq<int>,
    cp: int,
    lo: int,
    hi: int,
    end_first: bool,
)
    requires
        segments_sorted(starts, ends),
        0 <= lo,
        hi <= starts.len(),
        forall|i: int| 0 <= i < lo ==> ends[i] < cp,
        forall|i: int| hi <= i < starts.len() ==> starts[i] > cp,
    ensures
        spec_search(starts, ends, cp, lo, hi, end_first) == spec_containing(starts, ends, cp),
    decreases hi - lo,
{
    if lo >= hi {
        assert forall|i: int| !holds(starts, ends, i, cp) by {
            if 0 <= i < lo {
            } else if hi <= i < starts.len() {
            }
        }
    } else {
        let mid = (lo + hi) / 2;
        if starts[mid] <= cp && cp <= ends[mid] {
            assert(holds(starts, ends, mid, cp));
            let c = choose|i: int| holds(starts, ends, i, cp);
            lemma_holds_unique(starts, ends, cp, mid, c);
        } else if ends[mid] < cp {
            assert forall|i: int| 0 <= i < mid + 1 implies ends[i] < cp by {
                if i < mid {
                    assert(ends[i] < starts[mid]);
                }
            }
            lemma_search_sorted_range(starts, ends, cp, mid + 1, hi, end_first);
        } else {
            assert(starts[mid] > cp);
            assert forall|i: int| mid <= i < starts.len() implies starts[i] > cp by {
                if mid < i {
                    assert(ends[mid] < starts[i]);
                }
            }
            lemma_search_sorted_range(starts, ends, cp, lo, mid, end_first);
        }
    }
}

/// In sorted segments, the search finds the segment that holds the code point, whichever
/// end it tests first.
pub proof fn lemma_search_sorted(starts: Seq<int>, ends: Seq<int>, cp: int, end_first: bool)
    requires
        segments_sorted(starts, ends),
    ensures
        spec_search(starts, ends, cp, 0, starts.len() as int, end_first) == spec_containing(
            starts,
            ends,
            cp,
        ),
{
    lemma_search_sorted_range(starts, ends, cp, 0, starts.len() as int, end_first);
}

/// Whether a mapping of a code point to a glyph comes before another: by code point, then by
/// glyph.
pub open spec fn pair_le(a: (u32, u16), b: (u32, u16)) -> bool {
    a.0 < b.0 || (a.0 == b.0 && a.1 <= b.1)
}

/// Whether mappings are in ascending order.
pub open spec fn pairs_sorted(s: Seq<(u32, u16)>) -> bool {
    forall|i: int, j: int| 0 <= i < j < s.len() ==> pair_le(s[i], s[j])
}

/// Whether `s` holds the mappings of `input`, in ascending order.
pub open spec fn is_sorted_perm(s: Seq<(u32, u16)>, input: Seq<(u32, u16)>) -> bool {
    pairs_sorted(s) && s.to_multiset() == input.to_multiset()
}

/// The mappings of `input` in ascending order.
pub open spec fn sorted_mappings(input: Seq<(u32, u16)>) -> Seq<(u32, u16)> {
    choose|s: Seq<(u32, u16)>| is_sorted_perm(s, input)
}

/// Two ascending sequences of the same mappings are the same.
pub proof fn lemma_sorted_perm_unique(a: Seq<(u32, u16)>, b: Seq<(u32, u16)>)
    requires
        pairs_sorted(a),
        pairs_sorted(b),
        a.to_multiset() == b.to_multiset(),
    ensures
        a == b,
    decreases a.len(),
{
    vstd::seq_lib::to_multiset_len(a);
    vstd::seq_lib::to_multiset_len(b);
    if a.len() == 0 {
        assert(a =~= b);
    } else {
        let x = a[0];
        let y = b[0];
        assert(a.contains(x));
        vstd::seq_lib::to_multiset_contains(a, x);
        vstd::seq_lib::to_multiset_contains(b, x);
        assert(b.contains(x));
        let j = choose|j: int| 0 <= j < b.len() && b[j] == x;
        if j > 0 {
            assert(pair_le(b[0], b[j]));
        }
        assert(b.contains(y));
        vstd::seq_lib::to_multiset_contains(b, y);
        vstd::seq_lib::to_multiset_contains(a, y);
        assert(a.contains(y));
        let k = choose|k: int| 0 <= k < a.len() && a[k] == y;
        if k > 0 {
            assert(pair_le(a[0], a[k]));
        }
        assert(x == y);
        vstd::seq_lib::to_multiset_remove(a, 0);
        vstd::seq_lib::to_multiset_remove(b, 0);
        assert(a.remove(0) =~= a.drop_first());
        assert(b.remove(0) =~= b.drop_first());
        assert(pairs_sorted(a.drop_first())) by {
            assert forall|i: int, j: int| 0 <= i < j < a.drop_first().len() implies pair_le(
                a.drop_first()[i],
                a.drop_first()[j],
            ) by {
                assert(pair_le(a[i + 1], a[j + 1]));
            }
        }
        assert(pairs_sorted(b.drop_first())) by {
            assert forall|i: int, j: int| 0 <= i < j < b.drop_first().len() implies pair_le(
                b.drop_first()[i],
                b.drop_first()[j],
            ) by {
                assert(pair_le(b[i + 1], b[j + 1]));
            }
        }
        lemma_sorted_perm_unique(a.drop_first(), b.drop_first());
        assert(a =~= b) by {
            assert forall|i: int| 0 <= i < a.len() implies a[i] == b[i] by {
                if i > 0 {
                    assert(a[i] == a.drop_first()[i - 1]);
                    assert(b[i] == b.drop_first()[i - 1]);
                }
            }
        }
    }
}

/// Sort mappings in ascending order.
pub fn sort_mappings(input: &Vec<(u32, u16)>) -> (res: Vec<(u32, u16)>)
    ensures
        is_sorted_perm(res@, input@),
        res@ == sorted_mappings(input@),
{
    broadcast use vstd::seq_lib::group_to_multiset_ensures;

    let mut res: Vec<(u32, u16)> = Vec::new();
    let mut i: usize = 0;
    while i < input.len()
        invariant
            i <= input@.len(),
            pairs_sorted(res@),
            res@.to_multiset() == input@.take(i as int).to_multiset(),
        decreases input@.len() - i,
    {
        let x = input[i];
        // The place of `x`: after the mappings that do not come after it.
        let mut p: usize = res.len();
        while p > 0 && !(res[p - 1].0 < x.0 || (res[p - 1].0 == x.0 && res[p - 1].1 <= x.1))
            invariant
                p <= res@.len(),
                forall|j: int| p <= j < res@.len() ==> !pair_le(res@[j], x),
            decreases p,
        {
            p = p - 1;
        }
        let ghost before = res@;
        res.insert(p, x);
        proof {
            assert(res@ == before.insert(p as int, x));
            assert(input@.take(i + 1) =~= input@.take(i as int).push(x));
            vstd::seq_lib::to_multiset_insert(before, p as int, x);
            vstd::seq_lib::to_multiset_build(input@.take(i as int), x);
            assert(res@.to_multiset() == input@.take(i + 1).to_multiset());
            assert forall|a: int, b: int| 0 <= a < b < res@.len() implies pair_le(
                res@[a],
                res@[b],
            ) by {
                if b < p {
                } else if a < p && b == p {
                    assert(pair_le(before[p - 1], x));
                    if a < p - 1 {
                        assert(pair_le(before[a], before[p - 1]));
                    }
                } else if a == p {
                    assert(!pair_le(before[b - 1], x));
                } else if a < p {
                    assert(pair_le(before[a], before[b - 1]));
                } else {
                    assert(pair_le(before[a - 1], before[b - 1]));
                }
            }
        }
        i = i + 1;
    }
    assert(input@.take(i as int) =~= input@);
    proof {
        let s = sorted_mappings(input@);
        assert(is_sorted_perm(res@, input@));
        assert(is_sorted_perm(s, input@));
        lemma_sorted_perm_unique(res@, s);
    }
    res
}

/// Whether a slice holds a glyph.
pub fn contains_glyph(glyphs: &[u16], g: u16) -> (res: bool)
    ensures
        res == glyphs@.contains(g),
{
    let mut i: usize = 0;
    while i < glyphs.len()
        invariant
            i <= glyphs@.len(),
            forall|j: int| 0 <= j < i ==> glyphs@[j] != g,
        decreases glyphs@.len() - i,
    {
        if glyphs[i] == g {
            assert(glyphs@[i as int] == g);
            return true;
        }
        i = i + 1;
    }
    false
}

/// The new mapping of a code point with glyph `g`: the new ID of `g`, if `g` is requested
/// and has one.
pub open spec fn new_glyph(g: Option<u16>, requested: Seq<u16>, mapper: GlyphRemapper) -> Option<u16> {
    match g {
        Some(g) => if requested.contains(g) {
            mapper.spec_get(g)
        } else {
            None
        },
        None => None,
    }
}

/// An encoding record: a platform, an encoding and the offset of its subtable.
#[derive(Clone, Copy, Debug)]
pub struct EncodingRecord {
    /// The platform.
    pub platform_id: u16,
    /// The encoding.
    pub encoding_id: u16,
    /// The offset of the subtable from the start of the table.
    pub subtable_offset: u32,
}

/// Whether a record is for a Unicode encoding: the Unicode platform, or the Windows platform
/// with the symbol, BMP or full repertoire encoding.
pub open spec fn spec_is_unicode(r: EncodingRecord) -> bool {
    r.platform_id == 0 || (r.platform_id == 3 && (r.encoding_id == 0 || r.encoding_id == 1
        || r.encoding_id == 10))
}

impl EncodingRecord {
    /// Whether the record is for a Unicode encoding.
    pub fn is_unicode(&self) -> (res: bool)
        ensures
            res == spec_is_unicode(*self),
    {
        self.platform_id == 0 || (self.platform_id == 3 && (self.encoding_id == 0
            || self.encoding_id == 1 || self.encoding_id == 10))
    }
}

impl Readable for EncodingRecord {
    open spec fn spec_size() -> nat { 8 }

    open spec fn spec_parse(bytes: Seq<u8>) -> Option<EncodingRecord> {
        Some(
            EncodingRecord {
                platform_id: be_u16(bytes[0], bytes[1]) as u16,
                encoding_id: be_u16(bytes[2], bytes[3]) as u16,
                subtable_offset: be_u32(bytes[4], bytes[5], bytes[6], bytes[7]) as u32,
            },
        )
    }

    fn size() -> usize { 8 }

    fn read(r: &mut Reader) -> (res: Option<EncodingRecord>) {
        proof {
            crate::read::lemma_has_rest(*r, 8nat);
        }
        let b = r.read_bytes(8)?;
        Some(
            EncodingRecord {
                platform_id: b[0] as u16 * 256 + b[1] as u16,
                encoding_id: b[2] as u16 * 256 + b[3] as u16,
                subtable_offset: ((b[4] as u32 * 256 + b[5] as u32) * 256 + b[6] as u32) * 256
                    + b[7] as u32,
            },
        )
    }
}

impl Writeable for EncodingRecord {
    open spec fn spec_bytes(&self) -> Seq<u8> {
        u16_bytes(self.platform_id as int) + u16_bytes(self.encoding_id as int) + u32_bytes(
            self.subtable_offset as int,
        )
    }

    fn write(&self, w: &mut Writer) {
        self.platform_id.write(w);
        self.encoding_id.write(w);
        self.subtable_offset.write(w);
        assert(w@ =~= old(w)@ + self.spec_bytes());
    }
}

/// The encoding record at `at`.
pub open spec fn record_at(d: Seq<u8>, at: int) -> EncodingRecord {
    EncodingRecord::spec_parse(d.subrange(at, at + 8)).unwrap()
}

/// The subsetted subtable of a record, if it is kept: Unicode subtables of format 4 and 12
/// are subsetted, the others are left out. A subtable whose offset lies past the end of the
/// table is an error.
#[verifier::opaque]
pub open spec fn subsetted_subtable(
    d: Seq<u8>,
    rec: EncodingRecord,
    requested: Seq<u16>,
    mapper: GlyphRemapper,
) -> Result<Option<Seq<u8>>, Error> {
    if !spec_is_unicode(rec) {
        Ok(None)
    } else if rec.subtable_offset > d.len() {
        Err(Error::MalformedFont)
    } else {
        let sub = d.subrange(rec.subtable_offset as int, d.len() as int);
        if sub.len() < 2 {
            Ok(None)
        } else if be_u16(sub[0], sub[1]) == 4 {
            match spec_subset4(sub, requested, mapper) {
                Ok(b) => Ok(Some(b)),
                Err(e) => Err(e),
            }
        } else if be_u16(sub[0], sub[1]) == 12 {
            match spec_subset12(sub, requested, mapper) {
                Ok(b) => Ok(Some(b)),
                Err(e) => Err(e),
            }
        } else {
            Ok(None)
        }
    }
}

/// The kept records among the first `k` of the table `d`, with their subsetted subtables;
/// the first error stops.
pub open spec fn cmap_entries(d: Seq<u8>, requested: Seq<u16>, mapper: GlyphRemapper, k: int) -> Result<
    Seq<(EncodingRecord, Seq<u8>)>,
    Error,
>
    decreases k,
{
    if k <= 0 {
        Ok(Seq::empty())
    } else {
        match cmap_entries(d, requested, mapper, k - 1) {
            Err(e) => Err(e),
            Ok(prev) => if 4 + 8 * k > d.len() {
                Err(Error::MalformedFont)
            } else {
                let rec = record_at(d, 4 + 8 * (k - 1));
                match subsetted_subtable(d, rec, requested, mapper) {
                    Err(e) => Err(e),
                    Ok(None) => Ok(prev),
                    Ok(Some(b)) => Ok(prev.push((rec, b))),
                }
            },
        }
    }
}

/// The total length of the first `k` subtables.
pub open spec fn entries_len(es: Seq<(EncodingRecord, Seq<u8>)>, k: int) -> int
    decreases k,
{
    if k <= 0 {
        0
    } else {
        entries_len(es, k - 1) + es[k - 1].1.len()
    }
}

/// The first `k` records, each pointing at its subtable, the subtables following the records.
pub open spec fn entry_records(es: Seq<(EncodingRecord, Seq<u8>)>, k: int) -> Seq<u8>
    decreases k,
{
    if k <= 0 {
        Seq::empty()
    } else {
        let r = es[k - 1].0;
        entry_records(es, k - 1) + (EncodingRecord {
            platform_id: r.platform_id,
            encoding_id: r.encoding_id,
            subtable_offset: (4 + 8 * es.len() + entries_len(es, k - 1)) as u32,
        }).spec_bytes()
    }
}

/// The first `k` subtables, one after the other.
pub open spec fn entry_data(es: Seq<(EncodingRecord, Seq<u8>)>, k: int) -> Seq<u8>
    decreases k,
{
    if k <= 0 {
        Seq::empty()
    } else {
        entry_data(es, k - 1) + es[k - 1].1
    }
}

/// The subsetted `cmap` table `d`: version 0, the kept records and their subtables. A table
/// whose records are all left out is unsupported; offsets that do not fit in 32 bits, or
/// more records than the header's 16-bit arithmetic holds, are an overflow.
pub open spec fn spec_cmap(d: Seq<u8>, requested: Seq<u16>, mapper: GlyphRemapper) -> Result<
    Seq<u8>,
    Error,
> {
    if d.len() < 4 {
        Err(Error::MalformedFont)
    } else {
        let n = be_u16(d[2], d[3]);
        match cmap_entries(d, requested, mapper, n) {
            Err(e) => Err(e),
            Ok(es) => {
                let m = es.len() as int;
                if m == 0 && n != 0 {
                    Err(Error::Unimplemented)
                } else if m > 8191 || 4 + 8 * m + entries_len(es, m) > u32::MAX {
                    Err(Error::OverflowError)
                } else {
                    Ok(u16_bytes(0) + u16_bytes(m) + entry_records(es, m) + entry_data(es, m))
                }
            },
        }
    }
}

/// The records and subtables, by their bytes.
pub open spec fn entries_view(es: Seq<(EncodingRecord, Vec<u8>)>) -> Seq<(EncodingRecord, Seq<u8>)> {
    es.map_values(|e: (EncodingRecord, Vec<u8>)| (e.0, e.1@))
}

/// The subsetted subtable of a record, if it is kept.
fn subset_subtable(cmap: &[u8], record: EncodingRecord, requested: &[u16], mapper: &GlyphRemapper) -> (res: Result<Option<Vec<u8>>, Error>)
    requires
        mapper.wf(),
    ensures
        match subsetted_subtable(cmap@, record, requested@, *mapper) {
            Ok(Some(b)) => res matches Ok(Some(v)) && v@ == b,
            Ok(None) => res matches Ok(None),
            Err(e) => res matches Err(e2) && e2 == e,
        },
{
    proof {
        reveal(subsetted_subtable);
    }
    if !record.is_unicode() {
        return Ok(None);
    }
    let off = record.subtable_offset as usize;
    if off > cmap.len() {
        return Err(Error::MalformedFont);
    }
    let subtable_data = &cmap[off..cmap.len()];
    if subtable_data.len() < 2 {
        return Ok(None);
    }
    let format: u16 = subtable_data[0] as u16 * 256 + subtable_data[1] as u16;
    if format == 4 {
        match subset_subtable4(subtable_data, requested, mapper) {
            Ok(b) => Ok(Some(b)),
            Err(e) => Err(e),
        }
    } else if format == 12 {
        match subset_subtable12(subtable_data, requested, mapper) {
            Ok(b) => Ok(Some(b)),
            Err(e) => Err(e),
        }
    } else {
        // Other formats are left out.
        Ok(None)
    }
}

/// Once a record fails, the longer prefixes fail the same way.
proof fn lemma_cmap_entries_err(d: Seq<u8>, requested: Seq<u16>, mapper: GlyphRemapper, k: int, m: int)
    requires
        0 <= k <= m,
        cmap_entries(d, requested, mapper, k) is Err,
    ensures
        cmap_entries(d, requested, mapper, m) == cmap_entries(d, requested, mapper, k),
    decreases m - k,
{
    if k < m {
        lemma_cmap_entries_err(d, requested, mapper, k, m - 1);
    }
}

/// The kept records among the first `num_tables` of the table, with their subsetted
/// subtables.
fn collect_entries(cmap: &[u8], num_tables: u16, requested: &[u16], mapper: &GlyphRemapper) -> (res:
    Result<Vec<(EncodingRecord, Vec<u8>)>, Error>)
    requires
        mapper.wf(),
    ensures
        match cmap_entries(cmap@, requested@, *mapper, num_tables as int) {
            Ok(es) => res matches Ok(v) && entries_view(v@) == es,
            Err(e) => res matches Err(e2) && e2 == e,
        },
{
    let ghost d = cmap@;
    let mut reader = Reader::new_at(cmap, 4);
    let mut entries: Vec<(EncodingRecord, Vec<u8>)> = Vec::new();
    assert(entries_view(entries@) =~= Seq::<(EncodingRecord, Seq<u8>)>::empty());
    let mut i: usize = 0;
    while i < num_tables as usize
        invariant
            mapper.wf(),
            d == cmap@,
            i <= num_tables,
            reader.spec_data() == d,
            reader.spec_offset() == 4 + 8 * i,
            cmap_entries(d, requested@, *mapper, i as int) == Ok::<_, Error>(entries_view(entries@)),
        decreases num_tables - i,
    {
        let ghost before = entries_view(entries@);
        let record = match reader.read::<EncodingRecord>() {
            Some(r) => r,
            None => {
                proof {
                    lemma_cmap_entries_err(d, requested@, *mapper, i + 1, num_tables as int);
                }
                return Err(Error::MalformedFont);
            },
        };
        assert(reader.spec_data().subrange(4 + 8 * i, 4 + 8 * i + 8) =~= d.subrange(
            4 + 8 * i,
            4 + 8 * i + 8,
        ));
        match subset_subtable(cmap, record, requested, mapper) {
            Ok(Some(b)) => {
                entries.push((record, b));
                proof {
                    assert(entries_view(entries@) =~= before.push((record, b@)));
                }
            },
            Ok(None) => {},
            Err(e) => {
                proof {
                    lemma_cmap_entries_err(d, requested@, *mapper, i + 1, num_tables as int);
                }
                return Err(e);
            },
        }
        i = i + 1;
    }
    Ok(entries)
}

/// The total length of the subtables.
fn total_len(entries: &Vec<(EncodingRecord, Vec<u8>)>) -> (res: u128)
    requires
        entries@.len() <= 8191,
    ensures
        res == entries_len(entries_view(entries@), entries@.len() as int),
        res <= entries@.len() * 0x1_0000_0000_0000_0000,
{
    let ghost es = entries_view(entries@);
    let m = entries.len();
    let mut total: u128 = 0;
    let mut k: usize = 0;
    while k < m
        invariant
            k <= m,
            m == es.len(),
            m <= 8191,
            es == entries_view(entries@),
            total == entries_len(es, k as int),
            total <= k * 0x1_0000_0000_0000_0000,
        decreases m - k,
    {
        assert(entries@[k as int].1@.len() == es[k as int].1.len());
        total = total + entries[k].1.len() as u128;
        k = k + 1;
    }
    total
}

/// Write a `cmap` table of the given records and subtables.
fn write_cmap(entries: &Vec<(EncodingRecord, Vec<u8>)>) -> (res: Vec<u8>)
    requires
        entries@.len() <= 8191,
        4 + 8 * entries@.len() + entries_len(entries_view(entries@), entries@.len() as int)
            <= 0xFFFF_FFFF,
    ensures
        res@ == u16_bytes(0) + u16_bytes(entries@.len() as int) + entry_records(
            entries_view(entries@),
            entries@.len() as int,
        ) + entry_data(entries_view(entries@), entries@.len() as int),
{
    let ghost es = entries_view(entries@);
    let m = entries.len();
    let mut sub_cmap = Writer::new();
    0u16.write(&mut sub_cmap);
    (m as u16).write(&mut sub_cmap);
    let mut subtable_offset: u32 = (4 + 8 * m) as u32;
    let mut j: usize = 0;
    while j < m
        invariant
            j <= m,
            m == es.len(),
            m <= 8191,
            es == entries_view(entries@),
            4 + 8 * m + entries_len(es, m as int) <= 0xFFFF_FFFF,
            subtable_offset == 4 + 8 * m + entries_len(es, j as int),
            sub_cmap@ == u16_bytes(0) + u16_bytes(m as int) + entry_records(es, j as int),
        decreases m - j,
    {
        proof {
            lemma_entries_len_grows(es, j + 1, m as int);
        }
        let record = entries[j].0;
        let new_record = EncodingRecord {
            platform_id: record.platform_id,
            encoding_id: record.encoding_id,
            subtable_offset,
        };
        new_record.write(&mut sub_cmap);
        assert(entries@[j as int].1@.len() == es[j as int].1.len());
        subtable_offset = subtable_offset + entries[j].1.len() as u32;
        j = j + 1;
    }
    let mut j: usize = 0;
    while j < m
        invariant
            j <= m,
            m == es.len(),
            es == entries_view(entries@),
            sub_cmap@ == u16_bytes(0) + u16_bytes(m as int) + entry_records(es, m as int)
                + entry_data(es, j as int),
        decreases m - j,
    {
        assert(entries@[j as int].1@ == es[j as int].1);
        sub_cmap.extend(entries[j].1.as_slice());
        j = j + 1;
    }
    sub_cmap.finish()
}

/// Subset the `cmap` table: its Unicode subtables of format 4 and 12 are subsetted to the
/// requested glyphs, with their new IDs; the other subtables are left out.
pub fn subset(cmap: &[u8], requested: &[u16], mapper: &GlyphRemapper) -> (res: Result<Vec<u8>, Error>)
    requires
        mapper.wf(),
    ensures
        match spec_cmap(cmap@, requested@, *mapper) {
            Ok(b) => res matches Ok(v) && v@ == b,
            Err(e) => res matches Err(e2) && e2 == e,
        },
{
    if cmap.len() < 4 {
        return Err(Error::MalformedFont);
    }
    let num_tables: u16 = cmap[2] as u16 * 256 + cmap[3] as u16;
    let entries = match collect_entries(cmap, num_tables, requested, mapper) {
        Ok(e) => e,
        Err(e) => return Err(e),
    };
    let m = entries.len();
    if m == 0 && num_tables != 0 {
        // The font only contains non-Unicode subtables.
        return Err(Error::Unimplemented);
    }
    if m > 8191 {
        return Err(Error::OverflowError);
    }
    let total = total_len(&entries);
    if 4 + 8 * m as u128 + total > 0xFFFF_FFFF {
        return Err(Error::OverflowError);
    }
    Ok(write_cmap(&entries))
}

/// The total length grows with more subtables.
proof fn lemma_entries_len_grows(es: Seq<(EncodingRecord, Seq<u8>)>, i: int, j: int)
    requires
        0 <= i <= j,
    ensures
        entries_len(es, i) <= entries_len(es, j),
    decreases j - i,
{
    if i < j {
        lemma_entries_len_grows(es, i, j - 1);
    }
}

/// The subtable at the offset of a record, subsetted according to its format (4 or 12).
pub open spec fn subset_by_format(
    d: Seq<u8>,
    rec: EncodingRecord,
    requested: Seq<u16>,
    mapper: GlyphRemapper,
) -> Result<Seq<u8>, Error> {
    let sub = d.subrange(rec.subtable_offset as int, d.len() as int);
    if be_u16(sub[0], sub[1]) == 4 {
        spec_subset4(sub, requested, mapper)
    } else {
        spec_subset12(sub, requested, mapper)
    }
}

/// Each Unicode record among the first `k` (on the Unicode platform, or on the Windows
/// platform with the symbol, BMP or full repertoire encoding) whose subtable has format 4
/// or 12 is kept, with its subtable subsetted.
proof fn lemma_entries_keep(d: Seq<u8>, requested: Seq<u16>, mapper: GlyphRemapper, k: int)
    requires
        0 <= k,
        cmap_entries(d, requested, mapper, k) is Ok,
    ensures
        ({
            let es = cmap_entries(d, requested, mapper, k).unwrap();
            forall|j: int|
                #![trigger record_at(d, 4 + 8 * j)]
                0 <= j < k && (record_at(d, 4 + 8 * j).platform_id == 0 || (record_at(
                    d,
                    4 + 8 * j,
                ).platform_id == 3 && (record_at(d, 4 + 8 * j).encoding_id == 0 || record_at(
                    d,
                    4 + 8 * j,
                ).encoding_id == 1 || record_at(d, 4 + 8 * j).encoding_id == 10)))
                    && record_at(d, 4 + 8 * j).subtable_offset + 2 <= d.len() && (be_u16(
                    d[record_at(d, 4 + 8 * j).subtable_offset as int],
                    d[record_at(d, 4 + 8 * j).subtable_offset + 1],
                ) == 4 || be_u16(
                    d[record_at(d, 4 + 8 * j).subtable_offset as int],
                    d[record_at(d, 4 + 8 * j).subtable_offset + 1],
                ) == 12) ==> subset_by_format(d, record_at(d, 4 + 8 * j), requested, mapper) is Ok
                    && exists|i: int|
                    0 <= i < es.len() && es[i] == (
                        record_at(d, 4 + 8 * j),
                        subset_by_format(d, record_at(d, 4 + 8 * j), requested, mapper).unwrap(),
                    )
        }),
    decreases k,
{
    if k > 0 {
        if cmap_entries(d, requested, mapper, k - 1) is Err {
            assert(cmap_entries(d, requested, mapper, k) is Err);
        }
        lemma_entries_keep(d, requested, mapper, k - 1);
        let prev = cmap_entries(d, requested, mapper, k - 1).unwrap();
        let es = cmap_entries(d, requested, mapper, k).unwrap();
        let rec = record_at(d, 4 + 8 * (k - 1));
        reveal(subsetted_subtable);
        let sub = d.subrange(rec.subtable_offset as int, d.len() as int);
        assert forall|j: int|
            #![trigger record_at(d, 4 + 8 * j)]
            0 <= j < k && (record_at(d, 4 + 8 * j).platform_id == 0 || (record_at(
                d,
                4 + 8 * j,
            ).platform_id == 3 && (record_at(d, 4 + 8 * j).encoding_id == 0 || record_at(
                d,
                4 + 8 * j,
            ).encoding_id == 1 || record_at(d, 4 + 8 * j).encoding_id == 10)))
                && record_at(d, 4 + 8 * j).subtable_offset + 2 <= d.len() && (be_u16(
                d[record_at(d, 4 + 8 * j).subtable_offset as int],
                d[record_at(d, 4 + 8 * j).subtable_offset + 1],
            ) == 4 || be_u16(
                d[record_at(d, 4 + 8 * j).subtable_offset as int],
                d[record_at(d, 4 + 8 * j).subtable_offset + 1],
            ) == 12) implies subset_by_format(d, record_at(d, 4 + 8 * j), requested, mapper) is Ok
                && exists|i: int|
                0 <= i < es.len() && es[i] == (
                    record_at(d, 4 + 8 * j),
                    subset_by_format(d, record_at(d, 4 + 8 * j), requested, mapper).unwrap(),
                ) by {
            if j == k - 1 {
                assert(sub[0] == d[rec.subtable_offset as int]);
                assert(sub[1] == d[rec.subtable_offset + 1]);
                assert(es == prev.push((rec, subset_by_format(d, rec, requested, mapper).unwrap())));
                assert(es[prev.len() as int] == (rec, subset_by_format(d, rec, requested, mapper).unwrap()));
            } else {
                let i = choose|i: int|
                    0 <= i < prev.len() && prev[i] == (
                        record_at(d, 4 + 8 * j),
                        subset_by_format(d, record_at(d, 4 + 8 * j), requested, mapper).unwrap(),
                    );
                assert(es[i] == prev[i]);
            }
        }
    }
}

/// The record that the output holds for entry `i`: its platform and encoding, and the offset
/// of its subtable after the records and the subtables before it.
pub open spec fn entry_record(es: Seq<(EncodingRecord, Seq<u8>)>, i: int) -> EncodingRecord {
    EncodingRecord {
        platform_id: es[i].0.platform_id,
        encoding_id: es[i].0.encoding_id,
        subtable_offset: (4 + 8 * es.len() + entries_len(es, i)) as u32,
    }
}

/// The records take eight bytes each, in order.
proof fn lemma_records_layout(es: Seq<(EncodingRecord, Seq<u8>)>, k: int)
    requires
        0 <= k <= es.len(),
    ensures
        entry_records(es, k).len() == 8 * k,
        forall|i: int|
            0 <= i < k ==> #[trigger] entry_records(es, k).subrange(8 * i, 8 * i + 8)
                == entry_record(es, i).spec_bytes(),
    decreases k,
{
    if k > 0 {
        lemma_records_layout(es, k - 1);
        let prev = entry_records(es, k - 1);
        let b = entry_record(es, k - 1).spec_bytes();
        assert(entry_records(es, k) == prev + b);
        assert forall|i: int| 0 <= i < k implies #[trigger] entry_records(es, k).subrange(
            8 * i,
            8 * i + 8,
        ) == entry_record(es, i).spec_bytes() by {
            if i < k - 1 {
                assert((prev + b).subrange(8 * i, 8 * i + 8) =~= prev.subrange(8 * i, 8 * i + 8));
            } else {
                assert((prev + b).subrange(8 * i, 8 * i + 8) =~= b);
            }
        }
    }
}

/// The subtables follow one another, each after the total length of those before it.
proof fn lemma_data_layout(es: Seq<(EncodingRecord, Seq<u8>)>, k: int)
    requires
        0 <= k <= es.len(),
    ensures
        entry_data(es, k).len() == entries_len(es, k),
        forall|i: int|
            0 <= i < k ==> #[trigger] entry_data(es, k).subrange(
                entries_len(es, i),
                entries_len(es, i) + es[i].1.len(),
            ) == es[i].1,
    decreases k,
{
    if k > 0 {
        lemma_data_layout(es, k - 1);
        let prev = entry_data(es, k - 1);
        assert forall|i: int| 0 <= i < k implies #[trigger] entry_data(es, k).subrange(
            entries_len(es, i),
            entries_len(es, i) + es[i].1.len(),
        ) == es[i].1 by {
            lemma_entries_len_grows(es, 0, i);
            assert(entries_len(es, i + 1) == entries_len(es, i) + es[i].1.len());
            if i < k - 1 {
                lemma_entries_len_grows(es, i + 1, k - 1);
                assert((prev + es[k - 1].1).subrange(entries_len(es, i), entries_len(es, i)
                    + es[i].1.len()) =~= prev.subrange(
                    entries_len(es, i),
                    entries_len(es, i) + es[i].1.len(),
                ));
            } else {
                assert((prev + es[k - 1].1).subrange(entries_len(es, i), entries_len(es, i)
                    + es[i].1.len()) =~= es[i].1);
            }
        }
    }
}

/// The bytes of a subsetted `cmap` table with the given entries.
pub open spec fn cmap_bytes(es: Seq<(EncodingRecord, Seq<u8>)>) -> Seq<u8> {
    u16_bytes(0) + u16_bytes(es.len() as int) + entry_records(es, es.len() as int) + entry_data(
        es,
        es.len() as int,
    )
}

/// The output holds the number of records, and record `i` reads back as entry `i`'s record.
#[verifier::spinoff_prover]
proof fn lemma_output_record(es: Seq<(EncodingRecord, Seq<u8>)>, i: int)
    requires
        0 <= i < es.len() <= 8191,
        4 + 8 * es.len() + entries_len(es, es.len() as int) <= u32::MAX,
    ensures
        be_u16(cmap_bytes(es)[2], cmap_bytes(es)[3]) == es.len(),
        record_at(cmap_bytes(es), 4 + 8 * i) == entry_record(es, i),
        entry_record(es, i).subtable_offset == 4 + 8 * es.len() + entries_len(es, i),
{
    let m = es.len() as int;
    let out = cmap_bytes(es);
    let rs = entry_records(es, m);
    lemma_records_layout(es, m);
    lemma_entries_len_grows(es, i, m);
    lemma_entries_len_grows(es, 0, i);
    assert(out[2] == u16_bytes(m)[0] && out[3] == u16_bytes(m)[1]);
    let er = entry_record(es, i);
    assert(er.subtable_offset == 4 + 8 * m + entries_len(es, i));
    assert(out.subrange(4 + 8 * i, 12 + 8 * i) =~= rs.subrange(8 * i, 8 * i + 8));
    let eb = er.spec_bytes();
    crate::write::lemma_u16_roundtrip(er.platform_id);
    crate::write::lemma_u16_roundtrip(er.encoding_id);
    crate::write::lemma_u32_roundtrip(er.subtable_offset);
    assert(eb.subrange(0, 2) =~= er.platform_id.spec_bytes());
    assert(eb.subrange(2, 4) =~= er.encoding_id.spec_bytes());
    assert(eb.subrange(4, 8) =~= er.subtable_offset.spec_bytes());
}

/// The subtable of entry `i` lies in the output at the offset its record gives.
#[verifier::spinoff_prover]
proof fn lemma_output_data(es: Seq<(EncodingRecord, Seq<u8>)>, i: int)
    requires
        0 <= i < es.len(),
    ensures
        ({
            let off = 4 + 8 * es.len() + entries_len(es, i);
            &&& off + es[i].1.len() <= cmap_bytes(es).len()
            &&& cmap_bytes(es).subrange(off, off + es[i].1.len()) == es[i].1
        }),
{
    let m = es.len() as int;
    let out = cmap_bytes(es);
    let ds = entry_data(es, m);
    lemma_records_layout(es, m);
    lemma_data_layout(es, m);
    lemma_entries_len_grows(es, i + 1, m);
    lemma_entries_len_grows(es, 0, i);
    assert(entries_len(es, i + 1) == entries_len(es, i) + es[i].1.len());
    let off = 4 + 8 * m + entries_len(es, i);
    assert(out.subrange(off, off + es[i].1.len()) =~= ds.subrange(
        entries_len(es, i),
        entries_len(es, i) + es[i].1.len(),
    ));
}

/// Law: subsetting the `cmap` table keeps its Unicode subtables. For each record of the
/// input on the Unicode platform, or on the Windows platform with the symbol, BMP or full
/// repertoire (encoding 10) encoding, whose subtable has format 4 or 12, the output holds a
/// record with the same platform and encoding whose offset points at that subtable,
/// subsetted.
#[verifier::spinoff_prover]
#[verifier::rlimit(60)]
pub proof fn lemma_cmap_keeps_unicode(
    d: Seq<u8>,
    requested: Seq<u16>,
    mapper: GlyphRemapper,
    j: int,
    rec: EncodingRecord,
)
    requires
        d.len() >= 4,
        spec_cmap(d, requested, mapper) is Ok,
        0 <= j < be_u16(d[2], d[3]),
        rec == record_at(d, 4 + 8 * j),
        rec.platform_id == 0 || (rec.platform_id == 3 && (rec.encoding_id == 0 || rec.encoding_id
            == 1 || rec.encoding_id == 10)),
        rec.subtable_offset + 2 <= d.len(),
        be_u16(d[rec.subtable_offset as int], d[rec.subtable_offset + 1]) == 4 || be_u16(
            d[rec.subtable_offset as int],
            d[rec.subtable_offset + 1],
        ) == 12,
    ensures
        ({
            let out = spec_cmap(d, requested, mapper).unwrap();
            let b = subset_by_format(d, rec, requested, mapper).unwrap();
            exists|i: int|
                0 <= i < be_u16(out[2], out[3]) && #[trigger] record_at(out, 4 + 8 * i).platform_id
                    == rec.platform_id && record_at(out, 4 + 8 * i).encoding_id == rec.encoding_id
                    && record_at(out, 4 + 8 * i).subtable_offset + b.len() <= out.len()
                    && out.subrange(
                    record_at(out, 4 + 8 * i).subtable_offset as int,
                    record_at(out, 4 + 8 * i).subtable_offset + b.len(),
                ) == b
        }),
{
    let n = be_u16(d[2], d[3]);
    let es = cmap_entries(d, requested, mapper, n).unwrap();
    lemma_entries_keep(d, requested, mapper, n);
    assert(record_at(d, 4 + 8 * j) == rec);
    let b = subset_by_format(d, rec, requested, mapper).unwrap();
    let i = choose|i: int| 0 <= i < es.len() && es[i] == (rec, b);
    let out = cmap_bytes(es);
    assert(spec_cmap(d, requested, mapper).unwrap() == out);
    lemma_output_record(es, i);
    lemma_output_data(es, i);
    let r = record_at(out, 4 + 8 * i);
    assert(r == entry_record(es, i));
    assert(r.platform_id == rec.platform_id && r.encoding_id == rec.encoding_id);
    assert(out.subrange(r.subtable_offset as int, r.subtable_offset + b.len()) == b);
    assert(0 <= i < be_u16(out[2], out[3]));
}

} // verus!
