//! The font file: its table directory, the checksum of its tables, and the construction of a
//! new font from subsetted tables.
use crate::read::{be_u16, be_u32, lemma_has_rest, lemma_reader_rest, Readable, Reader};
use crate::write::{u16_bytes, u32_bytes, Writeable, Writer};
use crate::Error;
use vstd::prelude::*;

verus! {

/// A 4-byte OpenType tag.
#[derive(Clone, Copy, Debug)]
pub struct Tag(pub [u8; 4]);

impl Tag {
    /// The tag as a big-endian number; tags sort as these numbers do.
    pub open spec fn spec_value(&self) -> u32 {
        be_u32(self.0@[0], self.0@[1], self.0@[2], self.0@[3]) as u32
    }

    /// The tag as a big-endian number.
    pub fn value(&self) -> (res: u32)
        ensures
            res == self.spec_value(),
    {
        let b = self.0;
        ((b[0] as u32 * 256 + b[1] as u32) * 256 + b[2] as u32) * 256 + b[3] as u32
    }

    /// The tag with the given big-endian number.
    pub fn from_value(v: u32) -> (res: Tag)
        ensures
            res.spec_value() == v,
            res.0@ == u32_bytes(v as int),
    {
        let t = Tag([(v / 0x100_0000) as u8, (v / 0x1_0000 % 256) as u8, (v / 256 % 256) as u8, (v % 256) as u8]);
        assert(t.0@ =~= u32_bytes(v as int));
        t
    }
}

/// The tag `head`.
pub const HEAD: u32 = 0x68656164;
/// The tag `hhea`.
pub const HHEA: u32 = 0x68686561;
/// The tag `hmtx`.
pub const HMTX: u32 = 0x686d7478;
/// The tag `maxp`.
pub const MAXP: u32 = 0x6d617870;
/// The tag `name`.
pub const NAME: u32 = 0x6e616d65;
/// The tag `post`.
pub const POST: u32 = 0x706f7374;
/// The tag `glyf`.
pub const GLYF: u32 = 0x676c7966;
/// The tag `loca`.
pub const LOCA: u32 = 0x6c6f6361;
/// The tag `prep`.
pub const PREP: u32 = 0x70726570;
/// The tag `fpgm`.
pub const FPGM: u32 = 0x6670676d;
/// The tag `cvt `.
pub const CVT: u32 = 0x63767420;
/// The tag `CFF `.
pub const CFF: u32 = 0x43464620;
/// The tag `cmap`.
pub const CMAP: u32 = 0x636d6170;

impl Readable for Tag {
    open spec fn spec_size() -> nat { 4 }

    open spec fn spec_parse(bytes: Seq<u8>) -> Option<Tag> {
        Some(Tag::from_bytes(bytes))
    }

    fn size() -> usize { 4 }

    fn read(r: &mut Reader) -> (res: Option<Tag>) {
        proof {
            lemma_has_rest(*r, 4nat);
        }
        let b = r.read_bytes(4)?;
        let t = Tag([b[0], b[1], b[2], b[3]]);
        assert(t == Tag::from_bytes(b@));
        Some(t)
    }
}

impl Tag {
    /// The tag made of the first four bytes.
    pub open spec fn from_bytes(bytes: Seq<u8>) -> Tag {
        Tag([bytes[0], bytes[1], bytes[2], bytes[3]])
    }
}

impl Writeable for Tag {
    open spec fn spec_bytes(&self) -> Seq<u8> {
        self.0@
    }

    fn write(&self, w: &mut Writer) {
        w.push(self.0[0]);
        w.push(self.0[1]);
        w.push(self.0[2]);
        w.push(self.0[3]);
        assert(w@ =~= old(w)@ + self.0@);
    }
}

/// What kind of contents the font has.
#[derive(Debug, Copy, Clone, PartialEq, Eq, Structural)]
pub enum FontKind {
    /// TrueType outlines.
    TrueType,
    /// CFF outlines.
    Cff,
    /// A font collection.
    Collection,
}

/// The kind of font that a version number stands for.
pub open spec fn spec_font_kind(v: int) -> Option<FontKind> {
    if v == 0x00010000 || v == 0x74727565 {
        Some(FontKind::TrueType)
    } else if v == 0x4F54544F {
        Some(FontKind::Cff)
    } else if v == 0x74746366 {
        Some(FontKind::Collection)
    } else {
        None
    }
}

/// The version number written for a kind of font.
pub open spec fn spec_font_kind_value(k: FontKind) -> u32 {
    match k {
        FontKind::TrueType => 0x00010000,
        FontKind::Cff => 0x4F54544F,
        FontKind::Collection => 0x74746366,
    }
}

impl Readable for FontKind {
    open spec fn spec_size() -> nat { 4 }

    open spec fn spec_parse(bytes: Seq<u8>) -> Option<FontKind> {
        spec_font_kind(be_u32(bytes[0], bytes[1], bytes[2], bytes[3]))
    }

    fn size() -> usize { 4 }

    fn read(r: &mut Reader) -> (res: Option<FontKind>) {
        let v = r.read::<u32>()?;
        if v == 0x00010000 || v == 0x74727565 {
            Some(FontKind::TrueType)
        } else if v == 0x4F54544F {
            Some(FontKind::Cff)
        } else if v == 0x74746366 {
            Some(FontKind::Collection)
        } else {
            None
        }
    }
}

impl Writeable for FontKind {
    open spec fn spec_bytes(&self) -> Seq<u8> {
        u32_bytes(spec_font_kind_value(*self) as int)
    }

    fn write(&self, w: &mut Writer) {
        let v: u32 = match self {
            FontKind::TrueType => 0x00010000,
            FontKind::Cff => 0x4F54544F,
            FontKind::Collection => 0x74746366,
        };
        v.write(w);
    }
}

/// Locates a table in the font file.
#[derive(Debug, Copy, Clone)]
pub struct TableRecord {
    /// The tag of the table.
    pub tag: Tag,
    /// The checksum of the table.
    pub checksum: u32,
    /// The offset of the table from the start of the file.
    pub offset: u32,
    /// The length of the table.
    pub length: u32,
}

impl Readable for TableRecord {
    open spec fn spec_size() -> nat { 16 }

    open spec fn spec_parse(bytes: Seq<u8>) -> Option<TableRecord> {
        Some(
            TableRecord {
                tag: Tag::from_bytes(bytes),
                checksum: be_u32(bytes[4], bytes[5], bytes[6], bytes[7]) as u32,
                offset: be_u32(bytes[8], bytes[9], bytes[10], bytes[11]) as u32,
                length: be_u32(bytes[12], bytes[13], bytes[14], bytes[15]) as u32,
            },
        )
    }

    fn size() -> usize { 16 }

    fn read(r: &mut Reader) -> (res: Option<TableRecord>) {
        proof {
            lemma_has_rest(*r, 16nat);
        }
        let b = r.read_bytes(16)?;
        let tag = Tag([b[0], b[1], b[2], b[3]]);
        let checksum = ((b[4] as u32 * 256 + b[5] as u32) * 256 + b[6] as u32) * 256 + b[7] as u32;
        let offset = ((b[8] as u32 * 256 + b[9] as u32) * 256 + b[10] as u32) * 256 + b[11] as u32;
        let length = ((b[12] as u32 * 256 + b[13] as u32) * 256 + b[14] as u32) * 256
            + b[15] as u32;
        Some(TableRecord { tag, checksum, offset, length })
    }
}

impl Writeable for TableRecord {
    open spec fn spec_bytes(&self) -> Seq<u8> {
        self.tag.0@ + u32_bytes(self.checksum as int) + u32_bytes(self.offset as int) + u32_bytes(
            self.length as int,
        )
    }

    fn write(&self, w: &mut Writer) {
        self.tag.write(w);
        self.checksum.write(w);
        self.offset.write(w);
        self.length.write(w);
    }
}

/// A font face with OpenType tables.
pub struct Face<'a> {
    /// The data of the font file.
    pub data: &'a [u8],
    /// The table records.
    pub records: Vec<TableRecord>,
}

/// The big-endian 16-bit number at `p`.
pub open spec fn u16_at(d: Seq<u8>, p: int) -> int {
    be_u16(d[p], d[p + 1])
}

/// The big-endian 32-bit number at `p`.
pub open spec fn u32_at(d: Seq<u8>, p: int) -> int {
    be_u32(d[p], d[p + 1], d[p + 2], d[p + 3])
}

/// Where the table directory of font `index` of the file `d` starts.
pub open spec fn spec_face_start(d: Seq<u8>, index: u32) -> Result<int, Error> {
    if d.len() < 4 {
        Err(Error::UnknownKind)
    } else {
        match spec_font_kind(u32_at(d, 0)) {
            None => Err(Error::UnknownKind),
            Some(FontKind::Collection) => {
                let p = 12 + 4 * index;
                if p > usize::MAX || p + 4 > d.len() {
                    Err(Error::MalformedFont)
                } else {
                    let off = u32_at(d, p);
                    if off + 4 > d.len() {
                        Err(Error::MalformedFont)
                    } else {
                        match spec_font_kind(u32_at(d, off)) {
                            None => Err(Error::MalformedFont),
                            Some(FontKind::Collection) => Err(Error::MalformedFont),
                            Some(_) => Ok(off),
                        }
                    }
                }
            },
            Some(_) => Ok(0),
        }
    }
}

/// The table records of font `index` of the file `d`.
pub open spec fn spec_parse_face(d: Seq<u8>, index: u32) -> Result<Seq<TableRecord>, Error> {
    match spec_face_start(d, index) {
        Err(e) => Err(e),
        Ok(start) => if start + 12 > d.len() {
            Err(Error::MalformedFont)
        } else {
            let count = u16_at(d, start + 4);
            if start + 12 + 16 * count > d.len() {
                Err(Error::MalformedFont)
            } else {
                Ok(
                    Seq::new(
                        count as nat,
                        |i: int|
                            TableRecord::spec_parse(
                                d.subrange(start + 12 + 16 * i, start + 28 + 16 * i),
                            ).unwrap(),
                    ),
                )
            }
        },
    }
}

/// Parse a font face from OpenType data: the font `index` of a collection, or else the font.
pub fn parse(data: &[u8], index: u32) -> (res: Result<Face<'_>, Error>)
    ensures
        match spec_parse_face(data@, index) {
            Ok(records) => res matches Ok(face) && face.data@ == data@ && face.records@ == records,
            Err(e) => res matches Err(e2) && e2 == e,
        },
{
    let ghost d = data@;
    let mut r = Reader::new(data);
    proof {
        lemma_has_rest(r, 4nat);
    }
    let mut kind = match r.read::<FontKind>() {
        Some(k) => k,
        None => return Err(Error::UnknownKind),
    };
    assert(r.spec_data().subrange(0, 4) =~= d.subrange(0, 4));
    let mut start: usize = 0;
    // Parse the font collection header if necessary.
    if kind == FontKind::Collection {
        let p = match (index as usize).checked_mul(4) {
            Some(x) => match x.checked_add(12) {
                Some(y) => y,
                None => return Err(Error::MalformedFont),
            },
            None => return Err(Error::MalformedFont),
        };
        r = Reader::new_at(data, p);
        proof {
            lemma_has_rest(r, 4nat);
        }
        let offset = match r.read::<u32>() {
            Some(o) => o,
            None => return Err(Error::MalformedFont),
        };
        assert(r.spec_data().subrange(p as int, p + 4) =~= d.subrange(p as int, p + 4));
        if offset as usize > data.len() {
            return Err(Error::MalformedFont);
        }
        r = Reader::new_at(data, offset as usize);
        proof {
            lemma_has_rest(r, 4nat);
        }
        kind = match r.read::<FontKind>() {
            Some(k) => k,
            None => return Err(Error::MalformedFont),
        };
        assert(r.spec_data().subrange(offset as int, offset + 4) =~= d.subrange(
            offset as int,
            offset + 4,
        ));
        // A collection cannot be nested.
        if kind == FontKind::Collection {
            return Err(Error::MalformedFont);
        }
        start = offset as usize;
    }
    assert(r.spec_offset() == start + 4);
    assert(spec_face_start(d, index) == Ok::<int, Error>(start as int));
    // The number of table records, then the search range, entry selector and range shift.
    if data.len() < 12 || start > data.len() - 12 {
        return Err(Error::MalformedFont);
    }
    let count = match r.read::<u16>() {
        Some(c) => c,
        None => return Err(Error::MalformedFont),
    };
    assert(r.spec_data().subrange(start + 4, start + 6) =~= d.subrange(start + 4, start + 6));
    r.skip::<u16>();
    r.skip::<u16>();
    r.skip::<u16>();
    let ghost records_start = start + 12;
    assert(r.spec_offset() == records_start);
    let mut records: Vec<TableRecord> = Vec::new();
    let mut i: u16 = 0;
    while i < count
        invariant
            d == data@,
            r.spec_data() == d,
            i <= count,
            count == u16_at(d, start + 4),
            records_start == start + 12,
            records_start <= d.len(),
            spec_face_start(d, index) == Ok::<int, Error>(start as int),
            r.spec_offset() == records_start + 16 * i,
            r.spec_offset() <= d.len(),
            records@.len() == i,
            forall|j: int|
                0 <= j < i ==> #[trigger] records@[j] == TableRecord::spec_parse(
                    d.subrange(records_start + 16 * j, records_start + 16 + 16 * j),
                ).unwrap(),
        decreases count - i,
    {
        let ghost pos = r.spec_offset();
        let rec = match r.read::<TableRecord>() {
            Some(rec) => rec,
            None => {
                assert(records_start + 16 * count > d.len());
                return Err(Error::MalformedFont);
            },
        };
        assert(r.spec_data().subrange(pos, pos + 16) =~= d.subrange(pos, pos + 16));
        records.push(rec);
        i = i + 1;
    }
    let ghost recs = Seq::new(
        count as nat,
        |j: int|
            TableRecord::spec_parse(
                d.subrange(records_start + 16 * j, records_start + 16 + 16 * j),
            ).unwrap(),
    );
    assert(records@ =~= recs);
    Ok(Face { data, records })
}

/// Whether table records are sorted by their tags, without two with the same tag.
pub open spec fn records_sorted(records: Seq<TableRecord>) -> bool {
    forall|i: int, j: int|
        0 <= i < j < records.len() ==> records[i].tag.spec_value() < records[j].tag.spec_value()
}

/// The data of a table, if its record lies within the file.
pub open spec fn spec_record_data(d: Seq<u8>, rec: TableRecord) -> Option<Seq<u8>> {
    if rec.offset + rec.length <= d.len() && rec.offset + rec.length <= usize::MAX {
        Some(d.subrange(rec.offset as int, rec.offset + rec.length))
    } else {
        None
    }
}

/// The data of the table with a tag, as a binary search between records `lo` and `hi`
/// finds it: the middle record's tag sends the search left or right.
pub open spec fn spec_table_search(
    d: Seq<u8>,
    records: Seq<TableRecord>,
    tag: u32,
    lo: int,
    hi: int,
) -> Option<Seq<u8>>
    decreases hi - lo,
{
    if lo < 0 || hi > records.len() || lo >= hi {
        None
    } else {
        let mid = (lo + hi) / 2;
        let v = records[mid].tag.spec_value();
        if v == tag {
            spec_record_data(d, records[mid])
        } else if v < tag {
            spec_table_search(d, records, tag, mid + 1, hi)
        } else {
            spec_table_search(d, records, tag, lo, mid)
        }
    }
}

/// The data of the table with a tag, as a binary search over the table records finds it.
/// OpenType keeps the records sorted by tag; where they are not, a table that is there may
/// not be found.
pub open spec fn spec_table(d: Seq<u8>, records: Seq<TableRecord>, tag: u32) -> Option<Seq<u8>> {
    spec_table_search(d, records, tag, 0, records.len() as int)
}

/// The data of the table with a tag, found among all the records.
pub open spec fn spec_table_any(d: Seq<u8>, records: Seq<TableRecord>, tag: u32) -> Option<
    Seq<u8>,
> {
    if exists|i: int| 0 <= i < records.len() && records[i].tag.spec_value() == tag {
        spec_record_data(
            d,
            records[choose|i: int| 0 <= i < records.len() && records[i].tag.spec_value() == tag],
        )
    } else {
        None
    }
}

/// A table found by the search is the data of a record with its tag.
proof fn lemma_table_search_found(d: Seq<u8>, records: Seq<TableRecord>, tag: u32, lo: int, hi: int)
    ensures
        spec_table_search(d, records, tag, lo, hi) matches Some(t) ==> exists|i: int|
            0 <= i < records.len() && records[i].tag.spec_value() == tag && spec_record_data(
                d,
                records[i],
            ) == Some(t),
    decreases hi - lo,
{
    if !(lo < 0 || hi > records.len() || lo >= hi) {
        let mid = (lo + hi) / 2;
        lemma_table_search_found(d, records, tag, mid + 1, hi);
        lemma_table_search_found(d, records, tag, lo, mid);
    }
}

/// Among sorted records, the search between `lo` and `hi`, outside of which the tags are
/// smaller before and larger after, finds the table with the tag if there is one.
proof fn lemma_table_search_sorted(d: Seq<u8>, records: Seq<TableRecord>, tag: u32, lo: int, hi: int)
    requires
        records_sorted(records),
        0 <= lo,
        hi <= records.len(),
        forall|j: int| 0 <= j < lo ==> #[trigger] records[j].tag.spec_value() < tag,
        forall|j: int| hi <= j < records.len() ==> #[trigger] records[j].tag.spec_value() > tag,
    ensures
        spec_table_search(d, records, tag, lo, hi) == spec_table_any(d, records, tag),
    decreases hi - lo,
{
    if lo >= hi {
        assert forall|i: int| !(0 <= i < records.len() && records[i].tag.spec_value() == tag) by {
            if 0 <= i < lo {
            } else if hi <= i < records.len() {
            }
        }
    } else {
        let mid = (lo + hi) / 2;
        let v = records[mid].tag.spec_value();
        if v == tag {
            let k = choose|i: int| 0 <= i < records.len() && records[i].tag.spec_value() == tag;
            if k < mid {
                assert(records[k].tag.spec_value() < records[mid].tag.spec_value());
            } else if k > mid {
                assert(records[mid].tag.spec_value() < records[k].tag.spec_value());
            }
        } else if v < tag {
            assert forall|j: int| 0 <= j < mid + 1 implies #[trigger] records[j].tag.spec_value() < tag by {
                if j < mid {
                    assert(records[j].tag.spec_value() < records[mid].tag.spec_value());
                }
            }
            lemma_table_search_sorted(d, records, tag, mid + 1, hi);
        } else {
            assert forall|j: int| mid <= j < records.len() implies #[trigger] records[j].tag.spec_value() > tag by {
                if j > mid {
                    assert(records[mid].tag.spec_value() < records[j].tag.spec_value());
                }
            }
            lemma_table_search_sorted(d, records, tag, lo, mid);
        }
    }
}

/// Among records sorted by tag, the search finds the table with the tag if there is one.
pub proof fn lemma_table_sorted(d: Seq<u8>, records: Seq<TableRecord>, tag: u32)
    requires
        records_sorted(records),
    ensures
        spec_table(d, records, tag) == spec_table_any(d, records, tag),
{
    lemma_table_search_sorted(d, records, tag, 0, records.len() as int);
}

impl<'a> Face<'a> {
    /// The data of the table with the given tag. The table records are searched by binary
    /// search: when they are not sorted by tag, a table that is there may not be found.
    pub fn table(&self, tag: u32) -> (res: Option<&'a [u8]>)
        ensures
            match spec_table(self.data@, self.records@, tag) {
                Some(t) => res matches Some(s) && s@ == t,
                None => res is None,
            },
            res matches Some(s) ==> exists|i: int|
                0 <= i < self.records@.len() && self.records@[i].tag.spec_value() == tag
                    && spec_record_data(self.data@, self.records@[i]) == Some(s@),
    {
        let ghost recs = self.records@;
        let ghost d = self.data@;
        proof {
            lemma_table_search_found(d, recs, tag, 0, recs.len() as int);
        }
        let mut lo: usize = 0;
        let mut hi: usize = self.records.len();
        while lo < hi
            invariant
                recs == self.records@,
                d == self.data@,
                lo <= hi <= recs.len(),
                spec_table_search(d, recs, tag, lo as int, hi as int) == spec_table(d, recs, tag),
            decreases hi - lo,
        {
            let mid = lo + (hi - lo) / 2;
            assert(mid == (lo + hi) / 2);
            let v = self.records[mid].tag.value();
            if v == tag {
                let record = self.records[mid];
                let start = record.offset as usize;
                let end = match start.checked_add(record.length as usize) {
                    Some(e) => e,
                    None => return None,
                };
                if end > self.data.len() {
                    return None;
                }
                return Some(&self.data[start..end]);
            } else if v < tag {
                lo = mid + 1;
            } else {
                hi = mid;
            }
        }
        None
    }
}

/// The byte at `i`, or zero past the end.
pub open spec fn byte_or_zero(d: Seq<u8>, i: int) -> int {
    if 0 <= i < d.len() {
        d[i] as int
    } else {
        0
    }
}

/// The `k`-th big-endian 32-bit word of `d`, padded with zeros.
pub open spec fn word_at(d: Seq<u8>, k: int) -> int {
    ((byte_or_zero(d, 4 * k) * 256 + byte_or_zero(d, 4 * k + 1)) * 256 + byte_or_zero(d, 4 * k + 2))
        * 256 + byte_or_zero(d, 4 * k + 3)
}

/// The sum of the first `n` words of `d`.
pub open spec fn words_sum(d: Seq<u8>, n: int) -> int
    decreases n,
{
    if n <= 0 {
        0
    } else {
        words_sum(d, n - 1) + word_at(d, n - 1)
    }
}

/// The checksum of data: the sum, modulo 2^32, of its big-endian 32-bit words, the data
/// padded with zeros to a multiple of four bytes.
#[verifier::opaque]
pub open spec fn spec_checksum(d: Seq<u8>) -> u32 {
    (words_sum(d, (d.len() + 3) as int / 4) % 0x1_0000_0000) as u32
}

/// The word of `data` that starts at byte `i`.
fn word_of(data: &[u8], i: usize) -> (res: u32)
    requires
        i < data@.len(),
        i % 4 == 0,
    ensures
        res == word_at(data@, i as int / 4),
{
    let n = data.len();
    let b0 = data[i] as u32;
    let b1 = if n - i > 1 { data[i + 1] as u32 } else { 0 };
    let b2 = if n - i > 2 { data[i + 2] as u32 } else { 0 };
    let b3 = if n - i > 3 { data[i + 3] as u32 } else { 0 };
    assert(4 * (i / 4) == i);
    ((b0 * 256 + b1) * 256 + b2) * 256 + b3
}

/// Adding to a sum modulo 2^32.
proof fn lemma_sum_mod(a: int, w: u32)
    ensures
        ((a % 0x1_0000_0000) as u32 + w) % 0x1_0000_0000 == (a + w) % 0x1_0000_0000,
{
    let m = 0x1_0000_0000int;
    vstd::arithmetic::div_mod::lemma_add_mod_noop(a, w as int, m);
    vstd::arithmetic::div_mod::lemma_mod_twice(w as int, m);
    vstd::arithmetic::div_mod::lemma_mod_bound(a, m);
}

/// Calculate a checksum over the data as a sum of u32s. If the data length is not a
/// multiple of four, it is treated as if padded with zero to a length that is a multiple of
/// four.
pub fn checksum(data: &[u8]) -> (res: u32)
    ensures
        res == spec_checksum(data@),
{
    reveal(spec_checksum);
    let ghost d = data@;
    let n = data.len();
    let mut sum: u32 = 0;
    let mut i: usize = 0;
    while i < n
        invariant
            d == data@,
            n == d.len(),
            i <= n,
            i % 4 == 0 || i == n,
            sum == words_sum(d, (i + 3) / 4) % 0x1_0000_0000,
        decreases n - i,
    {
        let word = word_of(data, i);
        proof {
            let k = (i / 4) as int;
            assert((i + 3) / 4 == k);
            assert(words_sum(d, k + 1) == words_sum(d, k) + word);
            lemma_sum_mod(words_sum(d, k), word);
        }
        sum = sum.wrapping_add(word);
        if n - i <= 4 {
            i = n;
        } else {
            i = i + 4;
        }
    }
    sum
}

/// The data `b` with `bytes` written at `at`.
pub open spec fn splice(b: Seq<u8>, at: int, bytes: Seq<u8>) -> Seq<u8> {
    b.subrange(0, at) + bytes + b.subrange(at + bytes.len(), b.len() as int)
}

/// Writing a 32-bit value into a zero word, at a multiple of four, adds the value to the
/// checksum.
pub proof fn lemma_checksum_patch(d: Seq<u8>, p: int, val: u32)
    requires
        0 <= p,
        p % 4 == 0,
        p + 4 <= d.len(),
        d[p] == 0 && d[p + 1] == 0 && d[p + 2] == 0 && d[p + 3] == 0,
    ensures
        spec_checksum(splice(d, p, u32_bytes(val as int))) as int == (spec_checksum(d) + val)
            % 0x1_0000_0000,
{
    reveal(spec_checksum);
    let d2 = splice(d, p, u32_bytes(val as int));
    assert(d2.len() == d.len());
    let n = (d.len() + 3) as int / 4;
    let k = p / 4;
    assert forall|j: int| 0 <= j < n && j != k implies #[trigger] word_at(d2, j) == word_at(d, j) by {
        assert(byte_or_zero(d2, 4 * j) == byte_or_zero(d, 4 * j));
        assert(byte_or_zero(d2, 4 * j + 1) == byte_or_zero(d, 4 * j + 1));
        assert(byte_or_zero(d2, 4 * j + 2) == byte_or_zero(d, 4 * j + 2));
        assert(byte_or_zero(d2, 4 * j + 3) == byte_or_zero(d, 4 * j + 3));
    }
    assert(word_at(d, k) == 0);
    assert(word_at(d2, k) == val) by {
        crate::write::lemma_u32_roundtrip(val);
        assert(d2[p] == u32_bytes(val as int)[0]);
        assert(d2[p + 1] == u32_bytes(val as int)[1]);
        assert(d2[p + 2] == u32_bytes(val as int)[2]);
        assert(d2[p + 3] == u32_bytes(val as int)[3]);
    }
    lemma_words_sum_patch(d, d2, n, k, val as int);
    let m = 0x1_0000_0000int;
    vstd::arithmetic::div_mod::lemma_add_mod_noop(words_sum(d, n), val as int, m);
    vstd::arithmetic::div_mod::lemma_mod_twice(val as int, m);
}

/// Sums of words that differ in one word only, by the value `val` there.
proof fn lemma_words_sum_patch(d: Seq<u8>, d2: Seq<u8>, n: int, k: int, val: int)
    requires
        0 <= k < n,
        forall|j: int| 0 <= j < n && j != k ==> #[trigger] word_at(d2, j) == word_at(d, j),
        word_at(d, k) == 0,
        word_at(d2, k) == val,
    ensures
        words_sum(d2, n) == words_sum(d, n) + val,
    decreases n,
{
    if n - 1 > k {
        lemma_words_sum_patch(d, d2, n - 1, k, val);
    } else {
        lemma_words_sum_same(d, d2, k);
    }
}

/// Sums of words that agree.
proof fn lemma_words_sum_same(d: Seq<u8>, d2: Seq<u8>, n: int)
    requires
        forall|j: int| 0 <= j < n ==> #[trigger] word_at(d2, j) == word_at(d, j),
    ensures
        words_sum(d2, n) == words_sum(d, n),
    decreases n,
{
    if n > 0 {
        lemma_words_sum_same(d, d2, n - 1);
    }
}

/// 2 to the power `e`.
pub open spec fn pow2i(e: int) -> int
    decreases e,
{
    if e <= 0 {
        1
    } else {
        2 * pow2i(e - 1)
    }
}

/// The floor of the binary logarithm (0 for 0 and 1).
pub open spec fn floor_log2(n: int) -> int
    decreases n,
{
    if n <= 1 {
        0
    } else {
        1 + floor_log2(n / 2)
    }
}

/// The table directory header of a font with `n` tables: the kind, the number of tables,
/// and the search range, entry selector and range shift.
#[verifier::opaque]
pub open spec fn directory_header(kind: FontKind, n: int) -> Seq<u8> {
    let es = floor_log2(n);
    let sr = pow2i(es) * 16;
    u32_bytes(spec_font_kind_value(kind) as int) + u16_bytes(n) + u16_bytes(sr) + u16_bytes(es)
        + u16_bytes(n * 16 - sr)
}

/// The search range, entry selector and range shift for `count` tables.
fn directory_params(count: u16) -> (res: (u16, u16, u16))
    requires
        1 <= count <= 4095,
    ensures
        res.1 == floor_log2(count as int),
        res.0 == pow2i(floor_log2(count as int)) * 16,
        res.2 == count * 16 - pow2i(floor_log2(count as int)) * 16,
{
    let mut es: u16 = 0;
    let mut m: u16 = count;
    let mut p: u16 = 1;
    while m > 1
        invariant
            1 <= m <= count,
            1 <= p,
            p * m <= count,
            count <= 4095,
            p == pow2i(es as int),
            floor_log2(count as int) == es + floor_log2(m as int),
            p >= es + 1,
        decreases m,
    {
        assert(p * (m / 2) * 2 <= p * m) by (nonlinear_arith)
            requires
                m >= 2,
                p >= 1,
        ;
        assert(p * 2 * (m / 2) == p * (m / 2) * 2) by (nonlinear_arith);
        assert(p * 2 <= 4095) by (nonlinear_arith)
            requires
                p * m <= 4095,
                m >= 2,
        ;
        m = m / 2;
        p = p * 2;
        es = es + 1;
    }
    assert(p <= count);
    let sr = p * 16;
    (sr, es, count * 16 - sr)
}

/// A table's tag and data, by their values.
pub open spec fn tables_view(t: Seq<(u32, Vec<u8>)>) -> Seq<(u32, Seq<u8>)> {
    t.map_values(|p: (u32, Vec<u8>)| (p.0, p.1@))
}

/// Whether the tags of tables increase.
pub open spec fn tags_sorted(t: Seq<(u32, Seq<u8>)>) -> bool {
    forall|i: int, j: int| 0 <= i < j < t.len() ==> t[i].0 < t[j].0
}

/// Whether no two tables have the same tag.
pub open spec fn tags_distinct(t: Seq<(u32, Seq<u8>)>) -> bool {
    forall|i: int, j: int| 0 <= i < t.len() && 0 <= j < t.len() && i != j ==> t[i].0 != t[j].0
}

/// Sort tables by their tags.
pub fn sort_tables(tables: Vec<(u32, Vec<u8>)>) -> (res: Vec<(u32, Vec<u8>)>)
    requires
        tags_distinct(tables_view(tables@)),
    ensures
        tags_sorted(tables_view(res@)),
        res@.len() == tables@.len(),
        forall|x: (u32, Seq<u8>)| tables_view(res@).contains(x) <==> tables_view(tables@).contains(x),
{
    let ghost all = tables_view(tables@);
    let mut rest = tables;
    let mut sorted: Vec<(u32, Vec<u8>)> = Vec::new();
    let n = rest.len();
    let mut i: usize = 0;
    while i < n
        invariant
            n == all.len(),
            i <= n,
            tags_distinct(all),
            tables_view(rest@) == all.subrange(i as int, n as int),
            sorted@.len() == i,
            tags_sorted(tables_view(sorted@)),
            forall|x: (u32, Seq<u8>)| tables_view(sorted@).contains(x) <==> all.subrange(0, i as int).contains(x),
        decreases n - i,
    {
        let ghost old_rest = rest@;
        assert(tables_view(old_rest).len() == old_rest.len());
        let t = rest.remove(0);
        let ghost tv = (t.0, t.1@);
        assert(tables_view(old_rest)[0] == all.subrange(i as int, n as int)[0]);
        assert(tv == all[i as int]);
        let ghost sv = tables_view(sorted@);
        // Every table so far has another tag.
        assert forall|j: int| 0 <= j < sv.len() implies #[trigger] sv[j].0 != tv.0 by {
            assert(sv.contains(sv[j]));
            assert(all.subrange(0, i as int).contains(sv[j]));
            let k = choose|k: int| 0 <= k < i && #[trigger] all.subrange(0, i as int)[k] == sv[j];
            assert(all[k] == sv[j]);
        }
        let mut pos: usize = 0;
        while pos < sorted.len() && sorted[pos].0 < t.0
            invariant
                pos <= sorted@.len(),
                sv == tables_view(sorted@),
                tv.0 == t.0,
                forall|j: int| 0 <= j < pos ==> #[trigger] sv[j].0 < tv.0,
            decreases sorted@.len() - pos,
        {
            pos = pos + 1;
        }
        sorted.insert(pos, t);
        proof {
            let nv = tables_view(sorted@);
            assert(nv =~= sv.insert(pos as int, tv));
            assert forall|a: int, b: int| 0 <= a < b < nv.len() implies nv[a].0 < nv[b].0 by {
                if b < pos {
                } else if b == pos {
                } else if a < pos {
                    assert(nv[b] == sv[b - 1]);
                    if pos < sv.len() {
                        assert(sv[pos as int].0 > tv.0);
                    }
                } else if a == pos {
                    assert(nv[b] == sv[b - 1]);
                    assert(sv[pos as int].0 >= tv.0);
                    assert(sv[pos as int].0 != tv.0);
                    if b - 1 > pos {
                        assert(sv[pos as int].0 < sv[b - 1].0);
                    }
                } else {
                    assert(nv[a] == sv[a - 1]);
                    assert(nv[b] == sv[b - 1]);
                }
            }
            assert forall|x: (u32, Seq<u8>)| nv.contains(x) <==> all.subrange(0, i + 1).contains(x) by {
                if nv.contains(x) {
                    let k = choose|k: int| 0 <= k < nv.len() && nv[k] == x;
                    if k < pos {
                        assert(sv[k] == x);
                        assert(sv.contains(x));
                        let q = choose|q: int| 0 <= q < i && #[trigger] all.subrange(0, i as int)[q] == x;
                        assert(all.subrange(0, i + 1)[q] == x);
                    } else if k == pos {
                        assert(all.subrange(0, i + 1)[i as int] == x);
                    } else {
                        assert(sv[k - 1] == x);
                        assert(sv.contains(x));
                        let q = choose|q: int| 0 <= q < i && #[trigger] all.subrange(0, i as int)[q] == x;
                        assert(all.subrange(0, i + 1)[q] == x);
                    }
                }
                if all.subrange(0, i + 1).contains(x) {
                    let q = choose|q: int| 0 <= q < i + 1 && #[trigger] all.subrange(0, i + 1)[q] == x;
                    if q == i {
                        assert(nv[pos as int] == x);
                    } else {
                        assert(all.subrange(0, i as int)[q] == x);
                        assert(sv.contains(x));
                        let k = choose|k: int| 0 <= k < sv.len() && sv[k] == x;
                        if k < pos {
                            assert(nv[k] == x);
                        } else {
                            assert(nv[k + 1] == x);
                        }
                    }
                }
            }
            assert(rest@ =~= old_rest.subrange(1, old_rest.len() as int));
            assert forall|k: int| 0 <= k < rest@.len() implies #[trigger] tables_view(rest@)[k]
                == all.subrange(i + 1, n as int)[k] by {
                assert(rest@[k] == old_rest[k + 1]);
                assert(tables_view(old_rest)[k + 1] == all.subrange(i as int, n as int)[k + 1]);
            }
            assert(tables_view(rest@) =~= all.subrange(i + 1, n as int));
        }
        i = i + 1;
    }
    assert(all.subrange(0, n as int) =~= all);
    sorted
}

/// The length rounded up to a multiple of four.
pub open spec fn pad4(n: int) -> int {
    n + (4 - n % 4) % 4
}

/// The offset of table `i` in a font with the tables `ts`, each padded to four bytes.
pub open spec fn table_offset(ts: Seq<(u32, Seq<u8>)>, i: int) -> int
    decreases i,
{
    if i <= 0 {
        12 + 16 * ts.len() as int
    } else {
        pad4(table_offset(ts, i - 1) + ts[i - 1].1.len())
    }
}

/// The data of a table as it is written: the `head` table with its checksum adjustment
/// zeroed.
pub open spec fn zeroed_data(t: (u32, Seq<u8>)) -> Seq<u8> {
    if t.0 == HEAD && t.1.len() >= 12 {
        t.1.subrange(0, 8) + seq![0u8, 0u8, 0u8, 0u8] + t.1.subrange(12, t.1.len() as int)
    } else {
        t.1
    }
}

/// Data followed by the zeros that pad it to a multiple of four bytes.
pub open spec fn zero_padded(s: Seq<u8>) -> Seq<u8> {
    s + Seq::new(((4 - s.len() % 4) % 4) as nat, |i: int| 0u8)
}

/// The table record of table `i`.
pub open spec fn record_bytes(ts: Seq<(u32, Seq<u8>)>, i: int) -> Seq<u8> {
    u32_bytes(ts[i].0 as int) + u32_bytes(spec_checksum(zeroed_data(ts[i])) as int) + u32_bytes(
        (table_offset(ts, i) as u32) as int,
    ) + u32_bytes((ts[i].1.len() as u32) as int)
}

/// The first `k` table records.
pub open spec fn records_bytes(ts: Seq<(u32, Seq<u8>)>, k: int) -> Seq<u8>
    decreases k,
{
    if k <= 0 {
        Seq::empty()
    } else {
        records_bytes(ts, k - 1) + record_bytes(ts, k - 1)
    }
}

/// The first `k` tables, each padded.
pub open spec fn tables_bytes(ts: Seq<(u32, Seq<u8>)>, k: int) -> Seq<u8>
    decreases k,
{
    if k <= 0 {
        Seq::empty()
    } else {
        tables_bytes(ts, k - 1) + zero_padded(zeroed_data(ts[k - 1]))
    }
}

/// The font before its checksum adjustment is written: directory header, table records and
/// tables.
#[verifier::opaque]
pub open spec fn spec_font_unadjusted(kind: FontKind, ts: Seq<(u32, Seq<u8>)>) -> Seq<u8> {
    directory_header(kind, ts.len() as int) + records_bytes(ts, ts.len() as int) + tables_bytes(
        ts,
        ts.len() as int,
    )
}

/// Whether the tables hold a `head` table.
pub open spec fn has_head(ts: Seq<(u32, Seq<u8>)>) -> bool {
    exists|h: int| 0 <= h < ts.len() && ts[h].0 == HEAD
}

/// The position of the `head` table.
pub open spec fn head_index(ts: Seq<(u32, Seq<u8>)>) -> int {
    choose|h: int| 0 <= h < ts.len() && ts[h].0 == HEAD
}

/// The font made of tables sorted by tag: when there is a `head` table, its checksum
/// adjustment is written so that the checksum of the whole font is 0xB1B0AFBA.
pub open spec fn spec_construct(kind: FontKind, ts: Seq<(u32, Seq<u8>)>) -> Seq<u8> {
    let f = spec_font_unadjusted(kind, ts);
    if has_head(ts) {
        splice(
            f,
            table_offset(ts, head_index(ts)) + 8,
            u32_bytes(
                vstd::wrapping::u32_specs::wrapping_sub(0xB1B0AFBAu32, spec_checksum(f)) as int,
            ),
        )
    } else {
        f
    }
}

/// Whether `ts` is the tables `input` sorted by tag.
pub open spec fn is_sorting(ts: Seq<(u32, Seq<u8>)>, input: Seq<(u32, Seq<u8>)>) -> bool {
    &&& tags_sorted(ts)
    &&& ts.len() == input.len()
    &&& forall|x: (u32, Seq<u8>)| ts.contains(x) <==> input.contains(x)
}

/// A copy of a table's data with the checksum adjustment zeroed if it is the `head` table.
fn zeroed_copy(tag: u32, data: &Vec<u8>) -> (res: Vec<u8>)
    requires
        tag == HEAD ==> data@.len() >= 12,
    ensures
        res@ == zeroed_data((tag, data@)),
{
    let mut v = data.clone();
    assert(v@ =~= data@);
    if tag == HEAD {
        v.set(8, 0);
        v.set(9, 0);
        v.set(10, 0);
        v.set(11, 0);
        assert(v@ =~= zeroed_data((tag, data@)));
    }
    v
}

/// Zeroing the checksum adjustment keeps the length.
pub proof fn lemma_zeroed_len(t: (u32, Seq<u8>))
    ensures
        zeroed_data(t).len() == t.1.len(),
{
}

/// The next table offset: after `len` bytes at `offset`, padded to four bytes.
fn next_offset(offset: usize, len: usize) -> (res: Option<usize>)
    ensures
        offset + len + (4 - (offset + len) % 4) % 4 <= usize::MAX ==> res == Some(
            pad4(offset + len) as usize,
        ),
        offset + len + (4 - (offset + len) % 4) % 4 > usize::MAX ==> res is None,
{
    let end = offset.checked_add(len)?;
    let pad = (4 - end % 4) % 4;
    if end > usize::MAX - pad {
        return None;
    }
    Some(end + pad)
}

/// Write the record of a table.
fn write_record(w: &mut Writer, tag: u32, data: &Vec<u8>, offset: usize)
    ensures
        final(w)@ == old(w)@ + u32_bytes(tag as int) + u32_bytes(spec_checksum(data@) as int)
            + u32_bytes((offset as u32) as int) + u32_bytes((data@.len() as u32) as int),
{
    let record = TableRecord {
        tag: Tag::from_value(tag),
        checksum: checksum(data.as_slice()),
        offset: offset as u32,
        length: data.len() as u32,
    };
    record.write(w);
}

/// The multiple of four that padding reaches.
proof fn lemma_align(len: int, q: int)
    requires
        len >= 0,
        q % 4 == 0,
        len <= q < len + 4,
    ensures
        q == pad4(len),
{
}

/// Write the table records; the result is the offsets of the tables and where they end.
#[verifier::rlimit(40)]
fn write_records(w: &mut Writer, tables: &Vec<(u32, Vec<u8>)>, datas: &Vec<Vec<u8>>) -> (res:
    Option<Vec<usize>>)
    requires
        tables@.len() <= 4095,
        datas@.len() == tables@.len(),
        forall|j: int|
            0 <= j < tables@.len() ==> #[trigger] datas@[j]@ == zeroed_data(
                tables_view(tables@)[j],
            ),
    ensures
        ({
            let ts = tables_view(tables@);
            let n = ts.len() as int;
            match res {
                Some(offs) => {
                    &&& final(w)@ == old(w)@ + records_bytes(ts, n)
                    &&& offs@.len() == n + 1
                    &&& forall|j: int| 0 <= j <= n ==> #[trigger] offs@[j] == table_offset(ts, j)
                },
                None => table_offset(ts, n) > usize::MAX,
            }
        }),
{
    let ghost ts = tables_view(tables@);
    let n = tables.len();
    let mut offs: Vec<usize> = Vec::new();
    let mut offset: usize = 12 + n * 16;
    offs.push(offset);
    let mut i: usize = 0;
    while i < n
        invariant
            i <= n,
            n == ts.len(),
            ts == tables_view(tables@),
            datas@.len() == n,
            forall|j: int| 0 <= j < n ==> #[trigger] datas@[j]@ == zeroed_data(ts[j]),
            offset == table_offset(ts, i as int),
            offs@.len() == i + 1,
            forall|j: int| 0 <= j <= i ==> #[trigger] offs@[j] == table_offset(ts, j),
            w@ == old(w)@ + records_bytes(ts, i as int),
        decreases n - i,
    {
        let tag = tables[i].0;
        assert(tag == ts[i as int].0);
        proof {
            lemma_zeroed_len(ts[i as int]);
        }
        write_record(w, tag, &datas[i], offset);
        assert(w@ =~= old(w)@ + records_bytes(ts, i + 1));
        offset = match next_offset(offset, datas[i].len()) {
            Some(o) => o,
            None => {
                proof {
                    lemma_table_offset_grows(ts, i + 1, n as int);
                }
                return None;
            },
        };
        offs.push(offset);
        i = i + 1;
    }
    Some(offs)
}

/// Write the tables, each padded with zeros to align to 4 bytes.
fn write_tables(w: &mut Writer, tables: &Vec<(u32, Vec<u8>)>, datas: &Vec<Vec<u8>>)
    requires
        old(w)@.len() == table_offset(tables_view(tables@), 0),
        table_offset(tables_view(tables@), tables@.len() as int) <= usize::MAX,
        datas@.len() == tables@.len(),
        forall|j: int|
            0 <= j < tables@.len() ==> #[trigger] datas@[j]@ == zeroed_data(
                tables_view(tables@)[j],
            ),
    ensures
        final(w)@ == old(w)@ + tables_bytes(tables_view(tables@), tables@.len() as int),
{
    let ghost ts = tables_view(tables@);
    let n = datas.len();
    let mut i: usize = 0;
    while i < n
        invariant
            i <= n,
            n == ts.len(),
            ts == tables_view(tables@),
            datas@.len() == n,
            forall|j: int| 0 <= j < n ==> #[trigger] datas@[j]@ == zeroed_data(ts[j]),
            w@ == old(w)@ + tables_bytes(ts, i as int),
            w@.len() == table_offset(ts, i as int),
            table_offset(ts, n as int) <= usize::MAX,
        decreases n - i,
    {
        let ghost before = w@;
        let ghost z = zeroed_data(ts[i as int]);
        proof {
            lemma_zeroed_len(ts[i as int]);
            lemma_table_offset_grows(ts, i as int, i as int);
            lemma_table_offset_grows(ts, i + 1, n as int);
        }
        w.extend(datas[i].as_slice());
        let ghost mid = w@;
        w.align(4);
        proof {
            lemma_align(mid.len() as int, w@.len() as int);
            let zp = zero_padded(z);
            assert(w@.len() == before.len() + zp.len());
            assert forall|k: int| 0 <= k < w@.len() implies #[trigger] w@[k] == (before + zp)[k] by {
                if k < mid.len() {
                    assert(w@.subrange(0, mid.len() as int)[k] == mid[k]);
                }
            }
            assert(w@ =~= before + zp);
            assert(w@ =~= old(w)@ + tables_bytes(ts, i + 1));
        }
        i = i + 1;
    }
}

/// Write the checksum adjustment of the head table, if there is one, into the font `f`.
fn write_checksum_adjustment(
    kind: FontKind,
    data: Vec<u8>,
    tables: &Vec<(u32, Vec<u8>)>,
    offsets: &Vec<usize>,
) -> (res: Vec<u8>)
    requires
        tags_sorted(tables_view(tables@)),
        data@ == spec_font_unadjusted(kind, tables_view(tables@)),
        offsets@.len() == tables@.len() + 1,
        forall|j: int|
            0 <= j <= tables@.len() ==> #[trigger] offsets@[j] == table_offset(
                tables_view(tables@),
                j,
            ),
        forall|j: int|
            0 <= j < tables@.len() && tables_view(tables@)[j].0 == HEAD ==> tables_view(
                tables@,
            )[j].1.len() >= 12,
    ensures
        res@ == spec_construct(kind, tables_view(tables@)),
{
    let ghost ts = tables_view(tables@);
    let ghost f = data@;
    let n = tables.len();
    let mut data = data;
    assert(offsets@[n as int] == table_offset(ts, n as int));
    // The offset of the checksum adjustment field of the head table, which is written after
    // checksumming the whole font.
    let mut checksum_adjustment_offset: Option<usize> = None;
    let mut i: usize = 0;
    while i < n
        invariant
            i <= n,
            n == tables@.len(),
            f == data@,
            f == spec_font_unadjusted(kind, ts),
            ts == tables_view(tables@),
            tags_sorted(ts),
            offsets@.len() == n + 1,
            table_offset(ts, n as int) <= usize::MAX,
            forall|j: int| 0 <= j <= n ==> #[trigger] offsets@[j] == table_offset(ts, j),
            forall|j: int| 0 <= j < n && ts[j].0 == HEAD ==> ts[j].1.len() >= 12,
            match checksum_adjustment_offset {
                Some(p) => has_head(ts) && p == table_offset(ts, head_index(ts)) + 8,
                None => forall|j: int| 0 <= j < i ==> ts[j].0 != HEAD,
            },
        decreases n - i,
    {
        if tables[i].0 == HEAD {
            proof {
                assert(ts[i as int].0 == HEAD);
                assert(has_head(ts));
                let h = head_index(ts);
                if h != i {
                    if h < i {
                        assert(ts[h].0 < ts[i as int].0);
                    } else {
                        assert(ts[i as int].0 < ts[h].0);
                    }
                }
                lemma_table_offset_grows(ts, i as int, n as int);
                lemma_table_offset_grows(ts, i + 1, n as int);
                lemma_zeroed_len(ts[i as int]);
            }
            checksum_adjustment_offset = Some(offsets[i] + 8);
        }
        i = i + 1;
    }
    proof {
        if has_head(ts) {
            let h = head_index(ts);
            assert(ts[h].0 == HEAD);
        }
    }
    if let Some(p) = checksum_adjustment_offset {
        let sum = checksum(data.as_slice());
        let val = 0xB1B0AFBAu32.wrapping_sub(sum);
        proof {
            lemma_head_in_font(kind, ts);
        }
        data.set(p, (val / 0x100_0000) as u8);
        data.set(p + 1, (val / 0x1_0000 % 256) as u8);
        data.set(p + 2, (val / 256 % 256) as u8);
        data.set(p + 3, (val % 256) as u8);
        assert(data@ =~= splice(f, p as int, u32_bytes(val as int)));
    }
    data
}

/// Construct a brand-new font from its tables: sorted by tag, with a table directory and
/// each table padded to four bytes; the checksum adjustment of the `head` table is written
/// last. Fails when the font would not fit in memory.
pub fn construct(kind: FontKind, tables: Vec<(u32, Vec<u8>)>) -> (res: Result<Vec<u8>, Error>)
    requires
        tags_distinct(tables_view(tables@)),
        1 <= tables@.len() <= 4095,
        forall|i: int|
            0 <= i < tables@.len() && (#[trigger] tables@[i]).0 == HEAD ==> tables@[i].1@.len()
                >= 12,
    ensures
        exists|ts: Seq<(u32, Seq<u8>)>|
            #![trigger is_sorting(ts, tables_view(tables@))]
            is_sorting(ts, tables_view(tables@)) && match res {
                Ok(b) => table_offset(ts, ts.len() as int) <= usize::MAX && b@ == spec_construct(
                    kind,
                    ts,
                ),
                Err(e) => e == Error::OverflowError && table_offset(ts, ts.len() as int)
                    > usize::MAX,
            },
{
    let ghost input = tables_view(tables@);
    let tables = sort_tables(tables);
    let ghost ts = tables_view(tables@);
    assert(is_sorting(ts, input));
    assert forall|i: int| 0 <= i < ts.len() && ts[i].0 == HEAD implies ts[i].1.len() >= 12 by {
        assert(ts.contains(ts[i]));
        assert(input.contains(ts[i]));
        let k = choose|k: int| 0 <= k < input.len() && input[k] == ts[i];
        assert(tables_view(tables@)[i] == ts[i]);
    }
    construct_sorted(kind, tables)
}

/// Construct a font from tables sorted by tag.
#[verifier::rlimit(60)]
fn construct_sorted(kind: FontKind, tables: Vec<(u32, Vec<u8>)>) -> (res: Result<Vec<u8>, Error>)
    requires
        tags_sorted(tables_view(tables@)),
        1 <= tables@.len() <= 4095,
        forall|i: int|
            0 <= i < tables@.len() && tables_view(tables@)[i].0 == HEAD ==> tables_view(
                tables@,
            )[i].1.len() >= 12,
    ensures
        match res {
            Ok(b) => table_offset(tables_view(tables@), tables@.len() as int) <= usize::MAX
                && b@ == spec_construct(kind, tables_view(tables@)),
            Err(e) => e == Error::OverflowError && table_offset(
                tables_view(tables@),
                tables@.len() as int,
            ) > usize::MAX,
        },
{
    let ghost ts = tables_view(tables@);
    let n = tables.len();
    let mut w = Writer::new();
    kind.write(&mut w);
    let count = n as u16;
    let (search_range, entry_selector, range_shift) = directory_params(count);
    count.write(&mut w);
    search_range.write(&mut w);
    entry_selector.write(&mut w);
    range_shift.write(&mut w);
    assert(w@ =~= directory_header(kind, n as int)) by {
        reveal(directory_header);
    }
    // The data as it is written, the checksum adjustment of the head table zeroed.
    let mut datas: Vec<Vec<u8>> = Vec::new();
    let mut i: usize = 0;
    while i < n
        invariant
            i <= n,
            n == tables@.len(),
            ts == tables_view(tables@),
            forall|j: int| 0 <= j < n && ts[j].0 == HEAD ==> ts[j].1.len() >= 12,
            datas@.len() == i,
            forall|j: int| 0 <= j < i ==> #[trigger] datas@[j]@ == zeroed_data(ts[j]),
        decreases n - i,
    {
        assert(ts[i as int] == (tables@[i as int].0, tables@[i as int].1@));
        datas.push(zeroed_copy(tables[i].0, &tables[i].1));
        i = i + 1;
    }
    let offsets = match write_records(&mut w, &tables, &datas) {
        Some(o) => o,
        None => return Err(Error::OverflowError),
    };
    proof {
        lemma_records_len(ts, n as int);
        assert(offsets@[n as int] == table_offset(ts, n as int));
        assert(directory_header(kind, n as int).len() == 12) by {
            reveal(directory_header);
        }
    }
    write_tables(&mut w, &tables, &datas);
    // Write the checksum adjustment of the head table.
    let mut data = w.finish();
    let ghost f = data@;
    assert(f == spec_font_unadjusted(kind, ts)) by {
        reveal(spec_font_unadjusted);
    }
    let data = write_checksum_adjustment(kind, data, &tables, &offsets);
    Ok(data)
}

/// Table offsets grow.
pub proof fn lemma_table_offset_grows(ts: Seq<(u32, Seq<u8>)>, i: int, j: int)
    requires
        0 <= i <= j,
    ensures
        table_offset(ts, i) <= table_offset(ts, j),
        table_offset(ts, i) % 4 == 0,
    decreases j - i, i,
{
    if i < j {
        lemma_table_offset_grows(ts, i, j - 1);
        lemma_table_offset_grows(ts, j - 1, j - 1);
    }
    if i > 0 {
        lemma_table_offset_grows(ts, i - 1, i - 1);
    }
}

/// The tables' bytes end at the end of the last table.
pub proof fn lemma_tables_len(ts: Seq<(u32, Seq<u8>)>, k: int)
    requires
        0 <= k <= ts.len(),
    ensures
        tables_bytes(ts, k).len() == table_offset(ts, k) - table_offset(ts, 0),
    decreases k,
{
    if k > 0 {
        lemma_tables_len(ts, k - 1);
        lemma_zeroed_len(ts[k - 1]);
        lemma_table_offset_grows(ts, k - 1, k - 1);
    }
}

/// The byte `j` of table `i` is at its offset in the tables' bytes.
pub proof fn lemma_tables_byte_at(ts: Seq<(u32, Seq<u8>)>, k: int, i: int, j: int)
    requires
        0 <= i < k <= ts.len(),
        0 <= j < ts[i].1.len(),
    ensures
        tables_bytes(ts, k)[table_offset(ts, i) - table_offset(ts, 0) + j] == zeroed_data(ts[i])[j],
    decreases k,
{
    let prev = tables_bytes(ts, k - 1);
    let zp = zero_padded(zeroed_data(ts[k - 1]));
    lemma_tables_len(ts, k - 1);
    lemma_zeroed_len(ts[i]);
    lemma_zeroed_len(ts[k - 1]);
    assert(tables_bytes(ts, k) == prev + zp);
    let idx = table_offset(ts, i) - table_offset(ts, 0) + j;
    if i < k - 1 {
        lemma_tables_byte_at(ts, k - 1, i, j);
        lemma_table_offset_grows(ts, i, i);
        lemma_table_offset_grows(ts, i + 1, k - 1);
        lemma_table_offset_grows(ts, 0, i);
        assert(idx < prev.len());
        assert((prev + zp)[idx] == prev[idx]);
    } else {
        assert(idx == prev.len() + j);
        assert((prev + zp)[idx] == zp[j]);
        assert(zp[j] == zeroed_data(ts[i])[j]);
    }
}

/// In the unadjusted font, the checksum adjustment of the head table lies within the font,
/// at a multiple of four, and is zero.
#[verifier::spinoff_prover]
#[verifier::rlimit(30)]
pub proof fn lemma_head_in_font(kind: FontKind, ts: Seq<(u32, Seq<u8>)>)
    requires
        has_head(ts),
        ts[head_index(ts)].1.len() >= 12,
    ensures
        ({
            let f = spec_font_unadjusted(kind, ts);
            let p = table_offset(ts, head_index(ts)) + 8;
            &&& p % 4 == 0
            &&& p + 4 <= f.len()
            &&& f[p] == 0 && f[p + 1] == 0 && f[p + 2] == 0 && f[p + 3] == 0
        }),
{
    let h = head_index(ts);
    let n = ts.len() as int;
    lemma_unadjusted_layout(kind, ts);
    lemma_table_within(ts, h);
    lemma_table_offset_grows(ts, h, h);
    let z = zeroed_data(ts[h]);
    assert(z[8] == 0 && z[9] == 0 && z[10] == 0 && z[11] == 0);
}

/// Each table record takes sixteen bytes.
pub proof fn lemma_records_len(ts: Seq<(u32, Seq<u8>)>, k: int)
    requires
        0 <= k,
    ensures
        records_bytes(ts, k).len() == 16 * k,
    decreases k,
{
    if k > 0 {
        lemma_records_len(ts, k - 1);
    }
}

/// The checksum of a constructed font with a `head` table is 0xB1B0AFBA, as the OpenType
/// format demands.
pub proof fn lemma_construct_checksum(kind: FontKind, ts: Seq<(u32, Seq<u8>)>)
    requires
        has_head(ts),
        ts[head_index(ts)].1.len() >= 12,
    ensures
        spec_checksum(spec_construct(kind, ts)) == 0xB1B0AFBAu32,
{
    let f = spec_font_unadjusted(kind, ts);
    let p = table_offset(ts, head_index(ts)) + 8;
    lemma_head_in_font(kind, ts);
    lemma_table_offset_grows(ts, 0, head_index(ts));
    let val = vstd::wrapping::u32_specs::wrapping_sub(0xB1B0AFBAu32, spec_checksum(f));
    lemma_checksum_patch(f, p, val);
}

/// The record of table `j` is the `j`-th sixteen bytes of the records.
proof fn lemma_records_slice(ts: Seq<(u32, Seq<u8>)>, k: int, j: int)
    requires
        0 <= j < k,
    ensures
        records_bytes(ts, k).subrange(16 * j, 16 * j + 16) == record_bytes(ts, j),
    decreases k,
{
    lemma_records_len(ts, k - 1);
    let prev = records_bytes(ts, k - 1);
    let r = record_bytes(ts, k - 1);
    assert(records_bytes(ts, k) == prev + r);
    if j < k - 1 {
        lemma_records_slice(ts, k - 1, j);
        assert((prev + r).subrange(16 * j, 16 * j + 16) =~= prev.subrange(16 * j, 16 * j + 16));
    } else {
        assert((prev + r).subrange(16 * j, 16 * j + 16) =~= r);
    }
}

/// A table lies between its offset and the next table's.
proof fn lemma_table_within(ts: Seq<(u32, Seq<u8>)>, i: int)
    requires
        0 <= i < ts.len(),
    ensures
        table_offset(ts, i) + ts[i].1.len() <= table_offset(ts, i + 1) <= table_offset(
            ts,
            ts.len() as int,
        ),
        12 + 16 * ts.len() <= table_offset(ts, i),
{
    lemma_table_offset_grows(ts, i + 1, ts.len() as int);
    lemma_table_offset_grows(ts, 0, i);
}

/// Reading the record of table `j` gives its tag, offset and length, when the offsets fit
/// 32 bits.
proof fn lemma_record_parse(ts: Seq<(u32, Seq<u8>)>, j: int)
    requires
        0 <= j < ts.len(),
        table_offset(ts, ts.len() as int) <= u32::MAX,
    ensures
        ({
            let r = TableRecord::spec_parse(record_bytes(ts, j)).unwrap();
            &&& r.tag.spec_value() == ts[j].0
            &&& r.offset == table_offset(ts, j)
            &&& r.length == ts[j].1.len()
        }),
{
    lemma_table_within(ts, j);
    let b = record_bytes(ts, j);
    let t = ts[j].0;
    let off = table_offset(ts, j) as u32;
    let len = ts[j].1.len() as u32;
    crate::write::lemma_u32_roundtrip(t);
    crate::write::lemma_u32_roundtrip(off);
    crate::write::lemma_u32_roundtrip(len);
    assert(b.subrange(0, 4) =~= u32_bytes(t as int));
    assert(b.subrange(8, 12) =~= u32_bytes(off as int));
    assert(b.subrange(12, 16) =~= u32_bytes(len as int));
    let r = TableRecord::spec_parse(b).unwrap();
    assert(r.tag.0@ =~= b.subrange(0, 4));
}

/// The bytes of the unadjusted font: the header, then the records, then the tables.
proof fn lemma_unadjusted_layout(kind: FontKind, ts: Seq<(u32, Seq<u8>)>)
    ensures
        ({
            let u = spec_font_unadjusted(kind, ts);
            let n = ts.len() as int;
            &&& u.len() == table_offset(ts, n)
            &&& u.subrange(0, 4) == u32_bytes(spec_font_kind_value(kind) as int)
            &&& u.subrange(4, 6) == u16_bytes(n)
            &&& u.subrange(12, 12 + 16 * n) == records_bytes(ts, n)
            &&& forall|i: int, j: int|
                0 <= i < n && 0 <= j < ts[i].1.len() ==> u[table_offset(ts, i) + j] == zeroed_data(
                    ts[i],
                )[j]
        }),
{
    reveal(spec_font_unadjusted);
    reveal(directory_header);
    let n = ts.len() as int;
    let u = spec_font_unadjusted(kind, ts);
    let hd = directory_header(kind, n);
    let rb = records_bytes(ts, n);
    let tb = tables_bytes(ts, n);
    lemma_records_len(ts, n);
    lemma_tables_len(ts, n);
    assert(hd.len() == 12);
    assert(u == hd + rb + tb);
    assert(u.subrange(0, 4) =~= hd.subrange(0, 4));
    assert(u.subrange(4, 6) =~= hd.subrange(4, 6));
    assert(u.subrange(12, 12 + 16 * n) =~= rb);
    assert forall|i: int, j: int|
        0 <= i < n && 0 <= j < ts[i].1.len() implies u[table_offset(ts, i) + j] == zeroed_data(
            ts[i],
        )[j] by {
        lemma_tables_byte_at(ts, n, i, j);
        lemma_table_within(ts, i);
    }
}

/// Where a constructed font differs from the unadjusted one: the four bytes of the head's
/// checksum adjustment (none without a `head` table).
pub open spec fn patch_pos(ts: Seq<(u32, Seq<u8>)>) -> int {
    if has_head(ts) {
        table_offset(ts, head_index(ts)) + 8
    } else {
        -4
    }
}

/// A constructed font is the unadjusted font but for the checksum adjustment, which lies in
/// the `head` table.
proof fn lemma_construct_same(kind: FontKind, ts: Seq<(u32, Seq<u8>)>)
    requires
        has_head(ts) ==> ts[head_index(ts)].1.len() >= 12,
    ensures
        ({
            let u = spec_font_unadjusted(kind, ts);
            let f = spec_construct(kind, ts);
            let q = patch_pos(ts);
            &&& f.len() == u.len()
            &&& forall|x: int| 0 <= x < u.len() && (x < q || x >= q + 4) ==> f[x] == u[x]
            &&& has_head(ts) ==> 12 + 16 * ts.len() <= q && q + 4 <= u.len()
        }),
{
    if has_head(ts) {
        lemma_head_in_font(kind, ts);
        lemma_table_offset_grows(ts, 0, head_index(ts));
    }
}

/// The records that parsing a constructed font gives.
#[verifier::spinoff_prover]
#[verifier::rlimit(60)]
proof fn lemma_construct_records(kind: FontKind, ts: Seq<(u32, Seq<u8>)>)
    requires
        kind != FontKind::Collection,
        1 <= ts.len() <= 4095,
        table_offset(ts, ts.len() as int) <= u32::MAX,
        has_head(ts) ==> ts[head_index(ts)].1.len() >= 12,
    ensures
        ({
            let f = spec_construct(kind, ts);
            spec_parse_face(f, 0) matches Ok(recs) && recs.len() == ts.len() && forall|j: int|
                0 <= j < ts.len() ==> {
                    let r = #[trigger] recs[j];
                    &&& r.tag.spec_value() == ts[j].0
                    &&& r.offset == table_offset(ts, j)
                    &&& r.length == ts[j].1.len()
                }
        }),
{
    let n = ts.len() as int;
    let u = spec_font_unadjusted(kind, ts);
    let f = spec_construct(kind, ts);
    lemma_unadjusted_layout(kind, ts);
    lemma_construct_same(kind, ts);
    lemma_table_offset_grows(ts, 0, n);
    assert(u32_at(f, 0) == spec_font_kind_value(kind)) by {
        crate::write::lemma_u32_roundtrip(spec_font_kind_value(kind));
        assert(f[0] == u.subrange(0, 4)[0] && f[1] == u.subrange(0, 4)[1]
            && f[2] == u.subrange(0, 4)[2] && f[3] == u.subrange(0, 4)[3]);
    }
    assert(u16_at(f, 4) == n) by {
        assert(f[4] == u.subrange(4, 6)[0] && f[5] == u.subrange(4, 6)[1]);
    }
    assert(spec_face_start(f, 0) == Ok::<int, Error>(0));
    let recs = Seq::new(
        n as nat,
        |j: int| TableRecord::spec_parse(f.subrange(12 + 16 * j, 28 + 16 * j)).unwrap(),
    );
    assert(spec_parse_face(f, 0) == Ok::<_, Error>(recs));
    assert forall|j: int| 0 <= j < n implies {
        let r = #[trigger] recs[j];
        &&& r.tag.spec_value() == ts[j].0
        &&& r.offset == table_offset(ts, j)
        &&& r.length == ts[j].1.len()
    } by {
        lemma_records_slice(ts, n, j);
        lemma_record_parse(ts, j);
        assert(f.subrange(12 + 16 * j, 28 + 16 * j) =~= u.subrange(12, 12 + 16 * n).subrange(
            16 * j,
            16 * j + 16,
        ));
    }
}

/// The tables of a constructed font, found among all its records.
#[verifier::spinoff_prover]
#[verifier::rlimit(60)]
proof fn lemma_construct_tables(kind: FontKind, ts: Seq<(u32, Seq<u8>)>, i: int)
    requires
        kind != FontKind::Collection,
        tags_sorted(ts),
        1 <= ts.len() <= 4095,
        0 <= i < ts.len(),
        table_offset(ts, ts.len() as int) <= u32::MAX,
        has_head(ts) ==> ts[head_index(ts)].1.len() >= 12,
    ensures
        ({
            let f = spec_construct(kind, ts);
            spec_parse_face(f, 0) matches Ok(recs) && {
                &&& recs.len() == ts.len()
                &&& records_sorted(recs)
                &&& recs[i].tag.spec_value() == ts[i].0
                &&& spec_table_any(f, recs, ts[i].0) matches Some(t) && t.len() == ts[i].1.len() && (
                ts[i].0 != HEAD ==> t == ts[i].1) && (ts[i].0 == HEAD ==> t.subrange(0, 8)
                    == ts[i].1.subrange(0, 8) && t.subrange(12, t.len() as int) == ts[i].1.subrange(
                    12,
                    t.len() as int,
                ))
            }
        }),
{
    let n = ts.len() as int;
    let u = spec_font_unadjusted(kind, ts);
    let f = spec_construct(kind, ts);
    lemma_construct_records(kind, ts);
    lemma_construct_same(kind, ts);
    lemma_unadjusted_layout(kind, ts);
    let recs = spec_parse_face(f, 0).unwrap();
    assert(records_sorted(recs));
    let c = choose|k: int| 0 <= k < recs.len() && recs[k].tag.spec_value() == ts[i].0;
    assert(recs[i].tag.spec_value() == ts[i].0);
    assert(c == i) by {
        if c < i {
            assert(ts[c].0 < ts[i].0);
        } else if c > i {
            assert(ts[i].0 < ts[c].0);
        }
    }
    lemma_table_within(ts, i);
    let off = table_offset(ts, i);
    let len = ts[i].1.len() as int;
    let t = f.subrange(off, off + len);
    assert(spec_table_any(f, recs, ts[i].0) == Some(t));
    lemma_zeroed_len(ts[i]);
    let q = patch_pos(ts);
    if ts[i].0 != HEAD {
        assert(t =~= ts[i].1) by {
            assert forall|j: int| 0 <= j < len implies t[j] == ts[i].1[j] by {
                assert(u[off + j] == zeroed_data(ts[i])[j]);
                if has_head(ts) {
                    let h = head_index(ts);
                    lemma_table_within(ts, h);
                    if h < i {
                        lemma_table_offset_grows(ts, h + 1, i);
                    } else {
                        assert(h != i);
                        lemma_table_offset_grows(ts, i + 1, h);
                    }
                }
            }
        }
    } else {
        let h = head_index(ts);
        assert(h == i) by {
            if h < i {
                assert(ts[h].0 < ts[i].0);
            } else if h > i {
                assert(ts[i].0 < ts[h].0);
            }
        }
        assert forall|j: int| 0 <= j < len && (j < 8 || j >= 12) implies t[j] == ts[i].1[j] by {
            assert(u[off + j] == zeroed_data(ts[i])[j]);
        }
        assert(t.subrange(0, 8) =~= ts[i].1.subrange(0, 8));
        assert(t.subrange(12, len) =~= ts[i].1.subrange(12, len));
    }
}


/// Law: a constructed font reads back. Parsing it finds one record for each table, in
/// order; looking a table up by its tag gives back its data, except the `head` table's
/// checksum adjustment (its bytes 8 to 11), which is rewritten. This needs the tags in
/// ascending order, as `construct` puts them, and the offsets within 32 bits.
pub proof fn lemma_construct_reads_back(kind: FontKind, ts: Seq<(u32, Seq<u8>)>, i: int)
    requires
        kind != FontKind::Collection,
        tags_sorted(ts),
        1 <= ts.len() <= 4095,
        0 <= i < ts.len(),
        table_offset(ts, ts.len() as int) <= u32::MAX,
        has_head(ts) ==> ts[head_index(ts)].1.len() >= 12,
    ensures
        ({
            let f = spec_construct(kind, ts);
            spec_parse_face(f, 0) matches Ok(recs) && {
                &&& recs.len() == ts.len()
                &&& records_sorted(recs)
                &&& recs[i].tag.spec_value() == ts[i].0
                &&& spec_table(f, recs, ts[i].0) matches Some(t) && t.len() == ts[i].1.len() && (
                ts[i].0 != HEAD ==> t == ts[i].1) && (ts[i].0 == HEAD ==> t.subrange(0, 8)
                    == ts[i].1.subrange(0, 8) && t.subrange(12, t.len() as int) == ts[i].1.subrange(
                    12,
                    t.len() as int,
                ))
            }
        }),
{
    lemma_construct_tables(kind, ts, i);
    let f = spec_construct(kind, ts);
    let recs = spec_parse_face(f, 0).unwrap();
    lemma_table_sorted(f, recs, ts[i].0);
}
} // verus!
