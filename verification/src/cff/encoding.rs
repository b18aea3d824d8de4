//! The encoding of a CFF font: which glyph each character code selects. Besides the
//! predefined standard and expert encodings, a font can hold a custom one, as a list of codes
//! (format 0) or as ranges of codes (format 1), both for the glyphs after `.notdef`.
use crate::read::{LazyArray16, Readable, Reader};
use crate::Error;
use vstd::prelude::*;

verus! {

/// A range of consecutive codes: the first code and how many follow it.
#[derive(Clone, Copy, Debug)]
pub struct Format1Range {
    /// The first code.
    pub first: u8,
    /// The number of codes after the first.
    pub left: u8,
}

impl Readable for Format1Range {
    open spec fn spec_size() -> nat { 2 }

    open spec fn spec_parse(bytes: Seq<u8>) -> Option<Format1Range> {
        Some(Format1Range { first: bytes[0], left: bytes[1] })
    }

    fn size() -> usize { 2 }

    fn read(r: &mut Reader) -> (res: Option<Format1Range>) {
        let b = r.read_bytes(2)?;
        Some(Format1Range { first: b[0], left: b[1] })
    }
}

/// The kind of an encoding.
#[derive(Clone, Copy)]
pub enum EncodingKind<'a> {
    /// The standard encoding.
    Standard,
    /// The expert encoding.
    Expert,
    /// A custom list of codes, one for each glyph after `.notdef`.
    Format0(LazyArray16<'a, u8>),
    /// Custom ranges of codes for the glyphs after `.notdef`.
    Format1(LazyArray16<'a, Format1Range>),
}

/// An encoding of a CFF font.
#[derive(Clone, Copy)]
pub struct Encoding<'a> {
    /// Its kind.
    pub kind: EncodingKind<'a>,
}

/// The position of the first code equal to `code` among `codes[i..]`, if any.
pub open spec fn first_position(codes: LazyArray16<u8>, code: u8, i: int) -> Option<int>
    decreases codes.spec_len() - i,
{
    if i < 0 || i >= codes.spec_len() {
        None
    } else if codes.spec_get(i) == Some(code) {
        Some(i)
    } else {
        first_position(codes, code, i + 1)
    }
}

/// The glyph of a code among format 1 ranges from range `i` on, the glyph of the first code
/// of range `i` being `gid`: a range covers its first code up to `left` more codes, at most
/// 255.
pub open spec fn range_glyph(ranges: LazyArray16<Format1Range>, code: u8, i: int, gid: int) -> Option<u16>
    decreases ranges.spec_len() - i,
{
    if i < 0 || i >= ranges.spec_len() {
        None
    } else {
        let r = ranges.spec_get(i).unwrap();
        let end = if r.first + r.left > 255 { 255 } else { r.first + r.left };
        if r.first <= code <= end {
            Some((gid + code - r.first) as u16)
        } else {
            range_glyph(ranges, code, i + 1, gid + r.left + 1)
        }
    }
}

impl<'a> EncodingKind<'a> {
    /// Whether the encoding is stored in the font.
    pub fn is_custom(&self) -> (res: bool)
        ensures
            res == (self is Format0 || self is Format1),
    {
        match self {
            EncodingKind::Format0(_) | EncodingKind::Format1(_) => true,
            _ => false,
        }
    }

    /// At most 255 codes or ranges, as a font holds them.
    pub open spec fn wf(&self) -> bool {
        match self {
            EncodingKind::Format0(a) => a.spec_len() <= 255,
            EncodingKind::Format1(a) => a.spec_len() <= 255,
            _ => true,
        }
    }

    /// The glyph that a custom encoding gives a character code, counting from 1 since
    /// `.notdef` is implicit.
    pub fn gid_to_code(&self, code: u8) -> (res: Option<u16>)
        requires
            self.wf(),
            self is Format0 || self is Format1,
        ensures
            self matches EncodingKind::Format0(t) ==> res == match first_position(*t, code, 0) {
                Some(i) => Some((i + 1) as u16),
                None => None::<u16>,
            },
            self matches EncodingKind::Format1(t) ==> res == range_glyph(*t, code, 0, 1),
    {
        match self {
            EncodingKind::Format0(table) => {
                let n = table.len();
                let mut i: u16 = 0;
                while i < n
                    invariant
                        i <= n,
                        n == table.spec_len(),
                        n <= 255,
                        *self == EncodingKind::Format0(*table),
                        first_position(*table, code, 0) == first_position(*table, code, i as int),
                    decreases n - i,
                {
                    if table.get(i) == Some(code) {
                        return Some(i + 1);
                    }
                    i = i + 1;
                }
                None
            },
            EncodingKind::Format1(table) => {
                let n = table.len();
                let mut gid: u16 = 1;
                let mut i: u16 = 0;
                while i < n
                    invariant
                        i <= n,
                        n == table.spec_len(),
                        n <= 255,
                        gid <= 1 + 256 * i,
                        *self == EncodingKind::Format1(*table),
                        range_glyph(*table, code, 0, 1) == range_glyph(*table, code, i as int, gid as int),
                    decreases n - i,
                {
                    let range = table.get(i).unwrap();
                    let end: u8 = range.first.saturating_add(range.left);
                    if range.first <= code && code <= end {
                        return Some(gid + (code - range.first) as u16);
                    } else {
                        gid = gid + range.left as u16 + 1;
                    }
                    i = i + 1;
                }
                None
            },
            _ => None,
        }
    }
}

/// The encoding at the start of `d`: a format byte (its high bit marks supplemental codes,
/// which are not supported), a count, and `count` codes (format 0) or ranges (format 1);
/// other formats give no encoding.
pub open spec fn spec_parse_encoding(d: Seq<u8>) -> Result<Option<(u8, Seq<u8>)>, Error> {
    if d.len() < 1 {
        Err(Error::MalformedFont)
    } else if d[0] >= 0x80 {
        Err(Error::Unimplemented)
    } else if d.len() < 2 {
        Err(Error::MalformedFont)
    } else {
        let format = d[0];
        let count = d[1] as int;
        if format == 0 {
            if 2 + count > d.len() {
                Err(Error::MalformedFont)
            } else {
                Ok(Some((0u8, d.subrange(2, 2 + count))))
            }
        } else if format == 1 {
            if 2 + 2 * count > d.len() {
                Err(Error::MalformedFont)
            } else {
                Ok(Some((1u8, d.subrange(2, 2 + 2 * count))))
            }
        } else {
            Ok(None)
        }
    }
}

/// Parse an encoding at the reader's position.
pub fn parse_encoding<'a>(r: &mut Reader<'a>) -> (res: Result<Option<Encoding<'a>>, Error>)
    ensures
        match spec_parse_encoding(old(r).spec_rest()) {
            Err(e) => res matches Err(e2) && e2 == e,
            Ok(None) => res matches Ok(None),
            Ok(Some((format, data))) => res matches Ok(Some(enc)) && (match enc.kind {
                EncodingKind::Format0(a) => format == 0 && a.spec_data() == data,
                EncodingKind::Format1(a) => format == 1 && a.spec_data() == data,
                _ => false,
            }) && enc.kind.wf(),
        },
{
    let ghost rest = r.spec_rest();
    proof {
        crate::read::lemma_has_rest(*r, 1);
        crate::read::lemma_has_rest(*r, 2);
    }
    let ghost r0 = *r;
    let format = match r.read::<u8>() {
        Some(f) => f,
        None => return Err(Error::MalformedFont),
    };
    proof {
        crate::read::lemma_reader_rest(r0, 1);
    }
    // The high bit of the format marks supplemental codes.
    let has_supplemental = format >= 0x80;
    let format = format % 0x80;
    if has_supplemental {
        return Err(Error::Unimplemented);
    }
    let ghost r1 = *r;
    let count = match r.read::<u8>() {
        Some(c) => c as u16,
        None => return Err(Error::MalformedFont),
    };
    proof {
        crate::read::lemma_reader_rest(r1, 1);
        crate::read::lemma_reader_advance(r0, r1, 1);
    }
    let ghost r2 = *r;
    proof {
        crate::read::lemma_reader_advance(r1, r2, 1);
    }
    let kind = if format == 0 {
        match r.read_array16::<u8>(count) {
            Some(a) => EncodingKind::Format0(a),
            None => return Err(Error::MalformedFont),
        }
    } else if format == 1 {
        match r.read_array16::<Format1Range>(count) {
            Some(a) => EncodingKind::Format1(a),
            None => return Err(Error::MalformedFont),
        }
    } else {
        return Ok(None);
    };
    proof {
        crate::read::lemma_has_rest(r2, 1);
        match kind {
            EncodingKind::Format0(a) => {
                assert(a.spec_data() =~= rest.subrange(2, 2 + count as int));
                assert(a.spec_len() == count) by {
                    assert(a.spec_data().len() == count);
                }
            },
            EncodingKind::Format1(a) => {
                assert(a.spec_data() =~= rest.subrange(2, 2 + 2 * count as int));
                assert(a.spec_len() == count) by {
                    assert(a.spec_data().len() == 2 * count);
                }
            },
            _ => {},
        }
    }
    Ok(Some(Encoding { kind }))
}

} // verus!
