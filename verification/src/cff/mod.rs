//! Subsetting of the `CFF` table.

pub mod argstack;
pub mod charset;
pub mod sid_font;
pub mod cid_font;
pub mod font_dict;
pub mod private_dict;
pub mod charstring;
pub mod dict;
pub mod encoding;
pub mod index;
pub mod number;
pub mod operator;
pub mod remapper;
pub mod subroutines;
pub mod subset;
pub mod top_dict;

use crate::cff::charset::{rewrite_charset, spec_charset};
use crate::cff::charstring::{program_bytes, spec_decompile_charstring, Decompiler};
use crate::cff::font_dict::{
    generate_font_dict_index, rewrite_font_dict_index, spec_font_dicts, spec_generated_font_dict,
};
use crate::cff::private_dict::{
    private_len_at, private_offset_at, rewrite_cid_private_dicts, rewrite_private_dict,
    spec_cid_privates, spec_private_bytes, spec_private_dicts_of,
};
use crate::cff::sid_font::{generate_fd_index, spec_generated_fd_select};
use crate::cff::cid_font::{
    parse_cid_metadata, rewrite_fd_index, spec_cid_metadata, spec_fd_entries,
    spec_font_dict_index, spec_from, CIDMetadata, FDSelectView,
};
use crate::cff::number::{StringId, STANDARD_STRING_LEN};
use crate::cff::remapper::{sid_state_remap, sid_state_remap_old, FontDictRemapper, SidRemapper, SidState};
use crate::cff::subroutines::{charstrings_view, SubroutineCollection, SubroutineContainer};
use crate::remapper::GlyphRemapper;
use crate::cff::font_dict::{FontDict, FontDictView};
use crate::cff::index::{
    create_index, parse_index16, skip_index16, spec_create_index, spec_index_header_size,
    spec_index_items, spec_parse_index16, spec_skip_index16, sum_lens, Index, IndexView,
    OwnedIndex,
};
use crate::cff::number::{spec_int_5_bytes, IntegerNumber};
use crate::cff::sid_font::{parse_sid_metadata, spec_sid_metadata, SIDMetadata};
use crate::cff::top_dict::{
    adobe_bytes, empty_top_dict, identity_bytes, parse_top_dict_index, rewrite_top_dict_index,
    spec_top_dict_bytes, spec_top_dict_head, spec_top_dict_walk, TopDictData, TopDictView,
};
use crate::read::{lemma_has_rest, lemma_reader_advance, lemma_reader_rest, Reader};
use crate::write::{Writeable, Writer};
use crate::Error;
use vstd::prelude::*;

verus! {

/// An offset that needs to be written after the whole font has been written: `location`
/// is where in the buffer the offset goes and `value` is the value of the offset.
#[derive(Debug, Clone, Copy, PartialEq, Eq, Structural)]
pub struct DeferredOffset {
    /// Where the offset is written.
    pub location: usize,
    /// The value of the offset.
    pub value: IntegerNumber,
}

/// The offset that stands for a missing one.
pub open spec fn spec_dummy_offset() -> DeferredOffset {
    DeferredOffset { location: 0, value: IntegerNumber(0) }
}

/// The offset that stands for a missing one.
pub fn dummy_offset() -> (res: DeferredOffset)
    ensures
        res == spec_dummy_offset(),
{
    DeferredOffset { location: 0, value: IntegerNumber(0) }
}

/// The buffer `b` with `bytes` written at `at`.
pub open spec fn spec_splice(b: Seq<u8>, at: int, bytes: Seq<u8>) -> Seq<u8> {
    b.subrange(0, at) + bytes + b.subrange(at + bytes.len(), b.len() as int)
}

impl DeferredOffset {
    /// Set the value of the offset.
    pub fn update_value(&mut self, value: usize) -> (res: Result<(), Error>)
        ensures
            value <= i32::MAX ==> res is Ok && *final(self) == (DeferredOffset {
                location: old(self).location,
                value: IntegerNumber(value as i32),
            }),
            value > i32::MAX ==> res == Err::<(), Error>(Error::OverflowError) && *final(self)
                == *old(self),
    {
        if value > i32::MAX as usize {
            return Err(Error::OverflowError);
        }
        self.value = IntegerNumber(value as i32);
        Ok(())
    }

    /// Move the location of an offset by `delta`, if it has been set (if it is not the dummy
    /// offset).
    pub fn adjust_location(&mut self, delta: usize)
        requires
            old(self).location + delta <= usize::MAX,
        ensures
            *old(self) == spec_dummy_offset() ==> *final(self) == *old(self),
            *old(self) != spec_dummy_offset() ==> *final(self) == (DeferredOffset {
                location: (old(self).location + delta) as usize,
                value: old(self).value,
            }),
    {
        if *self != dummy_offset() {
            self.location = self.location + delta;
        }
    }

    /// Set the location of the offset.
    pub fn update_location(&mut self, location: usize)
        ensures
            *final(self) == (DeferredOffset { location, value: old(self).value }),
    {
        self.location = location;
    }

    /// Write the offset, as five bytes, into a buffer.
    pub fn write_into(&self, buffer: &mut Vec<u8>) -> (res: Result<(), Error>)
        ensures
            self.location + 5 <= old(buffer)@.len() ==> res is Ok && final(buffer)@ == spec_splice(
                old(buffer)@,
                self.location as int,
                spec_int_5_bytes(self.value.0),
            ),
            self.location + 5 > old(buffer)@.len() ==> res == Err::<(), Error>(Error::SubsetError)
                && final(buffer)@ == old(buffer)@,
    {
        let mut w = Writer::new();
        self.value.write_as_5_bytes(&mut w);
        let encoded = w.finish();
        if self.location > buffer.len() || buffer.len() - self.location < 5 {
            return Err(Error::SubsetError);
        }
        let mut i: usize = 0;
        while i < 5
            invariant
                encoded@ == spec_int_5_bytes(self.value.0),
                encoded@.len() == 5,
                self.location + 5 <= buffer.len(),
                buffer@.len() == old(buffer)@.len(),
                i <= 5,
                buffer@ == spec_splice(
                    old(buffer)@,
                    self.location as int,
                    encoded@.subrange(0, i as int),
                ) + Seq::<u8>::empty(),
                buffer@.subrange(self.location + i, buffer@.len() as int) == old(buffer)@.subrange(
                    self.location + i,
                    old(buffer)@.len() as int,
                ),
            decreases 5 - i,
        {
            let ghost before = buffer@;
            buffer[self.location + i] = encoded[i];
            i = i + 1;
            proof {
                assert(buffer@ =~= spec_splice(
                    old(buffer)@,
                    self.location as int,
                    encoded@.subrange(0, i as int),
                ) + Seq::<u8>::empty());
                assert(buffer@.subrange(self.location + i, buffer@.len() as int) =~= old(buffer)@.subrange(self.location + i, old(buffer)@.len() as int));
            }
        }
        proof {
            assert(encoded@.subrange(0, 5) =~= encoded@);
            assert(buffer@ =~= spec_splice(
                old(buffer)@,
                self.location as int,
                spec_int_5_bytes(self.value.0),
            ));
        }
        Ok(())
    }
}

/// Keeps track of the offsets that need to be written in the font.
#[derive(Debug)]
pub struct Offsets {
    /// Offset of the charset data.
    pub charset_offset: DeferredOffset,
    /// Offset of the charstrings data.
    pub char_strings_offset: DeferredOffset,
    /// Lengths of the private dicts (not strictly an offset, but kept the same way).
    pub private_dicts_lens: Vec<DeferredOffset>,
    /// Offsets of the private dicts.
    pub private_dicts_offsets: Vec<DeferredOffset>,
    /// Offset of the FDArray.
    pub fd_array_offset: DeferredOffset,
    /// Offset of the FDSelect.
    pub fd_select_offset: DeferredOffset,
}

impl Offsets {
    /// Offsets for a CID-keyed font with the given number of font DICTs, all unset.
    pub fn new_cid(num_font_dicts: u8) -> (res: Self)
        ensures
            res.charset_offset == spec_dummy_offset(),
            res.char_strings_offset == spec_dummy_offset(),
            res.fd_array_offset == spec_dummy_offset(),
            res.fd_select_offset == spec_dummy_offset(),
            res.private_dicts_lens@ == Seq::new(num_font_dicts as nat, |i: int| spec_dummy_offset()),
            res.private_dicts_offsets@ == Seq::new(
                num_font_dicts as nat,
                |i: int| spec_dummy_offset(),
            ),
    {
        let mut lens: Vec<DeferredOffset> = Vec::new();
        let mut offs: Vec<DeferredOffset> = Vec::new();
        let mut i: u8 = 0;
        while i < num_font_dicts
            invariant
                i <= num_font_dicts,
                lens@ == Seq::new(i as nat, |j: int| spec_dummy_offset()),
                offs@ == Seq::new(i as nat, |j: int| spec_dummy_offset()),
            decreases num_font_dicts - i,
        {
            lens.push(dummy_offset());
            offs.push(dummy_offset());
            i = i + 1;
            assert(lens@ =~= Seq::new(i as nat, |j: int| spec_dummy_offset()));
            assert(offs@ =~= Seq::new(i as nat, |j: int| spec_dummy_offset()));
        }
        Self {
            char_strings_offset: dummy_offset(),
            charset_offset: dummy_offset(),
            private_dicts_lens: lens,
            private_dicts_offsets: offs,
            fd_select_offset: dummy_offset(),
            fd_array_offset: dummy_offset(),
        }
    }

    /// Offsets for a SID-keyed font (one font DICT), all unset.
    pub fn new_sid() -> (res: Self)
        ensures
            res.charset_offset == spec_dummy_offset(),
            res.char_strings_offset == spec_dummy_offset(),
            res.fd_array_offset == spec_dummy_offset(),
            res.fd_select_offset == spec_dummy_offset(),
            res.private_dicts_lens@ == seq![spec_dummy_offset()],
            res.private_dicts_offsets@ == seq![spec_dummy_offset()],
    {
        let res = Self::new_cid(1);
        assert(res.private_dicts_lens@ =~= seq![spec_dummy_offset()]);
        assert(res.private_dicts_offsets@ =~= seq![spec_dummy_offset()]);
        res
    }
}

/// The buffer with an offset written into it, unless it is the dummy offset.
pub open spec fn spec_write_offset(b: Seq<u8>, o: DeferredOffset) -> Option<Seq<u8>> {
    if o == spec_dummy_offset() {
        Some(b)
    } else if o.location + 5 <= b.len() {
        Some(spec_splice(b, o.location as int, spec_int_5_bytes(o.value.0)))
    } else {
        None
    }
}

/// Write one offset, unless it is the dummy offset.
fn write_offset_into(offset: DeferredOffset, buffer: &mut Vec<u8>) -> (res: Result<(), Error>)
    ensures
        match spec_write_offset(old(buffer)@, offset) {
            Some(b) => res is Ok && final(buffer)@ == b,
            None => res == Err::<(), Error>(Error::SubsetError),
        },
{
    if offset != dummy_offset() {
        offset.write_into(buffer)?;
    }
    Ok(())
}

/// Write the charset, charstrings, FDSelect and FDArray offsets into the font (the private
/// dict offsets are written when the private dicts are).
pub fn update_offsets(offsets: &Offsets, buffer: &mut Vec<u8>) -> (res: Result<(), Error>)
    ensures
        match spec_write_offset(old(buffer)@, offsets.charset_offset) {
            None => res == Err::<(), Error>(Error::SubsetError),
            Some(b1) => match spec_write_offset(b1, offsets.char_strings_offset) {
                None => res == Err::<(), Error>(Error::SubsetError),
                Some(b2) => match spec_write_offset(b2, offsets.fd_select_offset) {
                    None => res == Err::<(), Error>(Error::SubsetError),
                    Some(b3) => match spec_write_offset(b3, offsets.fd_array_offset) {
                        None => res == Err::<(), Error>(Error::SubsetError),
                        Some(b4) => res is Ok && final(buffer)@ == b4,
                    },
                },
            },
        },
{
    write_offset_into(offsets.charset_offset, buffer)?;
    write_offset_into(offsets.char_strings_offset, buffer)?;
    write_offset_into(offsets.fd_select_offset, buffer)?;
    write_offset_into(offsets.fd_array_offset, buffer)?;
    Ok(())
}

/// The kind of a CFF font, with the metadata of its kind.
pub enum FontKind<'a> {
    /// A SID-keyed font.
    Sid(SIDMetadata<'a>),
    /// A CID-keyed font.
    Cid(CIDMetadata<'a>),
}

/// The mathematical value of the kind of a CFF font.
pub enum FontKindView {
    /// A SID-keyed font: local subroutines and private DICT.
    Sid(IndexView, Seq<u8>),
    /// A CID-keyed font: font DICT INDEX, FDSelect and font DICTs.
    Cid(IndexView, FDSelectView, Seq<FontDictView>),
}

/// A parsed CFF table.
pub struct Table<'a> {
    names: &'a [u8],
    top_dict_data: TopDictData,
    strings: Index<'a>,
    global_subrs: Index<'a>,
    char_strings: Index<'a>,
    font_kind: FontKind<'a>,
}

/// The mathematical value of a parsed CFF table.
pub struct TableView {
    /// The Name INDEX, as bytes.
    pub names: Seq<u8>,
    /// The Top DICT.
    pub top: TopDictView,
    /// The String INDEX.
    pub strings: IndexView,
    /// The Global Subr INDEX.
    pub global_subrs: IndexView,
    /// The CharStrings INDEX.
    pub char_strings: IndexView,
    /// The kind of font.
    pub kind: FontKindView,
}

impl<'a> View for Table<'a> {
    type V = TableView;

    closed spec fn view(&self) -> TableView {
        TableView {
            names: self.names@,
            top: self.top_dict_data@,
            strings: self.strings@,
            global_subrs: self.global_subrs@,
            char_strings: self.char_strings@,
            kind: match self.font_kind {
                FontKind::Sid(m) => FontKindView::Sid(m.local_subrs@, m.private_dict_data@),
                FontKind::Cid(m) => FontKindView::Cid(
                    m.fd_array@,
                    m.fd_select@,
                    m.font_dicts@.map_values(|f: FontDict| f@),
                ),
            },
        }
    }
}

/// Parse the part of a CFF table that follows the Top DICT INDEX, which ends at `p2`.
pub open spec fn spec_parse_cff_rest(c: Seq<u8>, names: Seq<u8>, top: TopDictView, p2: int) -> Result<
    TableView,
    Error,
> {
    match spec_parse_index16(c.subrange(p2, c.len() as int)) {
        None => Err(Error::MalformedFont),
        Some((strings, n3)) => match spec_parse_index16(c.subrange(p2 + n3, c.len() as int)) {
            None => Err(Error::MalformedFont),
            Some((gsubrs, _)) => match top.char_strings {
                None => Err(Error::MalformedFont),
                Some(co) => match spec_parse_index16(spec_from(c, co)) {
                    None => Err(Error::MalformedFont),
                    Some((cs, _)) => if cs.len() == 0 || cs.len() > u16::MAX {
                        Err(Error::MalformedFont)
                    } else if top.has_ros {
                        match spec_cid_metadata(c, top, cs.len() as u16) {
                            None => Err(Error::MalformedFont),
                            Some((fix, sel, fds)) => Ok(
                                TableView {
                                    names,
                                    top,
                                    strings,
                                    global_subrs: gsubrs,
                                    char_strings: cs,
                                    kind: FontKindView::Cid(fix, sel, fds),
                                },
                            ),
                        }
                    } else {
                        let (lix, p) = spec_sid_metadata(c, top);
                        Ok(
                            TableView {
                                names,
                                top,
                                strings,
                                global_subrs: gsubrs,
                                char_strings: cs,
                                kind: FontKindView::Sid(lix, p),
                            },
                        )
                    },
                },
            },
        },
    }
}

/// Parse a CFF table: version 1 only.
pub open spec fn spec_parse_cff(c: Seq<u8>) -> Result<TableView, Error> {
    if c.len() < 1 {
        Err(Error::MalformedFont)
    } else if c[0] != 1 {
        Err(Error::CFFError)
    } else if c.len() < 3 {
        Err(Error::MalformedFont)
    } else {
        let hs = c[2] as int;
        match spec_skip_index16(spec_from(c, hs as usize)) {
            None => Err(Error::MalformedFont),
            Some(n1) => {
                let p1 = hs + n1;
                match spec_parse_index16(c.subrange(p1, c.len() as int)) {
                    None => Err(Error::MalformedFont),
                    Some((tix, n2)) => match tix.get(0) {
                        None => Err(Error::MalformedFont),
                        Some(td) => match spec_top_dict_walk(td, 0, empty_top_dict()) {
                            None => Err(Error::MalformedFont),
                            Some(top) => spec_parse_cff_rest(c, c.subrange(hs, p1), top, p1 + n2),
                        },
                    },
                }
            },
        }
    }
}

impl<'a> Table<'a> {
    /// Parse a CFF table.
    pub fn parse(cff: &'a [u8]) -> (res: Result<Self, Error>)
        ensures
            match spec_parse_cff(cff@) {
                Ok(t) => res matches Ok(table) && table@ == t,
                Err(e) => res matches Err(e2) && e2 == e,
            },
    {
        let ghost c = cff@;
        let mut r = Reader::new(cff);
        proof {
            lemma_has_rest(r, 1nat);
            if r.has(1nat) {
                lemma_reader_rest(r, 1nat);
            }
        }
        let major = match r.read::<u8>() {
            Some(m) => m,
            None => return Err(Error::MalformedFont),
        };
        if major != 1 {
            return Err(Error::CFFError);
        }
        // The minor version.
        r.skip::<u8>();
        let header_size = match r.read::<u8>() {
            Some(h) => h,
            None => return Err(Error::MalformedFont),
        };
        proof {
            assert(c.len() >= 3);
            assert(r.spec_data().subrange(2, 3)[0] == c[2]);
        }
        r.jump(header_size as usize);
        let names_start = r.offset();
        assert(r.spec_rest() == spec_from(c, header_size as usize));
        if skip_index16(&mut r).is_none() {
            return Err(Error::MalformedFont);
        }
        let names_end = r.offset();
        let names = &cff[names_start..names_end];
        assert(r.spec_rest() == c.subrange(names_end as int, c.len() as int));
        let ghost r1 = r;
        let top_dict_data = match parse_top_dict_index(&mut r) {
            Some(t) => t,
            None => return Err(Error::MalformedFont),
        };
        Self::parse_rest(cff, names, top_dict_data, &mut r)
    }

    /// Parse the part of a CFF table that follows the Top DICT INDEX.
    #[verifier::rlimit(30)]
    fn parse_rest(
        cff: &'a [u8],
        names: &'a [u8],
        top_dict_data: TopDictData,
        r: &mut Reader<'a>,
    ) -> (res: Result<Self, Error>)
        requires
            old(r).spec_data() == cff@,
            0 <= old(r).spec_offset() <= cff@.len(),
        ensures
            match spec_parse_cff_rest(cff@, names@, top_dict_data@, old(r).spec_offset()) {
                Ok(t) => res matches Ok(table) && table@ == t,
                Err(e) => res matches Err(e2) && e2 == e,
            },
    {
        let ghost c = cff@;
        let ghost p2 = r.spec_offset();
        assert(r.spec_rest() == c.subrange(p2, c.len() as int));
        let strings = match parse_index16(r) {
            Some(i) => i,
            None => return Err(Error::MalformedFont),
        };
        assert(r.spec_rest() == c.subrange(r.spec_offset(), c.len() as int));
        let global_subrs = match parse_index16(r) {
            Some(i) => i,
            None => return Err(Error::MalformedFont),
        };
        let char_strings_offset = match top_dict_data.char_strings {
            Some(o) => o,
            None => return Err(Error::MalformedFont),
        };
        let mut cr = Reader::new_at(cff, char_strings_offset);
        assert(cr.spec_rest() == spec_from(c, char_strings_offset));
        let char_strings = match parse_index16(&mut cr) {
            Some(i) => i,
            None => return Err(Error::MalformedFont),
        };
        let count = char_strings.len();
        if count == 0 || count > 65535 {
            return Err(Error::MalformedFont);
        }
        let number_of_glyphs = count as u16;
        let font_kind = if top_dict_data.has_ros {
            match parse_cid_metadata(cff, &top_dict_data, number_of_glyphs) {
                Some(m) => FontKind::Cid(m),
                None => return Err(Error::MalformedFont),
            }
        } else {
            FontKind::Sid(parse_sid_metadata(cff, &top_dict_data))
        };
        let table = Table {
            names,
            top_dict_data,
            strings,
            global_subrs,
            char_strings,
            font_kind,
        };
        Ok(table)
    }
}

/// The local subroutines of each font DICT (one list for a SID-keyed font).
pub open spec fn spec_lsubrs_of(kind: FontKindView) -> Seq<Seq<Seq<u8>>> {
    match kind {
        FontKindView::Cid(_, _, fds) => fds.map_values(|f: FontDictView| spec_index_items(f.local_subrs)),
        FontKindView::Sid(l, _) => seq![spec_index_items(l)],
    }
}

/// The font DICT that a glyph uses (0 in a SID-keyed font).
pub open spec fn spec_fd_of(kind: FontKindView, gid: u16) -> Option<u8> {
    match kind {
        FontKindView::Cid(_, sel, _) => spec_font_dict_index(sel, gid),
        FontKindView::Sid(_, _) => Some(0),
    }
}

/// The desubroutinized charstrings of the glyphs `gids` of a CFF table, the first `k`.
pub open spec fn spec_charstrings(t: TableView, gids: Seq<u16>, k: int) -> Result<Seq<Seq<u8>>, Error>
    decreases k,
{
    if k <= 0 {
        Ok(Seq::empty())
    } else {
        match spec_charstrings(t, gids, k - 1) {
            Err(e) => Err(e),
            Ok(prev) => match spec_fd_of(t.kind, gids[k - 1]) {
                None => Err(Error::MalformedFont),
                Some(fd) => if fd >= spec_lsubrs_of(t.kind).len() {
                    Err(Error::MalformedFont)
                } else {
                    match t.char_strings.get(gids[k - 1] as int) {
                        None => Err(Error::MalformedFont),
                        Some(cs) => match spec_decompile_charstring(
                            spec_index_items(t.global_subrs),
                            spec_lsubrs_of(t.kind)[fd as int],
                            cs,
                        ) {
                            Err(e) => Err(e),
                            Ok(p) => Ok(prev.push(program_bytes(p))),
                        },
                    }
                },
            },
        }
    }
}

/// Once one charstring fails, the longer prefixes fail the same way.
pub proof fn lemma_charstrings_err(t: TableView, gids: Seq<u16>, k: int, m: int)
    requires
        0 <= k <= m,
        spec_charstrings(t, gids, k) is Err,
    ensures
        spec_charstrings(t, gids, m) == spec_charstrings(t, gids, k),
    decreases m - k,
{
    if k < m {
        lemma_charstrings_err(t, gids, k, m - 1);
    }
}

/// Whether some of the first `k` glyphs of a CID-keyed font use font DICT `u`.
pub open spec fn spec_fd_used(t: TableView, gids: Seq<u16>, k: int, u: int) -> bool {
    &&& t.kind is Cid
    &&& exists|j: int| 0 <= j < k && #[trigger] spec_fd_of(t.kind, gids[j]) == Some(u as u8)
}

/// The font DICTs below `u` that the glyphs use, in increasing order.
pub open spec fn spec_used_fds(t: TableView, gids: Seq<u16>, u: int) -> Seq<u16>
    decreases u,
{
    if u <= 0 {
        Seq::empty()
    } else if spec_fd_used(t, gids, gids.len() as int, u - 1) {
        spec_used_fds(t, gids, u - 1).push((u - 1) as u16)
    } else {
        spec_used_fds(t, gids, u - 1)
    }
}

/// The used font DICTs below `u` are below `u`, and there are no fewer of them below a
/// larger bound.
pub proof fn lemma_used_fds(t: TableView, gids: Seq<u16>, u: int, m: int)
    requires
        0 <= u <= m,
    ensures
        forall|i: int|
            0 <= i < spec_used_fds(t, gids, u).len() ==> #[trigger] spec_used_fds(t, gids, u)[i]
                < u,
        spec_used_fds(t, gids, u).len() <= spec_used_fds(t, gids, m).len(),
        spec_used_fds(t, gids, u).len() <= u,
    decreases m - u, u,
{
    if u < m {
        lemma_used_fds(t, gids, u, m - 1);
    }
    if u > 0 {
        lemma_used_fds(t, gids, u - 1, u - 1);
    }
}

/// Create the desubroutinized charstrings of the glyphs, in the new glyph order, and the
/// remapper of the font DICTs they use.
#[verifier::rlimit(40)]
pub fn subset_charstrings(table: &Table, remapper: &GlyphRemapper) -> (res: Result<
    (Vec<Vec<u8>>, FontDictRemapper),
    Error,
>)
    requires
        remapper.wf(),
        !remapper.spec_is_identity(),
    ensures
        match spec_charstrings(table@, remapper.spec_gids(), remapper.spec_gids().len() as int) {
            Err(e) => res matches Err(e2) && e2 == e,
            Ok(css) => if spec_used_fds(table@, remapper.spec_gids(), 256).len() > 255 {
                res matches Err(e) && e == Error::SubsetError
            } else {
                res matches Ok((v, fdr)) && v@.map_values(|b: Vec<u8>| b@) == css && fdr.wf()
                    && fdr.spec_fds() == spec_used_fds(table@, remapper.spec_gids(), 256)
            },
        },
{
    let ghost t = table@;
    let gsubrs = SubroutineContainer::new(table.global_subrs.items());
    let mut lists: Vec<Vec<&[u8]>> = Vec::new();
    match &table.font_kind {
        FontKind::Cid(cid) => {
            let mut i: usize = 0;
            while i < cid.font_dicts.len()
                invariant
                    i <= cid.font_dicts@.len(),
                    lists@.len() == i,
                    forall|j: int|
                        0 <= j < i ==> charstrings_view(#[trigger] lists@[j]@) == spec_index_items(
                            cid.font_dicts@[j].local_subrs@,
                        ) && lists@[j]@.len() <= u32::MAX,
                decreases cid.font_dicts@.len() - i,
            {
                lists.push(cid.font_dicts[i].local_subrs.items());
                i = i + 1;
            }
        },
        FontKind::Sid(sid) => {
            lists.push(sid.local_subrs.items());
        },
    }
    let lsubrs = SubroutineCollection::new(lists);
    assert(lsubrs.spec_subrs() =~= spec_lsubrs_of(t.kind));
    let gids = remapper.remapped_gids();
    let ghost gs = gids@;
    let mut used: Vec<bool> = Vec::new();
    let mut u: usize = 0;
    while u < 256
        invariant
            u <= 256,
            used@.len() == u,
            forall|j: int| 0 <= j < u ==> !(#[trigger] used@[j]),
        decreases 256 - u,
    {
        used.push(false);
        u = u + 1;
    }
    let mut char_strings: Vec<Vec<u8>> = Vec::new();
    let mut i: usize = 0;
    while i < gids.len()
        invariant
            i <= gids@.len(),
            gs == gids@,
            gs == remapper.spec_gids(),
            t == table@,
            gsubrs.spec_subrs() == spec_index_items(t.global_subrs),
            gsubrs.spec_subrs().len() <= u32::MAX,
            lsubrs.spec_subrs() == spec_lsubrs_of(t.kind),
            forall|j: int|
                0 <= j < lsubrs.spec_subrs().len() ==> #[trigger] lsubrs.spec_subrs()[j].len()
                    <= u32::MAX,
            used@.len() == 256,
            forall|v: int| 0 <= v < 256 ==> used@[v] == spec_fd_used(t, gs, i as int, v),
            spec_charstrings(t, gs, i as int) matches Ok(css) && char_strings@.map_values(
                |b: Vec<u8>| b@,
            ) == css,
        decreases gids@.len() - i,
    {
        let old_gid = gids[i];
        let fd_index: u8 = match &table.font_kind {
            FontKind::Cid(cid) => match cid.fd_select.font_dict_index(old_gid) {
                Some(f) => {
                    used.set(f as usize, true);
                    f
                },
                None => {
                    proof {
                        lemma_charstrings_err(t, gs, i + 1, gs.len() as int);
                    }
                    return Err(Error::MalformedFont);
                },
            },
            FontKind::Sid(_) => 0,
        };
        proof {
            assert forall|v: int| 0 <= v < 256 implies used@[v] == spec_fd_used(t, gs, i + 1, v) by {
                if t.kind is Cid && v == fd_index as int {
                    assert(spec_fd_of(t.kind, gs[i as int]) == Some(v as u8));
                }
                if spec_fd_used(t, gs, i + 1, v) && !spec_fd_used(t, gs, i as int, v) {
                    let j = choose|j: int|
                        0 <= j < i + 1 && #[trigger] spec_fd_of(t.kind, gs[j]) == Some(v as u8);
                    assert(j == i);
                }
            }
        }
        let lsubr_handler = match lsubrs.get_handler(fd_index) {
            Some(h) => h,
            None => {
                proof {
                    lemma_charstrings_err(t, gs, i + 1, gs.len() as int);
                }
                return Err(Error::MalformedFont);
            },
        };
        let decompiler = Decompiler::new(gsubrs.get_handler(), lsubr_handler);
        let charstring = match table.char_strings.get(old_gid as u32) {
            Some(c) => c,
            None => {
                proof {
                    lemma_charstrings_err(t, gs, i + 1, gs.len() as int);
                }
                return Err(Error::MalformedFont);
            },
        };
        let program = match decompiler.decompile(charstring) {
            Ok(p) => p,
            Err(e) => {
                proof {
                    lemma_charstrings_err(t, gs, i + 1, gs.len() as int);
                }
                return Err(e);
            },
        };
        let ghost prev = char_strings@.map_values(|b: Vec<u8>| b@);
        char_strings.push(program.compile());
        proof {
            assert(char_strings@.map_values(|b: Vec<u8>| b@) =~= prev.push(program_bytes(program@)));
        }
        i = i + 1;
    }
    let mut fd_remapper = FontDictRemapper::new();
    let mut v: usize = 0;
    while v < 256
        invariant
            v <= 256,
            t == table@,
            gs == remapper.spec_gids(),
            used@.len() == 256,
            forall|k: int| 0 <= k < 256 ==> used@[k] == spec_fd_used(t, gs, gs.len() as int, k),
            fd_remapper.wf(),
            fd_remapper.spec_fds() == spec_used_fds(t, gs, v as int),
            spec_charstrings(t, gs, gs.len() as int) matches Ok(css) && char_strings@.map_values(
                |b: Vec<u8>| b@,
            ) == css,
        decreases 256 - v,
    {
        proof {
            lemma_used_fds(t, gs, v as int, 256);
            lemma_used_fds(t, gs, v + 1, 256);
        }
        if used[v] {
            if fd_remapper.len() >= 255 {
                proof {
                    assert(spec_used_fds(t, gs, v + 1).len() == 256);
                }
                return Err(Error::SubsetError);
            }
            proof {
                fd_remapper.lemma_get_contains(v as u8);
                if fd_remapper.spec_fds().contains(v as u16) {
                    let k = choose|k: int|
                        0 <= k < fd_remapper.spec_fds().len() && fd_remapper.spec_fds()[k] == v as u16;
                    assert(spec_used_fds(t, gs, v as int)[k] < v);
                }
            }
            fd_remapper.remap(v as u8);
        }
        v = v + 1;
    }
    proof {
        fd_remapper.lemma_len();
    }
    Ok((char_strings, fd_remapper))
}

/// The state after remapping an old SID with its string, if it is not a standard string
/// (`None` if its string is missing).
pub open spec fn spec_remap_sid(t: TableView, st: SidState, sid: Option<StringId>) -> Option<SidState> {
    match sid {
        None => Some(st),
        Some(s) => if s.0 < STANDARD_STRING_LEN {
            Some(st)
        } else {
            match t.strings.get(s.0 - STANDARD_STRING_LEN) {
                None => None,
                Some(string) => Some(sid_state_remap_old(st, s.0, string)),
            }
        },
    }
}

/// The state after remapping the font names of the first `k` font DICTs `fds`.
pub open spec fn spec_sid_fds(t: TableView, fds: Seq<u16>, k: int, st: SidState) -> Option<SidState>
    decreases k,
{
    if k <= 0 {
        Some(st)
    } else {
        match spec_sid_fds(t, fds, k - 1, st) {
            None => None,
            Some(s) => match t.kind {
                FontKindView::Cid(_, _, dicts) => if fds[k - 1] < dicts.len() {
                    spec_remap_sid(t, s, dicts[fds[k - 1] as int].font_name)
                } else {
                    None
                },
                FontKindView::Sid(_, _) => Some(s),
            },
        }
    }
}

/// The strings of the subset: "Adobe", "Identity", the copyright, font name and notice, and
/// the font names of the font DICTs that are kept.
pub open spec fn spec_sid_state(t: TableView, fds: Seq<u16>) -> Option<SidState> {
    let st0 = sid_state_remap(
        sid_state_remap(SidState { strings: Seq::empty(), old_sids: Map::empty() }, adobe_bytes()),
        identity_bytes(),
    );
    match spec_remap_sid(t, st0, t.top.copyright) {
        None => None,
        Some(s1) => match spec_remap_sid(t, s1, t.top.font_name) {
            None => None,
            Some(s2) => match spec_remap_sid(t, s2, t.top.notice) {
                None => None,
                Some(s3) => if t.kind is Cid {
                    spec_sid_fds(t, fds, fds.len() as int, s3)
                } else {
                    Some(s3)
                },
            },
        },
    }
}

/// Remap an old SID with its string, unless it is a standard string.
fn remap_sid(table: &Table, sid_remapper: &mut SidRemapper, sid: StringId) -> (res: Option<()>)
    requires
        old(sid_remapper).wf(),
        old(sid_remapper).spec_strings().len() < 1000,
    ensures
        final(sid_remapper).wf(),
        match spec_remap_sid(table@, old(sid_remapper).spec_state(), Some(sid)) {
            Some(st) => res is Some && final(sid_remapper).spec_state() == st,
            None => res is None,
        },
        final(sid_remapper).spec_strings().len() <= old(sid_remapper).spec_strings().len() + 1,
{
    if sid.is_standard_string() {
        Some(())
    } else {
        let string = table.strings.get((sid.0 - STANDARD_STRING_LEN) as u32)?;
        sid_remapper.remap_with_old_sid(sid, string);
        proof {
            let st = old(sid_remapper).spec_state();
            if !st.old_sids.contains_key(sid.0) {
                let st2 = sid_state_remap(st, string@);
                assert(sid_remapper.spec_strings() == st2.strings);
            }
        }
        Some(())
    }
}

/// The remapper of the strings of the subset.
pub fn get_sid_remapper(table: &Table, fd_remapper: &FontDictRemapper) -> (res: Option<SidRemapper>)
    requires
        fd_remapper.wf(),
    ensures
        match spec_sid_state(table@, fd_remapper.spec_fds()) {
            Some(st) => res matches Some(r) && r.wf() && r.spec_state() == st,
            None => res is None,
        },
{
    let mut sid_remapper = SidRemapper::new();
    let adobe: [u8; 5] = [65, 100, 111, 98, 101];
    let identity: [u8; 8] = [73, 100, 101, 110, 116, 105, 116, 121];
    assert(adobe@ =~= adobe_bytes());
    assert(identity@ =~= identity_bytes());
    sid_remapper.remap(adobe.as_slice());
    sid_remapper.remap(identity.as_slice());
    assert(sid_remapper.spec_state() =~= sid_state_remap(
        sid_state_remap(SidState { strings: Seq::empty(), old_sids: Map::empty() }, adobe_bytes()),
        identity_bytes(),
    ));
    if let Some(copyright) = table.top_dict_data.copyright {
        remap_sid(table, &mut sid_remapper, copyright)?;
    }
    if let Some(font_name) = table.top_dict_data.font_name {
        remap_sid(table, &mut sid_remapper, font_name)?;
    }
    if let Some(notice) = table.top_dict_data.notice {
        remap_sid(table, &mut sid_remapper, notice)?;
    }
    if let FontKind::Cid(cid) = &table.font_kind {
        let fds = fd_remapper.sorted_iter();
        let ghost s3 = sid_remapper.spec_state();
        let mut i: usize = 0;
        while i < fds.len()
            invariant
                i <= fds@.len(),
                fds@ == fd_remapper.spec_fds(),
                fds@.len() <= 255,
                table@.kind is Cid,
                table@.kind == FontKindView::Cid(
                    cid.fd_array@,
                    cid.fd_select@,
                    cid.font_dicts@.map_values(|f: FontDict| f@),
                ),
                sid_remapper.wf(),
                sid_remapper.spec_strings().len() <= 5 + i,
                spec_sid_fds(table@, fds@, i as int, s3) == Some(sid_remapper.spec_state()),
                spec_sid_state(table@, fds@) == spec_sid_fds(table@, fds@, fds@.len() as int, s3),
            decreases fds@.len() - i,
        {
            let fd = fds[i];
            if fd as usize >= cid.font_dicts.len() {
                proof {
                    lemma_sid_fds_none(table@, fds@, i + 1, fds@.len() as int, s3);
                }
                return None;
            }
            if let Some(font_name) = cid.font_dicts[fd as usize].font_name {
                if remap_sid(table, &mut sid_remapper, font_name).is_none() {
                    proof {
                        lemma_sid_fds_none(table@, fds@, i + 1, fds@.len() as int, s3);
                    }
                    return None;
                }
            }
            i = i + 1;
        }
    }
    Some(sid_remapper)
}

/// Once the remapping of a font name fails, it fails for longer prefixes too.
pub proof fn lemma_sid_fds_none(t: TableView, fds: Seq<u16>, k: int, m: int, st: SidState)
    requires
        0 <= k <= m,
        spec_sid_fds(t, fds, k, st) is None,
    ensures
        spec_sid_fds(t, fds, m, st) is None,
    decreases m - k,
{
    if k < m {
        lemma_sid_fds_none(t, fds, k, m - 1, st);
    }
}

/// A recorded offset: where it goes, with its value.
pub open spec fn deferred(location: int, value: int) -> DeferredOffset {
    DeferredOffset { location: location as usize, value: IntegerNumber(value as i32) }
}

/// The private DICTs of the subset written at `start`: their bytes, and the entries that
/// record their lengths and offsets.
pub open spec fn spec_private_part(t: TableView, fds: Seq<u16>, start: int) -> Result<
    (Seq<u8>, Seq<DeferredOffset>, Seq<DeferredOffset>),
    Error,
> {
    match t.kind {
        FontKindView::Sid(_, p) => match spec_private_bytes(p) {
            None => Err(Error::MalformedFont),
            Some(b) => if b.len() > i32::MAX || start > i32::MAX {
                Err(Error::OverflowError)
            } else {
                Ok((b, seq![deferred(0, b.len() as int)], seq![deferred(0, start)]))
            },
        },
        FontKindView::Cid(_, _, dicts) => {
            let privs = dicts.map_values(|f: FontDictView| f.private_dict);
            let n = fds.len() as int;
            match spec_cid_privates(privs, fds, n, start, n, n) {
                Err(e) => Err(e),
                Ok(all) => Ok(
                    (
                        all,
                        Seq::new(n as nat, |j: int| deferred(0, private_len_at(privs, fds, j))),
                        Seq::new(
                            n as nat,
                            |j: int| deferred(0, private_offset_at(privs, fds, start, j)),
                        ),
                    ),
                ),
            }
        },
    }
}

/// The FDSelect of the subset.
pub open spec fn spec_fd_select_part(t: TableView, fds: Seq<u16>, gids: Seq<u16>) -> Result<
    Seq<u8>,
    Error,
> {
    match t.kind {
        FontKindView::Sid(_, _) => Ok(spec_generated_fd_select(gids.len() as u16)),
        FontKindView::Cid(_, sel, _) => match spec_fd_entries(sel, fds, gids, gids.len() as int) {
            Ok(b) => Ok(seq![0u8] + b),
            Err(e) => Err(e),
        },
    }
}

/// The FDArray of the subset.
pub open spec fn spec_fd_array_part(
    t: TableView,
    fds: Seq<u16>,
    old_sids: Map<u16, u16>,
    lens: Seq<DeferredOffset>,
    offs: Seq<DeferredOffset>,
) -> Result<Seq<u8>, Error> {
    match t.kind {
        FontKindView::Sid(_, _) => Ok(
            spec_create_index(seq![spec_generated_font_dict(lens[0].value.0, offs[0].value.0)]),
        ),
        FontKindView::Cid(_, _, dicts) => if forall|j: int|
            0 <= j < fds.len() ==> #[trigger] fds[j] < dicts.len() && j < lens.len() && j
                < offs.len() {
            let items = spec_font_dicts(dicts, fds, lens, offs, old_sids);
            if sum_lens(items, items.len() as int) + 1 > u32::MAX {
                Err(Error::OverflowError)
            } else {
                Ok(spec_create_index(items))
            }
        } else {
            Err(Error::SubsetError)
        },
    }
}

/// The subset with its four recorded offsets written in.
pub open spec fn spec_patch_offsets(
    b: Seq<u8>,
    base: int,
    charset: int,
    char_strings: int,
    fd_select: int,
    fd_array: int,
) -> Result<Seq<u8>, Error> {
    match spec_write_offset(b, deferred(base, charset)) {
        None => Err(Error::SubsetError),
        Some(b1) => match spec_write_offset(b1, deferred(base + 6, char_strings)) {
            None => Err(Error::SubsetError),
            Some(b2) => match spec_write_offset(b2, deferred(base + 26, fd_select)) {
                None => Err(Error::SubsetError),
                Some(b3) => match spec_write_offset(b3, deferred(base + 19, fd_array)) {
                    None => Err(Error::SubsetError),
                    Some(b4) => Ok(b4),
                },
            },
        },
    }
}

/// The new SID of a string that the state holds.
pub open spec fn sid_of(st: SidState, s: Seq<u8>) -> StringId {
    StringId((STANDARD_STRING_LEN + st.strings.index_of(s)) as u16)
}

/// The first part of the subset: header, Name INDEX, Top DICT INDEX, String INDEX and the
/// empty Global Subr INDEX; with where the Top DICT's offset placeholders start.
pub open spec fn spec_front(t: TableView, st: SidState) -> Result<(Seq<u8>, int), Error> {
    if !st.strings.contains(adobe_bytes()) || !st.strings.contains(identity_bytes()) {
        Err(Error::SubsetError)
    } else {
        let w0 = seq![1u8, 0u8, 4u8, 4u8] + t.names;
        let adobe = sid_of(st, adobe_bytes());
        let identity = sid_of(st, identity_bytes());
        let top = spec_top_dict_bytes(t.top, st.old_sids, adobe, identity);
        let base = w0.len() + spec_index_header_size(seq![top]) + spec_top_dict_head(
            t.top,
            st.old_sids,
            adobe,
            identity,
        ).len();
        if top.len() + 1 > u32::MAX || base + 26 > usize::MAX {
            Err(Error::OverflowError)
        } else if st.strings.len() > 65535 || sum_lens(st.strings, st.strings.len() as int) + 1
            > u32::MAX {
            Err(Error::OverflowError)
        } else {
            Ok(
                (
                    w0 + spec_create_index(seq![top]) + spec_create_index(st.strings) + seq![
                        0u8,
                        0u8,
                    ],
                    base,
                ),
            )
        }
    }
}

/// The middle part of the subset after `w2`: charset, private DICTs, FDSelect and FDArray;
/// with where the FDSelect and the FDArray start.
pub open spec fn spec_middle(t: TableView, gids: Seq<u16>, fds: Seq<u16>, st: SidState, w2: Seq<u8>) -> Result<
    (Seq<u8>, int, int),
    Error,
> {
    if w2.len() > i32::MAX {
        Err(Error::OverflowError)
    } else {
        let w3 = w2 + spec_charset(gids.len() as int);
        match spec_private_part(t, fds, w3.len() as int) {
            Err(e) => Err(e),
            Ok((pb, lens, offs)) => {
                let w4 = w3 + pb;
                if w4.len() > i32::MAX {
                    Err(Error::OverflowError)
                } else {
                    match spec_fd_select_part(t, fds, gids) {
                        Err(e) => Err(e),
                        Ok(sb) => {
                            let w5 = w4 + sb;
                            if w5.len() > i32::MAX {
                                Err(Error::OverflowError)
                            } else {
                                match spec_fd_array_part(t, fds, st.old_sids, lens, offs) {
                                    Err(e) => Err(e),
                                    Ok(ab) => Ok((w5 + ab, w4.len() as int, w5.len() as int)),
                                }
                            }
                        },
                    }
                }
            },
        }
    }
}

/// The last part of the subset after `w6`: the CharStrings INDEX; then the recorded offsets
/// are written in.
pub open spec fn spec_back(
    w6: Seq<u8>,
    css: Seq<Seq<u8>>,
    base: int,
    charset: int,
    fd_select: int,
    fd_array: int,
) -> Result<Seq<u8>, Error> {
    if w6.len() > i32::MAX {
        Err(Error::OverflowError)
    } else if css.len() > 65535 || sum_lens(css, css.len() as int) + 1 > u32::MAX {
        Err(Error::OverflowError)
    } else {
        spec_patch_offsets(
            w6 + spec_create_index(css),
            base,
            charset,
            w6.len() as int,
            fd_select,
            fd_array,
        )
    }
}

/// Assemble the subset of a CFF table: header, Name INDEX, Top DICT INDEX, String INDEX,
/// empty Global Subr INDEX, charset, private DICTs, FDSelect, FDArray and CharStrings INDEX,
/// with the recorded offsets written in at the end.
pub open spec fn spec_cff_assemble(
    t: TableView,
    gids: Seq<u16>,
    css: Seq<Seq<u8>>,
    fds: Seq<u16>,
    st: SidState,
) -> Result<Seq<u8>, Error> {
    match spec_front(t, st) {
        Err(e) => Err(e),
        Ok((w2, base)) => match spec_middle(t, gids, fds, st, w2) {
            Err(e) => Err(e),
            Ok((w6, v4, v5)) => spec_back(w6, css, base, w2.len() as int, v4, v5),
        },
    }
}

/// The subset of a CFF table for the glyphs `gids` (old IDs, in the new order).
pub open spec fn spec_cff_subset(c: Seq<u8>, gids: Seq<u16>) -> Result<Seq<u8>, Error> {
    match spec_parse_cff(c) {
        Err(e) => Err(e),
        Ok(t) => match spec_charstrings(t, gids, gids.len() as int) {
            Err(e) => Err(e),
            Ok(css) => {
                let fds = spec_used_fds(t, gids, 256);
                if fds.len() > 255 {
                    Err(Error::SubsetError)
                } else {
                    match spec_sid_state(t, fds) {
                        None => Err(Error::SubsetError),
                        Some(st) => spec_cff_assemble(t, gids, css, fds, st),
                    }
                }
            },
        },
    }
}

/// Write the private DICTs of the subset (one for a SID-keyed font, which becomes
/// CID-keyed with one font DICT).
fn write_private_part(
    table: &Table,
    fd_remapper: &FontDictRemapper,
    offsets: &mut Offsets,
    w: &mut Writer,
) -> (res: Result<(), Error>)
    requires
        fd_remapper.wf(),
        old(offsets).private_dicts_lens@.len() == old(offsets).private_dicts_offsets@.len(),
        table@.kind is Sid ==> old(offsets).private_dicts_lens@.len() == 1,
        table@.kind is Cid ==> old(offsets).private_dicts_lens@.len()
            == fd_remapper.spec_fds().len(),
    ensures
        final(offsets).charset_offset == old(offsets).charset_offset,
        final(offsets).char_strings_offset == old(offsets).char_strings_offset,
        final(offsets).fd_array_offset == old(offsets).fd_array_offset,
        final(offsets).fd_select_offset == old(offsets).fd_select_offset,
        match spec_private_part(table@, fd_remapper.spec_fds(), old(w)@.len() as int) {
            Err(e) => res == Err::<(), Error>(e),
            Ok((pb, lens, offs)) => {
                &&& res is Ok
                &&& final(w)@ == old(w)@ + pb
                &&& final(offsets).private_dicts_lens@.len() == lens.len()
                &&& final(offsets).private_dicts_offsets@.len() == offs.len()
                &&& forall|j: int|
                    0 <= j < lens.len() ==> (#[trigger] final(offsets).private_dicts_lens@[j]).value
                        == lens[j].value
                &&& forall|j: int|
                    0 <= j < offs.len() ==> (#[trigger] final(offsets).private_dicts_offsets@[j]).value == offs[j].value
            },
        },
{
    match &table.font_kind {
        FontKind::Sid(sid) => rewrite_private_dict(offsets, sid.private_dict_data, w, 0),
        FontKind::Cid(cid) => {
            let ghost privs = cid.font_dicts@.map_values(|f: FontDict| f@).map_values(
                |f: FontDictView| f.private_dict,
            );
            assert(privs =~= spec_private_dicts_of(cid));
            rewrite_cid_private_dicts(fd_remapper, offsets, cid, w)
        },
    }
}

/// Write the FDSelect of the subset.
fn write_fd_select_part(
    table: &Table,
    mapper: &GlyphRemapper,
    fd_remapper: &FontDictRemapper,
    w: &mut Writer,
) -> (res: Result<(), Error>)
    requires
        mapper.wf(),
        !mapper.spec_is_identity(),
        fd_remapper.wf(),
    ensures
        match spec_fd_select_part(table@, fd_remapper.spec_fds(), mapper.spec_gids()) {
            Err(e) => res == Err::<(), Error>(e),
            Ok(b) => res is Ok && final(w)@ == old(w)@ + b,
        },
{
    match &table.font_kind {
        FontKind::Sid(_) => generate_fd_index(mapper, w),
        FontKind::Cid(cid) => rewrite_fd_index(mapper, cid.fd_select, fd_remapper, w),
    }
}

/// Write the FDArray of the subset.
fn write_fd_array_part(
    table: &Table,
    fd_remapper: &FontDictRemapper,
    sid_remapper: &SidRemapper,
    offsets: &mut Offsets,
    w: &mut Writer,
) -> (res: Result<(), Error>)
    requires
        fd_remapper.wf(),
        table@.kind is Sid ==> old(offsets).private_dicts_lens@.len() >= 1
            && old(offsets).private_dicts_offsets@.len() >= 1,
    ensures
        *final(offsets) == *old(offsets),
        match spec_fd_array_part(
            table@,
            fd_remapper.spec_fds(),
            sid_remapper.spec_old_sids(),
            old(offsets).private_dicts_lens@,
            old(offsets).private_dicts_offsets@,
        ) {
            Err(e) => res == Err::<(), Error>(e),
            Ok(b) => res is Ok && final(w)@ == old(w)@ + b,
        },
{
    match &table.font_kind {
        FontKind::Sid(_) => generate_font_dict_index(offsets, w),
        FontKind::Cid(cid) => rewrite_font_dict_index(fd_remapper, sid_remapper, offsets, cid, w),
    }
}

/// The two offsets' values, seen through two sequences with equal values.
proof fn lemma_font_dicts_values(
    dicts: Seq<FontDictView>,
    fds: Seq<u16>,
    lens: Seq<DeferredOffset>,
    offs: Seq<DeferredOffset>,
    lens2: Seq<DeferredOffset>,
    offs2: Seq<DeferredOffset>,
    old_sids: Map<u16, u16>,
)
    requires
        lens.len() == lens2.len(),
        offs.len() == offs2.len(),
        forall|j: int| 0 <= j < lens.len() ==> #[trigger] lens[j].value == lens2[j].value,
        forall|j: int| 0 <= j < offs.len() ==> #[trigger] offs[j].value == offs2[j].value,
        fds.len() <= lens.len(),
        fds.len() <= offs.len(),
    ensures
        spec_font_dicts(dicts, fds, lens, offs, old_sids) == spec_font_dicts(
            dicts,
            fds,
            lens2,
            offs2,
            old_sids,
        ),
{
    assert(spec_font_dicts(dicts, fds, lens, offs, old_sids) =~= spec_font_dicts(
        dicts,
        fds,
        lens2,
        offs2,
        old_sids,
    ));
}

/// Write the first part of the subset into an empty writer; the result is where the
/// offset placeholders of the Top DICT start.
#[verifier::rlimit(40)]
fn write_front(
    table: &Table,
    sid_remapper: &SidRemapper,
    offsets: &mut Offsets,
    w: &mut Writer,
) -> (res: Result<usize, Error>)
    requires
        sid_remapper.wf(),
        old(w)@ == Seq::<u8>::empty(),
    ensures
        match spec_front(table@, sid_remapper.spec_state()) {
            Err(e) => res == Err::<usize, Error>(e),
            Ok((w2, base)) => {
                &&& res == Ok::<usize, Error>(base as usize)
                &&& final(offsets).private_dicts_lens == old(offsets).private_dicts_lens
                &&& final(offsets).private_dicts_offsets == old(offsets).private_dicts_offsets
                &&& final(w)@ == w2
                &&& final(offsets).charset_offset == (DeferredOffset {
                    location: base as usize,
                    value: old(offsets).charset_offset.value,
                })
                &&& final(offsets).char_strings_offset == (DeferredOffset {
                    location: (base + 6) as usize,
                    value: old(offsets).char_strings_offset.value,
                })
                &&& final(offsets).fd_array_offset == (DeferredOffset {
                    location: (base + 19) as usize,
                    value: old(offsets).fd_array_offset.value,
                })
                &&& final(offsets).fd_select_offset == (DeferredOffset {
                    location: (base + 26) as usize,
                    value: old(offsets).fd_select_offset.value,
                })
            },
        },
{
    let ghost t = table@;
    let ghost st = sid_remapper.spec_state();
    // The header; the offset size 4 is not used anyway.
    w.push(1);
    w.push(0);
    w.push(4);
    w.push(4);
    // Name INDEX
    w.extend(table.names);
    let ghost w0 = w@;
    assert(w0 =~= seq![1u8, 0u8, 4u8, 4u8] + t.names);
    let ghost head_w = w@.len();
    // Top DICT INDEX
    rewrite_top_dict_index(&table.top_dict_data, offsets, sid_remapper, w)?;
    // String INDEX
    let sorted = sid_remapper.sorted_strings();
    let mut strings: Vec<Vec<u8>> = Vec::new();
    let mut k: usize = 0;
    while k < sorted.len()
        invariant
            k <= sorted@.len(),
            sorted@.map_values(|v: Vec<u8>| v@) == st.strings,
            strings@.len() == k,
            forall|j: int| 0 <= j < k ==> #[trigger] strings@[j]@ == st.strings[j],
        decreases sorted@.len() - k,
    {
        strings.push(vstd::slice::slice_to_vec(sorted[k].as_slice()));
        k = k + 1;
    }
    assert(crate::cff::index::items_of(strings@) =~= st.strings);
    let index = create_index(strings)?;
    w.extend(index.data.as_slice());
    // Global Subr INDEX: empty, since the charstrings are desubroutinized.
    OwnedIndex::empty().write(w);
    Ok(offsets.charset_offset.location)
}

/// Write the middle part of the subset.
#[verifier::rlimit(60)]
fn write_middle(
    table: &Table,
    mapper: &GlyphRemapper,
    fd_remapper: &FontDictRemapper,
    sid_remapper: &SidRemapper,
    offsets: &mut Offsets,
    w: &mut Writer,
) -> (res: Result<(), Error>)
    requires
        mapper.wf(),
        !mapper.spec_is_identity(),
        fd_remapper.wf(),
        old(offsets).private_dicts_lens@.len() == old(offsets).private_dicts_offsets@.len(),
        table@.kind is Sid ==> old(offsets).private_dicts_lens@.len() == 1,
        table@.kind is Cid ==> old(offsets).private_dicts_lens@.len()
            == fd_remapper.spec_fds().len(),
    ensures
        final(offsets).charset_offset.location == old(offsets).charset_offset.location,
        final(offsets).char_strings_offset == old(offsets).char_strings_offset,
        final(offsets).fd_select_offset.location == old(offsets).fd_select_offset.location,
        final(offsets).fd_array_offset.location == old(offsets).fd_array_offset.location,
        match spec_middle(
            table@,
            mapper.spec_gids(),
            fd_remapper.spec_fds(),
            sid_remapper.spec_state(),
            old(w)@,
        ) {
            Err(e) => res == Err::<(), Error>(e),
            Ok((w6, v4, v5)) => {
                &&& res is Ok
                &&& final(w)@ == w6
                &&& final(offsets).charset_offset.value == IntegerNumber(old(w)@.len() as i32)
                &&& final(offsets).fd_select_offset.value == IntegerNumber(v4 as i32)
                &&& final(offsets).fd_array_offset.value == IntegerNumber(v5 as i32)
            },
        },
{
    let ghost t = table@;
    let ghost fds = fd_remapper.spec_fds();
    let ghost st = sid_remapper.spec_state();
    // Charset
    offsets.charset_offset.update_value(w.len())?;
    rewrite_charset(mapper, w)?;
    let ghost w3 = w@;
    // Private DICTs
    write_private_part(table, fd_remapper, offsets, w)?;
    // FDSelect
    offsets.fd_select_offset.update_value(w.len())?;
    write_fd_select_part(table, mapper, fd_remapper, w)?;
    // FDArray
    offsets.fd_array_offset.update_value(w.len())?;
    proof {
        match spec_private_part(t, fds, w3.len() as int) {
            Ok((pb, lens, offs)) => {
                if t.kind is Cid {
                    lemma_font_dicts_values(
                        match t.kind {
                            FontKindView::Cid(_, _, dicts) => dicts,
                            _ => Seq::empty(),
                        },
                        fds,
                        offsets.private_dicts_lens@,
                        offsets.private_dicts_offsets@,
                        lens,
                        offs,
                        st.old_sids,
                    );
                }
            },
            Err(_) => {},
        }
    }
    write_fd_array_part(table, fd_remapper, sid_remapper, offsets, w)?;
    Ok(())
}

/// Write the CharStrings INDEX and then the recorded offsets.
fn write_back(offsets: &mut Offsets, w: Writer, char_strings: Vec<Vec<u8>>) -> (res: Result<
    Vec<u8>,
    Error,
>)
    requires
        old(offsets).char_strings_offset.location == old(offsets).charset_offset.location + 6,
        old(offsets).fd_select_offset.location == old(offsets).charset_offset.location + 26,
        old(offsets).fd_array_offset.location == old(offsets).charset_offset.location + 19,
        old(offsets).charset_offset.location + 26 <= usize::MAX,
    ensures
        match spec_back(
            w@,
            char_strings@.map_values(|b: Vec<u8>| b@),
            old(offsets).charset_offset.location as int,
            old(offsets).charset_offset.value.0 as int,
            old(offsets).fd_select_offset.value.0 as int,
            old(offsets).fd_array_offset.value.0 as int,
        ) {
            Ok(b) => res matches Ok(v) && v@ == b,
            Err(e) => res matches Err(e2) && e2 == e,
        },
{
    let mut w = w;
    // CharStrings INDEX
    offsets.char_strings_offset.update_value(w.len())?;
    assert(crate::cff::index::items_of(char_strings@) =~= char_strings@.map_values(
        |b: Vec<u8>| b@,
    ));
    let cs_index = create_index(char_strings)?;
    w.extend(cs_index.data.as_slice());
    let mut font = w.finish();
    update_offsets(offsets, &mut font)?;
    Ok(font)
}

/// Subset a CFF table: keep the glyphs of the remapper, in its order, with their charstrings
/// desubroutinized, and turn the font into a CID-keyed one whose CIDs are the new glyph IDs.
#[verifier::rlimit(60)]
pub fn subset(cff: &[u8], mapper: &GlyphRemapper) -> (res: Result<Vec<u8>, Error>)
    requires
        mapper.wf(),
        !mapper.spec_is_identity(),
    ensures
        match spec_cff_subset(cff@, mapper.spec_gids()) {
            Ok(b) => res matches Ok(v) && v@ == b,
            Err(e) => res matches Err(e2) && e2 == e,
        },
{
    let table = Table::parse(cff)?;
    // The charstrings are in the new glyph order already.
    let (char_strings, fd_remapper) = subset_charstrings(&table, mapper)?;
    let sid_remapper = match get_sid_remapper(&table, &fd_remapper) {
        Some(r) => r,
        None => return Err(Error::SubsetError),
    };
    proof {
        fd_remapper.lemma_len();
    }
    let mut offsets = match &table.font_kind {
        FontKind::Sid(_) => Offsets::new_sid(),
        FontKind::Cid(_) => Offsets::new_cid(fd_remapper.len() as u8),
    };
    let ghost t = table@;
    let ghost gids = mapper.spec_gids();
    let ghost css = char_strings@.map_values(|b: Vec<u8>| b@);
    let ghost fds = fd_remapper.spec_fds();
    let ghost st = sid_remapper.spec_state();
    assert(spec_cff_subset(cff@, gids) == spec_cff_assemble(t, gids, css, fds, st));
    let mut w = Writer::new();
    write_front(&table, &sid_remapper, &mut offsets, &mut w)?;
    write_middle(&table, mapper, &fd_remapper, &sid_remapper, &mut offsets, &mut w)?;
    write_back(&mut offsets, w, char_strings)
}

} // verus!
