//! CID-keyed fonts: their font DICTs and FDSelect, and the FDSelect of the subset.
use crate::cff::font_dict::{empty_font_dict, parse_font_dict, spec_font_dict_walk, FontDict, FontDictView};
use crate::cff::index::{parse_index16, spec_parse_index16, Index, IndexView};
use crate::cff::remapper::FontDictRemapper;
use crate::cff::top_dict::{TopDictData, TopDictView};
use crate::read::{be_u16, lemma_has_rest, lemma_reader_advance, lemma_reader_rest, LazyArray16, Reader};
use crate::remapper::GlyphRemapper;
use crate::write::{Writeable, Writer};
use crate::Error;
use vstd::prelude::*;

verus! {

/// Maps each glyph to the font DICT it uses.
#[derive(Clone, Copy)]
pub enum FDSelect<'a> {
    /// One font DICT index per glyph.
    Format0(LazyArray16<'a, u8>),
    /// Ranges of glyphs, by the data after the format byte.
    Format3(&'a [u8]),
}

/// The mathematical value of an FDSelect: its format and its bytes after the format byte.
pub enum FDSelectView {
    Format0(Seq<u8>),
    Format3(Seq<u8>),
}

impl<'a> View for FDSelect<'a> {
    type V = FDSelectView;

    open spec fn view(&self) -> FDSelectView {
        match self {
            FDSelect::Format0(a) => FDSelectView::Format0(a.spec_data()),
            FDSelect::Format3(d) => FDSelectView::Format3(d@),
        }
    }
}

/// Search the ranges of a format 3 FDSelect `d` for glyph `gid`, from range `i` on, where
/// the previous range starts at `prev_first` and has the font DICT `prev_idx`.
pub open spec fn spec_fd3_walk(d: Seq<u8>, gid: u16, i: int, n: int, prev_first: int, prev_idx: u8) -> Option<u8>
    decreases n + 1 - i,
{
    if i < 1 || i > n || 2 + 3 * i + 2 > d.len() {
        None
    } else {
        let cur = be_u16(d[2 + 3 * i], d[3 + 3 * i]);
        if prev_first <= gid < cur {
            Some(prev_idx)
        } else if 2 + 3 * i + 3 > d.len() {
            None
        } else {
            spec_fd3_walk(d, gid, i + 1, n, cur, d[4 + 3 * i])
        }
    }
}

/// The font DICT of glyph `gid` in a format 3 FDSelect `d`.
pub open spec fn spec_fd3(d: Seq<u8>, gid: u16) -> Option<u8> {
    if d.len() < 2 {
        None
    } else {
        let n = be_u16(d[0], d[1]);
        if n == 0 || n == 65535 || d.len() < 5 {
            None
        } else {
            spec_fd3_walk(d, gid, 1, n, be_u16(d[2], d[3]), d[4])
        }
    }
}

/// The font DICT of glyph `gid`.
pub open spec fn spec_font_dict_index(sel: FDSelectView, gid: u16) -> Option<u8> {
    match sel {
        FDSelectView::Format0(d) => if gid < d.len() % 65536 {
            Some(d[gid as int])
        } else {
            None
        },
        FDSelectView::Format3(d) => spec_fd3(d, gid),
    }
}

impl<'a> FDSelect<'a> {
    /// Get the font DICT index for a glyph.
    pub fn font_dict_index(&self, glyph_id: u16) -> (res: Option<u8>)
        ensures
            res == spec_font_dict_index(self@, glyph_id),
    {
        match self {
            FDSelect::Format0(array) => {
                let res = array.get(glyph_id);
                proof {
                    if (glyph_id as int) < array.spec_len() {
                        assert(array.spec_data().subrange(glyph_id as int, glyph_id + 1)[0]
                            == array.spec_data()[glyph_id as int]);
                    }
                }
                res
            },
            FDSelect::Format3(data) => {
                let ghost d = data@;
                let mut r = Reader::new(data);
                let number_of_ranges = r.read::<u16>()?;
                if number_of_ranges == 0 {
                    return None;
                }
                let number_of_ranges = number_of_ranges.checked_add(1)?;
                let mut prev_first_glyph = r.read::<u16>()?;
                let mut prev_index = r.read::<u8>()?;
                proof {
                    assert(r.spec_data().subrange(0, 2)[0] == d[0]);
                    assert(r.spec_data().subrange(0, 2)[1] == d[1]);
                    assert(r.spec_data().subrange(2, 4)[0] == d[2]);
                    assert(r.spec_data().subrange(2, 4)[1] == d[3]);
                    assert(r.spec_data().subrange(4, 5)[0] == d[4]);
                }
                let mut i: u16 = 1;
                while i < number_of_ranges
                    invariant
                        r.spec_data() == d,
                        d == data@,
                        self@ == FDSelectView::Format3(d),
                        d.len() >= 5,
                        1 <= i <= number_of_ranges,
                        number_of_ranges == be_u16(d[0], d[1]) + 1,
                        r.spec_offset() == 2 + 3 * i,
                        spec_fd3(d, glyph_id) == spec_fd3_walk(
                            d,
                            glyph_id,
                            i as int,
                            number_of_ranges - 1,
                            prev_first_glyph as int,
                            prev_index,
                        ),
                    decreases number_of_ranges - i,
                {
                    let ghost pos = r.spec_offset();
                    let curr_first_glyph = r.read::<u16>()?;
                    proof {
                        assert(r.spec_data().subrange(pos, pos + 2)[0] == d[pos]);
                        assert(r.spec_data().subrange(pos, pos + 2)[1] == d[pos + 1]);
                    }
                    if prev_first_glyph <= glyph_id && glyph_id < curr_first_glyph {
                        return Some(prev_index);
                    } else {
                        prev_index = r.read::<u8>()?;
                        proof {
                            assert(r.spec_data().subrange(pos + 2, pos + 3)[0] == d[pos + 2]);
                        }
                    }
                    prev_first_glyph = curr_first_glyph;
                    i = i + 1;
                }
                None
            },
        }
    }
}

/// Parse an FDSelect at the start of `s`, for `n` glyphs.
pub open spec fn spec_parse_fd_select(n: u16, s: Seq<u8>) -> Option<FDSelectView> {
    if s.len() < 1 {
        None
    } else if s[0] == 0 {
        if 1 + n <= s.len() {
            Some(FDSelectView::Format0(s.subrange(1, 1 + n)))
        } else {
            None
        }
    } else if s[0] == 3 {
        Some(FDSelectView::Format3(s.subrange(1, s.len() as int)))
    } else {
        None
    }
}

/// Parse an FDSelect for a font with `number_of_glyphs` glyphs.
pub fn parse_fd_select<'a>(number_of_glyphs: u16, r: &mut Reader<'a>) -> (res: Option<FDSelect<'a>>)
    ensures
        final(r).spec_data() == old(r).spec_data(),
        match spec_parse_fd_select(number_of_glyphs, old(r).spec_rest()) {
            Some(v) => res matches Some(s) && s@ == v,
            None => res is None,
        },
{
    let ghost r0 = *r;
    proof {
        lemma_has_rest(r0, 1nat);
        if r0.has(1nat) {
            lemma_reader_rest(r0, 1nat);
        }
    }
    let format = r.read::<u8>()?;
    proof {
        lemma_reader_advance(r0, *r, 1nat);
        lemma_has_rest(*r, 1nat);
    }
    if format == 0 {
        let a = r.read_array16::<u8>(number_of_glyphs)?;
        assert(a.spec_data() =~= r0.spec_rest().subrange(1, 1 + number_of_glyphs));
        Some(FDSelect::Format0(a))
    } else if format == 3 {
        let t = r.tail()?;
        assert(t@ =~= r0.spec_rest().subrange(1, r0.spec_rest().len() as int));
        Some(FDSelect::Format3(t))
    } else {
        None
    }
}

/// Metadata necessary for processing CID-keyed fonts.
pub struct CIDMetadata<'a> {
    /// The font DICTs.
    pub font_dicts: Vec<FontDict<'a>>,
    /// The font DICT INDEX.
    pub fd_array: Index<'a>,
    /// The FDSelect.
    pub fd_select: FDSelect<'a>,
}

/// The font DICTs of the items of a font DICT INDEX from item `i` on, up to the first item
/// that cannot be read; `None` if one of them is malformed.
pub open spec fn spec_font_dicts_from(font_data: Seq<u8>, ix: IndexView, i: int) -> Option<
    Seq<FontDictView>,
>
    decreases ix.len() - i,
{
    if i < 0 || i >= ix.len() {
        Some(Seq::empty())
    } else {
        match ix.get(i) {
            None => Some(Seq::empty()),
            Some(d) => match spec_font_dict_walk(font_data, d, 0, empty_font_dict()) {
                None => None,
                Some(f) => match spec_font_dicts_from(font_data, ix, i + 1) {
                    Some(rest) => Some(seq![f] + rest),
                    None => None,
                },
            },
        }
    }
}

/// The bytes of a font from an offset on (none if the offset is past the end).
pub open spec fn spec_from(data: Seq<u8>, offset: usize) -> Seq<u8> {
    if offset <= data.len() {
        data.subrange(offset as int, data.len() as int)
    } else {
        Seq::empty()
    }
}

/// The CID metadata of a font, by its font DICT INDEX, FDSelect and font DICTs.
pub open spec fn spec_cid_metadata(data: Seq<u8>, td: TopDictView, number_of_glyphs: u16) -> Option<
    (IndexView, FDSelectView, Seq<FontDictView>),
> {
    match (td.fd_array, td.fd_select) {
        (Some(a), Some(b)) => match spec_parse_index16(spec_from(data, a)) {
            Some((ix, _)) => match spec_parse_fd_select(number_of_glyphs, spec_from(data, b)) {
                Some(sel) => match spec_font_dicts_from(data, ix, 0) {
                    Some(fds) => Some((ix, sel, fds)),
                    None => None,
                },
                None => None,
            },
            None => None,
        },
        _ => None,
    }
}

/// Parse the CID metadata of a font.
pub fn parse_cid_metadata<'a>(data: &'a [u8], top_dict: &TopDictData, number_of_glyphs: u16) -> (res:
    Option<CIDMetadata<'a>>)
    ensures
        match spec_cid_metadata(data@, top_dict@, number_of_glyphs) {
            Some((ix, sel, fds)) => res matches Some(m) && m.fd_array@ == ix && m.fd_select@ == sel
                && m.font_dicts@.map_values(|f: FontDict| f@) == fds,
            None => res is None,
        },
{
    let (fd_array_offset, fd_select_offset) = match (top_dict.fd_array, top_dict.fd_select) {
        (Some(a), Some(b)) => (a, b),
        _ => return None,
    };
    let mut r = Reader::new_at(data, fd_array_offset);
    assert(r.spec_rest() == spec_from(data@, fd_array_offset));
    let fd_array = parse_index16(&mut r)?;
    let mut s = Reader::new_at(data, fd_select_offset);
    assert(s.spec_rest() == spec_from(data@, fd_select_offset));
    let fd_select = parse_fd_select(number_of_glyphs, &mut s)?;
    let ghost d = data@;
    let ghost ix = fd_array@;
    let mut font_dicts: Vec<FontDict<'a>> = Vec::new();
    let n = fd_array.len();
    let mut i: u32 = 0;
    while i < n
        invariant_except_break
            spec_font_dicts_from(d, ix, 0) == match spec_font_dicts_from(d, ix, i as int) {
                Some(rest) => Some(font_dicts@.map_values(|f: FontDict| f@) + rest),
                None => None,
            },
        invariant
            d == data@,
            ix == fd_array@,
            n == ix.len(),
            i <= n,
            spec_cid_metadata(d, top_dict@, number_of_glyphs) == match spec_font_dicts_from(
                d,
                ix,
                0,
            ) {
                Some(fds) => Some((ix, fd_select@, fds)),
                None => None,
            },
        ensures
            spec_font_dicts_from(d, ix, 0) == Some(font_dicts@.map_values(|f: FontDict| f@)),
        decreases n - i,
    {
        let ghost acc = font_dicts@.map_values(|f: FontDict| f@);
        assert(acc + Seq::<FontDictView>::empty() =~= acc);
        let item = match fd_array.get(i) {
            Some(item) => item,
            None => {
                assert(acc + Seq::<FontDictView>::empty() =~= acc);
                break;
            },
        };
        let fd = parse_font_dict(data, item)?;
        font_dicts.push(fd);
        proof {
            assert(font_dicts@.map_values(|f: FontDict| f@) =~= acc.push(fd@));
            match spec_font_dicts_from(d, ix, i + 1) {
                Some(rest) => {
                    assert(acc + (seq![fd@] + rest) =~= acc.push(fd@) + rest);
                },
                None => {},
            }
        }
        i = i + 1;
    }
    Some(CIDMetadata { font_dicts, fd_array, fd_select })
}

/// The new FDSelect entries of the glyphs `gids`, the first `k` of them.
pub open spec fn spec_fd_entries(sel: FDSelectView, fds: Seq<u16>, gids: Seq<u16>, k: int) -> Result<
    Seq<u8>,
    Error,
>
    decreases k,
{
    if k <= 0 {
        Ok(Seq::empty())
    } else {
        match spec_fd_entries(sel, fds, gids, k - 1) {
            Err(e) => Err(e),
            Ok(prev) => match spec_font_dict_index(sel, gids[k - 1]) {
                None => Err(Error::MalformedFont),
                Some(old_fd) => if fds.contains(old_fd as u16) {
                    Ok(prev.push(fds.index_of(old_fd as u16) as u8))
                } else {
                    Err(Error::SubsetError)
                },
            },
        }
    }
}

/// Once an entry fails, all longer prefixes fail the same way.
pub proof fn lemma_fd_entries_err(sel: FDSelectView, fds: Seq<u16>, gids: Seq<u16>, k: int, m: int)
    requires
        0 <= k <= m,
        spec_fd_entries(sel, fds, gids, k) is Err,
    ensures
        spec_fd_entries(sel, fds, gids, m) == spec_fd_entries(sel, fds, gids, k),
    decreases m - k,
{
    if k < m {
        lemma_fd_entries_err(sel, fds, gids, k, m - 1);
    }
}

/// Rewrite the FDSelect of a CID-keyed font, in format 0: the new font DICT index of each
/// glyph of the subset, in the new glyph order.
pub fn rewrite_fd_index(
    gid_remapper: &GlyphRemapper,
    fd_select: FDSelect,
    fd_remapper: &FontDictRemapper,
    w: &mut Writer,
) -> (res: Result<(), Error>)
    requires
        gid_remapper.wf(),
        !gid_remapper.spec_is_identity(),
        fd_remapper.wf(),
    ensures
        match spec_fd_entries(
            fd_select@,
            fd_remapper.spec_fds(),
            gid_remapper.spec_gids(),
            gid_remapper.spec_gids().len() as int,
        ) {
            Ok(b) => res is Ok && final(w)@ == old(w)@ + seq![0u8] + b,
            Err(e) => res == Err::<(), Error>(e),
        },
{
    // Format 0 is the simplest.
    w.push(0);
    let gids = gid_remapper.remapped_gids();
    let ghost w0 = w@;
    let mut i: usize = 0;
    while i < gids.len()
        invariant
            i <= gids@.len(),
            gids@ == gid_remapper.spec_gids(),
            fd_remapper.wf(),
            w0 == old(w)@ + seq![0u8],
            spec_fd_entries(fd_select@, fd_remapper.spec_fds(), gids@, i as int) matches Ok(b) && w@ == w0
                + b,
        decreases gids@.len() - i,
    {
        let old_fd = match fd_select.font_dict_index(gids[i]) {
            Some(fd) => fd,
            None => {
                proof {
                    lemma_fd_entries_err(fd_select@, fd_remapper.spec_fds(), gids@, i + 1, gids@.len() as int);
                }
                return Err(Error::MalformedFont);
            },
        };
        proof {
            fd_remapper.lemma_get_index(old_fd);
        }
        let new_fd = match fd_remapper.get(old_fd) {
            Some(fd) => fd,
            None => {
                proof {
                    lemma_fd_entries_err(fd_select@, fd_remapper.spec_fds(), gids@, i + 1, gids@.len() as int);
                }
                return Err(Error::SubsetError);
            },
        };
        w.push(new_fd);
        i = i + 1;
    }
    Ok(())
}

/// The first glyph of range `k` of a format 3 FDSelect (after the format byte); range `n`
/// is the sentinel that ends the last range.
pub open spec fn fd3_first(d: Seq<u8>, k: int) -> int {
    be_u16(d[2 + 3 * k], d[3 + 3 * k])
}

/// The font DICT of range `k` of a format 3 FDSelect (after the format byte).
pub open spec fn fd3_dict(d: Seq<u8>, k: int) -> u8 {
    d[4 + 3 * k]
}

/// Whether range `k` holds glyph `g`: it covers its first glyph up to, but not including,
/// the first glyph of the next range.
pub open spec fn fd3_range_holds(d: Seq<u8>, k: int, g: int) -> bool {
    fd3_first(d, k) <= g < fd3_first(d, k + 1)
}

/// The walk from range `i - 1` on finds the first range that holds the glyph.
proof fn lemma_fd3_walk(d: Seq<u8>, g: u16, i: int, n: int)
    requires
        1 <= i <= n,
        2 + 3 * n + 2 <= d.len(),
    ensures
        forall|k: int|
            i - 1 <= k < n && #[trigger] fd3_range_holds(d, k, g as int) && (forall|j: int|
                i - 1 <= j < k ==> !fd3_range_holds(d, j, g as int)) ==> spec_fd3_walk(
                d,
                g,
                i,
                n,
                fd3_first(d, i - 1),
                fd3_dict(d, i - 1),
            ) == Some(fd3_dict(d, k)),
        (forall|k: int| i - 1 <= k < n ==> !#[trigger] fd3_range_holds(d, k, g as int))
            ==> spec_fd3_walk(d, g, i, n, fd3_first(d, i - 1), fd3_dict(d, i - 1)) is None,
    decreases n - i,
{
    assert(be_u16(d[2 + 3 * i], d[3 + 3 * i]) == fd3_first(d, i));
    if forall|k: int| i - 1 <= k < n ==> !#[trigger] fd3_range_holds(d, k, g as int) {
        assert(!fd3_range_holds(d, i - 1, g as int));
        if i < n {
            lemma_fd3_walk(d, g, i + 1, n);
            assert(d[4 + 3 * i] == fd3_dict(d, i));
            assert forall|k: int| i <= k < n implies !#[trigger] fd3_range_holds(d, k, g as int) by {}
        }
    }
    if i < n {
        lemma_fd3_walk(d, g, i + 1, n);
        assert(d[4 + 3 * i] == fd3_dict(d, i));
        assert forall|k: int|
            i - 1 <= k < n && #[trigger] fd3_range_holds(d, k, g as int) && (forall|j: int|
                i - 1 <= j < k ==> !fd3_range_holds(d, j, g as int)) implies spec_fd3_walk(
            d,
            g,
            i,
            n,
            fd3_first(d, i - 1),
            fd3_dict(d, i - 1),
        ) == Some(fd3_dict(d, k)) by {
            if k > i - 1 {
                assert(!fd3_range_holds(d, i - 1, g as int));
            }
        }
    }
}

/// Law: a format 3 FDSelect gives a glyph the font DICT of the range that holds it. Its
/// ranges are half open: range `k` holds the glyphs from its first glyph up to, but not
/// including, the first glyph of range `k + 1` (or of the sentinel), so a glyph equal to the
/// first glyph of a range belongs to that range and not to the one before. Where ranges
/// overlap, the first one that holds the glyph decides; a glyph that no range holds has no
/// font DICT. `d` is the FDSelect after its format byte: the number of ranges, the ranges
/// and the sentinel.
pub proof fn lemma_fd_select3_ranges(d: Seq<u8>, g: u16)
    requires
        d.len() >= 2,
        1 <= be_u16(d[0], d[1]) < 65535,
        2 + 3 * (be_u16(d[0], d[1])) + 2 <= d.len(),
    ensures
        ({
            let n = be_u16(d[0], d[1]);
            &&& forall|k: int|
                0 <= k < n && #[trigger] fd3_range_holds(d, k, g as int) && (forall|j: int|
                    0 <= j < k ==> !fd3_range_holds(d, j, g as int)) ==> spec_font_dict_index(
                    FDSelectView::Format3(d),
                    g,
                ) == Some(fd3_dict(d, k))
            &&& (forall|k: int| 0 <= k < n ==> !#[trigger] fd3_range_holds(d, k, g as int))
                ==> spec_font_dict_index(FDSelectView::Format3(d), g) is None
        }),
{
    let n = be_u16(d[0], d[1]);
    assert(be_u16(d[0], d[1]) == n);
    assert(be_u16(d[2], d[3]) == fd3_first(d, 0));
    lemma_fd3_walk(d, g, 1, n);
}

} // verus!
