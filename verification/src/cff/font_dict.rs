//! Font DICTs of CID-keyed fonts: reading them, and writing the FDArray of the subset.
use crate::cff::cid_font::CIDMetadata;
use crate::cff::dict::{
    lemma_next_op_advances, spec_next_op, spec_numbers_of, spec_operands, spec_range_of,
    spec_sid_of, DictionaryParser,
};
use crate::cff::index::{
    create_index, empty_index_view, items_of, parse_index16, spec_create_index,
    spec_parse_index16, sum_lens, Index, IndexView,
};
use crate::cff::number::{
    numbers_bytes, spec_int_5_bytes, write_numbers, IntegerNumber, Number, NumberView, StringId,
};
use crate::cff::operator::{spec_op_code, write_op, Operator};
use crate::cff::private_dict::{parse_subr_offset, spec_subr_walk};
use crate::cff::remapper::{FontDictRemapper, SidRemapper};
use crate::cff::top_dict::{num_op, op_bytes, sid_entry};
use crate::cff::{DeferredOffset, Offsets};
use crate::read::Reader;
use crate::write::{Writeable, Writer};
use crate::Error;
use vstd::prelude::*;

verus! {

/// A font DICT.
#[derive(Clone, Copy)]
pub struct FontDict<'a> {
    /// The local subroutines that are linked in the font DICT.
    pub local_subrs: Index<'a>,
    /// The underlying data of the private dict.
    pub private_dict: &'a [u8],
    /// The StringID of the font name in this font DICT.
    pub font_name: Option<StringId>,
    /// The font matrix.
    pub font_matrix: Option<[Number; 6]>,
}

/// The mathematical value of a font DICT.
pub struct FontDictView {
    pub local_subrs: IndexView,
    pub private_dict: Seq<u8>,
    pub font_name: Option<StringId>,
    pub font_matrix: Option<Seq<NumberView>>,
}

impl<'a> View for FontDict<'a> {
    type V = FontDictView;

    open spec fn view(&self) -> FontDictView {
        FontDictView {
            local_subrs: self.local_subrs@,
            private_dict: self.private_dict@,
            font_name: self.font_name,
            font_matrix: match self.font_matrix {
                Some(m) => Some(m@.map_values(|n: Number| n@)),
                None => None,
            },
        }
    }
}

/// The font DICT without any entry.
pub open spec fn empty_font_dict() -> FontDictView {
    FontDictView {
        local_subrs: empty_index_view(),
        private_dict: Seq::empty(),
        font_name: None,
        font_matrix: None,
    }
}

/// The private DICT and local subroutines that a private DICT range of the font `font_data`
/// leads to.
pub open spec fn spec_private_of(font_data: Seq<u8>, range: (usize, usize)) -> Option<
    (Seq<u8>, IndexView),
> {
    let (start, end) = range;
    if start <= end && end <= font_data.len() {
        let p = font_data.subrange(start as int, end as int);
        match spec_subr_walk(p, 0) {
            Some(so) => if start + so <= usize::MAX && start + so <= font_data.len() {
                match spec_parse_index16(font_data.subrange(start + so, font_data.len() as int)) {
                    Some((ix, _)) => Some((p, ix)),
                    None => None,
                }
            } else {
                None
            },
            None => None,
        }
    } else {
        None
    }
}

/// The font DICT after one more operator with its operands.
pub open spec fn spec_font_dict_entry(
    font_data: Seq<u8>,
    op: Operator,
    ops: Option<Seq<NumberView>>,
    acc: FontDictView,
) -> Option<FontDictView> {
    let c = spec_op_code(op);
    if c == 18 {
        match spec_range_of(ops) {
            Some(range) => match spec_private_of(font_data, range) {
                Some((p, ix)) => Some(FontDictView { private_dict: p, local_subrs: ix, ..acc }),
                None => None,
            },
            None => None,
        }
    } else if c == 1238 {
        match spec_sid_of(ops) {
            Some(s) => Some(FontDictView { font_name: Some(s), ..acc }),
            None => None,
        }
    } else if c == 1207 {
        match spec_numbers_of(ops, 6) {
            Some(m) => Some(FontDictView { font_matrix: Some(m), ..acc }),
            None => None,
        }
    } else {
        Some(acc)
    }
}

/// The font DICT entries of the DICT `d` from `pos` on, after the entries `acc`.
pub open spec fn spec_font_dict_walk(
    font_data: Seq<u8>,
    d: Seq<u8>,
    pos: int,
    acc: FontDictView,
) -> Option<FontDictView>
    decreases d.len() - pos,
{
    match spec_next_op(d, pos) {
        None => Some(acc),
        Some((op, next)) => if pos < next <= d.len() {
            match spec_font_dict_entry(font_data, op, spec_operands(d, pos, Seq::empty()), acc) {
                Some(a) => spec_font_dict_walk(font_data, d, next, a),
                None => None,
            }
        } else {
            None
        },
    }
}

/// Parse a font DICT of the font `font_data`.
pub fn parse_font_dict<'a>(font_data: &'a [u8], font_dict_data: &[u8]) -> (res: Option<
    FontDict<'a>,
>)
    ensures
        match spec_font_dict_walk(font_data@, font_dict_data@, 0, empty_font_dict()) {
            Some(v) => res matches Some(f) && f@ == v,
            None => res is None,
        },
{
    let ghost d = font_dict_data@;
    let mut font_dict = FontDict {
        local_subrs: Index::empty(),
        private_dict: &[],
        font_name: None,
        font_matrix: None,
    };
    assert(font_dict@.private_dict =~= Seq::<u8>::empty());
    let mut parser = DictionaryParser::new(font_dict_data);
    loop
        invariant_except_break
            parser.wf(),
            parser.spec_data() == d,
            d == font_dict_data@,
            0 <= parser.spec_offset() <= d.len(),
            spec_font_dict_walk(font_data@, d, 0, empty_font_dict()) == spec_font_dict_walk(
                font_data@,
                d,
                parser.spec_offset(),
                font_dict@,
            ),
        ensures
            spec_font_dict_walk(font_data@, d, 0, empty_font_dict()) == Some(font_dict@),
        decreases d.len() - parser.spec_offset(),
    {
        let ghost pos = parser.spec_offset();
        let ghost acc = font_dict@;
        proof {
            lemma_next_op_advances(d, pos);
        }
        let op = match parser.parse_next() {
            Some(op) => op,
            None => break,
        };
        let code = op.get();
        if code == 18 {
            let (start, end) = parser.parse_range()?;
            if start > end || end > font_data.len() {
                return None;
            }
            let private_dict_data = &font_data[start..end];
            let subrs_offset = parse_subr_offset(private_dict_data)?;
            let subrs_start = start.checked_add(subrs_offset)?;
            if subrs_start > font_data.len() {
                return None;
            }
            let subrs_data = &font_data[subrs_start..font_data.len()];
            let mut r = Reader::new(subrs_data);
            assert(r.spec_rest() =~= font_data@.subrange(subrs_start as int, font_data@.len() as int));
            assert(private_dict_data@ =~= font_data@.subrange(start as int, end as int));
            let local_subrs = parse_index16(&mut r)?;
            font_dict.private_dict = private_dict_data;
            font_dict.local_subrs = local_subrs;
        } else if code == 1238 {
            font_dict.font_name = Some(parser.parse_sid()?);
        } else if code == 1207 {
            font_dict.font_matrix = Some(parser.parse_font_matrix()?);
        }
        assert(spec_font_dict_entry(font_data@, op, spec_operands(d, pos, Seq::empty()), acc)
            == Some(font_dict@));
    }
    Some(font_dict)
}

/// The font matrix that a font DICT without one gets: (1, 0, 0, 1, 0, 0).
pub open spec fn default_fd_matrix() -> Seq<NumberView> {
    seq![
        NumberView::Integer(1),
        NumberView::Integer(0),
        NumberView::Integer(0),
        NumberView::Integer(1),
        NumberView::Integer(0),
        NumberView::Integer(0),
    ]
}

/// A new font DICT: underline position and thickness 0, the font matrix, the private DICT
/// length and offset (five bytes each), and the font name under its new string ID.
pub open spec fn spec_font_dict_bytes(
    fd: FontDictView,
    private_len: i32,
    private_offset: i32,
    old_sids: Map<u16, u16>,
) -> Seq<u8> {
    num_op(0, 1203) + num_op(0, 1204) + numbers_bytes(
        match fd.font_matrix {
            Some(m) => m,
            None => default_fd_matrix(),
        },
    ) + op_bytes(1207) + spec_int_5_bytes(private_len) + spec_int_5_bytes(private_offset)
        + op_bytes(18) + sid_entry(fd.font_name, old_sids, 1238)
}

/// The new font DICTs of the font DICTs `fds` (old indices, in the new order).
pub open spec fn spec_font_dicts(
    dicts: Seq<FontDictView>,
    fds: Seq<u16>,
    lens: Seq<DeferredOffset>,
    offs: Seq<DeferredOffset>,
    old_sids: Map<u16, u16>,
) -> Seq<Seq<u8>> {
    Seq::new(
        fds.len(),
        |j: int|
            spec_font_dict_bytes(
                dicts[fds[j] as int],
                lens[j].value.0,
                offs[j].value.0,
                old_sids,
            ),
    )
}

/// Write the new font DICT INDEX (FDArray) of a CID-keyed font.
pub fn rewrite_font_dict_index(
    fd_remapper: &FontDictRemapper,
    sid_remapper: &SidRemapper,
    offsets: &mut Offsets,
    metadata: &CIDMetadata,
    w: &mut Writer,
) -> (res: Result<(), Error>)
    requires
        fd_remapper.wf(),
    ensures
        *final(offsets) == *old(offsets),
        ({
            let fds = fd_remapper.spec_fds();
            let dicts = metadata.font_dicts@.map_values(|f: FontDict| f@);
            let lens = old(offsets).private_dicts_lens@;
            let offs = old(offsets).private_dicts_offsets@;
            let items = spec_font_dicts(dicts, fds, lens, offs, sid_remapper.spec_old_sids());
            if forall|j: int|
                0 <= j < fds.len() ==> #[trigger] fds[j] < dicts.len() && j < lens.len() && j
                    < offs.len() {
                if sum_lens(items, items.len() as int) + 1 > u32::MAX {
                    res == Err::<(), Error>(Error::OverflowError)
                } else {
                    res is Ok && final(w)@ == old(w)@ + spec_create_index(items)
                }
            } else {
                res == Err::<(), Error>(Error::SubsetError)
            }
        }),
{
    let fds = fd_remapper.sorted_iter();
    let ghost dicts = metadata.font_dicts@.map_values(|f: FontDict| f@);
    let ghost lens = offsets.private_dicts_lens@;
    let ghost offs = offsets.private_dicts_offsets@;
    let ghost old_sids = sid_remapper.spec_old_sids();
    let ghost items = spec_font_dicts(dicts, fds@, lens, offs, old_sids);
    let mut out: Vec<Vec<u8>> = Vec::new();
    let mut i: usize = 0;
    while i < fds.len()
        invariant
            i <= fds@.len(),
            fds@ == fd_remapper.spec_fds(),
            fds@.len() <= 255,
            dicts == metadata.font_dicts@.map_values(|f: FontDict| f@),
            lens == offsets.private_dicts_lens@,
            offs == offsets.private_dicts_offsets@,
            old_sids == sid_remapper.spec_old_sids(),
            items == spec_font_dicts(dicts, fds@, lens, offs, old_sids),
            out@.len() == i,
            forall|j: int| 0 <= j < i ==> #[trigger] out@[j]@ == items[j],
            forall|j: int|
                0 <= j < i ==> #[trigger] fds@[j] < dicts.len() && j < lens.len() && j < offs.len(),
        decreases fds@.len() - i,
    {
        let old_df = fds[i];
        if old_df as usize >= metadata.font_dicts.len() || i >= offsets.private_dicts_lens.len()
            || i >= offsets.private_dicts_offsets.len() {
            return Err(Error::SubsetError);
        }
        let dict = &metadata.font_dicts[old_df as usize];
        assert(dict@ == dicts[old_df as int]);
        let mut sub_w = Writer::new();
        // Ghostscript writes these two entries, so they are written too.
        Number::zero().write(&mut sub_w);
        write_op(&mut sub_w, 1203);
        Number::zero().write(&mut sub_w);
        write_op(&mut sub_w, 1204);
        match &dict.font_matrix {
            Some(m) => write_numbers(&mut sub_w, m.as_slice()),
            None => {
                let m = [
                    Number::one(),
                    Number::zero(),
                    Number::zero(),
                    Number::one(),
                    Number::zero(),
                    Number::zero(),
                ];
                assert(m@.map_values(|n: Number| n@) =~= default_fd_matrix());
                write_numbers(&mut sub_w, m.as_slice());
            },
        }
        write_op(&mut sub_w, 1207);
        // The private DICTs are written already, so their lengths and offsets are known.
        offsets.private_dicts_lens[i].value.write_as_5_bytes(&mut sub_w);
        offsets.private_dicts_offsets[i].value.write_as_5_bytes(&mut sub_w);
        write_op(&mut sub_w, 18);
        let ghost before = sub_w@;
        if let Some(font_name) = dict.font_name {
            if let Some(new_sid) = sid_remapper.get_new_sid(font_name) {
                Number::from_i32(new_sid.0 as i32).write(&mut sub_w);
                write_op(&mut sub_w, 1238);
            }
        }
        assert(sub_w@ =~= before + sid_entry(dict@.font_name, old_sids, 1238));
        assert(sub_w@ =~= items[i as int]);
        out.push(sub_w.finish());
        i = i + 1;
    }
    assert(items_of(out@) =~= items);
    let index = create_index(out)?;
    index.write(w);
    Ok(())
}

/// The font DICT of a SID-keyed font turned CID-keyed: the private DICT length and offset
/// only.
pub open spec fn spec_generated_font_dict(private_len: i32, private_offset: i32) -> Seq<u8> {
    spec_int_5_bytes(private_len) + spec_int_5_bytes(private_offset) + op_bytes(18)
}

/// Generate the font DICT INDEX (FDArray) of a SID-keyed font: one font DICT that points to
/// the one private DICT.
pub fn generate_font_dict_index(offsets: &mut Offsets, w: &mut Writer) -> (res: Result<(), Error>)
    ensures
        *final(offsets) == *old(offsets),
        if old(offsets).private_dicts_lens@.len() == 0 || old(offsets).private_dicts_offsets@.len()
            == 0 {
            res == Err::<(), Error>(Error::SubsetError)
        } else {
            &&& res is Ok
            &&& final(w)@ == old(w)@ + spec_create_index(
                seq![
                    spec_generated_font_dict(
                        old(offsets).private_dicts_lens@[0].value.0,
                        old(offsets).private_dicts_offsets@[0].value.0,
                    ),
                ],
            )
        },
{
    if offsets.private_dicts_lens.len() == 0 || offsets.private_dicts_offsets.len() == 0 {
        return Err(Error::SubsetError);
    }
    let mut sub_w = Writer::new();
    offsets.private_dicts_lens[0].value.write_as_5_bytes(&mut sub_w);
    offsets.private_dicts_offsets[0].value.write_as_5_bytes(&mut sub_w);
    write_op(&mut sub_w, 18);
    let ghost bytes = spec_generated_font_dict(
        offsets.private_dicts_lens@[0].value.0,
        offsets.private_dicts_offsets@[0].value.0,
    );
    assert(sub_w@ =~= bytes);
    let mut items: Vec<Vec<u8>> = Vec::new();
    items.push(sub_w.finish());
    assert(items_of(items@) =~= seq![bytes]);
    assert(sum_lens(seq![bytes], 1) == bytes.len()) by {
        reveal_with_fuel(sum_lens, 2);
    }
    let index = create_index(items)?;
    index.write(w);
    Ok(())
}

} // verus!
