//! The Top DICT of a CFF font: reading the entries the subsetter needs, and writing the
//! Top DICT of the subset.
use crate::cff::dict::{
    lemma_next_op_advances, spec_next_op, spec_numbers_of, spec_offset_of, spec_operands,
    spec_range_of, spec_sid_of, DictionaryParser,
};
use crate::cff::index::{
    create_index, parse_index16, spec_create_index, spec_index_header_size, spec_parse_index16,
};
use crate::cff::number::{
    numbers_bytes, spec_int_5_bytes, spec_int_bytes, spec_number_bytes, write_numbers,
    IntegerNumber, Number, NumberView, StringId,
};
use crate::cff::operator::{spec_op_bytes, spec_op_code, spec_op_from_code, write_op, Operator};
use crate::cff::remapper::SidRemapper;
use crate::cff::{DeferredOffset, Offsets};
use crate::read::Reader;
use crate::write::{Writeable, Writer};
use crate::Error;
use vstd::prelude::*;

verus! {

/// The entries of a Top DICT that the subsetter needs.
pub struct TopDictData {
    /// Offset of the charset.
    pub charset: Option<usize>,
    /// Offset of the charstrings INDEX.
    pub char_strings: Option<usize>,
    /// Range of the private DICT: its start and its end.
    pub private: Option<(usize, usize)>,
    /// Offset of the FDArray.
    pub fd_array: Option<usize>,
    /// Offset of the FDSelect.
    pub fd_select: Option<usize>,
    /// String ID of the notice.
    pub notice: Option<StringId>,
    /// String ID of the copyright.
    pub copyright: Option<StringId>,
    /// String ID of the font name.
    pub font_name: Option<StringId>,
    /// Whether the DICT has a ROS entry (the font is CID-keyed).
    pub has_ros: bool,
    /// The font matrix.
    pub font_matrix: Option<[Number; 6]>,
    /// The font bounding box.
    pub font_bbox: Option<[Number; 4]>,
}

/// The mathematical value of the Top DICT entries.
pub struct TopDictView {
    pub charset: Option<usize>,
    pub char_strings: Option<usize>,
    pub private: Option<(usize, usize)>,
    pub fd_array: Option<usize>,
    pub fd_select: Option<usize>,
    pub notice: Option<StringId>,
    pub copyright: Option<StringId>,
    pub font_name: Option<StringId>,
    pub has_ros: bool,
    pub font_matrix: Option<Seq<NumberView>>,
    pub font_bbox: Option<Seq<NumberView>>,
}

impl View for TopDictData {
    type V = TopDictView;

    open spec fn view(&self) -> TopDictView {
        TopDictView {
            charset: self.charset,
            char_strings: self.char_strings,
            private: self.private,
            fd_array: self.fd_array,
            fd_select: self.fd_select,
            notice: self.notice,
            copyright: self.copyright,
            font_name: self.font_name,
            has_ros: self.has_ros,
            font_matrix: match self.font_matrix {
                Some(m) => Some(m@.map_values(|n: Number| n@)),
                None => None,
            },
            font_bbox: match self.font_bbox {
                Some(b) => Some(b@.map_values(|n: Number| n@)),
                None => None,
            },
        }
    }
}

/// The Top DICT without any entry.
pub open spec fn empty_top_dict() -> TopDictView {
    TopDictView {
        charset: None,
        char_strings: None,
        private: None,
        fd_array: None,
        fd_select: None,
        notice: None,
        copyright: None,
        font_name: None,
        has_ros: false,
        font_matrix: None,
        font_bbox: None,
    }
}

impl Default for TopDictData {
    fn default() -> (res: Self)
        ensures
            res@ == empty_top_dict(),
    {
        TopDictData {
            charset: None,
            char_strings: None,
            private: None,
            fd_array: None,
            fd_select: None,
            notice: None,
            copyright: None,
            font_name: None,
            has_ros: false,
            font_matrix: None,
            font_bbox: None,
        }
    }
}

/// The Top DICT after one more operator with its operands (`None` if the operands do not
/// fit the operator).
pub open spec fn spec_top_dict_entry(
    op: Operator,
    ops: Option<Seq<NumberView>>,
    acc: TopDictView,
) -> Option<TopDictView> {
    let c = spec_op_code(op);
    if c == 1 {
        match spec_sid_of(ops) {
            Some(s) => Some(TopDictView { notice: Some(s), ..acc }),
            None => None,
        }
    } else if c == 1200 {
        match spec_sid_of(ops) {
            Some(s) => Some(TopDictView { copyright: Some(s), ..acc }),
            None => None,
        }
    } else if c == 1238 {
        match spec_sid_of(ops) {
            Some(s) => Some(TopDictView { font_name: Some(s), ..acc }),
            None => None,
        }
    } else if c == 15 {
        match spec_offset_of(ops) {
            Some(o) => Some(TopDictView { charset: Some(o), ..acc }),
            None => None,
        }
    } else if c == 17 {
        match spec_offset_of(ops) {
            Some(o) => Some(TopDictView { char_strings: Some(o), ..acc }),
            None => None,
        }
    } else if c == 18 {
        match spec_range_of(ops) {
            Some(r) => Some(TopDictView { private: Some(r), ..acc }),
            None => None,
        }
    } else if c == 1230 {
        Some(TopDictView { has_ros: true, ..acc })
    } else if c == 1236 {
        match spec_offset_of(ops) {
            Some(o) => Some(TopDictView { fd_array: Some(o), ..acc }),
            None => None,
        }
    } else if c == 1237 {
        match spec_offset_of(ops) {
            Some(o) => Some(TopDictView { fd_select: Some(o), ..acc }),
            None => None,
        }
    } else if c == 1207 {
        match spec_numbers_of(ops, 6) {
            Some(m) => Some(TopDictView { font_matrix: Some(m), ..acc }),
            None => None,
        }
    } else if c == 5 {
        match spec_numbers_of(ops, 4) {
            Some(b) => Some(TopDictView { font_bbox: Some(b), ..acc }),
            None => None,
        }
    } else {
        Some(acc)
    }
}

/// The Top DICT entries of the DICT `d` from `pos` on, after the entries `acc`.
pub open spec fn spec_top_dict_walk(d: Seq<u8>, pos: int, acc: TopDictView) -> Option<TopDictView>
    decreases d.len() - pos,
{
    match spec_next_op(d, pos) {
        None => Some(acc),
        Some((op, next)) => if pos < next <= d.len() {
            match spec_top_dict_entry(op, spec_operands(d, pos, Seq::empty()), acc) {
                Some(a) => spec_top_dict_walk(d, next, a),
                None => None,
            }
        } else {
            None
        },
    }
}

/// Parse a Top DICT.
pub fn parse_top_dict(data: &[u8]) -> (res: Option<TopDictData>)
    ensures
        match spec_top_dict_walk(data@, 0, empty_top_dict()) {
            Some(v) => res matches Some(t) && t@ == v,
            None => res is None,
        },
{
    let ghost d = data@;
    let mut top_dict = TopDictData::default();
    let mut parser = DictionaryParser::new(data);
    loop
        invariant_except_break
            parser.wf(),
            parser.spec_data() == d,
            d == data@,
            0 <= parser.spec_offset() <= d.len(),
            spec_top_dict_walk(d, 0, empty_top_dict()) == spec_top_dict_walk(
                d,
                parser.spec_offset(),
                top_dict@,
            ),
        ensures
            spec_top_dict_walk(d, 0, empty_top_dict()) == Some(top_dict@),
        decreases d.len() - parser.spec_offset(),
    {
        let ghost pos = parser.spec_offset();
        let ghost acc = top_dict@;
        proof {
            lemma_next_op_advances(d, pos);
        }
        let op = match parser.parse_next() {
            Some(op) => op,
            None => break,
        };
        let code = op.get();
        // Only the copyrights, the font name, the offsets and the matrix and bounding box
        // are needed; the encoding is dropped since the font becomes CID-keyed anyway.
        if code == 1 {
            top_dict.notice = Some(parser.parse_sid()?);
        } else if code == 1200 {
            top_dict.copyright = Some(parser.parse_sid()?);
        } else if code == 1238 {
            top_dict.font_name = Some(parser.parse_sid()?);
        } else if code == 15 {
            top_dict.charset = Some(parser.parse_offset()?);
        } else if code == 17 {
            top_dict.char_strings = Some(parser.parse_offset()?);
        } else if code == 18 {
            top_dict.private = Some(parser.parse_range()?);
        } else if code == 1230 {
            // The ROS is rewritten; it only tells that the font is CID-keyed.
            top_dict.has_ros = true;
        } else if code == 1236 {
            top_dict.fd_array = Some(parser.parse_offset()?);
        } else if code == 1237 {
            top_dict.fd_select = Some(parser.parse_offset()?);
        } else if code == 1207 {
            top_dict.font_matrix = Some(parser.parse_font_matrix()?);
        } else if code == 5 {
            top_dict.font_bbox = Some(parser.parse_font_bbox()?);
        }
        assert(spec_top_dict_entry(op, spec_operands(d, pos, Seq::empty()), acc) == Some(
            top_dict@,
        ));
    }
    Some(top_dict)
}

/// Parse the Top DICT INDEX, and the Top DICT it holds first.
pub fn parse_top_dict_index(r: &mut Reader) -> (res: Option<TopDictData>)
    ensures
        final(r).spec_data() == old(r).spec_data(),
        match spec_parse_index16(old(r).spec_rest()) {
            None => res is None,
            Some((ix, n)) => {
                &&& final(r).spec_offset() == old(r).spec_offset() + n
                &&& match ix.get(0) {
                    None => res is None,
                    Some(d) => match spec_top_dict_walk(d, 0, empty_top_dict()) {
                        Some(v) => res matches Some(t) && t@ == v,
                        None => res is None,
                    },
                }
            },
        },
{
    let index = parse_index16(r)?;
    // The Top DICT INDEX should have only one dictionary in CFF fonts.
    let data = index.get(0)?;
    parse_top_dict(data)
}

/// An operator with one integer operand.
pub open spec fn num_op(v: int, code: u16) -> Seq<u8> {
    spec_int_bytes(v as i32) + spec_op_bytes(spec_op_from_code(code))
}

/// The bytes of an operator given by its code.
pub open spec fn op_bytes(code: u16) -> Seq<u8> {
    spec_op_bytes(spec_op_from_code(code))
}

/// The entry for a string ID that is kept under its new ID, if it is kept.
pub open spec fn sid_entry(sid: Option<StringId>, old_sids: Map<u16, u16>, code: u16) -> Seq<u8> {
    match sid {
        Some(s) => if old_sids.contains_key(s.0) {
            num_op(old_sids[s.0] as int, code)
        } else {
            Seq::empty()
        },
        None => Seq::empty(),
    }
}

/// The bytes of the string "Adobe".
pub open spec fn adobe_bytes() -> Seq<u8> {
    seq![65u8, 100u8, 111u8, 98u8, 101u8]
}

/// The bytes of the string "Identity".
pub open spec fn identity_bytes() -> Seq<u8> {
    seq![73u8, 100u8, 101u8, 110u8, 116u8, 105u8, 116u8, 121u8]
}

/// The font matrix that is written when the Top DICT has none:
/// (0.001, 0, 0, 0.001, 0, 0).
pub open spec fn default_top_matrix() -> Seq<NumberView> {
    seq![
        NumberView::Real(seq![0x0au8, 0x00u8, 0x1fu8]),
        NumberView::Integer(0),
        NumberView::Integer(0),
        NumberView::Real(seq![0x0au8, 0x00u8, 0x1fu8]),
        NumberView::Integer(0),
        NumberView::Integer(0),
    ]
}

/// The font bounding box that is written when the Top DICT has none.
pub open spec fn default_bbox() -> Seq<NumberView> {
    seq![
        NumberView::Integer(0),
        NumberView::Integer(0),
        NumberView::Integer(0),
        NumberView::Integer(0),
    ]
}

/// The first part of the new Top DICT: ROS, copyright, notice, font name, font matrix and
/// font bounding box.
pub open spec fn spec_top_dict_head(
    td: TopDictView,
    old_sids: Map<u16, u16>,
    adobe: StringId,
    identity: StringId,
) -> Seq<u8> {
    spec_int_bytes(adobe.0 as i32) + spec_int_bytes(identity.0 as i32) + spec_int_bytes(0)
        + op_bytes(1230) + sid_entry(td.copyright, old_sids, 1200) + sid_entry(
        td.notice,
        old_sids,
        1,
    ) + sid_entry(td.font_name, old_sids, 1238) + numbers_bytes(
        match td.font_matrix {
            Some(m) => m,
            None => default_top_matrix(),
        },
    ) + op_bytes(1207) + numbers_bytes(
        match td.font_bbox {
            Some(b) => b,
            None => default_bbox(),
        },
    ) + op_bytes(5)
}

/// The last part of the new Top DICT: charset and charstrings offsets, the CID count, and
/// the FDArray and FDSelect offsets, each offset a placeholder of five bytes.
pub open spec fn spec_top_dict_tail() -> Seq<u8> {
    spec_int_5_bytes(0) + op_bytes(15) + spec_int_5_bytes(0) + op_bytes(17) + num_op(65535, 1234)
        + spec_int_5_bytes(0) + op_bytes(1236) + spec_int_5_bytes(0) + op_bytes(1237)
}

/// The new Top DICT.
pub open spec fn spec_top_dict_bytes(
    td: TopDictView,
    old_sids: Map<u16, u16>,
    adobe: StringId,
    identity: StringId,
) -> Seq<u8> {
    spec_top_dict_head(td, old_sids, adobe, identity) + spec_top_dict_tail()
}

/// Rewrite the Top DICT (into a Top DICT INDEX). It keeps what ghostscript seems to keep
/// when it writes a font subset, and records where the placeholders of the charset,
/// charstrings, FDArray and FDSelect offsets are.
#[verifier::rlimit(40)]
pub fn rewrite_top_dict_index(
    top_dict_data: &TopDictData,
    offsets: &mut Offsets,
    sid_remapper: &SidRemapper,
    w: &mut Writer,
) -> (res: Result<(), Error>)
    requires
        sid_remapper.wf(),
    ensures
        match (sid_remapper.spec_get(adobe_bytes()), sid_remapper.spec_get(identity_bytes())) {
            (Some(adobe), Some(identity)) => {
                let bytes = spec_top_dict_bytes(
                    top_dict_data@,
                    sid_remapper.spec_old_sids(),
                    adobe,
                    identity,
                );
                let head = spec_top_dict_head(
                    top_dict_data@,
                    sid_remapper.spec_old_sids(),
                    adobe,
                    identity,
                );
                let base = old(w)@.len() + spec_index_header_size(seq![bytes]) + head.len();
                if bytes.len() + 1 > u32::MAX || base + 26 > usize::MAX {
                    res == Err::<(), Error>(Error::OverflowError)
                } else {
                    &&& res is Ok
                    &&& final(w)@ == old(w)@ + spec_create_index(seq![bytes])
                    &&& final(offsets).charset_offset == (DeferredOffset {
                        location: base as usize,
                        value: old(offsets).charset_offset.value,
                    })
                    &&& final(offsets).char_strings_offset == (DeferredOffset {
                        location: (base + 6) as usize,
                        value: old(offsets).char_strings_offset.value,
                    })
                    &&& final(offsets).fd_array_offset == (DeferredOffset {
                        location: (base + 19) as usize,
                        value: old(offsets).fd_array_offset.value,
                    })
                    &&& final(offsets).fd_select_offset == (DeferredOffset {
                        location: (base + 26) as usize,
                        value: old(offsets).fd_select_offset.value,
                    })
                    &&& final(offsets).private_dicts_lens == old(offsets).private_dicts_lens
                    &&& final(offsets).private_dicts_offsets == old(offsets).private_dicts_offsets
                }
            },
            _ => res == Err::<(), Error>(Error::SubsetError),
        },
        res is Err ==> final(w)@ == old(w)@ && *final(offsets) == *old(offsets),
{
    let adobe_str: [u8; 5] = [65, 100, 111, 98, 101];
    let identity_str: [u8; 8] = [73, 100, 101, 110, 116, 105, 116, 121];
    assert(adobe_str@ =~= adobe_bytes());
    assert(identity_str@ =~= identity_bytes());
    let adobe = match sid_remapper.get(adobe_str.as_slice()) {
        Some(s) => s,
        None => return Err(Error::SubsetError),
    };
    let identity = match sid_remapper.get(identity_str.as_slice()) {
        Some(s) => s,
        None => return Err(Error::SubsetError),
    };
    let ghost td = top_dict_data@;
    let ghost old_sids = sid_remapper.spec_old_sids();
    let mut sub_w = Writer::new();

    // ROS.
    Number::from_i32(adobe.0 as i32).write(&mut sub_w);
    Number::from_i32(identity.0 as i32).write(&mut sub_w);
    Number::zero().write(&mut sub_w);
    write_op(&mut sub_w, 1230);
    // Copyright notices.
    let ghost w1 = sub_w@;
    if let Some(copyright) = top_dict_data.copyright {
        if let Some(new_sid) = sid_remapper.get_new_sid(copyright) {
            Number::from_i32(new_sid.0 as i32).write(&mut sub_w);
            write_op(&mut sub_w, 1200);
        }
    }
    assert(sub_w@ =~= w1 + sid_entry(td.copyright, old_sids, 1200));
    let ghost w2 = sub_w@;
    if let Some(notice) = top_dict_data.notice {
        if let Some(new_sid) = sid_remapper.get_new_sid(notice) {
            Number::from_i32(new_sid.0 as i32).write(&mut sub_w);
            write_op(&mut sub_w, 1);
        }
    }
    assert(sub_w@ =~= w2 + sid_entry(td.notice, old_sids, 1));
    // Font name.
    let ghost w3 = sub_w@;
    if let Some(font_name) = top_dict_data.font_name {
        if let Some(new_sid) = sid_remapper.get_new_sid(font_name) {
            Number::from_i32(new_sid.0 as i32).write(&mut sub_w);
            write_op(&mut sub_w, 1238);
        }
    }
    assert(sub_w@ =~= w3 + sid_entry(td.font_name, old_sids, 1238));
    // The font matrix, (0.001, 0, 0, 0.001, 0, 0) when there is none; see
    // https://bugs.ghostscript.com/show_bug.cgi?id=690724#c12.
    match &top_dict_data.font_matrix {
        Some(m) => write_numbers(&mut sub_w, m.as_slice()),
        None => {
            let m = [
                Number::thousandth(),
                Number::zero(),
                Number::zero(),
                Number::thousandth(),
                Number::zero(),
                Number::zero(),
            ];
            assert(m@.map_values(|n: Number| n@) =~= default_top_matrix());
            write_numbers(&mut sub_w, m.as_slice());
        },
    }
    write_op(&mut sub_w, 1207);
    // A default font bounding box, if there is none.
    match &top_dict_data.font_bbox {
        Some(b) => write_numbers(&mut sub_w, b.as_slice()),
        None => {
            let b = [Number::zero(), Number::zero(), Number::zero(), Number::zero()];
            assert(b@.map_values(|n: Number| n@) =~= default_bbox());
            write_numbers(&mut sub_w, b.as_slice());
        },
    }
    write_op(&mut sub_w, 5);
    assert(sub_w@ =~= spec_top_dict_head(td, old_sids, adobe, identity));

    let head_len = sub_w.len();
    let dummy = IntegerNumber(0);
    dummy.write_as_5_bytes(&mut sub_w);
    write_op(&mut sub_w, 15);
    dummy.write_as_5_bytes(&mut sub_w);
    write_op(&mut sub_w, 17);
    Number::from_i32(65535).write(&mut sub_w);
    write_op(&mut sub_w, 1234);
    dummy.write_as_5_bytes(&mut sub_w);
    write_op(&mut sub_w, 1236);
    dummy.write_as_5_bytes(&mut sub_w);
    write_op(&mut sub_w, 1237);
    let ghost bytes = spec_top_dict_bytes(td, old_sids, adobe, identity);
    assert(sub_w@ =~= bytes);
    assert(spec_int_bytes(65535).len() == 5);

    let finished = sub_w.finish();
    let ghost items = seq![finished@];
    let mut items_vec: Vec<Vec<u8>> = Vec::new();
    items_vec.push(finished);
    assert(crate::cff::index::items_of(items_vec@) =~= seq![bytes]);
    assert(crate::cff::index::sum_lens(seq![bytes], 1) == bytes.len()) by {
        reveal_with_fuel(crate::cff::index::sum_lens, 2);
    }
    let index = create_index(items_vec)?;
    let w_len = w.len();
    let base = match w_len.checked_add(index.header_size) {
        Some(b) => match b.checked_add(head_len) {
            Some(c) => c,
            None => return Err(Error::OverflowError),
        },
        None => return Err(Error::OverflowError),
    };
    if base > usize::MAX - 26 {
        return Err(Error::OverflowError);
    }
    offsets.charset_offset.update_location(base);
    offsets.char_strings_offset.update_location(base + 6);
    offsets.fd_array_offset.update_location(base + 19);
    offsets.fd_select_offset.update_location(base + 26);
    index.write(w);
    Ok(())
}

} // verus!
