//! Private DICTs: finding their local subroutines, and rewriting them without the
//! subroutines entry.
use crate::cff::cid_font::CIDMetadata;
use crate::cff::dict::{
    lemma_next_op_advances, spec_next_op, spec_offset_of, spec_operands, DictionaryParser,
};
use crate::cff::number::{numbers_bytes, write_numbers, IntegerNumber, Number, NumberView};
use crate::cff::operator::{spec_op_bytes, spec_op_code, Operator};
use crate::cff::remapper::FontDictRemapper;
use crate::cff::{DeferredOffset, Offsets};
use crate::write::{Writeable, Writer};
use crate::Error;
use vstd::prelude::*;

verus! {

/// What the subsetter reads of a private DICT: the offset of its local subroutines.
#[derive(Default, Clone, Copy, Debug)]
pub struct PrivateDict {
    /// The offset of the local subroutines, from the start of the private DICT.
    pub subrs: Option<usize>,
}

/// The offset of the local subroutines given by the first `Subrs` entry of the DICT `d`
/// from `pos` on.
pub open spec fn spec_subr_walk(d: Seq<u8>, pos: int) -> Option<usize>
    decreases d.len() - pos,
{
    match spec_next_op(d, pos) {
        None => None,
        Some((op, next)) => if spec_op_code(op) == 19 {
            spec_offset_of(spec_operands(d, pos, Seq::empty()))
        } else if pos < next <= d.len() {
            spec_subr_walk(d, next)
        } else {
            None
        },
    }
}

/// Parse the subroutine offset from a private DICT.
pub fn parse_subr_offset(data: &[u8]) -> (res: Option<usize>)
    ensures
        res == spec_subr_walk(data@, 0),
{
    let ghost d = data@;
    let mut parser = DictionaryParser::new(data);
    loop
        invariant
            parser.wf(),
            parser.spec_data() == d,
            d == data@,
            0 <= parser.spec_offset() <= d.len(),
            spec_subr_walk(d, 0) == spec_subr_walk(d, parser.spec_offset()),
        decreases d.len() - parser.spec_offset(),
    {
        let ghost pos = parser.spec_offset();
        proof {
            lemma_next_op_advances(d, pos);
        }
        let op = parser.parse_next()?;
        if op.get() == 19 {
            return parser.parse_offset();
        }
    }
}

/// The private DICT `d`, from `pos` on, rewritten without its `Subrs` entry, after the
/// bytes `acc`; `None` if the operands of an entry cannot be read.
pub open spec fn spec_private_walk(d: Seq<u8>, pos: int, acc: Seq<u8>) -> Option<Seq<u8>>
    decreases d.len() - pos,
{
    match spec_next_op(d, pos) {
        None => Some(acc),
        Some((op, next)) => if !(pos < next <= d.len()) {
            None
        } else if spec_op_code(op) == 19 {
            spec_private_walk(d, next, acc)
        } else {
            match spec_operands(d, pos, Seq::empty()) {
                Some(ops) => spec_private_walk(
                    d,
                    next,
                    acc + numbers_bytes(ops) + spec_op_bytes(op),
                ),
                None => None,
            }
        },
    }
}

/// The private DICT `d` rewritten without its `Subrs` entry (the subset has no
/// subroutines).
pub open spec fn spec_private_bytes(d: Seq<u8>) -> Option<Seq<u8>> {
    spec_private_walk(d, 0, Seq::empty())
}

/// Rewrite a private DICT without its subroutines, and record its length and offset as the
/// values of the private DICT entry with index `dict_index`.
pub fn rewrite_private_dict(
    offsets: &mut Offsets,
    private_dict_data: &[u8],
    w: &mut Writer,
    dict_index: usize,
) -> (res: Result<(), Error>)
    ensures
        final(offsets).charset_offset == old(offsets).charset_offset,
        final(offsets).char_strings_offset == old(offsets).char_strings_offset,
        final(offsets).fd_array_offset == old(offsets).fd_array_offset,
        final(offsets).fd_select_offset == old(offsets).fd_select_offset,
        final(offsets).private_dicts_lens@.len() == old(offsets).private_dicts_lens@.len(),
        final(offsets).private_dicts_offsets@.len() == old(offsets).private_dicts_offsets@.len(),
        res is Err ==> *final(offsets) == *old(offsets) && final(w)@ == old(w)@,
        match spec_private_bytes(private_dict_data@) {
            None => res == Err::<(), Error>(Error::MalformedFont),
            Some(bytes) => if dict_index >= old(offsets).private_dicts_lens@.len() || dict_index
                >= old(offsets).private_dicts_offsets@.len() {
                res == Err::<(), Error>(Error::SubsetError)
            } else if bytes.len() > i32::MAX || old(w)@.len() > i32::MAX {
                res == Err::<(), Error>(Error::OverflowError)
            } else {
                &&& res is Ok
                &&& final(w)@ == old(w)@ + bytes
                &&& final(offsets).private_dicts_lens@ == old(offsets).private_dicts_lens@.update(
                    dict_index as int,
                    DeferredOffset {
                        location: old(offsets).private_dicts_lens@[dict_index as int].location,
                        value: IntegerNumber(bytes.len() as i32),
                    },
                )
                &&& final(offsets).private_dicts_offsets@ == old(offsets).private_dicts_offsets@.update(
                    dict_index as int,
                    DeferredOffset {
                        location: old(offsets).private_dicts_offsets@[dict_index as int].location,
                        value: IntegerNumber(old(w)@.len() as i32),
                    },
                )
            },
        },
{
    let private_dict_offset = w.len();
    let ghost d = private_dict_data@;
    let mut parser = DictionaryParser::new(private_dict_data);
    let mut sub_w = Writer::new();
    // Every entry but the subroutine offset stays as it is.
    loop
        invariant_except_break
            parser.wf(),
            parser.spec_data() == d,
            d == private_dict_data@,
            0 <= parser.spec_offset() <= d.len(),
            spec_private_bytes(d) == spec_private_walk(d, parser.spec_offset(), sub_w@),
        ensures
            spec_private_bytes(d) == Some(sub_w@),
        decreases d.len() - parser.spec_offset(),
    {
        let ghost pos = parser.spec_offset();
        proof {
            lemma_next_op_advances(d, pos);
        }
        let op = match parser.parse_next() {
            Some(op) => op,
            None => break,
        };
        if op.get() != 19 {
            if parser.parse_operands().is_none() {
                return Err(Error::MalformedFont);
            }
            write_numbers(&mut sub_w, parser.operands());
            op.write(&mut sub_w);
        }
    }
    let private_dict_data = sub_w.finish();
    let private_dict_len = private_dict_data.len();
    if dict_index >= offsets.private_dicts_lens.len() || dict_index
        >= offsets.private_dicts_offsets.len() {
        return Err(Error::SubsetError);
    }
    let mut len_entry = offsets.private_dicts_lens[dict_index];
    len_entry.update_value(private_dict_len)?;
    let mut offset_entry = offsets.private_dicts_offsets[dict_index];
    offset_entry.update_value(private_dict_offset)?;
    offsets.private_dicts_lens.set(dict_index, len_entry);
    offsets.private_dicts_offsets.set(dict_index, offset_entry);
    w.extend(private_dict_data.as_slice());
    Ok(())
}

/// The rewritten private DICTs of the font DICTs `fds` (old indices, in the new order), the
/// first `k` of them one after the other; `None` if one is missing or malformed.
pub open spec fn spec_private_dicts_concat(privs: Seq<Seq<u8>>, fds: Seq<u16>, k: int) -> Option<
    Seq<u8>,
>
    decreases k,
{
    if k <= 0 {
        Some(Seq::empty())
    } else {
        match spec_private_dicts_concat(privs, fds, k - 1) {
            None => None,
            Some(prev) => if fds[k - 1] < privs.len() {
                match spec_private_bytes(privs[fds[k - 1] as int]) {
                    Some(b) => Some(prev + b),
                    None => None,
                }
            } else {
                None
            },
        }
    }
}

/// The private DICT data of each font DICT of the metadata.
pub open spec fn spec_private_dicts_of(metadata: &CIDMetadata) -> Seq<Seq<u8>> {
    metadata.font_dicts@.map_values(|fd: crate::cff::font_dict::FontDict| fd.private_dict@)
}

/// The length of the `j`-th rewritten private DICT.
pub open spec fn private_len_at(privs: Seq<Seq<u8>>, fds: Seq<u16>, j: int) -> int {
    spec_private_dicts_concat(privs, fds, j + 1).unwrap().len() - spec_private_dicts_concat(
        privs,
        fds,
        j,
    ).unwrap().len()
}

/// The offset of the `j`-th rewritten private DICT, when they are written at `start`.
pub open spec fn private_offset_at(privs: Seq<Seq<u8>>, fds: Seq<u16>, start: int, j: int) -> int {
    start + spec_private_dicts_concat(privs, fds, j).unwrap().len()
}

/// Writing the rewritten private DICTs of the font DICTs `fds` (old indices, in the new
/// order), the first `k` of them, at `start`, when `nlens` and `noffs` entries are there to
/// record their lengths and offsets: the bytes written, or the error that stops it.
pub open spec fn spec_cid_privates(
    privs: Seq<Seq<u8>>,
    fds: Seq<u16>,
    k: int,
    start: int,
    nlens: int,
    noffs: int,
) -> Result<Seq<u8>, Error>
    decreases k,
{
    if k <= 0 {
        Ok(Seq::empty())
    } else {
        match spec_cid_privates(privs, fds, k - 1, start, nlens, noffs) {
            Err(e) => Err(e),
            Ok(prev) => if fds[k - 1] >= privs.len() {
                Err(Error::SubsetError)
            } else {
                match spec_private_bytes(privs[fds[k - 1] as int]) {
                    None => Err(Error::MalformedFont),
                    Some(b) => if k - 1 >= nlens || k - 1 >= noffs {
                        Err(Error::SubsetError)
                    } else if b.len() > i32::MAX || start + prev.len() > i32::MAX {
                        Err(Error::OverflowError)
                    } else {
                        Ok(prev + b)
                    },
                }
            },
        }
    }
}

/// Once writing a private DICT fails, writing more fails the same way; while it succeeds,
/// it follows `spec_private_dicts_concat`.
pub proof fn lemma_cid_privates(
    privs: Seq<Seq<u8>>,
    fds: Seq<u16>,
    k: int,
    m: int,
    start: int,
    nlens: int,
    noffs: int,
)
    requires
        0 <= k <= m,
    ensures
        spec_cid_privates(privs, fds, k, start, nlens, noffs) is Err ==> spec_cid_privates(
            privs,
            fds,
            m,
            start,
            nlens,
            noffs,
        ) == spec_cid_privates(privs, fds, k, start, nlens, noffs),
        spec_cid_privates(privs, fds, k, start, nlens, noffs) matches Ok(b) ==> spec_private_dicts_concat(privs, fds, k) == Some(b),
    decreases m - k, k,
{
    if k < m {
        lemma_cid_privates(privs, fds, k, m - 1, start, nlens, noffs);
    }
    if k > 0 {
        lemma_cid_privates(privs, fds, k - 1, k - 1, start, nlens, noffs);
    }
}

/// Write the private DICTs of a CID-keyed font, one for each font DICT that is kept, in the
/// new order, and record their lengths and offsets.
#[verifier::rlimit(80)]
pub fn rewrite_cid_private_dicts(
    fd_remapper: &FontDictRemapper,
    offsets: &mut Offsets,
    metadata: &CIDMetadata,
    w: &mut Writer,
) -> (res: Result<(), Error>)
    requires
        fd_remapper.wf(),
    ensures
        final(offsets).charset_offset == old(offsets).charset_offset,
        final(offsets).char_strings_offset == old(offsets).char_strings_offset,
        final(offsets).fd_array_offset == old(offsets).fd_array_offset,
        final(offsets).fd_select_offset == old(offsets).fd_select_offset,
        final(offsets).private_dicts_lens@.len() == old(offsets).private_dicts_lens@.len(),
        final(offsets).private_dicts_offsets@.len() == old(offsets).private_dicts_offsets@.len(),
        ({
            let privs = spec_private_dicts_of(metadata);
            let fds = fd_remapper.spec_fds();
            let n = fds.len() as int;
            let start = old(w)@.len() as int;
            match spec_cid_privates(
                privs,
                fds,
                n,
                start,
                old(offsets).private_dicts_lens@.len() as int,
                old(offsets).private_dicts_offsets@.len() as int,
            ) {
                Err(e) => res == Err::<(), Error>(e),
                Ok(all) => {
                    &&& res is Ok
                    &&& final(w)@ == old(w)@ + all
                    &&& forall|j: int|
                        0 <= j < n ==> (#[trigger] final(offsets).private_dicts_lens@[j]).value
                            == IntegerNumber(private_len_at(privs, fds, j) as i32)
                    &&& forall|j: int|
                        0 <= j < n ==> (#[trigger] final(offsets).private_dicts_offsets@[j]).value
                            == IntegerNumber(private_offset_at(privs, fds, start, j) as i32)
                    &&& forall|j: int|
                        0 <= j < n ==> (#[trigger] final(offsets).private_dicts_lens@[j]).location
                            == old(offsets).private_dicts_lens@[j].location
                    &&& forall|j: int|
                        0 <= j < n ==> (#[trigger] final(offsets).private_dicts_offsets@[j]).location
                            == old(offsets).private_dicts_offsets@[j].location
                    &&& forall|j: int|
                        n <= j < final(offsets).private_dicts_lens@.len() ==> #[trigger] final(offsets).private_dicts_lens@[j]
                            == old(offsets).private_dicts_lens@[j]
                    &&& forall|j: int|
                        n <= j < final(offsets).private_dicts_offsets@.len() ==> #[trigger] final(offsets).private_dicts_offsets@[j]
                            == old(offsets).private_dicts_offsets@[j]
                },
            }
        }),
{
    let fds = fd_remapper.sorted_iter();
    let ghost privs = spec_private_dicts_of(metadata);
    let ghost n = fds@.len() as int;
    let ghost w0 = w@;
    let ghost start = w0.len() as int;
    let ghost lens0 = offsets.private_dicts_lens@;
    let ghost offs0 = offsets.private_dicts_offsets@;
    let ghost nl = lens0.len() as int;
    let ghost no = offs0.len() as int;
    let mut i: usize = 0;
    while i < fds.len()
        invariant
            i <= fds@.len(),
            n == fds@.len(),
            fds@ == fd_remapper.spec_fds(),
            privs == spec_private_dicts_of(metadata),
            w0 == old(w)@,
            start == w0.len(),
            lens0 == old(offsets).private_dicts_lens@,
            offs0 == old(offsets).private_dicts_offsets@,
            nl == lens0.len(),
            no == offs0.len(),
            offsets.charset_offset == old(offsets).charset_offset,
            offsets.char_strings_offset == old(offsets).char_strings_offset,
            offsets.fd_array_offset == old(offsets).fd_array_offset,
            offsets.fd_select_offset == old(offsets).fd_select_offset,
            offsets.private_dicts_lens@.len() == lens0.len(),
            offsets.private_dicts_offsets@.len() == offs0.len(),
            spec_cid_privates(privs, fds@, i as int, start, nl, no) matches Ok(c) && w@ == w0 + c,
            spec_private_dicts_concat(privs, fds@, i as int) is Some,
            forall|j: int|
                0 <= j < i ==> (#[trigger] offsets.private_dicts_lens@[j]).value == IntegerNumber(
                    private_len_at(privs, fds@, j) as i32,
                ),
            forall|j: int|
                0 <= j < i ==> (#[trigger] offsets.private_dicts_offsets@[j]).value
                    == IntegerNumber(private_offset_at(privs, fds@, start, j) as i32),
            forall|j: int|
                0 <= j < i ==> (#[trigger] offsets.private_dicts_lens@[j]).location
                    == lens0[j].location,
            forall|j: int|
                0 <= j < i ==> (#[trigger] offsets.private_dicts_offsets@[j]).location
                    == offs0[j].location,
            forall|j: int|
                i <= j < lens0.len() ==> #[trigger] offsets.private_dicts_lens@[j] == lens0[j],
            forall|j: int|
                i <= j < offs0.len() ==> #[trigger] offsets.private_dicts_offsets@[j] == offs0[j],
        decreases fds@.len() - i,
    {
        let old_df = fds[i];
        let ghost c = spec_cid_privates(privs, fds@, i as int, start, nl, no).unwrap();
        proof {
            lemma_cid_privates(privs, fds@, i as int, i as int, start, nl, no);
        }
        if old_df as usize >= metadata.font_dicts.len() {
            proof {
                lemma_cid_privates(privs, fds@, i + 1, n, start, nl, no);
            }
            return Err(Error::SubsetError);
        }
        assert(privs[old_df as int] == metadata.font_dicts@[old_df as int].private_dict@);
        let r = rewrite_private_dict(offsets, metadata.font_dicts[old_df as usize].private_dict, w, i);
        if r.is_err() {
            proof {
                lemma_cid_privates(privs, fds@, i + 1, n, start, nl, no);
            }
            return r;
        }
        proof {
            let b = spec_private_bytes(privs[old_df as int]).unwrap();
            assert(spec_cid_privates(privs, fds@, i + 1, start, nl, no) == Ok::<Seq<u8>, Error>(c + b));
            lemma_cid_privates(privs, fds@, i + 1, i + 1, start, nl, no);
            assert(spec_private_dicts_concat(privs, fds@, i + 1) == Some(c + b));
            assert(w@ =~= w0 + (c + b));
        }
        i = i + 1;
    }
    Ok(())
}

} // verus!
