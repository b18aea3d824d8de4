//! SID-keyed fonts: their private DICT and local subroutines, and the FDSelect they get
//! when they become CID-keyed.
use crate::cff::cid_font::spec_from;
use crate::cff::index::{empty_index_view, parse_index16, spec_parse_index16, Index, IndexView};
use crate::cff::private_dict::{parse_subr_offset, spec_subr_walk};
use crate::cff::top_dict::{TopDictData, TopDictView};
use crate::read::Reader;
use crate::remapper::GlyphRemapper;
use crate::write::{u16_bytes, Writeable, Writer};
use crate::Error;
use vstd::prelude::*;

verus! {

/// Metadata required for handling SID-keyed fonts.
#[derive(Clone, Copy)]
pub struct SIDMetadata<'a> {
    /// The local subroutines.
    pub local_subrs: Index<'a>,
    /// The data of the private DICT.
    pub private_dict_data: &'a [u8],
}

/// The local subroutines and private DICT data of a SID-keyed font; both empty when the
/// font has no private DICT or it cannot be read.
pub open spec fn spec_sid_metadata(data: Seq<u8>, td: TopDictView) -> (IndexView, Seq<u8>) {
    match td.private {
        None => (empty_index_view(), Seq::empty()),
        Some((start, end)) => if start <= end && end <= data.len() {
            let p = data.subrange(start as int, end as int);
            match spec_subr_walk(p, 0) {
                None => (empty_index_view(), p),
                Some(so) => if start + so <= usize::MAX && start + so <= data.len() {
                    match spec_parse_index16(data.subrange(start + so, data.len() as int)) {
                        Some((ix, _)) => (ix, p),
                        None => (empty_index_view(), Seq::empty()),
                    }
                } else {
                    (empty_index_view(), Seq::empty())
                },
            }
        } else {
            (empty_index_view(), Seq::empty())
        },
    }
}

/// Parse the metadata of a SID-keyed font.
pub fn parse_sid_metadata<'a>(data: &'a [u8], top_dict: &TopDictData) -> (res: SIDMetadata<'a>)
    ensures
        (res.local_subrs@, res.private_dict_data@) == spec_sid_metadata(data@, top_dict@),
{
    let empty: &[u8] = &[];
    assert(empty@ =~= Seq::<u8>::empty());
    let default = SIDMetadata { local_subrs: Index::empty(), private_dict_data: empty };
    let (start, end) = match top_dict.private {
        Some(range) => range,
        None => return default,
    };
    if start > end || end > data.len() {
        return default;
    }
    let private_dict_data = &data[start..end];
    assert(private_dict_data@ =~= data@.subrange(start as int, end as int));
    let local_subrs = match parse_subr_offset(private_dict_data) {
        Some(subrs_offset) => {
            let subrs_start = match start.checked_add(subrs_offset) {
                Some(s) => s,
                None => return default,
            };
            if subrs_start > data.len() {
                return default;
            }
            let mut r = Reader::new_at(data, subrs_start);
            assert(r.spec_rest() =~= data@.subrange(subrs_start as int, data@.len() as int));
            match parse_index16(&mut r) {
                Some(ix) => ix,
                None => return default,
            }
        },
        None => Index::empty(),
    };
    SIDMetadata { local_subrs, private_dict_data }
}

/// The FDSelect of a SID-keyed font turned CID-keyed: format 3 with one range that maps all
/// `num_gids` glyphs to font DICT 0.
pub open spec fn spec_generated_fd_select(num_gids: u16) -> Seq<u8> {
    seq![3u8] + u16_bytes(1) + u16_bytes(0) + seq![0u8] + u16_bytes(num_gids as int)
}

/// Write the FDSelect of a SID-keyed font: all glyphs use font DICT 0.
pub fn generate_fd_index(gid_remapper: &GlyphRemapper, w: &mut Writer) -> (res: Result<(), Error>)
    requires
        gid_remapper.wf(),
        !gid_remapper.spec_is_identity(),
    ensures
        res is Ok,
        final(w)@ == old(w)@ + spec_generated_fd_select(gid_remapper.spec_num_gids() as u16),
{
    // Format
    w.push(3);
    // nRanges
    1u16.write(w);
    // first
    0u16.write(w);
    // fd index
    w.push(0);
    // sentinel
    gid_remapper.num_gids().write(w);
    assert(w@ =~= old(w)@ + spec_generated_fd_select(gid_remapper.spec_num_gids() as u16));
    Ok(())
}

} // verus!
