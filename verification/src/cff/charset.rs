//! The charset of the subset.
use crate::read::be_u16;
use crate::remapper::GlyphRemapper;
use crate::write::{u16_bytes, Writeable, Writer};
use crate::Error;
use vstd::prelude::*;

verus! {

/// The charset of a subset with `num_gids` glyphs: every glyph gets its glyph ID as its CID
/// (format 0 when there is only `.notdef`, else format 2 with one range from CID 1).
pub open spec fn spec_charset(num_gids: int) -> Seq<u8> {
    if num_gids == 1 {
        seq![0u8]
    } else {
        seq![2u8] + u16_bytes(1) + u16_bytes(num_gids - 2)
    }
}

/// Rewrite the charset of the font. The CIDs of the input font are not kept: each glyph
/// gets its new glyph ID as its CID, so that a PDF can refer to a glyph by a CID known before
/// subsetting.
pub fn rewrite_charset(gid_mapper: &GlyphRemapper, w: &mut Writer) -> (res: Result<(), Error>)
    requires
        gid_mapper.wf(),
        !gid_mapper.spec_is_identity(),
    ensures
        res is Ok,
        final(w)@ == old(w)@ + spec_charset(gid_mapper.spec_num_gids() as int),
{
    proof {
        gid_mapper.lemma_has_notdef();
    }
    let n = gid_mapper.num_gids();
    if n == 1 {
        // Only .notdef.
        w.push(0);
    } else {
        w.push(2);
        1u16.write(w);
        (n - 2).write(w);
    }
    assert(w@ =~= old(w)@ + spec_charset(gid_mapper.spec_num_gids() as int));
    Ok(())
}

/// The CID of glyph `g` in the ranges of a format 2 charset from byte `at` on, where the
/// range at `at` starts with glyph `first_glyph`: each range is a first CID and the number
/// of glyphs that follow the first one.
pub open spec fn charset_ranges_cid(c: Seq<u8>, at: int, first_glyph: int, g: int) -> Option<int>
    decreases c.len() - at,
{
    if at < 0 || at + 4 > c.len() {
        None
    } else {
        let first = be_u16(c[at], c[at + 1]);
        let left = be_u16(c[at + 2], c[at + 3]);
        if g <= first_glyph + left {
            Some(first + (g - first_glyph))
        } else {
            charset_ranges_cid(c, at + 4, first_glyph + left + 1, g)
        }
    }
}

/// The CID that a charset of format 0 or 2 gives glyph `g`: `.notdef` is CID 0, and the
/// charset lists the others from glyph 1 on, one by one (format 0) or in ranges (format 2).
pub open spec fn charset_cid(c: Seq<u8>, g: int) -> Option<int> {
    if g == 0 {
        Some(0)
    } else if g < 0 || c.len() == 0 {
        None
    } else if c[0] == 0 {
        if 1 + 2 * g <= c.len() {
            Some(be_u16(c[2 * g - 1], c[2 * g]))
        } else {
            None
        }
    } else if c[0] == 2 {
        charset_ranges_cid(c, 1, 1, g)
    } else {
        None
    }
}

/// Law: the charset of a subset maps each glyph to its own glyph ID as its CID, and covers
/// no glyph beyond the subset's.
pub proof fn lemma_charset_identity(num_gids: int, g: int)
    requires
        1 <= num_gids <= 65535,
        0 <= g,
    ensures
        charset_cid(spec_charset(num_gids), g) == (if g < num_gids {
            Some(g)
        } else {
            None
        }),
{
    let c = spec_charset(num_gids);
    if num_gids > 1 && g > 0 {
        assert(be_u16(c[1], c[2]) == 1);
        assert(be_u16(c[3], c[4]) == num_gids - 2);
        if g > num_gids - 1 {
            assert(charset_ranges_cid(c, 5, num_gids, g) == None::<int>);
        }
    }
}

} // verus!
