//! The `hmtx` table contains the horizontal metrics for each glyph. It is rewritten for the
//! new glyphs, with an advance width and a left side bearing for each (the table allows
//! omitting the advance width of the last glyphs when it is the same, which is not kept).
//! The `hhea` table, which holds the number of glyphs with both metrics, is rewritten too.
use crate::write::{u16_bytes, Writeable, Writer};
use crate::Error;
use vstd::prelude::*;

verus! {

/// The horizontal metrics of a glyph.
#[derive(Clone, Copy, Debug)]
pub struct Metrics {
    /// The advance width.
    pub advance_width: u16,
    /// The left side bearing.
    pub lsb: i16,
}

/// The new `hmtx` table: an advance width and a left side bearing for each glyph.
pub open spec fn spec_hmtx(metrics: Seq<Metrics>) -> Seq<u8>
    decreases metrics.len(),
{
    if metrics.len() == 0 {
        Seq::empty()
    } else {
        spec_hmtx(metrics.drop_last()) + metrics.last().advance_width.spec_bytes()
            + metrics.last().lsb.spec_bytes()
    }
}

/// The new `hhea` table: the old one with the number of horizontal metrics replaced.
pub open spec fn spec_hhea(hhea: Seq<u8>, num_glyphs: u16) -> Result<Seq<u8>, Error> {
    if hhea.len() < 2 {
        Err(Error::MalformedFont)
    } else {
        Ok(hhea.subrange(0, hhea.len() - 2) + u16_bytes(num_glyphs as int))
    }
}

/// Write the `hmtx` table.
pub fn subset_hmtx(metrics: &[Metrics]) -> (res: Vec<u8>)
    ensures
        res@ == spec_hmtx(metrics@),
{
    let mut w = Writer::new();
    let mut i: usize = 0;
    while i < metrics.len()
        invariant
            i <= metrics@.len(),
            w@ == spec_hmtx(metrics@.take(i as int)),
        decreases metrics@.len() - i,
    {
        metrics[i].advance_width.write(&mut w);
        metrics[i].lsb.write(&mut w);
        proof {
            assert(metrics@.take(i + 1).drop_last() =~= metrics@.take(i as int));
        }
        i = i + 1;
    }
    assert(metrics@.take(i as int) =~= metrics@);
    w.finish()
}

/// Rewrite the `hhea` table for `num_glyphs` glyphs.
pub fn subset_hhea(hhea: &[u8], num_glyphs: u16) -> (res: Result<Vec<u8>, Error>)
    ensures
        match spec_hhea(hhea@, num_glyphs) {
            Ok(b) => res matches Ok(v) && v@ == b,
            Err(e) => res matches Err(e2) && e2 == e,
        },
{
    if hhea.len() < 2 {
        return Err(Error::MalformedFont);
    }
    let mut w = Writer::new();
    w.extend(&hhea[0..hhea.len() - 2]);
    num_glyphs.write(&mut w);
    Ok(w.finish())
}

} // verus!
