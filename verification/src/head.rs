//! The `head` table mostly contains information that can be reused from the old table,
//! except for the `loca` format, which depends on the size of the glyph data. The checksum
//! adjustment is recalculated in the very end.
use crate::Error;
use vstd::prelude::*;

verus! {

/// The new `head` table: the old one with the `indexToLocFormat` field set.
pub open spec fn spec_head(head: Seq<u8>, long_loca: bool) -> Result<Seq<u8>, Error> {
    if head.len() < 52 {
        Err(Error::MalformedFont)
    } else {
        Ok(head.update(50, 0u8).update(51, if long_loca { 1u8 } else { 0u8 }))
    }
}

/// Subset the `head` table.
pub fn subset(head: &[u8], long_loca: bool) -> (res: Result<Vec<u8>, Error>)
    ensures
        match spec_head(head@, long_loca) {
            Ok(b) => res matches Ok(v) && v@ == b,
            Err(e) => res matches Err(e2) && e2 == e,
        },
{
    if head.len() < 52 {
        return Err(Error::MalformedFont);
    }
    let mut h = vstd::slice::slice_to_vec(head);
    h.set(50, 0);
    h.set(51, if long_loca { 1 } else { 0 });
    Ok(h)
}

} // verus!
