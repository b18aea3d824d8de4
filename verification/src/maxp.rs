//! The `maxp` table contains the number of glyphs (and some additional information
//! depending on the version). The number of glyphs is rewritten; for TrueType outlines, the
//! rest comes from the new glyph data.
use crate::face::FontKind;
use crate::read::Reader;
use crate::write::{u16_bytes, u32_bytes, Writeable, Writer};
use crate::Error;
use vstd::prelude::*;

verus! {

/// The version of a `maxp` table for TrueType outlines.
pub const MAXP_TRUETYPE_VERSION: u32 = 0x00010000;

/// The version of a `maxp` table for CFF outlines.
pub const MAXP_CFF_VERSION: u32 = 0x00005000;

/// The limits of a version 1.0 `maxp` table.
#[derive(Clone, Copy, Debug)]
pub struct MaxpData {
    pub max_points: u16,
    pub max_contours: u16,
    pub max_composite_points: u16,
    pub max_composite_contours: u16,
    pub max_zones: u16,
    pub max_twilight_points: u16,
    pub max_storage: u16,
    pub max_function_defs: u16,
    pub max_instruction_defs: u16,
    pub max_stack_elements: u16,
    pub max_size_of_instructions: u16,
    pub max_component_elements: u16,
    pub max_component_depth: u16,
}

impl MaxpData {
    /// The limits of a font without glyphs yet: one zone and a component depth of one.
    pub fn new() -> (res: Self)
        ensures
            res.max_zones == 1,
            res.max_component_depth == 1,
            res.max_points == 0 && res.max_contours == 0 && res.max_composite_points == 0
                && res.max_composite_contours == 0 && res.max_twilight_points == 0
                && res.max_storage == 0 && res.max_function_defs == 0
                && res.max_instruction_defs == 0 && res.max_stack_elements == 0
                && res.max_size_of_instructions == 0 && res.max_component_elements == 0,
    {
        MaxpData {
            max_points: 0,
            max_contours: 0,
            max_composite_points: 0,
            max_composite_contours: 0,
            max_zones: 1,
            max_twilight_points: 0,
            max_storage: 0,
            max_function_defs: 0,
            max_instruction_defs: 0,
            max_stack_elements: 0,
            max_size_of_instructions: 0,
            max_component_elements: 0,
            max_component_depth: 1,
        }
    }

    /// The bytes of the limits, in table order.
    pub open spec fn spec_bytes(&self) -> Seq<u8> {
        u16_bytes(self.max_points as int) + u16_bytes(self.max_contours as int) + u16_bytes(
            self.max_composite_points as int,
        ) + u16_bytes(self.max_composite_contours as int) + u16_bytes(self.max_zones as int)
            + u16_bytes(self.max_twilight_points as int) + u16_bytes(self.max_storage as int)
            + u16_bytes(self.max_function_defs as int) + u16_bytes(
            self.max_instruction_defs as int,
        ) + u16_bytes(self.max_stack_elements as int) + u16_bytes(
            self.max_size_of_instructions as int,
        ) + u16_bytes(self.max_component_elements as int) + u16_bytes(
            self.max_component_depth as int,
        )
    }

    /// Write the limits.
    pub fn write(&self, w: &mut Writer)
        ensures
            final(w)@ == old(w)@ + self.spec_bytes(),
    {
        self.max_points.write(w);
        self.max_contours.write(w);
        self.max_composite_points.write(w);
        self.max_composite_contours.write(w);
        self.max_zones.write(w);
        self.max_twilight_points.write(w);
        self.max_storage.write(w);
        self.max_function_defs.write(w);
        self.max_instruction_defs.write(w);
        self.max_stack_elements.write(w);
        self.max_size_of_instructions.write(w);
        self.max_component_elements.write(w);
        self.max_component_depth.write(w);
        assert(w@ =~= old(w)@ + self.spec_bytes());
    }
}

/// The new `maxp` table: the version of the outlines, the number of glyphs, and for
/// TrueType outlines the limits (those given, or else those of the old table).
pub open spec fn spec_maxp(maxp: Seq<u8>, kind: FontKind, num_gids: u16, custom: Option<MaxpData>) -> Result<
    Seq<u8>,
    Error,
> {
    if maxp.len() < 6 {
        Err(Error::MalformedFont)
    } else if kind == FontKind::Cff {
        Ok(u32_bytes(MAXP_CFF_VERSION as int) + u16_bytes(num_gids as int))
    } else {
        Ok(
            u32_bytes(MAXP_TRUETYPE_VERSION as int) + u16_bytes(num_gids as int) + match custom {
                Some(c) => c.spec_bytes(),
                None => maxp.subrange(6, maxp.len() as int),
            },
        )
    }
}

/// Subset the `maxp` table.
pub fn subset(maxp: &[u8], kind: FontKind, num_gids: u16, custom: Option<MaxpData>) -> (res:
    Result<Vec<u8>, Error>)
    ensures
        match spec_maxp(maxp@, kind, num_gids, custom) {
            Ok(b) => res matches Ok(v) && v@ == b,
            Err(e) => res matches Err(e2) && e2 == e,
        },
{
    let mut r = Reader::new(maxp);
    // The version, then the number of glyphs.
    let _ = match r.read::<u32>() {
        Some(v) => v,
        None => return Err(Error::MalformedFont),
    };
    let _ = match r.read::<u16>() {
        Some(v) => v,
        None => return Err(Error::MalformedFont),
    };
    let version = if kind == FontKind::Cff {
        MAXP_CFF_VERSION
    } else {
        MAXP_TRUETYPE_VERSION
    };
    let mut w = Writer::new();
    version.write(&mut w);
    num_gids.write(&mut w);
    if version == MAXP_TRUETYPE_VERSION {
        match custom {
            Some(c) => c.write(&mut w),
            None => match r.tail() {
                Some(t) => w.extend(t),
                None => return Err(Error::MalformedFont),
            },
        }
    }
    Ok(w.finish())
}

} // verus!
