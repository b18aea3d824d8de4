//! Reduces the size and coverage of OpenType fonts with TrueType or CFF outlines for embedding
//! in PDFs.


pub mod cff;
pub mod cmap;
pub mod face;
pub mod font;
pub mod gids;
pub mod glyf;
pub mod head;
pub mod hmtx;
pub mod maxp;
pub mod mapper;
pub mod name;
pub mod post;
pub mod read;
pub mod remapper;
pub mod write;

pub use crate::font::{subset, GlyphData};
pub use crate::hmtx::Metrics;
pub use crate::remapper::GlyphRemapper;
use vstd::prelude::*;

verus! {

/// Parsing or subsetting failed.
#[derive(Debug, Copy, Clone, Eq, PartialEq, Structural)]
pub enum Error {
    /// The file contains an unknown kind of font.
    UnknownKind,
    /// The font is malformed (or there is a bug in the font parsing logic).
    MalformedFont,
    /// The font relies on an unimplemented feature, and thus the subsetting
    /// process couldn't be completed.
    Unimplemented,
    /// An unexpected error occurred when subsetting the font. Indicates that there
    /// is a logical bug in the subsetter.
    SubsetError,
    /// An overflow occurred during the computation. Could be either an issue
    /// with the font itself, or a bug in the subsetter logic.
    OverflowError,
    /// An error occurred while processing the CFF table.
    CFFError,
}

impl Error {
    /// A description of the error.
    pub fn message(&self) -> (res: &'static str)
        ensures
            res@ == match self {
                Error::UnknownKind => "unknown font kind"@,
                Error::MalformedFont => "malformed font"@,
                Error::Unimplemented => "unsupported feature in font"@,
                Error::SubsetError => "subsetting of font failed"@,
                Error::OverflowError => "overflow occurred"@,
                Error::CFFError => "processing CFF table failed"@,
            },
    {
        match self {
            Error::UnknownKind => "unknown font kind",
            Error::MalformedFont => "malformed font",
            Error::Unimplemented => "unsupported feature in font",
            Error::SubsetError => "subsetting of font failed",
            Error::OverflowError => "overflow occurred",
            Error::CFFError => "processing CFF table failed",
        }
    }
}

} // verus!
