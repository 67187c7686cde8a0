//! Rasterized glyphs: a pixel bounding box and per-pixel coverage samples.
//!
//! The font collaborator rasterizes each positioned glyph and hands the
//! result over as a finite sequence of `(gx, gy, coverage)` samples, the
//! offsets taken from the top-left corner of the glyph's pixel bounding box.
//! A glyph with no visible ink (whitespace) carries no bounding box and is
//! skipped by drawing and measuring alike.

use vstd::prelude::*;
use crate::pixel::COV_ONE;
use crate::rect::BBox;

verus! {

/// One coverage sample of a rasterized glyph: the fraction `cov / COV_ONE`
/// of the pixel at offset `(gx, gy)` from the bounding box corner that the
/// glyph's ink covers.
#[derive(Clone, Copy, PartialEq, Eq, Structural, Debug)]
pub struct Sample {
    pub gx: u32,
    pub gy: u32,
    pub cov: u32,
}

/// A rasterized glyph: its pixel bounding box in layout coordinates, if it
/// has visible ink, and the coverage samples inside that box.
pub struct RenderedGlyph {
    pub bbox: Option<BBox>,
    pub samples: Vec<Sample>,
}

impl RenderedGlyph {
    /// Every coverage sample is a valid fraction: at most `COV_ONE`.
    pub open spec fn wf(self) -> bool {
        forall|j: int|
            0 <= j < self.samples@.len() ==> (#[trigger] self.samples@[j]).cov <= COV_ONE
    }
}

} // verus!
