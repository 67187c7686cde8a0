//! Integer rectangles.

use vstd::prelude::*;

verus! {

/// An axis-aligned rectangle in surface coordinates, anchored at its
/// top-left corner `(x, y)` with a size in pixels.
#[derive(Clone, Copy, PartialEq, Eq, Structural, Debug)]
pub struct Rect {
    pub x: i32,
    pub y: i32,
    pub width: u32,
    pub height: u32,
}

/// An axis-aligned integer bounding box given by its corners, describing
/// which pixels a positioned glyph may touch. Coverage samples are offsets
/// from `(min_x, min_y)`.
#[derive(Clone, Copy, PartialEq, Eq, Structural, Debug)]
pub struct BBox {
    pub min_x: i32,
    pub min_y: i32,
    pub max_x: i32,
    pub max_y: i32,
}

} // verus!
