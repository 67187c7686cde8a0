//! Text rasterization and compositing, verified.
//!
//! The library lays out a run of glyphs (advance plus kerning, rounded once
//! per step), composites per-pixel coverage onto a raster surface with
//! alpha-weighted blending, and computes the tight bounding box a run would
//! occupy without writing. Font metrics and coverage samples arrive as
//! fixed-point integers; the caller converts from whatever source supplies
//! them.

pub mod draw;
pub mod glyph;
pub mod layout;
pub mod pixel;
pub mod rect;
pub mod surface;

pub use crate::draw::{calc_text, draw_text, draw_text_mut};
