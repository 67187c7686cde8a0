//! Pixels and coverage-weighted blending.
//!
//! A coverage sample is a fraction of a pixel's area, carried as an integer
//! numerator over [`COV_ONE`]. Blending a draw color over a current pixel with
//! coverage `c` forms the linear interpolation
//! `current * (COV_ONE - c) + color * c`, divided back by `COV_ONE`, per
//! channel. With exact integer arithmetic the result always lies in the
//! channel's range, so no clamping step can ever fire.

use vstd::prelude::*;

verus! {

/// Denominator of a coverage sample: `COV_ONE` means the pixel is fully
/// covered by the glyph's ink, `0` means untouched.
pub const COV_ONE: u32 = 256;

/// One RGBA pixel with 8-bit channels.
#[derive(Clone, Copy, PartialEq, Eq, Structural, Debug)]
pub struct Pix {
    pub r: u8,
    pub g: u8,
    pub b: u8,
    pub a: u8,
}

/// Linear interpolation of one channel: `cur` weighted by `COV_ONE - cov`,
/// `col` weighted by `cov`, renormalized by `COV_ONE` (flooring division).
pub open spec fn blend_channel_spec(cur: u8, col: u8, cov: u32) -> int {
    (cur * (COV_ONE - cov) + col * cov) / (COV_ONE as int)
}

/// `blend_channel_spec` stays within the 8-bit channel range, so the
/// interpolation needs no clamping.
pub proof fn lemma_blend_channel_in_range(cur: u8, col: u8, cov: u32)
    requires
        cov <= COV_ONE,
    ensures
        0 <= blend_channel_spec(cur, col, cov) <= 255,
{
    assert(cur * (COV_ONE - cov) + col * cov <= 255 * (COV_ONE as int)) by (nonlinear_arith)
        requires
            cur <= 255,
            col <= 255,
            cov <= COV_ONE,
    ;
    assert(cur * (COV_ONE - cov) + col * cov >= 0) by (nonlinear_arith)
        requires
            cov <= COV_ONE,
    ;
}

/// Blend one channel of the draw color over the current channel value.
///
/// Full coverage yields the draw color exactly; zero coverage returns the
/// current value unchanged.
pub fn blend_channel(cur: u8, col: u8, cov: u32) -> (r: u8)
    requires
        cov <= COV_ONE,
    ensures
        r == blend_channel_spec(cur, col, cov),
        cov == COV_ONE ==> r == col,
        cov == 0 ==> r == cur,
{
    proof {
        lemma_blend_channel_in_range(cur, col, cov);
        assert(cur * (COV_ONE - cov) + col * cov <= 255 * (COV_ONE as int)) by (nonlinear_arith)
            requires
                cur <= 255,
                col <= 255,
                cov <= COV_ONE,
        ;
        if cov == COV_ONE {
            assert((cur * 0 + col * (COV_ONE as int)) / (COV_ONE as int) == col) by (nonlinear_arith);
        }
        if cov == 0 {
            assert((cur * (COV_ONE as int) + col * 0) / (COV_ONE as int) == cur) by (nonlinear_arith);
        }
    }
    let num: u32 = (cur as u32) * (COV_ONE - cov) + (col as u32) * cov;
    (num / COV_ONE) as u8
}

/// Channel-wise blend of the draw color over the current pixel.
pub open spec fn blend_pixel_spec(cur: Pix, col: Pix, cov: u32) -> Pix {
    Pix {
        r: blend_channel_spec(cur.r, col.r, cov) as u8,
        g: blend_channel_spec(cur.g, col.g, cov) as u8,
        b: blend_channel_spec(cur.b, col.b, cov) as u8,
        a: blend_channel_spec(cur.a, col.a, cov) as u8,
    }
}

/// Blend the draw color over the current pixel with the given coverage.
///
/// Full coverage yields the draw color exactly; zero coverage returns the
/// current pixel unchanged.
pub fn blend_pixel(cur: Pix, col: Pix, cov: u32) -> (r: Pix)
    requires
        cov <= COV_ONE,
    ensures
        r == blend_pixel_spec(cur, col, cov),
        cov == COV_ONE ==> r == col,
        cov == 0 ==> r == cur,
{
    let r = Pix {
        r: blend_channel(cur.r, col.r, cov),
        g: blend_channel(cur.g, col.g, cov),
        b: blend_channel(cur.b, col.b, cov),
        a: blend_channel(cur.a, col.a, cov),
    };
    proof {
        lemma_blend_channel_in_range(cur.r, col.r, cov);
        lemma_blend_channel_in_range(cur.g, col.g, cov);
        lemma_blend_channel_in_range(cur.b, col.b, cov);
        lemma_blend_channel_in_range(cur.a, col.a, cov);
    }
    r
}

} // verus!
