//! The layout engine: advance-plus-kerning accumulation.
//!
//! Font metrics arrive as fixed-point integers in subunits of a pixel
//! (denominator [`SUBUNITS`]). For each glyph after the first, the horizontal
//! increment is the previous glyph's advance width plus the kerning between
//! the pair, rounded *once* to whole pixels — rounding the combined increment
//! rather than each term keeps cumulative drift bounded to one rounding error
//! per glyph. The first glyph sits at `0`; every glyph's vertical offset is
//! the font's ascent, so the caller's `y` origin denotes the top of the line,
//! not the baseline.

use vstd::prelude::*;

verus! {

/// Fixed-point denominator for font metrics: one pixel is `SUBUNITS`
/// subunits.
pub const SUBUNITS: i64 = 256;

/// Per-glyph layout input, in subunits of a pixel: the glyph's advance
/// width, and the kerning between the previous glyph and this one (`0` for
/// the first glyph, which has no left neighbour).
#[derive(Clone, Copy, PartialEq, Eq, Structural, Debug)]
pub struct GlyphStep {
    pub advance: i32,
    pub kern_with_prev: i32,
}

/// Where a glyph is anchored: `x` in whole pixels (rounded accumulation),
/// `y` in subunits of a pixel (the ascent is not rounded).
#[derive(Clone, Copy, PartialEq, Eq, Structural, Debug)]
pub struct GlyphPos {
    pub x: i64,
    pub y: i64,
}

/// `n` subunits rounded to the nearest whole pixel, halves away from zero.
pub open spec fn round_px(n: int) -> int {
    if n >= 0 {
        (n + (SUBUNITS as int) / 2) / (SUBUNITS as int)
    } else {
        -((-n + (SUBUNITS as int) / 2) / (SUBUNITS as int))
    }
}

/// The whole-pixel step from one glyph to the next: the earlier glyph's
/// advance plus the pair's kerning, rounded once.
pub open spec fn step_increment(prev: GlyphStep, cur: GlyphStep) -> int {
    round_px(prev.advance + cur.kern_with_prev)
}

/// Round `n` subunits to whole pixels, halves away from zero.
pub fn round_px_exec(n: i64) -> (r: i64)
    requires
        -0x2_0000_0000 <= n <= 0x2_0000_0000,
    ensures
        r == round_px(n as int),
        -0x2000000 <= r <= 0x2000000,
{
    if n >= 0 {
        let m: u64 = n as u64;
        let q: u64 = (m + 128) / 256;
        proof {
            assert(q <= 0x2000000) by (nonlinear_arith)
                requires
                    q == (m + 128) / 256,
                    m <= 0x2_0000_0000,
            ;
        }
        q as i64
    } else {
        let m: u64 = (-n) as u64;
        let q: u64 = (m + 128) / 256;
        proof {
            assert(q <= 0x2000000) by (nonlinear_arith)
                requires
                    q == (m + 128) / 256,
                    m <= 0x2_0000_0000,
            ;
        }
        -(q as i64)
    }
}

/// Lay out one run of glyphs left to right.
///
/// Returns one position per input glyph: the first at `x == 0`, each later
/// glyph at the previous position plus [`step_increment`] of the adjacent
/// pair, and every glyph at vertical offset `ascent` (in subunits).
pub fn layout(ascent: i64, steps: &Vec<GlyphStep>) -> (pos: Vec<GlyphPos>)
    requires
        steps@.len() <= 0x100_0000,
    ensures
        pos@.len() == steps@.len(),
        forall|k: int| 0 <= k < pos@.len() ==> (#[trigger] pos@[k]).y == ascent,
        pos@.len() > 0 ==> pos@[0].x == 0,
        forall|k: int|
            1 <= k < pos@.len() ==> (#[trigger] pos@[k]).x == pos@[k - 1].x + step_increment(
                steps@[k - 1],
                steps@[k],
            ),
{
    let n: usize = steps.len();
    let mut pos: Vec<GlyphPos> = Vec::new();
    let mut xacc: i64 = 0;
    let mut i: usize = 0;
    while i < n
        invariant
            i <= n,
            n == steps@.len(),
            n <= 0x100_0000,
            pos@.len() == i,
            i == 0 ==> xacc == 0,
            i > 0 ==> xacc == pos@[i - 1].x,
            -(i as int) * 0x2000000 <= xacc <= (i as int) * 0x2000000,
            forall|k: int| 0 <= k < i ==> (#[trigger] pos@[k]).y == ascent,
            i > 0 ==> pos@[0].x == 0,
            forall|k: int|
                1 <= k < i ==> (#[trigger] pos@[k]).x == pos@[k - 1].x + step_increment(
                    steps@[k - 1],
                    steps@[k],
                ),
        decreases n - i,
    {
        if i > 0 {
            let inc: i64 = round_px_exec(
                steps[i - 1].advance as i64 + steps[i].kern_with_prev as i64,
            );
            xacc = xacc + inc;
        }
        pos.push(GlyphPos { x: xacc, y: ascent });
        i += 1;
    }
    pos
}

} // verus!
