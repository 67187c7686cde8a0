//! Drawing and measuring a run of rasterized glyphs.
//!
//! The compositor walks the glyphs left to right and, per glyph, its coverage
//! samples in order; every sample that lands inside the surface blends the
//! draw color over the pixel there, and every sample outside is silently
//! skipped — clipping, not an error. The bounds calculator walks the *same*
//! samples in the same order and, instead of writing, tracks the extremes of
//! the positions with non-zero coverage, so that what would be drawn and what
//! the bounding box covers can never disagree.

use vstd::prelude::*;
use vstd::math::{min, max};
use crate::glyph::{RenderedGlyph, Sample};
use crate::pixel::{blend_channel_spec, blend_pixel, blend_pixel_spec, Pix};
use crate::rect::{BBox, Rect};
use crate::surface::{lemma_row_major_index_in_range, lemma_row_major_index_injective, Surface};

verus! {

/// Absolute surface column of a sample: its offset from the bounding box
/// corner, plus the corner, plus the caller's origin.
pub open spec fn img_x(b: BBox, ox: int, s: Sample) -> int {
    s.gx + b.min_x + ox
}

/// Absolute surface row of a sample.
pub open spec fn img_y(b: BBox, oy: int, s: Sample) -> int {
    s.gy + b.min_y + oy
}

/// Whether `(x, y)` lies inside a `w` x `h` surface.
pub open spec fn in_surface(x: int, y: int, w: int, h: int) -> bool {
    0 <= x < w && 0 <= y < h
}

/// One sample composited onto the row-major pixel grid: a blend where the
/// sample lands in bounds, untouched pixels elsewhere.
pub open spec fn apply_sample(
    px: Seq<Pix>,
    w: int,
    h: int,
    color: Pix,
    ox: int,
    oy: int,
    b: BBox,
    s: Sample,
) -> Seq<Pix> {
    let x = img_x(b, ox, s);
    let y = img_y(b, oy, s);
    if in_surface(x, y, w, h) {
        px.update(y * w + x, blend_pixel_spec(px[y * w + x], color, s.cov))
    } else {
        px
    }
}

/// The first `n` samples of one glyph composited in order.
pub open spec fn apply_samples(
    px: Seq<Pix>,
    w: int,
    h: int,
    color: Pix,
    ox: int,
    oy: int,
    b: BBox,
    samples: Seq<Sample>,
    n: int,
) -> Seq<Pix>
    decreases n,
{
    if n <= 0 {
        px
    } else {
        apply_sample(
            apply_samples(px, w, h, color, ox, oy, b, samples, n - 1),
            w,
            h,
            color,
            ox,
            oy,
            b,
            samples[n - 1],
        )
    }
}

/// One glyph composited: all its samples if it has a bounding box, nothing
/// if it has none (whitespace).
pub open spec fn apply_glyph(
    px: Seq<Pix>,
    w: int,
    h: int,
    color: Pix,
    ox: int,
    oy: int,
    g: RenderedGlyph,
) -> Seq<Pix> {
    match g.bbox {
        Some(b) => apply_samples(px, w, h, color, ox, oy, b, g.samples@, g.samples@.len() as int),
        None => px,
    }
}

/// The first `n` glyphs composited left to right; later glyphs blend over
/// earlier ones where they overlap.
pub open spec fn apply_glyphs(
    px: Seq<Pix>,
    w: int,
    h: int,
    color: Pix,
    ox: int,
    oy: int,
    glyphs: Seq<RenderedGlyph>,
    n: int,
) -> Seq<Pix>
    decreases n,
{
    if n <= 0 {
        px
    } else {
        apply_glyph(
            apply_glyphs(px, w, h, color, ox, oy, glyphs, n - 1),
            w,
            h,
            color,
            ox,
            oy,
            glyphs[n - 1],
        )
    }
}

/// Composite a run of rasterized glyphs onto the surface in place.
///
/// Every coverage sample that lands inside the surface blends the draw
/// color over the pixel there with that sample's coverage; samples outside
/// the surface are skipped, and the surface never changes size.
pub fn draw_text_mut(canvas: &mut Surface, color: Pix, x: u32, y: u32, glyphs: &Vec<RenderedGlyph>)
    requires
        old(canvas).wf(),
        forall|i: int| 0 <= i < glyphs@.len() ==> (#[trigger] glyphs@[i]).wf(),
    ensures
        final(canvas).wf(),
        final(canvas).spec_width() == old(canvas).spec_width(),
        final(canvas).spec_height() == old(canvas).spec_height(),
        final(canvas).pixels() == apply_glyphs(
            old(canvas).pixels(),
            old(canvas).spec_width(),
            old(canvas).spec_height(),
            color,
            x as int,
            y as int,
            glyphs@,
            glyphs@.len() as int,
        ),
{
    let w: u32 = canvas.width();
    let h: u32 = canvas.height();
    let n: usize = glyphs.len();
    let ghost orig = canvas.pixels();
    let mut i: usize = 0;
    while i < n
        invariant
            i <= n,
            n == glyphs@.len(),
            canvas.wf(),
            canvas.spec_width() == w,
            canvas.spec_height() == h,
            forall|k: int| 0 <= k < n ==> (#[trigger] glyphs@[k]).wf(),
            canvas.pixels() == apply_glyphs(
                orig,
                w as int,
                h as int,
                color,
                x as int,
                y as int,
                glyphs@,
                i as int,
            ),
        decreases n - i,
    {
        let g = &glyphs[i];
        if let Some(bb) = g.bbox {
            let m: usize = g.samples.len();
            let ghost base = canvas.pixels();
            let mut j: usize = 0;
            while j < m
                invariant
                    j <= m,
                    i < n,
                    n == glyphs@.len(),
                    m == glyphs@[i as int].samples@.len(),
                    glyphs@[i as int].bbox == Some(bb),
                    g == &glyphs@[i as int],
                    forall|k: int| 0 <= k < n ==> (#[trigger] glyphs@[k]).wf(),
                    canvas.wf(),
                    canvas.spec_width() == w,
                    canvas.spec_height() == h,
                    base == apply_glyphs(
                        orig,
                        w as int,
                        h as int,
                        color,
                        x as int,
                        y as int,
                        glyphs@,
                        i as int,
                    ),
                    canvas.pixels() == apply_samples(
                        base,
                        w as int,
                        h as int,
                        color,
                        x as int,
                        y as int,
                        bb,
                        glyphs@[i as int].samples@,
                        j as int,
                    ),
                decreases m - j,
            {
                let s: Sample = g.samples[j];
                let ix: i64 = s.gx as i64 + bb.min_x as i64 + x as i64;
                let iy: i64 = s.gy as i64 + bb.min_y as i64 + y as i64;
                if ix >= 0 && ix < w as i64 && iy >= 0 && iy < h as i64 {
                    proof {
                        assert(glyphs@[i as int].wf());
                        lemma_row_major_index_in_range(w as int, h as int, ix as int, iy as int);
                    }
                    let cur: Pix = canvas.get_pixel(ix as u32, iy as u32);
                    let blended: Pix = blend_pixel(cur, color, s.cov);
                    canvas.set_pixel(ix as u32, iy as u32, blended);
                }
                j += 1;
            }
        }
        i += 1;
    }
}

/// Sample `j` of glyph `g` inks `(px_, py)`: it has positive coverage and
/// lands exactly there, inside the surface.
pub open spec fn sample_inks(
    g: RenderedGlyph,
    w: int,
    h: int,
    ox: int,
    oy: int,
    j: int,
    px_: int,
    py: int,
) -> bool {
    &&& g.bbox is Some
    &&& 0 <= j < g.samples@.len()
    &&& g.samples@[j].cov > 0
    &&& img_x(g.bbox->0, ox, g.samples@[j]) == px_
    &&& img_y(g.bbox->0, oy, g.samples@[j]) == py
    &&& in_surface(px_, py, w, h)
}

/// One of the first `m` samples of `g` inks `(px_, py)`.
pub open spec fn glyph_inks_upto(
    g: RenderedGlyph,
    w: int,
    h: int,
    ox: int,
    oy: int,
    m: int,
    px_: int,
    py: int,
) -> bool {
    exists|j: int| 0 <= j < m && #[trigger] sample_inks(g, w, h, ox, oy, j, px_, py)
}

/// Some sample strictly before position `(i, j)` of the run — a sample of a
/// glyph before index `i`, or one of the first `j` samples of glyph `i` —
/// inks `(px_, py)`.
pub open spec fn inked_before(
    glyphs: Seq<RenderedGlyph>,
    w: int,
    h: int,
    ox: int,
    oy: int,
    i: int,
    j: int,
    px_: int,
    py: int,
) -> bool {
    ||| exists|k: int|
        0 <= k < i && #[trigger] glyph_inks_upto(
            glyphs[k],
            w,
            h,
            ox,
            oy,
            glyphs[k].samples@.len() as int,
            px_,
            py,
        )
    ||| (0 <= i < glyphs.len() && glyph_inks_upto(glyphs[i], w, h, ox, oy, j, px_, py))
}

/// Some sample of the run inks `(px_, py)`: positive coverage landing on
/// that surface pixel.
pub open spec fn inked_at(
    glyphs: Seq<RenderedGlyph>,
    w: int,
    h: int,
    ox: int,
    oy: int,
    px_: int,
    py: int,
) -> bool {
    inked_before(glyphs, w, h, ox, oy, glyphs.len() as int, 0, px_, py)
}

/// The run has visible bounds on the surface: some inked pixel lies right of
/// column `0` and some inked pixel lies below row `0`. (A run whose only ink
/// falls on column `0` or row `0` reports no bounds — the calculator's
/// maxima start at `0` and only strictly larger coordinates move them.)
pub open spec fn visible(glyphs: Seq<RenderedGlyph>, w: int, h: int, ox: int, oy: int) -> bool {
    &&& exists|px_: int, py: int| #[trigger] inked_at(glyphs, w, h, ox, oy, px_, py) && px_ >= 1
    &&& exists|px_: int, py: int| #[trigger] inked_at(glyphs, w, h, ox, oy, px_, py) && py >= 1
}

/// Every inked pixel lies inside the surface.
pub proof fn lemma_inked_in_bounds(
    glyphs: Seq<RenderedGlyph>,
    w: int,
    h: int,
    ox: int,
    oy: int,
    i: int,
    j: int,
    px_: int,
    py: int,
)
    requires
        inked_before(glyphs, w, h, ox, oy, i, j, px_, py),
    ensures
        in_surface(px_, py, w, h),
{
    if exists|k: int|
        0 <= k < i && #[trigger] glyph_inks_upto(
            glyphs[k],
            w,
            h,
            ox,
            oy,
            glyphs[k].samples@.len() as int,
            px_,
            py,
        ) {
        let k = choose|k: int|
            0 <= k < i && #[trigger] glyph_inks_upto(
                glyphs[k],
                w,
                h,
                ox,
                oy,
                glyphs[k].samples@.len() as int,
                px_,
                py,
            );
        let jj = choose|jj: int|
            0 <= jj < glyphs[k].samples@.len() && #[trigger] sample_inks(
                glyphs[k],
                w,
                h,
                ox,
                oy,
                jj,
                px_,
                py,
            );
        assert(in_surface(px_, py, w, h));
    } else {
        let jj = choose|jj: int| 0 <= jj < j && #[trigger] sample_inks(glyphs[i], w, h, ox, oy, jj, px_, py);
        assert(in_surface(px_, py, w, h));
    }
}

/// Extending the sample prefix by one admits exactly that sample's inked
/// pixel, if any.
proof fn lemma_inked_before_sample_step(
    glyphs: Seq<RenderedGlyph>,
    w: int,
    h: int,
    ox: int,
    oy: int,
    i: int,
    j: int,
    px_: int,
    py: int,
)
    requires
        0 <= i < glyphs.len(),
        0 <= j,
    ensures
        inked_before(glyphs, w, h, ox, oy, i, j + 1, px_, py) <==> (inked_before(
            glyphs,
            w,
            h,
            ox,
            oy,
            i,
            j,
            px_,
            py,
        ) || sample_inks(glyphs[i], w, h, ox, oy, j, px_, py)),
{
    let g = glyphs[i];
    if glyph_inks_upto(g, w, h, ox, oy, j + 1, px_, py) {
        let jj = choose|jj: int| 0 <= jj < j + 1 && #[trigger] sample_inks(g, w, h, ox, oy, jj, px_, py);
        if jj < j {
            assert(glyph_inks_upto(g, w, h, ox, oy, j, px_, py));
        }
    }
    if glyph_inks_upto(g, w, h, ox, oy, j, px_, py) {
        let jj = choose|jj: int| 0 <= jj < j && #[trigger] sample_inks(g, w, h, ox, oy, jj, px_, py);
        assert(glyph_inks_upto(g, w, h, ox, oy, j + 1, px_, py));
    }
    if sample_inks(g, w, h, ox, oy, j, px_, py) {
        assert(glyph_inks_upto(g, w, h, ox, oy, j + 1, px_, py));
    }
}

/// Exhausting glyph `i`'s samples and moving to glyph `i + 1` keeps the
/// inked-prefix set the same.
proof fn lemma_inked_before_glyph_step(
    glyphs: Seq<RenderedGlyph>,
    w: int,
    h: int,
    ox: int,
    oy: int,
    i: int,
    px_: int,
    py: int,
)
    requires
        0 <= i < glyphs.len(),
    ensures
        inked_before(glyphs, w, h, ox, oy, i + 1, 0, px_, py) <==> inked_before(
            glyphs,
            w,
            h,
            ox,
            oy,
            i,
            glyphs[i].samples@.len() as int,
            px_,
            py,
        ),
{
    let m = glyphs[i].samples@.len() as int;
    if inked_before(glyphs, w, h, ox, oy, i + 1, 0, px_, py) {
        if exists|k: int|
            0 <= k < i + 1 && #[trigger] glyph_inks_upto(
                glyphs[k],
                w,
                h,
                ox,
                oy,
                glyphs[k].samples@.len() as int,
                px_,
                py,
            ) {
            let k = choose|k: int|
                0 <= k < i + 1 && #[trigger] glyph_inks_upto(
                    glyphs[k],
                    w,
                    h,
                    ox,
                    oy,
                    glyphs[k].samples@.len() as int,
                    px_,
                    py,
                );
            if k == i {
                assert(glyph_inks_upto(glyphs[i], w, h, ox, oy, m, px_, py));
            } else {
                assert(inked_before(glyphs, w, h, ox, oy, i, m, px_, py));
            }
        }
    }
    if inked_before(glyphs, w, h, ox, oy, i, m, px_, py) {
        if exists|k: int|
            0 <= k < i && #[trigger] glyph_inks_upto(
                glyphs[k],
                w,
                h,
                ox,
                oy,
                glyphs[k].samples@.len() as int,
                px_,
                py,
            ) {
            let k = choose|k: int|
                0 <= k < i && #[trigger] glyph_inks_upto(
                    glyphs[k],
                    w,
                    h,
                    ox,
                    oy,
                    glyphs[k].samples@.len() as int,
                    px_,
                    py,
                );
            assert(0 <= k < i + 1);
            assert(inked_before(glyphs, w, h, ox, oy, i + 1, 0, px_, py));
        } else {
            assert(glyph_inks_upto(glyphs[i], w, h, ox, oy, m, px_, py));
            assert(inked_before(glyphs, w, h, ox, oy, i + 1, 0, px_, py));
        }
    }
}

/// The bounds calculator's running state after the samples before `(i, j)`:
/// `minx`/`miny` start at the surface dimensions and shrink to the least
/// inked coordinates, `maxx`/`maxy` start at `0` and grow to the greatest.
/// Each extreme short of its starting value is achieved by an inked pixel.
pub open spec fn tracks(
    glyphs: Seq<RenderedGlyph>,
    w: int,
    h: int,
    ox: int,
    oy: int,
    i: int,
    j: int,
    minx: int,
    miny: int,
    maxx: int,
    maxy: int,
) -> bool {
    &&& 0 <= minx <= w
    &&& 0 <= miny <= h
    &&& 0 <= maxx
    &&& 0 <= maxy
    &&& forall|px_: int, py: int|
        #[trigger] inked_before(glyphs, w, h, ox, oy, i, j, px_, py) ==> minx <= px_ && miny <= py
            && px_ <= maxx && py <= maxy
    &&& minx < w ==> exists|px_: int, py: int|
        #[trigger] inked_before(glyphs, w, h, ox, oy, i, j, px_, py) && px_ == minx
    &&& miny < h ==> exists|px_: int, py: int|
        #[trigger] inked_before(glyphs, w, h, ox, oy, i, j, px_, py) && py == miny
    &&& maxx > 0 ==> exists|px_: int, py: int|
        #[trigger] inked_before(glyphs, w, h, ox, oy, i, j, px_, py) && px_ == maxx
    &&& maxy > 0 ==> exists|px_: int, py: int|
        #[trigger] inked_before(glyphs, w, h, ox, oy, i, j, px_, py) && py == maxy
}

/// Before any sample is visited nothing is inked, so the starting trackers
/// satisfy the invariant.
proof fn lemma_tracks_init(glyphs: Seq<RenderedGlyph>, w: int, h: int, ox: int, oy: int)
    requires
        0 <= w,
        0 <= h,
    ensures
        tracks(glyphs, w, h, ox, oy, 0, 0, w, h, 0, 0),
{
    assert forall|px_: int, py: int| !(#[trigger] inked_before(
        glyphs,
        w,
        h,
        ox,
        oy,
        0,
        0,
        px_,
        py,
    )) by {
        if inked_before(glyphs, w, h, ox, oy, 0, 0, px_, py) {
            if exists|k: int|
                0 <= k < 0 && #[trigger] glyph_inks_upto(
                    glyphs[k],
                    w,
                    h,
                    ox,
                    oy,
                    glyphs[k].samples@.len() as int,
                    px_,
                    py,
                ) {
                let k = choose|k: int|
                    0 <= k < 0 && #[trigger] glyph_inks_upto(
                        glyphs[k],
                        w,
                        h,
                        ox,
                        oy,
                        glyphs[k].samples@.len() as int,
                        px_,
                        py,
                    );
                assert(false);
            } else {
                let jj = choose|jj: int|
                    0 <= jj < 0 && #[trigger] sample_inks(glyphs[0], w, h, ox, oy, jj, px_, py);
                assert(false);
            }
        }
    };
}

/// A sample that is clipped or carries zero coverage leaves the trackers
/// as they were.
proof fn lemma_tracks_skip_sample(
    glyphs: Seq<RenderedGlyph>,
    w: int,
    h: int,
    ox: int,
    oy: int,
    i: int,
    j: int,
    b: BBox,
    minx: int,
    miny: int,
    maxx: int,
    maxy: int,
)
    requires
        0 <= i < glyphs.len(),
        0 <= j < glyphs[i].samples@.len(),
        glyphs[i].bbox == Some(b),
        !(in_surface(
            img_x(b, ox, glyphs[i].samples@[j]),
            img_y(b, oy, glyphs[i].samples@[j]),
            w,
            h,
        ) && glyphs[i].samples@[j].cov > 0),
        tracks(glyphs, w, h, ox, oy, i, j, minx, miny, maxx, maxy),
    ensures
        tracks(glyphs, w, h, ox, oy, i, j + 1, minx, miny, maxx, maxy),
{
    assert forall|px_: int, py: int| #[trigger] inked_before(glyphs, w, h, ox, oy, i, j + 1, px_, py)
        implies minx <= px_ && miny <= py && px_ <= maxx && py <= maxy by {
        lemma_inked_before_sample_step(glyphs, w, h, ox, oy, i, j, px_, py);
    };
    if minx < w {
        let (px0, py0) = choose|px0: int, py0: int|
            #[trigger] inked_before(glyphs, w, h, ox, oy, i, j, px0, py0) && px0 == minx;
        lemma_inked_before_sample_step(glyphs, w, h, ox, oy, i, j, px0, py0);
    }
    if miny < h {
        let (px0, py0) = choose|px0: int, py0: int|
            #[trigger] inked_before(glyphs, w, h, ox, oy, i, j, px0, py0) && py0 == miny;
        lemma_inked_before_sample_step(glyphs, w, h, ox, oy, i, j, px0, py0);
    }
    if maxx > 0 {
        let (px0, py0) = choose|px0: int, py0: int|
            #[trigger] inked_before(glyphs, w, h, ox, oy, i, j, px0, py0) && px0 == maxx;
        lemma_inked_before_sample_step(glyphs, w, h, ox, oy, i, j, px0, py0);
    }
    if maxy > 0 {
        let (px0, py0) = choose|px0: int, py0: int|
            #[trigger] inked_before(glyphs, w, h, ox, oy, i, j, px0, py0) && py0 == maxy;
        lemma_inked_before_sample_step(glyphs, w, h, ox, oy, i, j, px0, py0);
    }
}

/// A sample with positive coverage inside the surface pulls each tracker to
/// the sample's position where that is more extreme.
proof fn lemma_tracks_ink_sample(
    glyphs: Seq<RenderedGlyph>,
    w: int,
    h: int,
    ox: int,
    oy: int,
    i: int,
    j: int,
    b: BBox,
    minx: int,
    miny: int,
    maxx: int,
    maxy: int,
    sx: int,
    sy: int,
)
    requires
        0 <= i < glyphs.len(),
        0 <= j < glyphs[i].samples@.len(),
        glyphs[i].bbox == Some(b),
        sx == img_x(b, ox, glyphs[i].samples@[j]),
        sy == img_y(b, oy, glyphs[i].samples@[j]),
        in_surface(sx, sy, w, h),
        glyphs[i].samples@[j].cov > 0,
        tracks(glyphs, w, h, ox, oy, i, j, minx, miny, maxx, maxy),
    ensures
        tracks(
            glyphs,
            w,
            h,
            ox,
            oy,
            i,
            j + 1,
            min(minx, sx),
            min(miny, sy),
            max(maxx, sx),
            max(maxy, sy),
        ),
{
    assert(sample_inks(glyphs[i], w, h, ox, oy, j, sx, sy));
    lemma_inked_before_sample_step(glyphs, w, h, ox, oy, i, j, sx, sy);
    assert(inked_before(glyphs, w, h, ox, oy, i, j + 1, sx, sy));
    assert forall|px_: int, py: int| #[trigger] inked_before(glyphs, w, h, ox, oy, i, j + 1, px_, py)
        implies min(minx, sx) <= px_ && min(miny, sy) <= py && px_ <= max(maxx, sx) && py <= max(
        maxy,
        sy,
    ) by {
        lemma_inked_before_sample_step(glyphs, w, h, ox, oy, i, j, px_, py);
    };
    if min(minx, sx) < w {
        if sx <= minx {
            assert(inked_before(glyphs, w, h, ox, oy, i, j + 1, sx, sy) && sx == min(minx, sx));
        } else {
            let (px0, py0) = choose|px0: int, py0: int|
                #[trigger] inked_before(glyphs, w, h, ox, oy, i, j, px0, py0) && px0 == minx;
            lemma_inked_before_sample_step(glyphs, w, h, ox, oy, i, j, px0, py0);
        }
    }
    if min(miny, sy) < h {
        if sy <= miny {
            assert(inked_before(glyphs, w, h, ox, oy, i, j + 1, sx, sy) && sy == min(miny, sy));
        } else {
            let (px0, py0) = choose|px0: int, py0: int|
                #[trigger] inked_before(glyphs, w, h, ox, oy, i, j, px0, py0) && py0 == miny;
            lemma_inked_before_sample_step(glyphs, w, h, ox, oy, i, j, px0, py0);
        }
    }
    if max(maxx, sx) > 0 {
        if sx >= maxx {
            assert(inked_before(glyphs, w, h, ox, oy, i, j + 1, sx, sy) && sx == max(maxx, sx));
        } else {
            let (px0, py0) = choose|px0: int, py0: int|
                #[trigger] inked_before(glyphs, w, h, ox, oy, i, j, px0, py0) && px0 == maxx;
            lemma_inked_before_sample_step(glyphs, w, h, ox, oy, i, j, px0, py0);
        }
    }
    if max(maxy, sy) > 0 {
        if sy >= maxy {
            assert(inked_before(glyphs, w, h, ox, oy, i, j + 1, sx, sy) && sy == max(maxy, sy));
        } else {
            let (px0, py0) = choose|px0: int, py0: int|
                #[trigger] inked_before(glyphs, w, h, ox, oy, i, j, px0, py0) && py0 == maxy;
            lemma_inked_before_sample_step(glyphs, w, h, ox, oy, i, j, px0, py0);
        }
    }
}

/// Finishing a glyph's samples and moving to the next glyph leaves the
/// trackers' meaning unchanged.
proof fn lemma_tracks_next_glyph(
    glyphs: Seq<RenderedGlyph>,
    w: int,
    h: int,
    ox: int,
    oy: int,
    i: int,
    minx: int,
    miny: int,
    maxx: int,
    maxy: int,
)
    requires
        0 <= i < glyphs.len(),
        tracks(glyphs, w, h, ox, oy, i, glyphs[i].samples@.len() as int, minx, miny, maxx, maxy),
    ensures
        tracks(glyphs, w, h, ox, oy, i + 1, 0, minx, miny, maxx, maxy),
{
    let m = glyphs[i].samples@.len() as int;
    assert forall|px_: int, py: int| #[trigger] inked_before(glyphs, w, h, ox, oy, i + 1, 0, px_, py)
        implies minx <= px_ && miny <= py && px_ <= maxx && py <= maxy by {
        lemma_inked_before_glyph_step(glyphs, w, h, ox, oy, i, px_, py);
    };
    if minx < w {
        let (px0, py0) = choose|px0: int, py0: int|
            #[trigger] inked_before(glyphs, w, h, ox, oy, i, m, px0, py0) && px0 == minx;
        lemma_inked_before_glyph_step(glyphs, w, h, ox, oy, i, px0, py0);
    }
    if miny < h {
        let (px0, py0) = choose|px0: int, py0: int|
            #[trigger] inked_before(glyphs, w, h, ox, oy, i, m, px0, py0) && py0 == miny;
        lemma_inked_before_glyph_step(glyphs, w, h, ox, oy, i, px0, py0);
    }
    if maxx > 0 {
        let (px0, py0) = choose|px0: int, py0: int|
            #[trigger] inked_before(glyphs, w, h, ox, oy, i, m, px0, py0) && px0 == maxx;
        lemma_inked_before_glyph_step(glyphs, w, h, ox, oy, i, px0, py0);
    }
    if maxy > 0 {
        let (px0, py0) = choose|px0: int, py0: int|
            #[trigger] inked_before(glyphs, w, h, ox, oy, i, m, px0, py0) && py0 == maxy;
        lemma_inked_before_glyph_step(glyphs, w, h, ox, oy, i, px0, py0);
    }
}

/// A glyph with no bounding box (whitespace) contributes no samples at all.
proof fn lemma_tracks_skip_glyph(
    glyphs: Seq<RenderedGlyph>,
    w: int,
    h: int,
    ox: int,
    oy: int,
    i: int,
    minx: int,
    miny: int,
    maxx: int,
    maxy: int,
)
    requires
        0 <= i < glyphs.len(),
        glyphs[i].bbox is None,
        tracks(glyphs, w, h, ox, oy, i, 0, minx, miny, maxx, maxy),
    ensures
        tracks(glyphs, w, h, ox, oy, i + 1, 0, minx, miny, maxx, maxy),
{
    let m = glyphs[i].samples@.len() as int;
    assert forall|px_: int, py: int|
        #[trigger] inked_before(glyphs, w, h, ox, oy, i, m, px_, py) == inked_before(
            glyphs,
            w,
            h,
            ox,
            oy,
            i,
            0,
            px_,
            py,
        ) by {
        if glyph_inks_upto(glyphs[i], w, h, ox, oy, m, px_, py) {
            let jj = choose|jj: int|
                0 <= jj < m && #[trigger] sample_inks(glyphs[i], w, h, ox, oy, jj, px_, py);
            assert(false);
        }
        if glyph_inks_upto(glyphs[i], w, h, ox, oy, 0, px_, py) {
            let jj = choose|jj: int|
                0 <= jj < 0 && #[trigger] sample_inks(glyphs[i], w, h, ox, oy, jj, px_, py);
            assert(false);
        }
    };
    if minx < w {
        let (px0, py0) = choose|px0: int, py0: int|
            #[trigger] inked_before(glyphs, w, h, ox, oy, i, 0, px0, py0) && px0 == minx;
        assert(inked_before(glyphs, w, h, ox, oy, i, m, px0, py0));
    }
    if miny < h {
        let (px0, py0) = choose|px0: int, py0: int|
            #[trigger] inked_before(glyphs, w, h, ox, oy, i, 0, px0, py0) && py0 == miny;
        assert(inked_before(glyphs, w, h, ox, oy, i, m, px0, py0));
    }
    if maxx > 0 {
        let (px0, py0) = choose|px0: int, py0: int|
            #[trigger] inked_before(glyphs, w, h, ox, oy, i, 0, px0, py0) && px0 == maxx;
        assert(inked_before(glyphs, w, h, ox, oy, i, m, px0, py0));
    }
    if maxy > 0 {
        let (px0, py0) = choose|px0: int, py0: int|
            #[trigger] inked_before(glyphs, w, h, ox, oy, i, 0, px0, py0) && py0 == maxy;
        assert(inked_before(glyphs, w, h, ox, oy, i, m, px0, py0));
    }
    lemma_tracks_next_glyph(glyphs, w, h, ox, oy, i, minx, miny, maxx, maxy);
}

/// Measure the tight bounding box a run of glyphs would occupy on the
/// surface, without writing a pixel.
///
/// The calculator visits the same samples, in the same order, as the
/// compositor, and tracks the extremes of every position with positive
/// coverage inside the surface. A rectangle comes back exactly when the run
/// is [`visible`]; it then contains every inked pixel, and each of its four
/// edges passes through an inked pixel (the returned size is the difference
/// of extremes, so the far corner `(x + width, y + height)` is the greatest
/// inked position).
pub fn calc_text(canvas: &Surface, x: u32, y: u32, glyphs: &Vec<RenderedGlyph>) -> (r: Option<
    Rect,
>)
    requires
        canvas.spec_width() <= i32::MAX,
        canvas.spec_height() <= i32::MAX,
    ensures
        r is Some <==> visible(
            glyphs@,
            canvas.spec_width(),
            canvas.spec_height(),
            x as int,
            y as int,
        ),
        r matches Some(rect) ==> 0 <= rect.x && 0 <= rect.y && rect.x + rect.width
            < canvas.spec_width() && rect.y + rect.height < canvas.spec_height(),
        r matches Some(rect) ==> forall|px_: int, py: int|
            #[trigger] inked_at(
                glyphs@,
                canvas.spec_width(),
                canvas.spec_height(),
                x as int,
                y as int,
                px_,
                py,
            ) ==> rect.x <= px_ <= rect.x + rect.width && rect.y <= py <= rect.y + rect.height,
        r matches Some(rect) ==> exists|px_: int, py: int|
            #[trigger] inked_at(
                glyphs@,
                canvas.spec_width(),
                canvas.spec_height(),
                x as int,
                y as int,
                px_,
                py,
            ) && px_ == rect.x,
        r matches Some(rect) ==> exists|px_: int, py: int|
            #[trigger] inked_at(
                glyphs@,
                canvas.spec_width(),
                canvas.spec_height(),
                x as int,
                y as int,
                px_,
                py,
            ) && py == rect.y,
        r matches Some(rect) ==> exists|px_: int, py: int|
            #[trigger] inked_at(
                glyphs@,
                canvas.spec_width(),
                canvas.spec_height(),
                x as int,
                y as int,
                px_,
                py,
            ) && px_ == rect.x + rect.width,
        r matches Some(rect) ==> exists|px_: int, py: int|
            #[trigger] inked_at(
                glyphs@,
                canvas.spec_width(),
                canvas.spec_height(),
                x as int,
                y as int,
                px_,
                py,
            ) && py == rect.y + rect.height,
{
    let w: u32 = canvas.width();
    let h: u32 = canvas.height();
    let ghost gw = w as int;
    let ghost gh = h as int;
    let ghost ox = x as int;
    let ghost oy = y as int;
    let mut minx: i64 = w as i64;
    let mut miny: i64 = h as i64;
    let mut maxx: i64 = 0;
    let mut maxy: i64 = 0;
    proof {
        lemma_tracks_init(glyphs@, gw, gh, ox, oy);
    }
    let n: usize = glyphs.len();
    let mut i: usize = 0;
    while i < n
        invariant
            i <= n,
            n == glyphs@.len(),
            gw == w as int,
            gh == h as int,
            ox == x as int,
            oy == y as int,
            tracks(glyphs@, gw, gh, ox, oy, i as int, 0, minx as int, miny as int, maxx as int, maxy as int),
        decreases n - i,
    {
        let g = &glyphs[i];
        if let Some(bb) = g.bbox {
            let m: usize = g.samples.len();
            let mut j: usize = 0;
            while j < m
                invariant
                    j <= m,
                    i < n,
                    n == glyphs@.len(),
                    m == glyphs@[i as int].samples@.len(),
                    glyphs@[i as int].bbox == Some(bb),
                    g == &glyphs@[i as int],
                    gw == w as int,
                    gh == h as int,
                    ox == x as int,
                    oy == y as int,
                    tracks(glyphs@, gw, gh, ox, oy, i as int, j as int, minx as int, miny as int, maxx as int, maxy as int),
                decreases m - j,
            {
                let s: Sample = g.samples[j];
                let ix: i64 = s.gx as i64 + bb.min_x as i64 + x as i64;
                let iy: i64 = s.gy as i64 + bb.min_y as i64 + y as i64;
                if ix >= 0 && ix < w as i64 && iy >= 0 && iy < h as i64 && s.cov > 0 {
                    proof {
                        lemma_tracks_ink_sample(
                            glyphs@,
                            gw,
                            gh,
                            ox,
                            oy,
                            i as int,
                            j as int,
                            bb,
                            minx as int,
                            miny as int,
                            maxx as int,
                            maxy as int,
                            ix as int,
                            iy as int,
                        );
                    }
                    if ix < minx {
                        minx = ix;
                    }
                    if iy < miny {
                        miny = iy;
                    }
                    if ix > maxx {
                        maxx = ix;
                    }
                    if iy > maxy {
                        maxy = iy;
                    }
                } else {
                    proof {
                        lemma_tracks_skip_sample(
                            glyphs@,
                            gw,
                            gh,
                            ox,
                            oy,
                            i as int,
                            j as int,
                            bb,
                            minx as int,
                            miny as int,
                            maxx as int,
                            maxy as int,
                        );
                    }
                }
                j += 1;
            }
            proof {
                lemma_tracks_next_glyph(
                    glyphs@,
                    gw,
                    gh,
                    ox,
                    oy,
                    i as int,
                    minx as int,
                    miny as int,
                    maxx as int,
                    maxy as int,
                );
            }
        } else {
            proof {
                lemma_tracks_skip_glyph(
                    glyphs@,
                    gw,
                    gh,
                    ox,
                    oy,
                    i as int,
                    minx as int,
                    miny as int,
                    maxx as int,
                    maxy as int,
                );
            }
        }
        i += 1;
    }
    if maxx > 0 && maxy > 0 && minx < w as i64 && miny < h as i64 {
        proof {
            let gn = glyphs@.len() as int;
            let (px1, py1) = choose|px1: int, py1: int|
                #[trigger] inked_before(glyphs@, gw, gh, ox, oy, gn, 0, px1, py1) && px1
                    == minx as int;
            assert(inked_at(glyphs@, gw, gh, ox, oy, px1, py1));
            let (px2, py2) = choose|px2: int, py2: int|
                #[trigger] inked_before(glyphs@, gw, gh, ox, oy, gn, 0, px2, py2) && py2
                    == miny as int;
            assert(inked_at(glyphs@, gw, gh, ox, oy, px2, py2));
            let (px3, py3) = choose|px3: int, py3: int|
                #[trigger] inked_before(glyphs@, gw, gh, ox, oy, gn, 0, px3, py3) && px3
                    == maxx as int;
            assert(inked_at(glyphs@, gw, gh, ox, oy, px3, py3));
            lemma_inked_in_bounds(glyphs@, gw, gh, ox, oy, gn, 0, px3, py3);
            let (px4, py4) = choose|px4: int, py4: int|
                #[trigger] inked_before(glyphs@, gw, gh, ox, oy, gn, 0, px4, py4) && py4
                    == maxy as int;
            assert(inked_at(glyphs@, gw, gh, ox, oy, px4, py4));
            lemma_inked_in_bounds(glyphs@, gw, gh, ox, oy, gn, 0, px4, py4);
        }
        Some(
            Rect {
                x: minx as i32,
                y: miny as i32,
                width: (maxx - minx) as u32,
                height: (maxy - miny) as u32,
            },
        )
    } else {
        proof {
            if visible(glyphs@, gw, gh, ox, oy) {
                let (pxa, pya) = choose|pxa: int, pya: int|
                    #[trigger] inked_at(glyphs@, gw, gh, ox, oy, pxa, pya) && pxa >= 1;
                lemma_inked_in_bounds(glyphs@, gw, gh, ox, oy, glyphs@.len() as int, 0, pxa, pya);
                let (pxb, pyb) = choose|pxb: int, pyb: int|
                    #[trigger] inked_at(glyphs@, gw, gh, ox, oy, pxb, pyb) && pyb >= 1;
                lemma_inked_in_bounds(glyphs@, gw, gh, ox, oy, glyphs@.len() as int, 0, pxb, pyb);
                assert(false);
            }
        }
        None
    }
}

/// Blending with zero coverage returns the current pixel unchanged.
proof fn lemma_blend_zero(q: Pix, color: Pix)
    ensures
        blend_pixel_spec(q, color, 0) == q,
{
    assert(blend_channel_spec(q.r, color.r, 0) == q.r) by (nonlinear_arith);
    assert(blend_channel_spec(q.g, color.g, 0) == q.g) by (nonlinear_arith);
    assert(blend_channel_spec(q.b, color.b, 0) == q.b) by (nonlinear_arith);
    assert(blend_channel_spec(q.a, color.a, 0) == q.a) by (nonlinear_arith);
}

/// A sample that inks a pixel makes the whole run ink it.
proof fn lemma_sample_inks_inked(
    glyphs: Seq<RenderedGlyph>,
    w: int,
    h: int,
    ox: int,
    oy: int,
    i: int,
    j: int,
    px_: int,
    py: int,
)
    requires
        0 <= i < glyphs.len(),
        sample_inks(glyphs[i], w, h, ox, oy, j, px_, py),
    ensures
        inked_at(glyphs, w, h, ox, oy, px_, py),
{
    assert(glyph_inks_upto(
        glyphs[i],
        w,
        h,
        ox,
        oy,
        glyphs[i].samples@.len() as int,
        px_,
        py,
    ));
    assert(exists|k: int|
        0 <= k < glyphs.len() && #[trigger] glyph_inks_upto(
            glyphs[k],
            w,
            h,
            ox,
            oy,
            glyphs[k].samples@.len() as int,
            px_,
            py,
        ));
}

/// One glyph's samples leave a pixel alone if none of them inks it: a
/// sample elsewhere updates a different index, and a sample landing there
/// must carry zero coverage, which blends to the identity.
proof fn lemma_samples_spare_pixel(
    px: Seq<Pix>,
    w: int,
    h: int,
    color: Pix,
    ox: int,
    oy: int,
    b: BBox,
    samples: Seq<Sample>,
    n: int,
    x0: int,
    y0: int,
)
    requires
        px.len() == w * h,
        in_surface(x0, y0, w, h),
        forall|j: int|
            0 <= j < n && img_x(b, ox, #[trigger] samples[j]) == x0 && img_y(b, oy, samples[j])
                == y0 ==> samples[j].cov == 0,
    ensures
        apply_samples(px, w, h, color, ox, oy, b, samples, n).len() == px.len(),
        n >= 0 ==> apply_samples(px, w, h, color, ox, oy, b, samples, n)[y0 * w + x0] == px[y0 * w
            + x0],
    decreases n,
{
    lemma_row_major_index_in_range(w, h, x0, y0);
    if n > 0 {
        lemma_samples_spare_pixel(px, w, h, color, ox, oy, b, samples, n - 1, x0, y0);
        let prev = apply_samples(px, w, h, color, ox, oy, b, samples, n - 1);
        let s = samples[n - 1];
        let sx = img_x(b, ox, s);
        let sy = img_y(b, oy, s);
        if in_surface(sx, sy, w, h) {
            lemma_row_major_index_in_range(w, h, sx, sy);
            if sy * w + sx == y0 * w + x0 {
                lemma_row_major_index_injective(w, sx, sy, x0, y0);
                assert(s.cov == 0);
                lemma_blend_zero(prev[y0 * w + x0], color);
            }
        }
    }
}

/// Clip-safety and consistency of drawing with measuring: the compositor
/// touches no pixel outside the inked set. A pixel that no sample inks —
/// in particular every pixel the clipping skips, and every pixel outside
/// the rectangle that [`calc_text`] returns — keeps its value, and the
/// surface keeps its size.
pub proof fn lemma_uninked_pixel_unchanged(
    s: Seq<Pix>,
    w: int,
    h: int,
    color: Pix,
    ox: int,
    oy: int,
    glyphs: Seq<RenderedGlyph>,
    n: int,
    x0: int,
    y0: int,
)
    requires
        s.len() == w * h,
        0 <= n <= glyphs.len(),
        in_surface(x0, y0, w, h),
        !inked_at(glyphs, w, h, ox, oy, x0, y0),
    ensures
        apply_glyphs(s, w, h, color, ox, oy, glyphs, n).len() == s.len(),
        apply_glyphs(s, w, h, color, ox, oy, glyphs, n)[y0 * w + x0] == s[y0 * w + x0],
    decreases n,
{
    if n > 0 {
        lemma_uninked_pixel_unchanged(s, w, h, color, ox, oy, glyphs, n - 1, x0, y0);
        let prev = apply_glyphs(s, w, h, color, ox, oy, glyphs, n - 1);
        let g = glyphs[n - 1];
        match g.bbox {
            Some(b) => {
                assert forall|j: int|
                    0 <= j < g.samples@.len() && img_x(b, ox, #[trigger] g.samples@[j]) == x0
                        && img_y(b, oy, g.samples@[j]) == y0 implies g.samples@[j].cov == 0 by {
                    if g.samples@[j].cov > 0 {
                        assert(sample_inks(g, w, h, ox, oy, j, x0, y0));
                        lemma_sample_inks_inked(glyphs, w, h, ox, oy, n - 1, j, x0, y0);
                    }
                };
                lemma_samples_spare_pixel(
                    prev,
                    w,
                    h,
                    color,
                    ox,
                    oy,
                    b,
                    g.samples@,
                    g.samples@.len() as int,
                    x0,
                    y0,
                );
            },
            None => {},
        }
    }
}

/// Zero coverage composites to the identity: a run whose every sample
/// carries coverage `0` leaves the surface pixel-identical.
pub proof fn lemma_zero_coverage_noop(
    s: Seq<Pix>,
    w: int,
    h: int,
    color: Pix,
    ox: int,
    oy: int,
    glyphs: Seq<RenderedGlyph>,
    n: int,
)
    requires
        s.len() == w * h,
        0 <= n <= glyphs.len(),
        forall|i: int, j: int|
            0 <= i < glyphs.len() && 0 <= j < glyphs[i].samples@.len() ==> (#[trigger] glyphs[i].samples@[j]).cov == 0,
    ensures
        apply_glyphs(s, w, h, color, ox, oy, glyphs, n) == s,
    decreases n,
{
    if n > 0 {
        lemma_zero_coverage_noop(s, w, h, color, ox, oy, glyphs, n - 1);
        let g = glyphs[n - 1];
        match g.bbox {
            Some(b) => {
                lemma_zero_coverage_samples(s, w, h, color, ox, oy, b, g.samples@, g.samples@.len() as int);
            },
            None => {},
        }
    }
}

/// Sample-level half of [`lemma_zero_coverage_noop`].
proof fn lemma_zero_coverage_samples(
    px: Seq<Pix>,
    w: int,
    h: int,
    color: Pix,
    ox: int,
    oy: int,
    b: BBox,
    samples: Seq<Sample>,
    n: int,
)
    requires
        px.len() == w * h,
        forall|j: int| 0 <= j < n ==> (#[trigger] samples[j]).cov == 0,
    ensures
        apply_samples(px, w, h, color, ox, oy, b, samples, n) == px,
    decreases n,
{
    if n > 0 {
        lemma_zero_coverage_samples(px, w, h, color, ox, oy, b, samples, n - 1);
        let s = samples[n - 1];
        let sx = img_x(b, ox, s);
        let sy = img_y(b, oy, s);
        if in_surface(sx, sy, w, h) {
            lemma_row_major_index_in_range(w, h, sx, sy);
            lemma_blend_zero(px[sy * w + sx], color);
            assert(px.update(sy * w + sx, px[sy * w + sx]) =~= px);
        }
    }
}

/// Drawing or measuring an empty run is a no-op: the surface comes back
/// pixel-identical and no bounds are visible.
pub proof fn lemma_empty_noop(
    s: Seq<Pix>,
    w: int,
    h: int,
    color: Pix,
    ox: int,
    oy: int,
    glyphs: Seq<RenderedGlyph>,
)
    requires
        glyphs.len() == 0,
    ensures
        apply_glyphs(s, w, h, color, ox, oy, glyphs, glyphs.len() as int) == s,
        !visible(glyphs, w, h, ox, oy),
{
    assert forall|px_: int, py: int| !(#[trigger] inked_at(glyphs, w, h, ox, oy, px_, py)) by {
        if inked_at(glyphs, w, h, ox, oy, px_, py) {
            if exists|k: int|
                0 <= k < 0 && #[trigger] glyph_inks_upto(
                    glyphs[k],
                    w,
                    h,
                    ox,
                    oy,
                    glyphs[k].samples@.len() as int,
                    px_,
                    py,
                ) {
                let k = choose|k: int|
                    0 <= k < 0 && #[trigger] glyph_inks_upto(
                        glyphs[k],
                        w,
                        h,
                        ox,
                        oy,
                        glyphs[k].samples@.len() as int,
                        px_,
                        py,
                    );
                assert(false);
            }
        }
    };
}

/// An origin at or beyond the right edge clips the whole run: glyph boxes
/// anchored at non-negative layout coordinates land entirely outside the
/// surface, so nothing is drawn and no bounds are visible.
pub proof fn lemma_full_clip(
    s: Seq<Pix>,
    w: int,
    h: int,
    color: Pix,
    ox: int,
    oy: int,
    glyphs: Seq<RenderedGlyph>,
    n: int,
)
    requires
        0 <= n <= glyphs.len(),
        ox >= w,
        forall|i: int|
            0 <= i < glyphs.len() && (#[trigger] glyphs[i]).bbox is Some ==> glyphs[i].bbox->0.min_x
                >= 0,
    ensures
        apply_glyphs(s, w, h, color, ox, oy, glyphs, n) == s,
        !visible(glyphs, w, h, ox, oy),
    decreases n,
{
    if n > 0 {
        lemma_full_clip(s, w, h, color, ox, oy, glyphs, n - 1);
        let g = glyphs[n - 1];
        match g.bbox {
            Some(b) => {
                lemma_clipped_samples(s, w, h, color, ox, oy, b, g.samples@, g.samples@.len() as int);
            },
            None => {},
        }
    }
    assert forall|px_: int, py: int| !(#[trigger] inked_at(glyphs, w, h, ox, oy, px_, py)) by {
        lemma_no_ink_when_clipped(glyphs, w, h, ox, oy, px_, py);
    };
}

/// Sample-level half of [`lemma_full_clip`]: with the origin at or past the
/// right edge and a non-negative box corner, every sample misses the
/// surface.
proof fn lemma_clipped_samples(
    px: Seq<Pix>,
    w: int,
    h: int,
    color: Pix,
    ox: int,
    oy: int,
    b: BBox,
    samples: Seq<Sample>,
    n: int,
)
    requires
        ox >= w,
        b.min_x >= 0,
    ensures
        apply_samples(px, w, h, color, ox, oy, b, samples, n) == px,
    decreases n,
{
    if n > 0 {
        lemma_clipped_samples(px, w, h, color, ox, oy, b, samples, n - 1);
    }
}

/// With the origin at or past the right edge and non-negative box corners,
/// no sample can ink a surface pixel.
proof fn lemma_no_ink_when_clipped(
    glyphs: Seq<RenderedGlyph>,
    w: int,
    h: int,
    ox: int,
    oy: int,
    px_: int,
    py: int,
)
    requires
        ox >= w,
        forall|i: int|
            0 <= i < glyphs.len() && (#[trigger] glyphs[i]).bbox is Some ==> glyphs[i].bbox->0.min_x
                >= 0,
    ensures
        !inked_at(glyphs, w, h, ox, oy, px_, py),
{
    let gn = glyphs.len() as int;
    if inked_at(glyphs, w, h, ox, oy, px_, py) {
        if exists|k: int|
            0 <= k < gn && #[trigger] glyph_inks_upto(
                glyphs[k],
                w,
                h,
                ox,
                oy,
                glyphs[k].samples@.len() as int,
                px_,
                py,
            ) {
            let k = choose|k: int|
                0 <= k < gn && #[trigger] glyph_inks_upto(
                    glyphs[k],
                    w,
                    h,
                    ox,
                    oy,
                    glyphs[k].samples@.len() as int,
                    px_,
                    py,
                );
            let jj = choose|jj: int|
                0 <= jj < glyphs[k].samples@.len() && #[trigger] sample_inks(
                    glyphs[k],
                    w,
                    h,
                    ox,
                    oy,
                    jj,
                    px_,
                    py,
                );
            assert(px_ == img_x(glyphs[k].bbox->0, ox, glyphs[k].samples@[jj]));
            assert(px_ >= w);
            assert(in_surface(px_, py, w, h));
            assert(false);
        } else {
            let jj = choose|jj: int|
                0 <= jj < 0 && #[trigger] sample_inks(glyphs[gn], w, h, ox, oy, jj, px_, py);
            assert(false);
        }
    }
}

/// Composite a run of glyphs onto a copy of the surface and return the
/// copy; the input surface is left untouched.
pub fn draw_text(image: &Surface, color: Pix, x: u32, y: u32, glyphs: &Vec<RenderedGlyph>) -> (out:
    Surface)
    requires
        image.wf(),
        forall|i: int| 0 <= i < glyphs@.len() ==> (#[trigger] glyphs@[i]).wf(),
    ensures
        out.wf(),
        out.spec_width() == image.spec_width(),
        out.spec_height() == image.spec_height(),
        out.pixels() == apply_glyphs(
            image.pixels(),
            image.spec_width(),
            image.spec_height(),
            color,
            x as int,
            y as int,
            glyphs@,
            glyphs@.len() as int,
        ),
{
    let mut out = image.duplicate();
    draw_text_mut(&mut out, color, x, y, glyphs);
    out
}

} // verus!
