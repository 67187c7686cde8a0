//! The raster surface: a `width` x `height` grid of pixels.
//!
//! Pixels are stored row-major; the pixel at `(x, y)` sits at index
//! `y * width + x`. The surface never grows or shrinks after construction.

use vstd::prelude::*;
use crate::pixel::Pix;

verus! {

/// A two-dimensional grid of pixels addressed by `(x, y)` in
/// `[0, width) x [0, height)`.
pub struct Surface {
    width: u32,
    height: u32,
    data: Vec<Pix>,
}

impl Surface {
    /// Width in pixels.
    pub closed spec fn spec_width(self) -> int {
        self.width as int
    }

    /// Height in pixels.
    pub closed spec fn spec_height(self) -> int {
        self.height as int
    }

    /// The pixel grid as a row-major sequence of length `width * height`.
    pub closed spec fn pixels(self) -> Seq<Pix> {
        self.data@
    }

    /// Structural invariant: the storage holds exactly one pixel per grid
    /// cell, and the grid fits the address space.
    pub open spec fn wf(self) -> bool {
        &&& self.pixels().len() == self.spec_width() * self.spec_height()
        &&& self.spec_width() * self.spec_height() <= usize::MAX
    }

    /// The pixel at `(x, y)`, as the model sees it.
    pub open spec fn pixel_at(self, x: int, y: int) -> Pix {
        self.pixels()[y * self.spec_width() + x]
    }

    /// Build a surface of the given dimensions with every pixel set to `fill`.
    pub fn new(width: u32, height: u32, fill: Pix) -> (s: Surface)
        requires
            width * height <= usize::MAX,
        ensures
            s.wf(),
            s.spec_width() == width,
            s.spec_height() == height,
            s.pixels() == Seq::new((width * height) as nat, |i: int| fill),
    {
        let n: usize = (width as usize) * (height as usize);
        let mut data: Vec<Pix> = Vec::new();
        let mut i: usize = 0;
        while i < n
            invariant
                i <= n,
                n == width * height,
                data@ =~= Seq::new(i as nat, |k: int| fill),
            decreases n - i,
        {
            data.push(fill);
            i += 1;
        }
        let s = Surface { width, height, data };
        proof {
            assert(s.pixels() =~= Seq::new((width * height) as nat, |i: int| fill));
        }
        s
    }

    /// Width in pixels.
    pub fn width(&self) -> (w: u32)
        ensures
            w == self.spec_width(),
    {
        self.width
    }

    /// Height in pixels.
    pub fn height(&self) -> (h: u32)
        ensures
            h == self.spec_height(),
    {
        self.height
    }

    /// Read the pixel at `(x, y)`.
    pub fn get_pixel(&self, x: u32, y: u32) -> (p: Pix)
        requires
            self.wf(),
            x < self.spec_width(),
            y < self.spec_height(),
        ensures
            p == self.pixel_at(x as int, y as int),
    {
        proof {
            lemma_row_major_index_in_range(
                self.spec_width(),
                self.spec_height(),
                x as int,
                y as int,
            );
        }
        let idx: usize = (y as usize) * (self.width as usize) + (x as usize);
        self.data[idx]
    }

    /// Overwrite the pixel at `(x, y)`; every other pixel and the dimensions
    /// stay as they were.
    pub fn set_pixel(&mut self, x: u32, y: u32, p: Pix)
        requires
            old(self).wf(),
            x < old(self).spec_width(),
            y < old(self).spec_height(),
        ensures
            final(self).wf(),
            final(self).spec_width() == old(self).spec_width(),
            final(self).spec_height() == old(self).spec_height(),
            final(self).pixels() == old(self).pixels().update(
                y * old(self).spec_width() + x,
                p,
            ),
    {
        proof {
            lemma_row_major_index_in_range(
                self.spec_width(),
                self.spec_height(),
                x as int,
                y as int,
            );
        }
        let idx: usize = (y as usize) * (self.width as usize) + (x as usize);
        self.data.set(idx, p);
    }

    /// An independent surface with the same dimensions and pixels.
    pub fn duplicate(&self) -> (s: Surface)
        requires
            self.wf(),
        ensures
            s.wf(),
            s.spec_width() == self.spec_width(),
            s.spec_height() == self.spec_height(),
            s.pixels() == self.pixels(),
    {
        let mut data: Vec<Pix> = Vec::new();
        let n: usize = self.data.len();
        let mut i: usize = 0;
        while i < n
            invariant
                i <= n,
                n == self.data@.len(),
                data@ =~= self.data@.subrange(0, i as int),
            decreases n - i,
        {
            data.push(self.data[i]);
            i += 1;
        }
        proof {
            assert(data@ =~= self.data@);
        }
        Surface { width: self.width, height: self.height, data }
    }
}

/// Row-major addressing maps every in-bounds `(x, y)` to an index below
/// `w * h`.
pub proof fn lemma_row_major_index_in_range(w: int, h: int, x: int, y: int)
    requires
        0 <= x < w,
        0 <= y < h,
    ensures
        0 <= y * w + x < w * h,
{
    assert(y * w + x < w * h) by (nonlinear_arith)
        requires
            0 <= x < w,
            0 <= y < h,
    ;
    assert(y * w + x >= 0) by (nonlinear_arith)
        requires
            0 <= x,
            0 <= y,
            0 < w,
    ;
}

/// Row-major addressing is injective on the grid: two distinct in-bounds
/// positions never share an index.
pub proof fn lemma_row_major_index_injective(w: int, x1: int, y1: int, x2: int, y2: int)
    requires
        0 <= x1 < w,
        0 <= x2 < w,
        0 <= y1,
        0 <= y2,
        y1 * w + x1 == y2 * w + x2,
    ensures
        x1 == x2 && y1 == y2,
{
    assert(y1 == y2 && x1 == x2) by (nonlinear_arith)
        requires
            0 <= x1 < w,
            0 <= x2 < w,
            0 <= y1,
            0 <= y2,
            y1 * w + x1 == y2 * w + x2,
    ;
}

} // verus!
