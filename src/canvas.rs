//! A fixed-size grid of pixels, stored row-major, and its PPM serialisation.
use vstd::prelude::*;

use crate::ppm::{ppm_chars, ppm_text};
use crate::text::{string_of, Rgb};

verus! {

/// A `width` by `height` grid of pixels; pixel `(x, y)` is stored at
/// `y * width + x`. The pixel type is free: a canvas of unclamped colours is
/// turned into a canvas of [`Rgb`] pixels before it is serialised.
pub struct Canvas<T> {
    pub width: usize,
    pub height: usize,
    pub pixels: Vec<T>,
}

/// Where pixel `(x, y)` is stored in a grid `width` pixels wide.
pub open spec fn offset(width: int, x: int, y: int) -> int {
    width * y + x
}

proof fn lemma_offset_in_grid(width: int, height: int, x: int, y: int)
    requires
        0 <= x < width,
        0 <= y < height,
    ensures
        0 <= offset(width, x, y) < width * height,
{
    assert(0 <= width * y) by (nonlinear_arith)
        requires
            0 <= y,
            0 <= width,
    ;
    assert(width * y + x < width * height) by (nonlinear_arith)
        requires
            0 <= x < width,
            0 <= y < height,
    ;
}

impl<T> Canvas<T> {
    /// The grid holds exactly one pixel per coordinate.
    pub open spec fn wf(&self) -> bool {
        self.pixels@.len() == self.width * self.height
    }

    /// `(x, y)` names a pixel of the grid.
    pub open spec fn in_bounds(&self, x: int, y: int) -> bool {
        0 <= x < self.width && 0 <= y < self.height
    }

    /// The pixel at `(x, y)`.
    pub open spec fn at(&self, x: int, y: int) -> T {
        self.pixels@[offset(self.width as int, x, y)]
    }

    /// A canvas over the given row-major pixels.
    pub fn new(width: usize, height: usize, pixels: Vec<T>) -> (r: Canvas<T>)
        requires
            pixels@.len() == width * height,
        ensures
            r.wf(),
            r.width == width,
            r.height == height,
            r.pixels@ == pixels@,
    {
        Canvas { width, height, pixels }
    }

    /// Stores `color` at `(x, y)`; every other pixel is kept. Coordinates
    /// outside the grid are not accepted.
    pub fn write_pixel(&mut self, x: usize, y: usize, color: T)
        requires
            old(self).wf(),
            old(self).in_bounds(x as int, y as int),
        ensures
            final(self).wf(),
            final(self).width == old(self).width,
            final(self).height == old(self).height,
            final(self).pixels@ == old(self).pixels@.update(
                offset(old(self).width as int, x as int, y as int),
                color,
            ),
    {
        proof {
            lemma_offset_in_grid(self.width as int, self.height as int, x as int, y as int);
        }
        assert(self.pixels.len() <= usize::MAX);
        let i = self.width * y + x;
        self.pixels.set(i, color);
    }
}

impl<T: Copy> Canvas<T> {
    /// The pixel at `(x, y)`. Coordinates outside the grid are not accepted.
    pub fn pixel_at(&self, x: usize, y: usize) -> (r: T)
        requires
            self.wf(),
            self.in_bounds(x as int, y as int),
        ensures
            r == self.at(x as int, y as int),
    {
        proof {
            lemma_offset_in_grid(self.width as int, self.height as int, x as int, y as int);
        }
        assert(self.pixels.len() <= usize::MAX);
        self.pixels[self.width * y + x]
    }
}

/// A `width` by `height` canvas with every pixel set to `background`.
pub fn canvas<T: Copy>(width: usize, height: usize, background: T) -> (r: Canvas<T>)
    requires
        width * height <= usize::MAX,
    ensures
        r.wf(),
        r.width == width,
        r.height == height,
        forall|i: int| 0 <= i < r.pixels@.len() ==> r.pixels@[i] == background,
{
    let n = width * height;
    let mut pixels: Vec<T> = Vec::new();
    let mut i: usize = 0;
    while i < n
        invariant
            i <= n,
            pixels@.len() == i,
            forall|j: int| 0 <= j < i ==> pixels@[j] == background,
        decreases n - i,
    {
        pixels.push(background);
        i = i + 1;
    }
    Canvas { width, height, pixels }
}

impl Canvas<Rgb> {
    /// The canvas as a PPM document: the header, then each row's pixels in
    /// decimal, a row split once where its text runs past the line limit.
    pub fn to_ppm(&self) -> (r: String)
        requires
            self.wf(),
        ensures
            r@ == ppm_text(self.width as nat, self.height as nat, self.pixels@),
    {
        string_of(ppm_chars(self.width, self.height, &self.pixels))
    }
}

/// Serialising reads the canvas without changing it, and its text depends on
/// the size and the pixels alone: two canvases that agree on those, such as
/// one canvas before and after it was serialised, give the same text.
pub proof fn lemma_serialize_repeatable(a: &Canvas<Rgb>, b: &Canvas<Rgb>)
    requires
        a.wf(),
        a.width == b.width,
        a.height == b.height,
        a.pixels@ == b.pixels@,
    ensures
        b.wf(),
        ppm_text(a.width as nat, a.height as nat, a.pixels@) == ppm_text(
            b.width as nat,
            b.height as nat,
            b.pixels@,
        ),
{
}

} // verus!
