//! The pixel buffer and the depth buffer.
//!
//! An `Image` is a width-by-height grid of pixels stored row-major; its
//! view is the flat pixel sequence. Reads and writes are bounds checked
//! and fail with `CoordinateOutOfBounds` rather than clamping. A
//! `DepthBuffer` stores per pixel the depth of the nearest fragment
//! drawn so far; a cell starts at `None`, which every candidate depth
//! beats, standing for the smallest possible value.

use vstd::prelude::*;

verus! {

use crate::rat::{Rat, RatV, rat_wf};

/// How a raster operation fails.
#[derive(Debug, Copy, Clone, PartialEq, Eq, Structural)]
pub enum DrawError {
    /// A pixel coordinate lies outside the buffer.
    CoordinateOutOfBounds,
}

/// The flat index of pixel `(x, y)` in a row-major grid of the given
/// width.
pub open spec fn pix_index(width: int, x: int, y: int) -> int {
    y * width + x
}

/// Row-major pixel indices stay inside the grid.
pub proof fn lemma_pix_index_bounds(width: int, height: int, x: int, y: int) by (nonlinear_arith)
    requires
        0 <= x < width,
        0 <= y < height,
    ensures
        0 <= pix_index(width, x, y) < width * height,
{
}

/// Distinct pixels of a grid have distinct row-major indices.
pub proof fn lemma_pix_index_injective(width: int, x1: int, y1: int, x2: int, y2: int)
    by (nonlinear_arith)
    requires
        0 <= x1 < width,
        0 <= x2 < width,
        0 <= y1,
        0 <= y2,
        pix_index(width, x1, y1) == pix_index(width, x2, y2),
    ensures
        x1 == x2 && y1 == y2,
{
}

/// A width-by-height pixel grid over any copyable pixel type.
#[derive(Debug)]
pub struct Image<T> {
    width: usize,
    height: usize,
    data: Vec<T>,
}

impl<T> View for Image<T> {
    type V = Seq<T>;

    closed spec fn view(&self) -> Seq<T> {
        self.data@
    }
}

impl<T> Image<T> {
    /// Grid width in pixels.
    pub closed spec fn spec_width(&self) -> int {
        self.width as int
    }

    /// Grid height in pixels.
    pub closed spec fn spec_height(&self) -> int {
        self.height as int
    }

    /// Well-formed: one pixel per grid cell.
    pub open spec fn wf(&self) -> bool {
        self@.len() == self.spec_width() * self.spec_height()
    }
}

impl<T: Copy> Image<T> {
    /// A buffer of the given size with every pixel set to `fill`.
    pub fn new(width: usize, height: usize, fill: T) -> (img: Image<T>)
        requires
            width * height <= usize::MAX,
        ensures
            img.wf(),
            img.spec_width() == width,
            img.spec_height() == height,
            img@.len() == width * height,
            forall|k: int| 0 <= k < img@.len() ==> img@[k] == fill,
    {
        let total: usize = width * height;
        let mut data: Vec<T> = Vec::new();
        let mut k: usize = 0;
        while k < total
            invariant
                k <= total,
                data@.len() == k,
                forall|j: int| 0 <= j < k ==> data@[j] == fill,
            decreases total - k,
        {
            data.push(fill);
            k = k + 1;
        }
        Image { width, height, data }
    }

    /// Grid width in pixels.
    pub fn width(&self) -> (w: usize)
        ensures
            w == self.spec_width(),
    {
        self.width
    }

    /// Grid height in pixels.
    pub fn height(&self) -> (h: usize)
        ensures
            h == self.spec_height(),
    {
        self.height
    }

    /// The pixel at `(x, y)`, or `CoordinateOutOfBounds` when the
    /// coordinate lies outside the grid.
    pub fn get(&self, x: usize, y: usize) -> (r: Result<T, DrawError>)
        requires
            self.wf(),
        ensures
            x < self.spec_width() && y < self.spec_height() ==> r == Result::<T, DrawError>::Ok(
                self@[pix_index(self.spec_width(), x as int, y as int)],
            ),
            !(x < self.spec_width() && y < self.spec_height()) ==> r == Result::<
                T,
                DrawError,
            >::Err(DrawError::CoordinateOutOfBounds),
    {
        let _len: usize = self.data.len();
        if x < self.width && y < self.height {
            proof {
                lemma_pix_index_bounds(self.spec_width(), self.spec_height(), x as int, y as int);
                assert(y * self.width + x <= (self.height - 1) * self.width + (self.width - 1))
                    by (nonlinear_arith)
                    requires
                        x < self.width,
                        y < self.height,
                ;
            }
            Ok(self.data[y * self.width + x])
        } else {
            Err(DrawError::CoordinateOutOfBounds)
        }
    }

    /// Writes the pixel at `(x, y)`, or fails with
    /// `CoordinateOutOfBounds`, leaving the buffer unchanged, when the
    /// coordinate lies outside the grid.
    pub fn set(&mut self, x: usize, y: usize, v: T) -> (r: Result<(), DrawError>)
        requires
            old(self).wf(),
        ensures
            final (self).wf(),
            final (self).spec_width() == old(self).spec_width(),
            final (self).spec_height() == old(self).spec_height(),
            x < old(self).spec_width() && y < old(self).spec_height() ==> r == Result::<
                (),
                DrawError,
            >::Ok(()) && final (self)@ =~= old(self)@.update(
                pix_index(old(self).spec_width(), x as int, y as int),
                v,
            ),
            !(x < old(self).spec_width() && y < old(self).spec_height()) ==> r == Result::<
                (),
                DrawError,
            >::Err(DrawError::CoordinateOutOfBounds) && final (self)@ =~= old(self)@,
    {
        let _len: usize = self.data.len();
        if x < self.width && y < self.height {
            proof {
                lemma_pix_index_bounds(self.spec_width(), self.spec_height(), x as int, y as int);
                assert(y * self.width + x <= (self.height - 1) * self.width + (self.width - 1))
                    by (nonlinear_arith)
                    requires
                        x < self.width,
                        y < self.height,
                ;
            }
            self.data.set(y * self.width + x, v);
            Ok(())
        } else {
            Err(DrawError::CoordinateOutOfBounds)
        }
    }
}

/// Every stored depth of the buffer view is a well-formed rational.
pub open spec fn zb_wf(s: Seq<Option<RatV>>) -> bool {
    forall|i: int|
        0 <= i < s.len() ==> match #[trigger] s[i] {
            Option::Some(c) => rat_wf(c),
            Option::None => true,
        }
}

/// A per-pixel store of the nearest depth drawn so far. `None` is the
/// initial value of every cell and loses to every candidate.
#[derive(Debug)]
pub struct DepthBuffer {
    width: usize,
    height: usize,
    data: Vec<Option<Rat>>,
}

impl View for DepthBuffer {
    type V = Seq<Option<RatV>>;

    closed spec fn view(&self) -> Seq<Option<RatV>> {
        self.data@.map_values(
            |o: Option<Rat>|
                match o {
                    Option::Some(r) => Option::Some(r@),
                    Option::None => Option::<RatV>::None,
                },
        )
    }
}

impl DepthBuffer {
    /// Grid width in pixels.
    pub closed spec fn spec_width(&self) -> int {
        self.width as int
    }

    /// Grid height in pixels.
    pub closed spec fn spec_height(&self) -> int {
        self.height as int
    }

    /// Well-formed: one cell per grid cell.
    pub open spec fn wf(&self) -> bool {
        self@.len() == self.spec_width() * self.spec_height()
    }

    /// A buffer of the given size with every cell at the initial,
    /// smallest possible depth.
    pub fn new(width: usize, height: usize) -> (b: DepthBuffer)
        requires
            width * height <= usize::MAX,
        ensures
            b.wf(),
            b.spec_width() == width,
            b.spec_height() == height,
            b@.len() == width * height,
            forall|k: int| 0 <= k < b@.len() ==> b@[k] is None,
    {
        let total: usize = width * height;
        let mut data: Vec<Option<Rat>> = Vec::new();
        let mut k: usize = 0;
        while k < total
            invariant
                k <= total,
                data@.len() == k,
                forall|j: int| 0 <= j < k ==> data@[j] is None,
            decreases total - k,
        {
            data.push(None);
            k = k + 1;
        }
        DepthBuffer { width, height, data }
    }

    /// Grid width in pixels.
    pub fn width(&self) -> (w: usize)
        ensures
            w == self.spec_width(),
    {
        self.width
    }

    /// Grid height in pixels.
    pub fn height(&self) -> (h: usize)
        ensures
            h == self.spec_height(),
    {
        self.height
    }

    /// The stored depth at `(x, y)`; the coordinate must be inside the
    /// grid.
    pub fn get(&self, x: usize, y: usize) -> (r: Option<Rat>)
        requires
            self.wf(),
            x < self.spec_width(),
            y < self.spec_height(),
        ensures
            r is Some <==> self@[pix_index(self.spec_width(), x as int, y as int)] is Some,
            r matches Some(v) ==> self@[pix_index(self.spec_width(), x as int, y as int)]
                == Some(v@),
    {
        let _len: usize = self.data.len();
        proof {
            lemma_pix_index_bounds(self.spec_width(), self.spec_height(), x as int, y as int);
            assert(y * self.width + x <= (self.height - 1) * self.width + (self.width - 1))
                by (nonlinear_arith)
                requires
                    x < self.width,
                    y < self.height,
            ;
        }
        self.data[y * self.width + x]
    }

    /// Replaces the stored depth at `(x, y)`; the coordinate must be
    /// inside the grid.
    pub fn set(&mut self, x: usize, y: usize, v: Rat)
        requires
            old(self).wf(),
            x < old(self).spec_width(),
            y < old(self).spec_height(),
        ensures
            final (self).wf(),
            final (self).spec_width() == old(self).spec_width(),
            final (self).spec_height() == old(self).spec_height(),
            final (self)@ =~= old(self)@.update(
                pix_index(old(self).spec_width(), x as int, y as int),
                Some(v@),
            ),
    {
        let _len: usize = self.data.len();
        proof {
            lemma_pix_index_bounds(self.spec_width(), self.spec_height(), x as int, y as int);
            assert(y * self.width + x <= (self.height - 1) * self.width + (self.width - 1))
                by (nonlinear_arith)
                requires
                    x < self.width,
                    y < self.height,
            ;
        }
        self.data.set(y * self.width + x, Some(v));
    }
}

} // verus!
