//! The pixel buffer: a fixed-size rectangular grid of RGB samples.
//!
//! A buffer is stored column-major: the sample at `(x, y)` sits at index
//! `x * height + y` of the backing vector. In specifications a buffer is
//! abstracted as a [`BufferView`], a mathematical record of its dimensions
//! and its samples.

use vstd::prelude::*;

use crate::pixel::Pixel;

verus! {

/// The one fatal error of the library: a zero-area buffer was supplied.
#[derive(Clone, Copy, PartialEq, Eq, Structural, Debug)]
pub enum AnnealError {
    InvalidDimensions,
}

/// The mathematical abstraction of a [`PixelBuffer`]: its dimensions and the
/// sequence of its samples in column-major order.
pub struct BufferView {
    pub width: int,
    pub height: int,
    pub grid: Seq<Pixel>,
}

impl BufferView {
    /// A view is well formed when it has nonzero area, one sample per cell,
    /// and an area small enough that the sum of all per-pixel differences
    /// (at most 765 per pixel) fits in a `u64`.
    pub open spec fn wf(self) -> bool {
        &&& self.width >= 1
        &&& self.height >= 1
        &&& self.grid.len() == self.width * self.height
        &&& self.width * self.height <= usize::MAX
        &&& self.width * self.height * 765 <= u64::MAX
    }

    /// Whether `(x, y)` lies on the canvas.
    pub open spec fn in_bounds(self, x: int, y: int) -> bool {
        0 <= x < self.width && 0 <= y < self.height
    }

    /// The sample at `(x, y)`.
    pub open spec fn pix(self, x: int, y: int) -> Pixel {
        self.grid[x * self.height + y]
    }

    /// The view after overwriting the sample at `(x, y)` with `c`.
    pub open spec fn set_pix(self, x: int, y: int, c: Pixel) -> BufferView {
        BufferView { grid: self.grid.update(x * self.height + y, c), ..self }
    }

    /// Whether both views have the same dimensions.
    pub open spec fn same_dims(self, other: BufferView) -> bool {
        self.width == other.width && self.height == other.height
    }
}

/// A cell's flat index stays inside the grid.
pub proof fn lemma_index_in_range(x: int, y: int, w: int, h: int)
    requires
        0 <= x < w,
        0 <= y < h,
    ensures
        0 <= x * h + y < w * h,
    decreases w,
{
    assert(0 <= x * h + y < w * h) by (nonlinear_arith)
        requires
            0 <= x < w,
            0 <= y < h,
    ;
}

/// Distinct cells have distinct flat indices.
pub proof fn lemma_index_injective(x1: int, y1: int, x2: int, y2: int, h: int)
    requires
        0 <= y1 < h,
        0 <= y2 < h,
        0 <= x1,
        0 <= x2,
        x1 * h + y1 == x2 * h + y2,
    ensures
        x1 == x2 && y1 == y2,
{
    assert(x1 == x2 && y1 == y2) by (nonlinear_arith)
        requires
            0 <= y1 < h,
            0 <= y2 < h,
            0 <= x1,
            0 <= x2,
            x1 * h + y1 == x2 * h + y2,
    ;
}

/// Overwriting one cell changes that cell and nothing else.
pub proof fn lemma_set_pix(v: BufferView, x: int, y: int, c: Pixel)
    requires
        v.wf(),
        v.in_bounds(x, y),
    ensures
        v.set_pix(x, y, c).wf(),
        v.set_pix(x, y, c).same_dims(v),
        v.set_pix(x, y, c).pix(x, y) == c,
        forall|x2: int, y2: int|
            v.in_bounds(x2, y2) && (x2 != x || y2 != y) ==> v.set_pix(x, y, c).pix(x2, y2) == v.pix(
                x2,
                y2,
            ),
{
    lemma_index_in_range(x, y, v.width, v.height);
    assert forall|x2: int, y2: int|
        v.in_bounds(x2, y2) && (x2 != x || y2 != y) implies v.set_pix(x, y, c).pix(x2, y2) == v.pix(
        x2,
        y2,
    ) by {
        lemma_index_in_range(x2, y2, v.width, v.height);
        if x2 * v.height + y2 == x * v.height + y {
            lemma_index_injective(x2, y2, x, y, v.height);
        }
    }
}

/// A rectangular grid of [`Pixel`]s with fixed dimensions.
#[derive(Debug)]
pub struct PixelBuffer {
    pub width: usize,
    pub height: usize,
    pub data: Vec<Pixel>,
}

impl View for PixelBuffer {
    type V = BufferView;

    open spec fn view(&self) -> BufferView {
        BufferView { width: self.width as int, height: self.height as int, grid: self.data@ }
    }
}

impl PixelBuffer {
    /// Creates an all-black buffer of the given dimensions, or reports
    /// `InvalidDimensions` exactly when the requested area is zero.
    pub fn new(width: usize, height: usize) -> (r: Result<PixelBuffer, AnnealError>)
        requires
            width * height <= usize::MAX,
            width * height * 765 <= u64::MAX,
        ensures
            r is Ok <==> (width >= 1 && height >= 1),
            r is Err ==> r == Result::<PixelBuffer, AnnealError>::Err(
                AnnealError::InvalidDimensions,
            ),
            r matches Ok(b) ==> {
                &&& b@.wf()
                &&& b@.width == width
                &&& b@.height == height
                &&& forall|x: int, y: int|
                    b@.in_bounds(x, y) ==> b@.pix(x, y) == (Pixel { r: 0, g: 0, b: 0 })
            },
    {
        if width == 0 || height == 0 {
            return Err(AnnealError::InvalidDimensions);
        }
        let mut data: Vec<Pixel> = Vec::new();
        let mut x: usize = 0;
        while x < width
            invariant
                x <= width,
                width >= 1,
                height >= 1,
                width * height <= usize::MAX,
                data.len() == x * height,
                forall|i: int| 0 <= i < data.len() ==> data@[i] == (Pixel { r: 0, g: 0, b: 0 }),
            decreases width - x,
        {
            let mut y: usize = 0;
            while y < height
                invariant
                    x < width,
                    y <= height,
                    width >= 1,
                    height >= 1,
                    width * height <= usize::MAX,
                    data.len() == x * height + y,
                    forall|i: int| 0 <= i < data.len() ==> data@[i] == (Pixel { r: 0, g: 0, b: 0 }),
                decreases height - y,
            {
                data.push(Pixel { r: 0, g: 0, b: 0 });
                y = y + 1;
            }
            x = x + 1;
            assert(data.len() == x * height) by (nonlinear_arith)
                requires
                    data.len() == (x - 1) * height + height,
            ;
        }
        let buf = PixelBuffer { width, height, data };
        proof {
            assert forall|x2: int, y2: int| buf@.in_bounds(x2, y2) implies buf@.pix(x2, y2) == (Pixel {
                r: 0,
                g: 0,
                b: 0,
            }) by {
                lemma_index_in_range(x2, y2, buf@.width, buf@.height);
            }
        }
        Ok(buf)
    }

    /// The sample at `(x, y)`.
    pub fn get(&self, x: usize, y: usize) -> (p: Pixel)
        requires
            self@.wf(),
            self@.in_bounds(x as int, y as int),
        ensures
            p == self@.pix(x as int, y as int),
    {
        proof {
            lemma_index_in_range(x as int, y as int, self@.width, self@.height);
            assert(x * self.height + y == (x as int) * (self@.height) + y as int)
                by (nonlinear_arith)
                requires
                    x < self.width,
                    y < self.height,
                    self@.width * self@.height <= usize::MAX,
                    self@.width == self.width,
                    self@.height == self.height,
            ;
        }
        self.data[x * self.height + y]
    }

    /// Overwrites the sample at `(x, y)`.
    pub fn set(&mut self, x: usize, y: usize, p: Pixel)
        requires
            old(self)@.wf(),
            old(self)@.in_bounds(x as int, y as int),
        ensures
            final(self)@ == old(self)@.set_pix(x as int, y as int, p),
            final(self)@.wf(),
    {
        proof {
            lemma_index_in_range(x as int, y as int, self@.width, self@.height);
            assert(x * self.height + y == (x as int) * (self@.height) + y as int)
                by (nonlinear_arith)
                requires
                    x < self.width,
                    y < self.height,
                    self@.width * self@.height <= usize::MAX,
                    self@.width == self.width,
                    self@.height == self.height,
            ;
        }
        let i: usize = x * self.height + y;
        self.data.set(i, p);
    }

    /// The width of the canvas.
    pub fn width(&self) -> (w: usize)
        ensures
            w == self@.width,
    {
        self.width
    }

    /// The height of the canvas.
    pub fn height(&self) -> (h: usize)
        ensures
            h == self@.height,
    {
        self.height
    }
}

} // verus!
