//! The candidate generator: one random shape proposal, bounded by the
//! canvas, paired with a random color.

use vstd::prelude::*;

use crate::buffer::PixelBuffer;
use crate::cost::Coord;
use crate::pixel::Pixel;
use crate::raster::get_rectangle;
use crate::raster::get_triangle;
use crate::raster::max3;
use crate::raster::rect_coords;
use crate::raster::tri_coords;
use crate::raster::MAX_DIM;

verus! {

/// Relies on rand::random: one uniformly drawn value of the requested type.
/// Nothing can be promised of which value comes back.
pub assume_specification<T>[ rand::random::<T> ]() -> (r: T)
    where
        rand::distr::StandardUniform: rand::distr::Distribution<T>,
;

/// A random color: each channel drawn independently from the full byte
/// range.
pub fn random_color() -> Pixel {
    let r: u8 = rand::random();
    let g: u8 = rand::random();
    let b: u8 = rand::random();
    Pixel { r, g, b }
}

/// Whether three triangle vertices are accepted by the generator: on the
/// canvas, no two coincident, and not all sharing one column or one row.
/// The shared-column/shared-row test is only an approximation of
/// collinearity and deliberately does not catch all collinear triples.
pub open spec fn triangle_ok(a: Coord, b: Coord, c: Coord, w: int, h: int) -> bool {
    &&& a.0 < w && a.1 < h
    &&& b.0 < w && b.1 < h
    &&& c.0 < w && c.1 < h
    &&& a != b && b != c && a != c
    &&& !(a.0 == b.0 && b.0 == c.0)
    &&& !(a.1 == b.1 && b.1 == c.1)
}

/// The coordinates and the color for one random candidate: a rectangle, or
/// a triangle when `triangle` is set. Every returned coordinate is on the
/// canvas, no coordinate repeats, and the coordinates are exactly the
/// rasterization of one shape of the requested kind.
pub fn get_neighbor(image: &PixelBuffer, triangle: bool) -> (r: (Vec<Coord>, Pixel))
    requires
        image@.wf(),
        image@.width <= MAX_DIM,
        image@.height <= MAX_DIM,
        triangle ==> image@.width >= 2 && image@.height >= 2,
    ensures
        forall|t: int|
            0 <= t < r.0@.len() ==> (#[trigger] r.0@[t]).0 < image@.width && r.0@[t].1
                < image@.height,
        r.0@.no_duplicates(),
        r.0@.len() >= 1,
        !triangle ==> exists|tl: Coord, br: Coord|
            tl.0 < br.0 <= image@.width && tl.1 < br.1 <= image@.height
                && #[trigger] rect_coords(tl, br) == r.0@,
        triangle ==> exists|a: Coord, b: Coord, c: Coord|
            triangle_ok(a, b, c, image@.width, image@.height) && #[trigger] tri_coords(a, b, c)
                == r.0@,
{
    let w: usize = image.width();
    let h: usize = image.height();
    if !triangle {
        let rx: u64 = rand::random();
        let ry: u64 = rand::random();
        let bottom_right: Coord = (
            1 + ((rx % (w as u64)) as usize),
            1 + ((ry % (h as u64)) as usize),
        );
        let tx: u64 = rand::random();
        let ty: u64 = rand::random();
        let top_left: Coord = (
            (tx % (bottom_right.0 as u64)) as usize,
            (ty % (bottom_right.1 as u64)) as usize,
        );
        let coords = get_rectangle(top_left, bottom_right);
        let color = random_color();
        proof {
            assert(rect_coords(top_left, bottom_right) == coords@);
            assert(coords@.len() >= 1) by (nonlinear_arith)
                requires
                    coords@.len() == (bottom_right.0 - top_left.0) * (bottom_right.1
                        - top_left.1),
                    bottom_right.0 - top_left.0 >= 1,
                    bottom_right.1 - top_left.1 >= 1,
            ;
        }
        (coords, color)
    } else {
        // a canvas of at least 2 x 2 cells always admits this triangle, so
        // the bounded resampling below can fall back on it
        let mut v1: Coord = (0, 0);
        let mut v2: Coord = (w - 1, 0);
        let mut v3: Coord = (0, h - 1);
        let mut found = false;
        let mut tries: usize = 0;
        // resample rejected degenerate draws; the draw bound keeps the
        // loop provably terminating, and the fallback triangle stands in
        // for the vanishingly unlikely case that every draw was degenerate
        while tries < 64 && !found
            invariant
                w == image@.width,
                h == image@.height,
                2 <= w <= MAX_DIM,
                2 <= h <= MAX_DIM,
                triangle_ok(v1, v2, v3, w as int, h as int),
            decreases 64 - tries,
        {
            let ax: u64 = rand::random();
            let ay: u64 = rand::random();
            let bx: u64 = rand::random();
            let by: u64 = rand::random();
            let cx: u64 = rand::random();
            let cy: u64 = rand::random();
            let a: Coord = ((ax % (w as u64)) as usize, (ay % (h as u64)) as usize);
            let b: Coord = ((bx % (w as u64)) as usize, (by % (h as u64)) as usize);
            let c: Coord = ((cx % (w as u64)) as usize, (cy % (h as u64)) as usize);
            let coincident = (a.0 == b.0 && a.1 == b.1) || (b.0 == c.0 && b.1 == c.1) || (a.0
                == c.0 && a.1 == c.1);
            let shared_column = a.0 == b.0 && b.0 == c.0;
            let shared_row = a.1 == b.1 && b.1 == c.1;
            if !coincident && !shared_column && !shared_row {
                v1 = a;
                v2 = b;
                v3 = c;
                found = true;
            }
            tries = tries + 1;
        }
        let coords = get_triangle([v1, v2, v3]);
        let color = random_color();
        proof {
            assert(tri_coords(v1, v2, v3) == coords@);
            crate::raster::lemma_triangle_count_bounds(v1, v2, v3);
            assert(forall|t: int|
                0 <= t < coords@.len() ==> (#[trigger] coords@[t]).0 <= max3(
                    v1.0 as int,
                    v2.0 as int,
                    v3.0 as int,
                ) && coords@[t].1 <= max3(v1.1 as int, v2.1 as int, v3.1 as int));
        }
        (coords, color)
    }
}

} // verus!
