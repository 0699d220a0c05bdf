//! RGB pixels and the per-pixel difference metric.

use vstd::prelude::*;

verus! {

/// A 3-channel (red, green, blue) unsigned byte color sample. No alpha.
#[derive(Clone, Copy, PartialEq, Eq, Structural, Debug)]
pub struct Pixel {
    pub r: u8,
    pub g: u8,
    pub b: u8,
}

impl Pixel {
    /// The all-zero color that the working buffer starts from.
    pub fn black() -> (p: Pixel)
        ensures
            p == (Pixel { r: 0, g: 0, b: 0 }),
    {
        Pixel { r: 0, g: 0, b: 0 }
    }
}

/// Absolute difference of two channel values, as a mathematical integer.
pub open spec fn channel_diff(c1: u8, c2: u8) -> int {
    if c1 >= c2 {
        c1 - c2
    } else {
        c2 - c1
    }
}

/// The L1 difference between two pixels: the sum of the absolute differences
/// of the three channels. Always in `[0, 765]`.
pub open spec fn pixel_diff(p1: Pixel, p2: Pixel) -> int {
    channel_diff(p1.r, p2.r) + channel_diff(p1.g, p2.g) + channel_diff(p1.b, p2.b)
}

/// The difference between two pixels as a single value.
pub fn pixel_difference(pixel1: Pixel, pixel2: Pixel) -> (d: u64)
    ensures
        d == pixel_diff(pixel1, pixel2),
        d <= 765,
{
    let dr: u64 = if pixel1.r >= pixel2.r {
        (pixel1.r - pixel2.r) as u64
    } else {
        (pixel2.r - pixel1.r) as u64
    };
    let dg: u64 = if pixel1.g >= pixel2.g {
        (pixel1.g - pixel2.g) as u64
    } else {
        (pixel2.g - pixel1.g) as u64
    };
    let db: u64 = if pixel1.b >= pixel2.b {
        (pixel1.b - pixel2.b) as u64
    } else {
        (pixel2.b - pixel1.b) as u64
    };
    dr + dg + db
}

/// A pixel differs from itself by nothing, and every difference is bounded:
/// `0 <= pixel_diff(p1, p2) <= 765`, and `pixel_diff(p, p) == 0`.
pub proof fn lemma_pixel_diff_bounds(p1: Pixel, p2: Pixel)
    ensures
        0 <= pixel_diff(p1, p2) <= 765,
        p1 == p2 ==> pixel_diff(p1, p2) == 0,
{
}

} // verus!
