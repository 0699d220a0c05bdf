//! The cost evaluator: the dissimilarity between two equally-sized buffers.
//!
//! The dissimilarity is the integer sum, over every cell, of the L1 pixel
//! difference between the two buffers. The pseudo-RMSE presentation
//! `sqrt(s * s / (w * h * 3))` used for display and for the Metropolis
//! criterion is a strictly monotone scaling of this sum `s`, so the library
//! computes, updates and compares `s` itself: the full scan ([`get_cost`])
//! and the incremental update ([`update_cost`]) then agree exactly, not just
//! up to floating-point rounding.

use vstd::prelude::*;

use rayon::iter::IntoParallelRefIterator;
use rayon::iter::ParallelIterator;

use crate::buffer::lemma_index_in_range;
use crate::buffer::BufferView;
use crate::buffer::PixelBuffer;
use crate::pixel::pixel_diff;
use crate::pixel::pixel_difference;
use crate::pixel::Pixel;

verus! {

/// A canvas coordinate: column first, row second.
pub type Coord = (usize, usize);

/// Sum of the pixel differences in column `x`, over rows `0 .. rows`.
pub open spec fn col_diff_sum(a: BufferView, b: BufferView, x: int, rows: int) -> int
    decreases rows,
{
    if rows <= 0 {
        0
    } else {
        col_diff_sum(a, b, x, rows - 1) + pixel_diff(a.pix(x, rows - 1), b.pix(x, rows - 1))
    }
}

/// Sum of the pixel differences over columns `0 .. cols`, each of full height.
pub open spec fn grid_diff_sum(a: BufferView, b: BufferView, cols: int) -> int
    decreases cols,
{
    if cols <= 0 {
        0
    } else {
        grid_diff_sum(a, b, cols - 1) + col_diff_sum(a, b, cols - 1, a.height)
    }
}

/// The cost sum of two equally-sized buffers: the sum, over every cell of the
/// canvas, of the L1 difference of the two samples there.
pub open spec fn cost_sum(a: BufferView, b: BufferView) -> int {
    grid_diff_sum(a, b, a.width)
}

proof fn lemma_col_diff_sum_bounds(a: BufferView, b: BufferView, x: int, rows: int)
    requires
        rows >= 0,
    ensures
        0 <= col_diff_sum(a, b, x, rows) <= rows * 765,
    decreases rows,
{
    if rows > 0 {
        lemma_col_diff_sum_bounds(a, b, x, rows - 1);
    }
}

proof fn lemma_grid_diff_sum_bounds(a: BufferView, b: BufferView, cols: int)
    requires
        cols >= 0,
        a.height >= 0,
    ensures
        0 <= grid_diff_sum(a, b, cols) <= cols * a.height * 765,
    decreases cols,
{
    if cols > 0 {
        lemma_grid_diff_sum_bounds(a, b, cols - 1);
        lemma_col_diff_sum_bounds(a, b, cols - 1, a.height);
        assert((cols - 1) * a.height * 765 + a.height * 765 == cols * a.height * 765)
            by (nonlinear_arith);
    }
}

/// The cost sum is never negative, and never exceeds 765 per cell.
pub proof fn lemma_cost_sum_bounds(a: BufferView, b: BufferView)
    requires
        a.wf(),
    ensures
        0 <= cost_sum(a, b) <= a.width * a.height * 765,
{
    lemma_grid_diff_sum_bounds(a, b, a.width);
}

proof fn lemma_col_diff_sum_self(a: BufferView, x: int, rows: int)
    ensures
        col_diff_sum(a, a, x, rows) == 0,
    decreases rows,
{
    if rows > 0 {
        lemma_col_diff_sum_self(a, x, rows - 1);
    }
}

/// A buffer differs from itself by nothing: `cost_sum(a, a) == 0`.
pub proof fn lemma_cost_sum_self_zero(a: BufferView)
    ensures
        cost_sum(a, a) == 0,
{
    lemma_grid_diff_sum_self(a, a.width);
}

proof fn lemma_grid_diff_sum_self(a: BufferView, cols: int)
    ensures
        grid_diff_sum(a, a, cols) == 0,
    decreases cols,
{
    if cols > 0 {
        lemma_grid_diff_sum_self(a, cols - 1);
        lemma_col_diff_sum_self(a, cols - 1, a.height);
    }
}

/// Full evaluation of the cost sum between the reference buffer and a
/// candidate buffer, by scanning every cell once.
pub fn get_cost(original_image: &PixelBuffer, generated_image: &PixelBuffer) -> (s: u64)
    requires
        original_image@.wf(),
        generated_image@.wf(),
        original_image@.same_dims(generated_image@),
    ensures
        s == cost_sum(original_image@, generated_image@),
        s <= original_image@.width * original_image@.height * 765,
{
    let ghost a = original_image@;
    let ghost b = generated_image@;
    let w: usize = original_image.width();
    let h: usize = original_image.height();
    let mut s: u64 = 0;
    let mut x: usize = 0;
    proof {
        lemma_grid_diff_sum_bounds(a, b, a.width);
    }
    while x < w
        invariant
            x <= w,
            a.wf(),
            b.wf(),
            a.same_dims(b),
            w == a.width,
            h == a.height,
            a == original_image@,
            b == generated_image@,
            s == grid_diff_sum(a, b, x as int),
            s <= (x as int) * (h as int) * 765,
        decreases w - x,
    {
        let mut y: usize = 0;
        while y < h
            invariant
                x < w,
                y <= h,
                a.wf(),
                b.wf(),
                a.same_dims(b),
                w == a.width,
                h == a.height,
                a == original_image@,
                b == generated_image@,
                s == grid_diff_sum(a, b, x as int) + col_diff_sum(a, b, x as int, y as int),
                s <= (x as int) * (h as int) * 765 + (y as int) * 765,
            decreases h - y,
        {
            let pixel1 = original_image.get(x, y);
            let pixel2 = generated_image.get(x, y);
            let d = pixel_difference(pixel1, pixel2);
            proof {
                lemma_index_in_range(x as int, y as int, a.width, a.height);
                assert((x as int) * (h as int) * 765 + (y as int) * 765 + 765 <= (a.width)
                    * (a.height) * 765) by (nonlinear_arith)
                    requires
                        0 <= (x as int) * a.height + (y as int) < a.width * a.height,
                        h == a.height,
                        a.height >= 1,
                ;
            }
            s = s + d;
            y = y + 1;
        }
        proof {
            assert((x as int + 1) * (h as int) * 765 == (x as int) * (h as int) * 765 + (h as int)
                * 765) by (nonlinear_arith);
        }
        x = x + 1;
    }
    s
}

/// Whether every coordinate of the sequence lies on the canvas of `v`.
pub open spec fn coords_in_bounds(v: BufferView, coords: Seq<Coord>) -> bool {
    forall|i: int|
        0 <= i < coords.len() ==> v.in_bounds(#[trigger] coords[i].0 as int, coords[i].1 as int)
}

/// Sum of the pixel differences between `a` and `b` at the listed
/// coordinates, with multiplicity.
pub open spec fn coords_diff_sum(a: BufferView, b: BufferView, coords: Seq<Coord>) -> int
    decreases coords.len(),
{
    if coords.len() == 0 {
        0
    } else {
        coords_diff_sum(a, b, coords.drop_last()) + pixel_diff(
            a.pix(coords.last().0 as int, coords.last().1 as int),
            b.pix(coords.last().0 as int, coords.last().1 as int),
        )
    }
}

/// Sum of the pixel differences between `a` and the single color `color` at
/// the listed coordinates, with multiplicity.
pub open spec fn coords_color_sum(a: BufferView, color: Pixel, coords: Seq<Coord>) -> int
    decreases coords.len(),
{
    if coords.len() == 0 {
        0
    } else {
        coords_color_sum(a, color, coords.drop_last()) + pixel_diff(
            a.pix(coords.last().0 as int, coords.last().1 as int),
            color,
        )
    }
}

/// The absolute value of a mathematical integer.
pub open spec fn abs_int(x: int) -> int {
    if x >= 0 {
        x
    } else {
        -x
    }
}

/// The `i`-th of `n` linearly spaced indices into a sequence of length `len`.
pub open spec fn sample_index(len: int, n: int, i: int) -> int {
    if n <= 1 {
        0
    } else {
        i * (len - 1) / (n - 1)
    }
}

/// The subsequence of `coords` picked out by `n` linearly spaced indices.
pub open spec fn sampled_coords(coords: Seq<Coord>, n: int) -> Seq<Coord> {
    Seq::new(n as nat, |i: int| coords[sample_index(coords.len() as int, n, i)])
}

/// The coordinates an update actually visits: all of them, or an evenly
/// spaced sample when `sample` asks for fewer than there are.
pub open spec fn touched_coords(coords: Seq<Coord>, sample: Option<u32>) -> Seq<Coord> {
    match sample {
        Option::None => coords,
        Option::Some(n) => if (n as int) < coords.len() {
            sampled_coords(coords, n as int)
        } else {
            coords
        },
    }
}

/// The incremental update of a previous cost sum: subtract the differences
/// against the colors the touched coordinates held, add the differences
/// against the new color. The final magnitude mirrors recovering the sum
/// from the pseudo-RMSE presentation, which forgets the sign.
pub open spec fn updated_sum(
    previous: int,
    a: BufferView,
    b: BufferView,
    coords: Seq<Coord>,
    new_color: Pixel,
    sample: Option<u32>,
) -> int {
    let t = touched_coords(coords, sample);
    abs_int(previous - coords_diff_sum(a, b, t) + coords_color_sum(a, new_color, t))
}

/// The per-coordinate difference sum is nonnegative and at most 765 per
/// coordinate.
pub proof fn lemma_coords_diff_sum_bounds(a: BufferView, b: BufferView, coords: Seq<Coord>)
    ensures
        0 <= coords_diff_sum(a, b, coords) <= coords.len() * 765,
    decreases coords.len(),
{
    if coords.len() > 0 {
        lemma_coords_diff_sum_bounds(a, b, coords.drop_last());
    }
}

/// The per-coordinate color sum is nonnegative and at most 765 per
/// coordinate.
pub proof fn lemma_coords_color_sum_bounds(a: BufferView, color: Pixel, coords: Seq<Coord>)
    ensures
        0 <= coords_color_sum(a, color, coords) <= coords.len() * 765,
    decreases coords.len(),
{
    if coords.len() > 0 {
        lemma_coords_color_sum_bounds(a, color, coords.drop_last());
    }
}

/// Sum of a sequence of machine words, as a mathematical integer.
pub open spec fn u64_seq_sum(s: Seq<u64>) -> int
    decreases s.len(),
{
    if s.len() == 0 {
        0
    } else {
        u64_seq_sum(s.drop_last()) + s.last()
    }
}

proof fn lemma_u64_seq_sum_matches_diff(
    a: BufferView,
    b: BufferView,
    coords: Seq<Coord>,
    v: Seq<u64>,
)
    requires
        v.len() == coords.len(),
        forall|i: int|
            0 <= i < v.len() ==> #[trigger] v[i] == pixel_diff(
                a.pix(coords[i].0 as int, coords[i].1 as int),
                b.pix(coords[i].0 as int, coords[i].1 as int),
            ),
    ensures
        u64_seq_sum(v) == coords_diff_sum(a, b, coords),
    decreases v.len(),
{
    if v.len() > 0 {
        lemma_u64_seq_sum_matches_diff(a, b, coords.drop_last(), v.drop_last());
    }
}

proof fn lemma_u64_seq_sum_matches_color(
    a: BufferView,
    color: Pixel,
    coords: Seq<Coord>,
    v: Seq<u64>,
)
    requires
        v.len() == coords.len(),
        forall|i: int|
            0 <= i < v.len() ==> #[trigger] v[i] == pixel_diff(
                a.pix(coords[i].0 as int, coords[i].1 as int),
                color,
            ),
    ensures
        u64_seq_sum(v) == coords_color_sum(a, color, coords),
    decreases v.len(),
{
    if v.len() > 0 {
        lemma_u64_seq_sum_matches_color(a, color, coords.drop_last(), v.drop_last());
    }
}

/// Relies on rayon's `par_iter().map(..).collect::<Vec<_>>()`: collecting an
/// indexed parallel map yields one result per input element, in input order.
/// The closure itself only calls this library's verified `get` and
/// `pixel_difference`, whose contracts give each element's value.
#[verifier::external_body]
fn par_pixel_diffs(
    original: &PixelBuffer,
    annealed: &PixelBuffer,
    coords: &Vec<Coord>,
) -> (r: Vec<u64>)
    requires
        original@.wf(),
        annealed@.wf(),
        original@.same_dims(annealed@),
        coords_in_bounds(original@, coords@),
    ensures
        r@.len() == coords@.len(),
        forall|i: int|
            0 <= i < coords@.len() ==> #[trigger] r@[i] == pixel_diff(
                original@.pix(coords@[i].0 as int, coords@[i].1 as int),
                annealed@.pix(coords@[i].0 as int, coords@[i].1 as int),
            ),
{
    coords.par_iter().map(
        |c: &(usize, usize)| pixel_difference(original.get(c.0, c.1), annealed.get(c.0, c.1)),
    ).collect()
}

/// Relies on rayon's `par_iter().map(..).collect::<Vec<_>>()`: collecting an
/// indexed parallel map yields one result per input element, in input order.
/// The closure itself only calls this library's verified `get` and
/// `pixel_difference`, whose contracts give each element's value.
#[verifier::external_body]
fn par_color_diffs(original: &PixelBuffer, coords: &Vec<Coord>, new_color: Pixel) -> (r: Vec<u64>)
    requires
        original@.wf(),
        coords_in_bounds(original@, coords@),
    ensures
        r@.len() == coords@.len(),
        forall|i: int|
            0 <= i < coords@.len() ==> #[trigger] r@[i] == pixel_diff(
                original@.pix(coords@[i].0 as int, coords@[i].1 as int),
                new_color,
            ),
{
    coords.par_iter().map(|c: &(usize, usize)| pixel_difference(original.get(c.0, c.1), new_color))
        .collect()
}

fn sum_u64(v: &Vec<u64>) -> (s: u64)
    requires
        forall|i: int| 0 <= i < v@.len() ==> #[trigger] v@[i] <= 765,
        v@.len() * 765 <= u64::MAX,
    ensures
        s == u64_seq_sum(v@),
{
    let mut s: u64 = 0;
    let mut i: usize = 0;
    while i < v.len()
        invariant
            i <= v@.len(),
            forall|k: int| 0 <= k < v@.len() ==> #[trigger] v@[k] <= 765,
            v@.len() * 765 <= u64::MAX,
            s == u64_seq_sum(v@.take(i as int)),
            s <= (i as int) * 765,
        decreases v@.len() - i,
    {
        proof {
            assert(v@.take(i as int + 1).drop_last() =~= v@.take(i as int));
            assert(v@.take(i as int + 1).last() == v@[i as int]);
            assert((i as int) * 765 + 765 == (i as int + 1) * 765) by (nonlinear_arith);
            assert((i as int + 1) * 765 <= v@.len() * 765) by (nonlinear_arith)
                requires
                    i as int + 1 <= v@.len(),
            ;
        }
        s = s + v[i];
        i = i + 1;
    }
    proof {
        assert(v@.take(v@.len() as int) =~= v@);
    }
    s
}

fn seq_sub_sum(original: &PixelBuffer, annealed: &PixelBuffer, coords: &Vec<Coord>) -> (s: u64)
    requires
        original@.wf(),
        annealed@.wf(),
        original@.same_dims(annealed@),
        coords_in_bounds(original@, coords@),
        coords@.len() * 765 <= u64::MAX,
    ensures
        s == coords_diff_sum(original@, annealed@, coords@),
{
    let ghost a = original@;
    let ghost b = annealed@;
    let mut s: u64 = 0;
    let mut i: usize = 0;
    while i < coords.len()
        invariant
            i <= coords@.len(),
            a == original@,
            b == annealed@,
            a.wf(),
            b.wf(),
            a.same_dims(b),
            coords_in_bounds(a, coords@),
            coords@.len() * 765 <= u64::MAX,
            s == coords_diff_sum(a, b, coords@.take(i as int)),
            s <= (i as int) * 765,
        decreases coords@.len() - i,
    {
        proof {
            assert(coords@.take(i as int + 1).drop_last() =~= coords@.take(i as int));
            assert(coords@.take(i as int + 1).last() == coords@[i as int]);
            assert((i as int) * 765 + 765 == (i as int + 1) * 765) by (nonlinear_arith);
            assert((i as int + 1) * 765 <= coords@.len() * 765) by (nonlinear_arith)
                requires
                    i as int + 1 <= coords@.len(),
            ;
        }
        let c = coords[i];
        let d = pixel_difference(original.get(c.0, c.1), annealed.get(c.0, c.1));
        s = s + d;
        i = i + 1;
    }
    proof {
        assert(coords@.take(coords@.len() as int) =~= coords@);
    }
    s
}

fn seq_add_sum(original: &PixelBuffer, coords: &Vec<Coord>, new_color: Pixel) -> (s: u64)
    requires
        original@.wf(),
        coords_in_bounds(original@, coords@),
        coords@.len() * 765 <= u64::MAX,
    ensures
        s == coords_color_sum(original@, new_color, coords@),
{
    let ghost a = original@;
    let mut s: u64 = 0;
    let mut i: usize = 0;
    while i < coords.len()
        invariant
            i <= coords@.len(),
            a == original@,
            a.wf(),
            coords_in_bounds(a, coords@),
            coords@.len() * 765 <= u64::MAX,
            s == coords_color_sum(a, new_color, coords@.take(i as int)),
            s <= (i as int) * 765,
        decreases coords@.len() - i,
    {
        proof {
            assert(coords@.take(i as int + 1).drop_last() =~= coords@.take(i as int));
            assert(coords@.take(i as int + 1).last() == coords@[i as int]);
            assert((i as int) * 765 + 765 == (i as int + 1) * 765) by (nonlinear_arith);
            assert((i as int + 1) * 765 <= coords@.len() * 765) by (nonlinear_arith)
                requires
                    i as int + 1 <= coords@.len(),
            ;
        }
        let c = coords[i];
        let d = pixel_difference(original.get(c.0, c.1), new_color);
        s = s + d;
        i = i + 1;
    }
    proof {
        assert(coords@.take(coords@.len() as int) =~= coords@);
    }
    s
}

/// Every linearly spaced sample index lies inside the sequence.
pub proof fn lemma_sample_index_range(len: int, n: int, i: int)
    requires
        len >= 1,
        n >= 1,
        0 <= i < n,
    ensures
        0 <= sample_index(len, n, i) < len,
{
    if n > 1 {
        vstd::arithmetic::mul::lemma_mul_nonnegative(i, len - 1);
        vstd::arithmetic::div_mod::lemma_div_pos_is_pos(i * (len - 1), n - 1);
        vstd::arithmetic::mul::lemma_mul_inequality(i, n - 1, len - 1);
        vstd::arithmetic::div_mod::lemma_div_is_ordered(
            i * (len - 1),
            (n - 1) * (len - 1),
            n - 1,
        );
        vstd::arithmetic::div_mod::lemma_div_multiples_vanish(len - 1, n - 1);
    }
}

fn gather_sampled(coords: &Vec<Coord>, n: u32) -> (out: Vec<Coord>)
    requires
        coords@.len() >= 1,
        n >= 1,
    ensures
        out@ == sampled_coords(coords@, n as int),
        out@.len() == n,
{
    let len: usize = coords.len();
    let mut out: Vec<Coord> = Vec::new();
    let mut i: u32 = 0;
    while i < n
        invariant
            i <= n,
            n >= 1,
            len == coords@.len(),
            len >= 1,
            out@ =~= sampled_coords(coords@, n as int).take(i as int),
        decreases n - i,
    {
        proof {
            lemma_sample_index_range(len as int, n as int, i as int);
        }
        let idx: usize = if n == 1 {
            0
        } else {
            proof {
                assert((i as int) * ((len - 1) as int) <= 0xffff_ffff * 0xffff_ffff_ffff_ffff)
                    by (nonlinear_arith)
                    requires
                        0 <= i as int <= 0xffff_ffff,
                        0 <= (len - 1) as int <= 0xffff_ffff_ffff_ffff,
                ;
            }
            let q: u128 = ((i as u128) * ((len - 1) as u128)) / ((n - 1) as u128);
            q as usize
        };
        proof {
            assert(idx == sample_index(len as int, n as int, i as int));
            assert(sampled_coords(coords@, n as int).take(i as int + 1) =~= sampled_coords(
                coords@,
                n as int,
            ).take(i as int).push(coords@[sample_index(len as int, n as int, i as int)]));
        }
        let c = coords[idx];
        out.push(c);
        i = i + 1;
    }
    proof {
        assert(sampled_coords(coords@, n as int).take(n as int) =~= sampled_coords(
            coords@,
            n as int,
        ));
    }
    out
}

/// The incremental cost update: a less expensive version of [`get_cost`].
///
/// Takes a previous cost sum, subtracts the pixel differences between the
/// reference buffer and the colors currently at the touched coordinates, adds
/// the pixel differences between the reference buffer and the new color, and
/// returns the magnitude of the result. An empty coordinate set is a no-op.
/// When `sample` asks for fewer coordinates than were touched, an evenly
/// spaced subset is visited instead, trading accuracy for speed.
pub fn update_cost(
    previous_sum: u64,
    original_image: &PixelBuffer,
    annealed_image: &PixelBuffer,
    coords: &Vec<Coord>,
    new_color: Pixel,
    sample: Option<u32>,
) -> (r: u64)
    requires
        original_image@.wf(),
        annealed_image@.wf(),
        original_image@.same_dims(annealed_image@),
        coords_in_bounds(original_image@, coords@),
        sample matches Some(n) ==> n >= 1,
        previous_sum + coords@.len() * 765 <= u64::MAX,
    ensures
        r == updated_sum(
            previous_sum as int,
            original_image@,
            annealed_image@,
            coords@,
            new_color,
            sample,
        ),
        coords@.len() == 0 ==> r == previous_sum,
{
    let ghost a = original_image@;
    let ghost b = annealed_image@;
    if coords.len() == 0 {
        return previous_sum;
    }
    let ghost t = touched_coords(coords@, sample);
    let (sub_total, add_total): (u64, u64) = match sample {
        None => {
            let diffs = par_pixel_diffs(original_image, annealed_image, coords);
            let adds = par_color_diffs(original_image, coords, new_color);
            proof {
                assert forall|i: int| 0 <= i < diffs@.len() implies #[trigger] diffs@[i]
                    <= 765 by {
                    crate::pixel::lemma_pixel_diff_bounds(
                        a.pix(coords@[i].0 as int, coords@[i].1 as int),
                        b.pix(coords@[i].0 as int, coords@[i].1 as int),
                    );
                }
                assert forall|i: int| 0 <= i < adds@.len() implies #[trigger] adds@[i] <= 765 by {
                    crate::pixel::lemma_pixel_diff_bounds(
                        a.pix(coords@[i].0 as int, coords@[i].1 as int),
                        new_color,
                    );
                }
                lemma_u64_seq_sum_matches_diff(a, b, coords@, diffs@);
                lemma_u64_seq_sum_matches_color(a, new_color, coords@, adds@);
            }
            (sum_u64(&diffs), sum_u64(&adds))
        },
        Some(n) => {
            if (n as usize) < coords.len() {
                let sampled = gather_sampled(coords, n);
                proof {
                    assert forall|i: int| 0 <= i < sampled@.len() implies a.in_bounds(
                        #[trigger] sampled@[i].0 as int,
                        sampled@[i].1 as int,
                    ) by {
                        lemma_sample_index_range(coords@.len() as int, n as int, i);
                        assert(sampled@[i] == coords@[
                            sample_index(coords@.len() as int, n as int, i)]);
                    }
                    assert(sampled@.len() * 765 <= coords@.len() * 765) by (nonlinear_arith)
                        requires
                            sampled@.len() <= coords@.len(),
                    ;
                }
                (
                    seq_sub_sum(original_image, annealed_image, &sampled),
                    seq_add_sum(original_image, &sampled, new_color),
                )
            } else {
                (
                    seq_sub_sum(original_image, annealed_image, coords),
                    seq_add_sum(original_image, coords, new_color),
                )
            }
        },
    };
    proof {
        assert(sub_total == coords_diff_sum(a, b, t));
        assert(add_total == coords_color_sum(a, new_color, t));
        lemma_coords_diff_sum_bounds(a, b, t);
        lemma_coords_color_sum_bounds(a, new_color, t);
        assert(t.len() <= coords@.len());
        assert(t.len() * 765 <= coords@.len() * 765) by (nonlinear_arith)
            requires
                t.len() <= coords@.len(),
        ;
    }
    let acc: i128 = previous_sum as i128 - sub_total as i128 + add_total as i128;
    if acc >= 0 {
        acc as u64
    } else {
        (-acc) as u64
    }
}

/// The view after painting color `c` at every listed coordinate.
pub open spec fn paint(b: BufferView, coords: Seq<Coord>, c: Pixel) -> BufferView
    decreases coords.len(),
{
    if coords.len() == 0 {
        b
    } else {
        paint(b, coords.drop_last(), c).set_pix(
            coords.last().0 as int,
            coords.last().1 as int,
            c,
        )
    }
}

/// Painting keeps the canvas well formed and its dimensions, overwrites every
/// listed coordinate with `c`, and leaves every other cell unchanged.
pub proof fn lemma_paint_props(b: BufferView, coords: Seq<Coord>, c: Pixel)
    requires
        b.wf(),
        coords_in_bounds(b, coords),
    ensures
        paint(b, coords, c).wf(),
        paint(b, coords, c).same_dims(b),
        forall|x: int, y: int|
            b.in_bounds(x, y) && !coords.contains((x as usize, y as usize)) ==> #[trigger] paint(
                b,
                coords,
                c,
            ).pix(x, y) == b.pix(x, y),
        forall|i: int|
            0 <= i < coords.len() ==> paint(b, coords, c).pix(
                #[trigger] coords[i].0 as int,
                coords[i].1 as int,
            ) == c,
    decreases coords.len(),
{
    assert(b.width <= b.width * b.height && b.height <= b.width * b.height) by (nonlinear_arith)
        requires
            b.width >= 1,
            b.height >= 1,
    ;
    if coords.len() > 0 {
        let dl = coords.drop_last();
        let last = coords.last();
        let painted = paint(b, dl, c);
        assert(coords_in_bounds(b, dl)) by {
            assert(forall|i: int| 0 <= i < dl.len() ==> dl[i] == coords[i]);
        }
        lemma_paint_props(b, dl, c);
        crate::buffer::lemma_set_pix(painted, last.0 as int, last.1 as int, c);
        assert forall|x: int, y: int|
            b.in_bounds(x, y) && !coords.contains(
                (x as usize, y as usize),
            ) implies #[trigger] paint(b, coords, c).pix(x, y) == b.pix(x, y) by {
            assert(!dl.contains((x as usize, y as usize))) by {
                if dl.contains((x as usize, y as usize)) {
                    let i = choose|i: int|
                        0 <= i < dl.len() && dl[i] == (x as usize, y as usize);
                    assert(coords[i] == (x as usize, y as usize));
                }
            }
            assert(coords[coords.len() - 1] == last);
            assert(last != (x as usize, y as usize));
            assert((x as usize) as int == x && (y as usize) as int == y);
            assert(last.0 as int != x || last.1 as int != y);
            assert(paint(b, coords, c) == painted.set_pix(last.0 as int, last.1 as int, c));
            assert(painted.in_bounds(x, y));
            assert(painted.set_pix(last.0 as int, last.1 as int, c).pix(x, y) == painted.pix(
                x,
                y,
            ));
            assert(painted.pix(x, y) == b.pix(x, y));
        }
        assert forall|i: int| 0 <= i < coords.len() implies paint(b, coords, c).pix(
            #[trigger] coords[i].0 as int,
            coords[i].1 as int,
        ) == c by {
            if coords[i] == last {
            } else {
                assert(i < dl.len() && dl[i] == coords[i]);
                assert(painted.pix(coords[i].0 as int, coords[i].1 as int) == c);
                assert(coords[i].0 as int != last.0 as int || coords[i].1 as int
                    != last.1 as int);
            }
        }
    }
}

proof fn lemma_col_diff_sum_set(
    a: BufferView,
    b: BufferView,
    cx: int,
    cy: int,
    c: Pixel,
    x: int,
    rows: int,
)
    requires
        a.wf(),
        b.wf(),
        a.same_dims(b),
        b.in_bounds(cx, cy),
        0 <= x < a.width,
        0 <= rows <= a.height,
    ensures
        x != cx || rows <= cy ==> col_diff_sum(a, b.set_pix(cx, cy, c), x, rows) == col_diff_sum(
            a,
            b,
            x,
            rows,
        ),
        x == cx && cy < rows ==> col_diff_sum(a, b.set_pix(cx, cy, c), x, rows) == col_diff_sum(
            a,
            b,
            x,
            rows,
        ) - pixel_diff(a.pix(cx, cy), b.pix(cx, cy)) + pixel_diff(a.pix(cx, cy), c),
    decreases rows,
{
    crate::buffer::lemma_set_pix(b, cx, cy, c);
    if rows > 0 {
        lemma_col_diff_sum_set(a, b, cx, cy, c, x, rows - 1);
    }
}

proof fn lemma_grid_diff_sum_set(
    a: BufferView,
    b: BufferView,
    cx: int,
    cy: int,
    c: Pixel,
    cols: int,
)
    requires
        a.wf(),
        b.wf(),
        a.same_dims(b),
        b.in_bounds(cx, cy),
        0 <= cols <= a.width,
    ensures
        cx < cols ==> grid_diff_sum(a, b.set_pix(cx, cy, c), cols) == grid_diff_sum(a, b, cols)
            - pixel_diff(a.pix(cx, cy), b.pix(cx, cy)) + pixel_diff(a.pix(cx, cy), c),
        cx >= cols ==> grid_diff_sum(a, b.set_pix(cx, cy, c), cols) == grid_diff_sum(a, b, cols),
    decreases cols,
{
    if cols > 0 {
        lemma_grid_diff_sum_set(a, b, cx, cy, c, cols - 1);
        lemma_col_diff_sum_set(a, b, cx, cy, c, cols - 1, a.height);
    }
}

/// Overwriting one cell shifts the cost sum by exactly the difference the
/// cell used to contribute and the difference it now contributes.
pub proof fn lemma_cost_sum_set(a: BufferView, b: BufferView, cx: int, cy: int, c: Pixel)
    requires
        a.wf(),
        b.wf(),
        a.same_dims(b),
        b.in_bounds(cx, cy),
    ensures
        cost_sum(a, b.set_pix(cx, cy, c)) == cost_sum(a, b) - pixel_diff(
            a.pix(cx, cy),
            b.pix(cx, cy),
        ) + pixel_diff(a.pix(cx, cy), c),
{
    lemma_grid_diff_sum_set(a, b, cx, cy, c, a.width);
}

/// Painting a duplicate-free coordinate set shifts the cost sum by the sums
/// of the old and new differences at exactly those coordinates.
pub proof fn lemma_paint_cost_sum(a: BufferView, b: BufferView, coords: Seq<Coord>, c: Pixel)
    requires
        a.wf(),
        b.wf(),
        a.same_dims(b),
        coords_in_bounds(a, coords),
        coords.no_duplicates(),
    ensures
        cost_sum(a, paint(b, coords, c)) == cost_sum(a, b) - coords_diff_sum(a, b, coords)
            + coords_color_sum(a, c, coords),
    decreases coords.len(),
{
    if coords.len() > 0 {
        let dl = coords.drop_last();
        let last = coords.last();
        let painted = paint(b, dl, c);
        assert(forall|i: int| 0 <= i < dl.len() ==> dl[i] == coords[i]);
        lemma_paint_cost_sum(a, b, dl, c);
        assert(coords_in_bounds(b, dl));
        lemma_paint_props(b, dl, c);
        assert(!dl.contains(last)) by {
            if dl.contains(last) {
                let i = choose|i: int| 0 <= i < dl.len() && dl[i] == last;
                assert(coords[i] == coords[coords.len() - 1]);
            }
        }
        assert(painted.pix(last.0 as int, last.1 as int) == b.pix(last.0 as int, last.1 as int))
            by {
            assert(b.in_bounds(last.0 as int, last.1 as int));
            assert((last.0 as int as usize, last.1 as int as usize) == last);
        }
        lemma_cost_sum_set(a, painted, last.0 as int, last.1 as int, c);
    }
}

/// Incremental/full equivalence for one candidate: starting from the true
/// cost sum of `a` against `b`, the unsampled incremental update for a
/// duplicate-free candidate equals the full recomputation against the buffer
/// with the candidate painted — exactly, not merely up to rounding.
pub proof fn lemma_update_matches_full(
    a: BufferView,
    b: BufferView,
    coords: Seq<Coord>,
    new_color: Pixel,
    previous: int,
)
    requires
        a.wf(),
        b.wf(),
        a.same_dims(b),
        coords_in_bounds(a, coords),
        coords.no_duplicates(),
        previous == cost_sum(a, b),
    ensures
        updated_sum(previous, a, b, coords, new_color, Option::None) == cost_sum(
            a,
            paint(b, coords, new_color),
        ),
{
    lemma_paint_cost_sum(a, b, coords, new_color);
    lemma_cost_sum_bounds(a, paint(b, coords, new_color));
}

/// The buffer after painting each candidate of a run in turn.
pub open spec fn paint_all(b: BufferView, cands: Seq<(Seq<Coord>, Pixel)>) -> BufferView
    decreases cands.len(),
{
    if cands.len() == 0 {
        b
    } else {
        paint_all(paint(b, cands.first().0, cands.first().1), cands.drop_first())
    }
}

/// The running cost sum after folding each candidate of a run into a
/// previous sum by the unsampled incremental update.
pub open spec fn run_updates(
    previous: int,
    a: BufferView,
    b: BufferView,
    cands: Seq<(Seq<Coord>, Pixel)>,
) -> int
    decreases cands.len(),
{
    if cands.len() == 0 {
        previous
    } else {
        run_updates(
            updated_sum(previous, a, b, cands.first().0, cands.first().1, Option::None),
            a,
            paint(b, cands.first().0, cands.first().1),
            cands.drop_first(),
        )
    }
}

/// Incremental/full equivalence for a whole run: for any sequence of
/// accepted candidates, each with duplicate-free on-canvas coordinates, the
/// running cost sum derived by incremental updates from the true initial sum
/// equals the full recomputation against the final buffer — exactly.
pub proof fn lemma_incremental_equals_full(
    a: BufferView,
    b: BufferView,
    cands: Seq<(Seq<Coord>, Pixel)>,
)
    requires
        a.wf(),
        b.wf(),
        a.same_dims(b),
        forall|i: int|
            0 <= i < cands.len() ==> coords_in_bounds(a, (#[trigger] cands[i]).0)
                && cands[i].0.no_duplicates(),
    ensures
        run_updates(cost_sum(a, b), a, b, cands) == cost_sum(a, paint_all(b, cands)),
    decreases cands.len(),
{
    if cands.len() > 0 {
        let first = cands.first();
        let b2 = paint(b, first.0, first.1);
        assert(coords_in_bounds(b, first.0));
        lemma_update_matches_full(a, b, first.0, first.1, cost_sum(a, b));
        lemma_paint_props(b, first.0, first.1);
        assert(forall|i: int|
            0 <= i < cands.drop_first().len() ==> cands.drop_first()[i] == cands[i + 1]);
        lemma_incremental_equals_full(a, b2, cands.drop_first());
    }
}

} // verus!

