//! The annealing controller's per-iteration decision: evaluate a candidate
//! incrementally, accept or reject it, and commit it on accept.
//!
//! The temperature schedule and the Metropolis draw `exp(-delta / t)` are
//! real-valued and live with the caller, who runs the cooling loop; since
//! the displayed cost is a strictly monotone scaling of the integer cost
//! sum, "the candidate improves the cost" is decided here exactly, on the
//! sums, and only the accept-a-worse-candidate draw is passed in.

use vstd::prelude::*;

use crate::buffer::PixelBuffer;
use crate::cost::coords_in_bounds;
use crate::cost::paint;
use crate::cost::update_cost;
use crate::cost::updated_sum;
use crate::cost::Coord;
use crate::pixel::Pixel;

verus! {

/// Paints the candidate's color at every touched coordinate.
pub fn commit_candidate(image: &mut PixelBuffer, coords: &Vec<Coord>, color: Pixel)
    requires
        old(image)@.wf(),
        coords_in_bounds(old(image)@, coords@),
    ensures
        final(image)@ == paint(old(image)@, coords@, color),
        final(image)@.wf(),
        final(image)@.same_dims(old(image)@),
{
    let ghost b0 = old(image)@;
    let mut i: usize = 0;
    while i < coords.len()
        invariant
            i <= coords@.len(),
            coords_in_bounds(b0, coords@),
            b0.wf(),
            image@ == paint(b0, coords@.take(i as int), color),
            image@.wf(),
            image@.same_dims(b0),
        decreases coords@.len() - i,
    {
        proof {
            crate::cost::lemma_paint_props(b0, coords@.take(i as int), color);
        }
        let c = coords[i];
        image.set(c.0, c.1, color);
        proof {
            assert(coords@.take(i + 1).drop_last() =~= coords@.take(i as int));
            assert(coords@.take(i + 1).last() == coords@[i as int]);
        }
        i = i + 1;
    }
    proof {
        assert(coords@.take(coords@.len() as int) =~= coords@);
    }
}

/// One annealing transition. The candidate's cost sum is computed by the
/// incremental update against the current working buffer; the candidate is
/// accepted if its sum is strictly smaller than the current one, or if the
/// caller's Metropolis draw says to accept a worse one. On accept the
/// candidate is committed to the working buffer and its sum returned; on
/// reject the buffer is untouched and the current sum returned.
pub fn anneal_step(
    original_image: &PixelBuffer,
    image: &mut PixelBuffer,
    cost: u64,
    coords: &Vec<Coord>,
    new_color: Pixel,
    sample: Option<u32>,
    accept_worse: bool,
) -> (r: (u64, bool))
    requires
        original_image@.wf(),
        old(image)@.wf(),
        original_image@.same_dims(old(image)@),
        coords_in_bounds(original_image@, coords@),
        sample matches Some(n) ==> n >= 1,
        cost + coords@.len() * 765 <= u64::MAX,
    ensures
        ({
            let neighbor = updated_sum(
                cost as int,
                original_image@,
                old(image)@,
                coords@,
                new_color,
                sample,
            );
            let accepted = neighbor < cost || accept_worse;
            &&& r.1 == accepted
            &&& accepted ==> r.0 == neighbor && final(image)@ == paint(
                old(image)@,
                coords@,
                new_color,
            )
            &&& !accepted ==> r.0 == cost && final(image)@ == old(image)@
        }),
        final(image)@.wf(),
        final(image)@.same_dims(old(image)@),
{
    let neighbor_cost = update_cost(cost, original_image, image, coords, new_color, sample);
    if neighbor_cost < cost || accept_worse {
        commit_candidate(image, coords, new_color);
        (neighbor_cost, true)
    } else {
        (cost, false)
    }
}

} // verus!
