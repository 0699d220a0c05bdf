//! The shape rasterizer: from shape parameters to the coordinates covered.
//!
//! Rasterization is pure geometry: it never touches a buffer. A rectangle is
//! scanned as a half-open box, column by column. A triangle is filled by the
//! classic scanline decomposition into a flat-bottom and a flat-top half,
//! with the span ends interpolated along the edges; the interpolation is
//! carried out in exact integer arithmetic, rounding down, which fixes one
//! consistent choice of the per-row rounding.

use vstd::prelude::*;

use vstd::arithmetic::div_mod::lemma_div_is_ordered;
use vstd::arithmetic::div_mod::lemma_div_multiples_vanish;
use vstd::arithmetic::div_mod::lemma_div_of0;
use vstd::arithmetic::div_mod::lemma_div_pos_is_pos;
use vstd::arithmetic::div_mod::lemma_fundamental_div_mod;
use vstd::arithmetic::div_mod::lemma_fundamental_div_mod_converse_div;
use vstd::arithmetic::mul::lemma_mul_inequality;
use vstd::arithmetic::mul::lemma_mul_is_commutative;

use crate::cost::Coord;

verus! {

/// Canvas dimensions are kept below `2^30` cells per axis, so that every
/// intermediate product of the span interpolation fits comfortably in 64
/// bits on any architecture.
pub const MAX_DIM: usize = 0x4000_0000;

/// Linear interpolation from `x0` toward `x1`, `i` of `dy` steps along the
/// edge, rounded down to a whole cell. This fixes floor as the one
/// consistent rounding of the span ends.
pub open spec fn interp(x0: int, x1: int, i: int, dy: int) -> int {
    x0 + (x1 - x0) * i / dy
}

/// Interpolation stays between its two endpoints.
pub proof fn lemma_interp_bounds(x0: int, x1: int, i: int, dy: int)
    requires
        0 < dy,
        0 <= i <= dy,
    ensures
        x0 <= x1 ==> x0 <= interp(x0, x1, i, dy) <= x1,
        x1 <= x0 ==> x1 <= interp(x0, x1, i, dy) <= x0,
{
    let d = x1 - x0;
    if x0 <= x1 {
        lemma_div_pos_is_pos(d * i, dy);
        assert(d * i >= 0) by (nonlinear_arith)
            requires
                d >= 0,
                i >= 0,
        ;
        lemma_mul_inequality(i, dy, d);
        lemma_mul_is_commutative(d, i);
        lemma_div_is_ordered(d * i, dy * d, dy);
        lemma_div_multiples_vanish(d, dy);
    } else {
        let b = -d;
        assert(d * i <= 0 && d * i >= dy * d) by (nonlinear_arith)
            requires
                d < 0,
                0 <= i <= dy,
        ;
        lemma_div_of0(dy);
        lemma_div_is_ordered(d * i, 0, dy);
        lemma_div_is_ordered(dy * d, d * i, dy);
        lemma_mul_is_commutative(d, dy);
        lemma_div_multiples_vanish(d, dy);
    }
}

/// Interpolation is monotone in its target endpoint.
pub proof fn lemma_interp_monotone(x0: int, xa: int, xb: int, i: int, dy: int)
    requires
        0 < dy,
        0 <= i,
        xa <= xb,
    ensures
        interp(x0, xa, i, dy) <= interp(x0, xb, i, dy),
{
    lemma_mul_inequality(xa - x0, xb - x0, i);
    lemma_div_is_ordered((xa - x0) * i, (xb - x0) * i, dy);
}

/// Exact floor interpolation between two cell columns.
fn interp_exec(x0: usize, x1: usize, i: usize, dy: usize) -> (r: usize)
    requires
        0 < dy,
        i <= dy,
        x0 < MAX_DIM,
        x1 < MAX_DIM,
        dy < MAX_DIM,
    ensures
        r == interp(x0 as int, x1 as int, i as int, dy as int),
        x0 <= x1 ==> x0 <= r <= x1,
        x1 <= x0 ==> x1 <= r <= x0,
{
    proof {
        lemma_interp_bounds(x0 as int, x1 as int, i as int, dy as int);
    }
    if x1 >= x0 {
        proof {
            assert(((x1 - x0) as int) * (i as int) < 0x4000_0000 * 0x4000_0000)
                by (nonlinear_arith)
                requires
                    0 <= ((x1 - x0) as int) < 0x4000_0000,
                    0 <= (i as int) < 0x4000_0000,
            ;
        }
        let num: u64 = ((x1 - x0) as u64) * (i as u64);
        let q: u64 = num / (dy as u64);
        proof {
            lemma_div_pos_is_pos(num as int, dy as int);
            lemma_mul_inequality(i as int, dy as int, (x1 - x0) as int);
            lemma_mul_is_commutative((x1 - x0) as int, i as int);
            lemma_div_is_ordered(num as int, (dy as int) * ((x1 - x0) as int), dy as int);
            lemma_div_multiples_vanish((x1 - x0) as int, dy as int);
        }
        x0 + (q as usize)
    } else {
        proof {
            assert(((x0 - x1) as int) * (i as int) < 0x4000_0000 * 0x4000_0000)
                by (nonlinear_arith)
                requires
                    0 <= ((x0 - x1) as int) < 0x4000_0000,
                    0 <= (i as int) < 0x4000_0000,
            ;
        }
        let num: u64 = ((x0 - x1) as u64) * (i as u64);
        let q: u64 = (num + (dy as u64) - 1) / (dy as u64);
        proof {
            let b = (x0 - x1) as int;
            let di = dy as int;
            let q0 = (-(b * (i as int))) / di;
            lemma_fundamental_div_mod(-(b * (i as int)), di);
            let r0 = (-(b * (i as int))) % di;
            assert(b * (i as int) + di - 1 == (-q0) * di + (di - 1 - r0)) by (nonlinear_arith)
                requires
                    -(b * (i as int)) == di * q0 + r0,
            ;
            lemma_fundamental_div_mod_converse_div(
                b * (i as int) + di - 1,
                di,
                -q0,
                di - 1 - r0,
            );
            assert((num + (dy as u64) - 1) as int == b * (i as int) + di - 1);
            assert(q as int == -q0);
            assert((x1 as int - x0 as int) * (i as int) == -(b * (i as int)))
                by (nonlinear_arith)
                requires
                    b == x0 as int - x1 as int,
            ;
            // so q0 is the floor offset, and the result is x0 + q0 == x0 - q
            lemma_div_of0(di);
            lemma_div_is_ordered(-(b * (i as int)), 0, di);
            assert(-(b * (i as int)) >= di * (-b)) by (nonlinear_arith)
                requires
                    b >= 0,
                    0 <= (i as int) <= di,
            ;
            lemma_div_is_ordered(di * (-b), -(b * (i as int)), di);
            lemma_div_multiples_vanish(-b, di);
            assert(-b <= q0 <= 0);
        }
        x0 - (q as usize)
    }
}

/// One horizontal span of cells: `(xs, y), (xs + 1, y), ..., (xe, y)`.
pub open spec fn span_row(xs: int, xe: int, y: int) -> Seq<Coord> {
    if xe < xs {
        Seq::empty()
    } else {
        Seq::new((xe - xs + 1) as nat, |j: int| (((xs + j) as usize, y as usize)))
    }
}

proof fn lemma_span_row_props(xs: int, xe: int, y: int)
    requires
        0 <= xs,
        xe < MAX_DIM,
        0 <= y < MAX_DIM,
    ensures
        xs <= xe ==> span_row(xs, xe, y).len() == xe - xs + 1,
        xe < xs ==> span_row(xs, xe, y).len() == 0,
        forall|j: int|
            0 <= j < span_row(xs, xe, y).len() ==> (#[trigger] span_row(xs, xe, y)[j]).0 == xs + j
                && span_row(xs, xe, y)[j].1 == y,
        span_row(xs, xe, y).no_duplicates(),
{
}

/// Whether three vertices describe a flat-bottom half: an apex strictly
/// above a horizontal base whose left end is listed first, all on a canvas
/// of supported size.
pub open spec fn fb_wf(v1: Coord, v2: Coord, v3: Coord) -> bool {
    &&& v1.1 < v2.1
    &&& v2.1 == v3.1
    &&& v2.0 <= v3.0
    &&& v1.0 < MAX_DIM
    &&& v2.0 < MAX_DIM
    &&& v3.0 < MAX_DIM
    &&& v2.1 < MAX_DIM
}

/// Row `i` of a flat-bottom half: the span between the two edges walked
/// from the apex, `i` rows below it.
pub open spec fn fb_row(v1: Coord, v2: Coord, v3: Coord, i: int) -> Seq<Coord> {
    let dy = v2.1 - v1.1;
    span_row(
        interp(v1.0 as int, v2.0 as int, i, dy),
        interp(v1.0 as int, v3.0 as int, i, dy),
        v1.1 + i,
    )
}

/// The first `n` rows of a flat-bottom half, top to bottom.
pub open spec fn fb_rows(v1: Coord, v2: Coord, v3: Coord, n: int) -> Seq<Coord>
    decreases n,
{
    if n <= 0 {
        Seq::empty()
    } else {
        fb_rows(v1, v2, v3, n - 1) + fb_row(v1, v2, v3, n - 1)
    }
}

/// All coordinates of a flat-bottom half: one span per scanline from the
/// apex row down to and including the base row.
pub open spec fn flat_bottom_coords(v1: Coord, v2: Coord, v3: Coord) -> Seq<Coord> {
    fb_rows(v1, v2, v3, v2.1 - v1.1 + 1)
}

/// Whether three vertices describe a flat-top half: a horizontal top edge
/// whose left end is listed first, strictly above the bottom apex.
pub open spec fn ft_wf(v1: Coord, v2: Coord, v3: Coord) -> bool {
    &&& v1.1 == v2.1
    &&& v1.1 < v3.1
    &&& v1.0 <= v2.0
    &&& v1.0 < MAX_DIM
    &&& v2.0 < MAX_DIM
    &&& v3.0 < MAX_DIM
    &&& v3.1 < MAX_DIM
}

/// Row `k` of a flat-top half, counted up from the bottom apex: the span
/// between the two edges walked from the apex, `k` rows above it.
pub open spec fn ft_row(v1: Coord, v2: Coord, v3: Coord, k: int) -> Seq<Coord> {
    let dy = v3.1 - v1.1;
    span_row(
        interp(v3.0 as int, v1.0 as int, k, dy),
        interp(v3.0 as int, v2.0 as int, k, dy),
        v3.1 - k,
    )
}

/// The first `n` rows of a flat-top half, bottom to top. The top row itself
/// (the flat edge) is never drawn: in the split case it belongs to the
/// flat-bottom half.
pub open spec fn ft_rows(v1: Coord, v2: Coord, v3: Coord, n: int) -> Seq<Coord>
    decreases n,
{
    if n <= 0 {
        Seq::empty()
    } else {
        ft_rows(v1, v2, v3, n - 1) + ft_row(v1, v2, v3, n - 1)
    }
}

/// All coordinates of a flat-top half: one span per scanline from the apex
/// row up to, but not including, the flat top edge's row.
pub open spec fn flat_top_coords(v1: Coord, v2: Coord, v3: Coord) -> Seq<Coord> {
    ft_rows(v1, v2, v3, v3.1 - v1.1)
}

/// The smaller of three integers.
pub open spec fn min3(a: int, b: int, c: int) -> int {
    if a <= b && a <= c {
        a
    } else if b <= c {
        b
    } else {
        c
    }
}

/// The larger of three integers.
pub open spec fn max3(a: int, b: int, c: int) -> int {
    if a >= b && a >= c {
        a
    } else if b >= c {
        b
    } else {
        c
    }
}

proof fn lemma_fb_rows_props(v1: Coord, v2: Coord, v3: Coord, n: int)
    requires
        fb_wf(v1, v2, v3),
        0 <= n <= v2.1 - v1.1 + 1,
    ensures
        forall|t: int|
            0 <= t < fb_rows(v1, v2, v3, n).len() ==> {
                let e = #[trigger] fb_rows(v1, v2, v3, n)[t];
                &&& v1.1 <= e.1 < v1.1 + n
                &&& min3(v1.0 as int, v2.0 as int, v3.0 as int) <= e.0 <= max3(
                    v1.0 as int,
                    v2.0 as int,
                    v3.0 as int,
                )
            },
        fb_rows(v1, v2, v3, n).no_duplicates(),
    decreases n,
{
    let dy = v2.1 - v1.1;
    if n > 0 {
        lemma_fb_rows_props(v1, v2, v3, n - 1);
        let xs = interp(v1.0 as int, v2.0 as int, n - 1, dy);
        let xe = interp(v1.0 as int, v3.0 as int, n - 1, dy);
        lemma_interp_bounds(v1.0 as int, v2.0 as int, n - 1, dy);
        lemma_interp_bounds(v1.0 as int, v3.0 as int, n - 1, dy);
        lemma_span_row_props(xs, xe, v1.1 + n - 1);
        let prefix = fb_rows(v1, v2, v3, n - 1);
        let row = fb_row(v1, v2, v3, n - 1);
        let whole = fb_rows(v1, v2, v3, n);
        assert(whole.len() == prefix.len() + row.len());
        assert forall|i: int, j: int| 0 <= i < j < whole.len() implies whole[i] != whole[j] by {
            if i < prefix.len() && j < prefix.len() {
            } else if i >= prefix.len() && j >= prefix.len() {
                assert(row[i - prefix.len()] != row[j - prefix.len()]);
            } else {
                assert(whole[i] == prefix[i]);
                assert(whole[j] == row[j - prefix.len()]);
                assert(prefix[i].1 < v1.1 + n - 1);
                assert(row[j - prefix.len()].1 == v1.1 + n - 1);
            }
        }
    }
}

proof fn lemma_ft_rows_props(v1: Coord, v2: Coord, v3: Coord, n: int)
    requires
        ft_wf(v1, v2, v3),
        0 <= n <= v3.1 - v1.1,
    ensures
        forall|t: int|
            0 <= t < ft_rows(v1, v2, v3, n).len() ==> {
                let e = #[trigger] ft_rows(v1, v2, v3, n)[t];
                &&& v3.1 - n < e.1 <= v3.1
                &&& min3(v1.0 as int, v2.0 as int, v3.0 as int) <= e.0 <= max3(
                    v1.0 as int,
                    v2.0 as int,
                    v3.0 as int,
                )
            },
        ft_rows(v1, v2, v3, n).no_duplicates(),
    decreases n,
{
    let dy = v3.1 - v1.1;
    if n > 0 {
        lemma_ft_rows_props(v1, v2, v3, n - 1);
        let xs = interp(v3.0 as int, v1.0 as int, n - 1, dy);
        let xe = interp(v3.0 as int, v2.0 as int, n - 1, dy);
        lemma_interp_bounds(v3.0 as int, v1.0 as int, n - 1, dy);
        lemma_interp_bounds(v3.0 as int, v2.0 as int, n - 1, dy);
        lemma_span_row_props(xs, xe, v3.1 - (n - 1));
        let prefix = ft_rows(v1, v2, v3, n - 1);
        let row = ft_row(v1, v2, v3, n - 1);
        let whole = ft_rows(v1, v2, v3, n);
        assert(whole.len() == prefix.len() + row.len());
        assert forall|i: int, j: int| 0 <= i < j < whole.len() implies whole[i] != whole[j] by {
            if i < prefix.len() && j < prefix.len() {
            } else if i >= prefix.len() && j >= prefix.len() {
                assert(row[i - prefix.len()] != row[j - prefix.len()]);
            } else {
                assert(whole[i] == prefix[i]);
                assert(whole[j] == row[j - prefix.len()]);
                assert(prefix[i].1 > v3.1 - (n - 1));
                assert(row[j - prefix.len()].1 == v3.1 - (n - 1));
            }
        }
    }
}

proof fn lemma_fb_rows_len(v1: Coord, v2: Coord, v3: Coord, n: int)
    requires
        fb_wf(v1, v2, v3),
        0 <= n <= v2.1 - v1.1 + 1,
    ensures
        n <= fb_rows(v1, v2, v3, n).len() <= n * (max3(v1.0 as int, v2.0 as int, v3.0 as int)
            - min3(v1.0 as int, v2.0 as int, v3.0 as int) + 1),
    decreases n,
{
    let dy = v2.1 - v1.1;
    let lo = min3(v1.0 as int, v2.0 as int, v3.0 as int);
    let hi = max3(v1.0 as int, v2.0 as int, v3.0 as int);
    if n > 0 {
        lemma_fb_rows_len(v1, v2, v3, n - 1);
        let xs = interp(v1.0 as int, v2.0 as int, n - 1, dy);
        let xe = interp(v1.0 as int, v3.0 as int, n - 1, dy);
        lemma_interp_bounds(v1.0 as int, v2.0 as int, n - 1, dy);
        lemma_interp_bounds(v1.0 as int, v3.0 as int, n - 1, dy);
        lemma_interp_monotone(v1.0 as int, v2.0 as int, v3.0 as int, n - 1, dy);
        assert(1 <= xe - xs + 1 <= hi - lo + 1);
        assert((n - 1) * (hi - lo + 1) + (hi - lo + 1) == n * (hi - lo + 1))
            by (nonlinear_arith);
    }
}

proof fn lemma_ft_rows_len(v1: Coord, v2: Coord, v3: Coord, n: int)
    requires
        ft_wf(v1, v2, v3),
        0 <= n <= v3.1 - v1.1,
    ensures
        n <= ft_rows(v1, v2, v3, n).len() <= n * (max3(v1.0 as int, v2.0 as int, v3.0 as int)
            - min3(v1.0 as int, v2.0 as int, v3.0 as int) + 1),
    decreases n,
{
    let dy = v3.1 - v1.1;
    let lo = min3(v1.0 as int, v2.0 as int, v3.0 as int);
    let hi = max3(v1.0 as int, v2.0 as int, v3.0 as int);
    if n > 0 {
        lemma_ft_rows_len(v1, v2, v3, n - 1);
        let xs = interp(v3.0 as int, v1.0 as int, n - 1, dy);
        let xe = interp(v3.0 as int, v2.0 as int, n - 1, dy);
        lemma_interp_bounds(v3.0 as int, v1.0 as int, n - 1, dy);
        lemma_interp_bounds(v3.0 as int, v2.0 as int, n - 1, dy);
        lemma_interp_monotone(v3.0 as int, v1.0 as int, v2.0 as int, n - 1, dy);
        assert(1 <= xe - xs + 1 <= hi - lo + 1);
        assert((n - 1) * (hi - lo + 1) + (hi - lo + 1) == n * (hi - lo + 1))
            by (nonlinear_arith);
    }
}

/// Triangle coverage bounds: the fill emits at least one coordinate for
/// every scanline it walks — one per row the triangle spans, except that a
/// flat top edge's own row is skipped — and, since every coordinate lies in
/// the vertices' bounding box and no coordinate repeats, never more than
/// the box holds cells.
pub proof fn lemma_triangle_count_bounds(a: Coord, b: Coord, c: Coord)
    requires
        a.0 < MAX_DIM && a.1 < MAX_DIM,
        b.0 < MAX_DIM && b.1 < MAX_DIM,
        c.0 < MAX_DIM && c.1 < MAX_DIM,
        !(a.1 == b.1 && b.1 == c.1),
    ensures
        tri_coords(a, b, c).len() >= max3(a.1 as int, b.1 as int, c.1 as int) - min3(
            a.1 as int,
            b.1 as int,
            c.1 as int,
        ),
        tri_coords(a, b, c).len() <= (max3(a.1 as int, b.1 as int, c.1 as int) - min3(
            a.1 as int,
            b.1 as int,
            c.1 as int,
        ) + 1) * (max3(a.0 as int, b.0 as int, c.0 as int) - min3(
            a.0 as int,
            b.0 as int,
            c.0 as int,
        ) + 1),
{
    let (s0, s1, s2) = sort3(a, b, c);
    let lo = min3(a.0 as int, b.0 as int, c.0 as int);
    let hi = max3(a.0 as int, b.0 as int, c.0 as int);
    let loy = min3(a.1 as int, b.1 as int, c.1 as int);
    let hiy = max3(a.1 as int, b.1 as int, c.1 as int);
    if s1.1 == s2.1 {
        lemma_fb_rows_len(s0, s1, s2, s2.1 - s0.1 + 1);
        assert((s2.1 - s0.1 + 1) * (max3(s0.0 as int, s1.0 as int, s2.0 as int) - min3(
            s0.0 as int,
            s1.0 as int,
            s2.0 as int,
        ) + 1) <= (hiy - loy + 1) * (hi - lo + 1)) by (nonlinear_arith)
            requires
                0 <= s2.1 - s0.1 + 1 <= hiy - loy + 1,
                0 <= max3(s0.0 as int, s1.0 as int, s2.0 as int) - min3(
                    s0.0 as int,
                    s1.0 as int,
                    s2.0 as int,
                ) + 1 <= hi - lo + 1,
        ;
    } else if s0.1 == s1.1 {
        lemma_ft_rows_len(s0, s1, s2, s2.1 - s0.1);
        assert((s2.1 - s0.1) * (max3(s0.0 as int, s1.0 as int, s2.0 as int) - min3(
            s0.0 as int,
            s1.0 as int,
            s2.0 as int,
        ) + 1) <= (hiy - loy + 1) * (hi - lo + 1)) by (nonlinear_arith)
            requires
                0 <= s2.1 - s0.1 <= hiy - loy + 1,
                0 <= max3(s0.0 as int, s1.0 as int, s2.0 as int) - min3(
                    s0.0 as int,
                    s1.0 as int,
                    s2.0 as int,
                ) + 1 <= hi - lo + 1,
        ;
    } else {
        let x4 = interp(s0.0 as int, s2.0 as int, s1.1 - s0.1, s2.1 - s0.1);
        lemma_interp_bounds(s0.0 as int, s2.0 as int, s1.1 - s0.1, s2.1 - s0.1);
        let v4 = ((x4 as usize), s1.1);
        let (m1, m2) = if vtx_gt(s1, v4) {
            (v4, s1)
        } else {
            (s1, v4)
        };
        lemma_fb_rows_len(s0, m1, m2, m1.1 - s0.1 + 1);
        lemma_ft_rows_len(m1, m2, s2, s2.1 - m1.1);
        assert((m1.1 - s0.1 + 1) * (max3(s0.0 as int, m1.0 as int, m2.0 as int) - min3(
            s0.0 as int,
            m1.0 as int,
            m2.0 as int,
        ) + 1) + (s2.1 - m1.1) * (max3(m1.0 as int, m2.0 as int, s2.0 as int) - min3(
            m1.0 as int,
            m2.0 as int,
            s2.0 as int,
        ) + 1) <= (hiy - loy + 1) * (hi - lo + 1)) by (nonlinear_arith)
            requires
                0 <= m1.1 - s0.1 + 1,
                0 <= s2.1 - m1.1,
                (m1.1 - s0.1 + 1) + (s2.1 - m1.1) == hiy - loy + 1,
                0 <= max3(s0.0 as int, m1.0 as int, m2.0 as int) - min3(
                    s0.0 as int,
                    m1.0 as int,
                    m2.0 as int,
                ) + 1 <= hi - lo + 1,
                0 <= max3(m1.0 as int, m2.0 as int, s2.0 as int) - min3(
                    m1.0 as int,
                    m2.0 as int,
                    s2.0 as int,
                ) + 1 <= hi - lo + 1,
        ;
    }
}

/// Fills a flat-bottom half with one horizontal span per scanline, walking
/// the two edge slopes down from the apex.
pub fn flat_bottom_triangle(v1: Coord, v2: Coord, v3: Coord) -> (coords: Vec<Coord>)
    requires
        fb_wf(v1, v2, v3),
    ensures
        coords@ == flat_bottom_coords(v1, v2, v3),
{
    let dy: usize = v2.1 - v1.1;
    let mut coords: Vec<Coord> = Vec::new();
    let mut i: usize = 0;
    while i <= dy
        invariant
            fb_wf(v1, v2, v3),
            dy == v2.1 - v1.1,
            i <= dy + 1,
            coords@ == fb_rows(v1, v2, v3, i as int),
        decreases dy + 1 - i,
    {
        let xs = interp_exec(v1.0, v2.0, i, dy);
        let xe = interp_exec(v1.0, v3.0, i, dy);
        proof {
            lemma_interp_monotone(v1.0 as int, v2.0 as int, v3.0 as int, i as int, dy as int);
            lemma_span_row_props(xs as int, xe as int, (v1.1 + i) as int);
        }
        let y: usize = v1.1 + i;
        let mut x: usize = xs;
        while x <= xe
            invariant
                xs <= x <= xe + 1,
                xs <= xe < MAX_DIM,
                y < MAX_DIM,
                coords@ == fb_rows(v1, v2, v3, i as int) + span_row(
                    xs as int,
                    xe as int,
                    y as int,
                ).take(x - xs),
            decreases xe + 1 - x,
        {
            coords.push((x, y));
            proof {
                assert(span_row(xs as int, xe as int, y as int).take(x + 1 - xs) =~= span_row(
                    xs as int,
                    xe as int,
                    y as int,
                ).take(x - xs).push((x, y)));
            }
            x = x + 1;
        }
        proof {
            let row = span_row(xs as int, xe as int, y as int);
            assert(row.take(row.len() as int) =~= row);
            assert(fb_row(v1, v2, v3, i as int) == row);
        }
        i = i + 1;
    }
    coords
}

/// Fills a flat-top half with one horizontal span per scanline, walking the
/// two edge slopes up from the bottom apex; the flat edge's own row is left
/// to the flat-bottom half.
pub fn flat_top_triangle(v1: Coord, v2: Coord, v3: Coord) -> (coords: Vec<Coord>)
    requires
        ft_wf(v1, v2, v3),
    ensures
        coords@ == flat_top_coords(v1, v2, v3),
{
    let dy: usize = v3.1 - v1.1;
    let mut coords: Vec<Coord> = Vec::new();
    let mut k: usize = 0;
    while k < dy
        invariant
            ft_wf(v1, v2, v3),
            dy == v3.1 - v1.1,
            k <= dy,
            coords@ == ft_rows(v1, v2, v3, k as int),
        decreases dy - k,
    {
        let xs = interp_exec(v3.0, v1.0, k, dy);
        let xe = interp_exec(v3.0, v2.0, k, dy);
        proof {
            lemma_interp_monotone(v3.0 as int, v1.0 as int, v2.0 as int, k as int, dy as int);
            lemma_span_row_props(xs as int, xe as int, (v3.1 - k) as int);
        }
        let y: usize = v3.1 - k;
        let mut x: usize = xs;
        while x <= xe
            invariant
                xs <= x <= xe + 1,
                xs <= xe < MAX_DIM,
                y < MAX_DIM,
                coords@ == ft_rows(v1, v2, v3, k as int) + span_row(
                    xs as int,
                    xe as int,
                    y as int,
                ).take(x - xs),
            decreases xe + 1 - x,
        {
            coords.push((x, y));
            proof {
                assert(span_row(xs as int, xe as int, y as int).take(x + 1 - xs) =~= span_row(
                    xs as int,
                    xe as int,
                    y as int,
                ).take(x - xs).push((x, y)));
            }
            x = x + 1;
        }
        proof {
            let row = span_row(xs as int, xe as int, y as int);
            assert(row.take(row.len() as int) =~= row);
            assert(ft_row(v1, v2, v3, k as int) == row);
        }
        k = k + 1;
    }
    coords
}

/// Whether `a` comes strictly after `b` in the `(y, x)` vertex order.
pub open spec fn vtx_gt(a: Coord, b: Coord) -> bool {
    a.1 > b.1 || (a.1 == b.1 && a.0 > b.0)
}

/// The three vertices reordered ascending by `(y, x)`, by the same three
/// conditional exchanges the sorter performs.
pub open spec fn sort3(a: Coord, b: Coord, c: Coord) -> (Coord, Coord, Coord) {
    let (a1, b1) = if vtx_gt(a, b) {
        (b, a)
    } else {
        (a, b)
    };
    let (b2, c2) = if vtx_gt(b1, c) {
        (c, b1)
    } else {
        (b1, c)
    };
    let (a3, b3) = if vtx_gt(a1, b2) {
        (b2, a1)
    } else {
        (a1, b2)
    };
    (a3, b3, c2)
}

fn sort_vertices(a: Coord, b: Coord, c: Coord) -> (s: (Coord, Coord, Coord))
    ensures
        s == sort3(a, b, c),
        !vtx_gt(s.0, s.1),
        !vtx_gt(s.1, s.2),
{
    let (a1, b1) = if a.1 > b.1 || (a.1 == b.1 && a.0 > b.0) {
        (b, a)
    } else {
        (a, b)
    };
    let (b2, c2) = if b1.1 > c.1 || (b1.1 == c.1 && b1.0 > c.0) {
        (c, b1)
    } else {
        (b1, c)
    };
    let (a3, b3) = if a1.1 > b2.1 || (a1.1 == b2.1 && a1.0 > b2.0) {
        (b2, a1)
    } else {
        (a1, b2)
    };
    (a3, b3, c2)
}

/// The coordinates covered by the triangle on the three given vertices:
/// directly for a flat-bottom or flat-top triangle, and otherwise by
/// splitting at the horizontal line through the middle vertex, at the point
/// interpolated on the long edge.
pub open spec fn tri_coords(a: Coord, b: Coord, c: Coord) -> Seq<Coord> {
    let (s0, s1, s2) = sort3(a, b, c);
    if s1.1 == s2.1 {
        flat_bottom_coords(s0, s1, s2)
    } else if s0.1 == s1.1 {
        flat_top_coords(s0, s1, s2)
    } else {
        let x4 = interp(s0.0 as int, s2.0 as int, s1.1 - s0.1, s2.1 - s0.1);
        let v4 = ((x4 as usize), s1.1);
        let (m1, m2) = if vtx_gt(s1, v4) {
            (v4, s1)
        } else {
            (s1, v4)
        };
        flat_bottom_coords(s0, m1, m2) + flat_top_coords(m1, m2, s2)
    }
}

/// The coordinates of a triangle candidate, by scanline fill: each is
/// unique and lies within the vertices' bounding box. Degenerate triangles
/// are rejected upstream by the candidate generator; the fill itself only
/// needs the three vertices not to share one row.
pub fn get_triangle(vertices: [Coord; 3]) -> (coords: Vec<Coord>)
    requires
        vertices[0].0 < MAX_DIM && vertices[0].1 < MAX_DIM,
        vertices[1].0 < MAX_DIM && vertices[1].1 < MAX_DIM,
        vertices[2].0 < MAX_DIM && vertices[2].1 < MAX_DIM,
        !(vertices[0].1 == vertices[1].1 && vertices[1].1 == vertices[2].1),
    ensures
        coords@ == tri_coords(vertices[0], vertices[1], vertices[2]),
        coords@.no_duplicates(),
        forall|t: int|
            0 <= t < coords@.len() ==> {
                let e = #[trigger] coords@[t];
                &&& min3(vertices[0].0 as int, vertices[1].0 as int, vertices[2].0 as int) <= e.0
                    <= max3(vertices[0].0 as int, vertices[1].0 as int, vertices[2].0 as int)
                &&& min3(vertices[0].1 as int, vertices[1].1 as int, vertices[2].1 as int) <= e.1
                    <= max3(vertices[0].1 as int, vertices[1].1 as int, vertices[2].1 as int)
            },
{
    let (vt1, vt2, vt3) = sort_vertices(vertices[0], vertices[1], vertices[2]);
    if vt2.1 == vt3.1 {
        let coords = flat_bottom_triangle(vt1, vt2, vt3);
        proof {
            lemma_fb_rows_props(vt1, vt2, vt3, vt2.1 - vt1.1 + 1);
        }
        coords
    } else if vt1.1 == vt2.1 {
        let coords = flat_top_triangle(vt1, vt2, vt3);
        proof {
            lemma_ft_rows_props(vt1, vt2, vt3, vt3.1 - vt1.1);
        }
        coords
    } else {
        // split at the row through the middle vertex: interpolate the
        // crossing of the long edge with that row
        let x4 = interp_exec(vt1.0, vt3.0, vt2.1 - vt1.1, vt3.1 - vt1.1);
        let vt4: Coord = (x4, vt2.1);
        let (m1, m2) = if vt2.1 > vt4.1 || (vt2.1 == vt4.1 && vt2.0 > vt4.0) {
            (vt4, vt2)
        } else {
            (vt2, vt4)
        };
        let mut coords = flat_bottom_triangle(vt1, m1, m2);
        let upper = flat_top_triangle(m1, m2, vt3);
        let ghost lower_seq = coords@;
        let mut j: usize = 0;
        while j < upper.len()
            invariant
                j <= upper@.len(),
                coords@ == lower_seq + upper@.take(j as int),
            decreases upper@.len() - j,
        {
            coords.push(upper[j]);
            proof {
                assert(upper@.take(j + 1) =~= upper@.take(j as int).push(upper@[j as int]));
            }
            j = j + 1;
        }
        proof {
            assert(upper@.take(upper@.len() as int) =~= upper@);
            lemma_fb_rows_props(vt1, m1, m2, m1.1 - vt1.1 + 1);
            lemma_ft_rows_props(m1, m2, vt3, vt3.1 - m1.1);
            let lower = flat_bottom_coords(vt1, m1, m2);
            let upper_s = flat_top_coords(m1, m2, vt3);
            assert forall|i: int, t: int|
                0 <= i < coords@.len() && 0 <= t < coords@.len() && i < t implies coords@[i]
                != coords@[t] by {
                if i < lower.len() && t >= lower.len() {
                    assert(coords@[i].1 <= m1.1);
                    assert(coords@[t].1 > m1.1);
                }
            }
        }
        coords
    }
}

/// The coordinates of column `x` of a half-open box: `(x, ay), ..., (x, by - 1)`.
pub open spec fn rect_col(x: usize, ay: usize, by: usize) -> Seq<Coord> {
    if by <= ay {
        Seq::empty()
    } else {
        Seq::new((by - ay) as nat, |j: int| (x, (ay + j) as usize))
    }
}

/// The first `k` columns of a half-open box, in ascending column order.
pub open spec fn rect_cols(tlx: usize, k: int, ay: usize, by: usize) -> Seq<Coord>
    decreases k,
{
    if k <= 0 {
        Seq::empty()
    } else {
        rect_cols(tlx, k - 1, ay, by) + rect_col((tlx + k - 1) as usize, ay, by)
    }
}

/// All coordinates of the half-open box `[top_left, bottom_right)`, column
/// by column, each column top to bottom.
pub open spec fn rect_coords(top_left: Coord, bottom_right: Coord) -> Seq<Coord> {
    rect_cols(top_left.0, bottom_right.0 - top_left.0, top_left.1, bottom_right.1)
}

proof fn lemma_rect_col_props(x: usize, ay: usize, by: usize)
    ensures
        rect_col(x, ay, by).len() == if by <= ay {
            0int
        } else {
            by - ay
        },
        forall|i: int|
            0 <= i < rect_col(x, ay, by).len() ==> (#[trigger] rect_col(x, ay, by)[i]) == (
            x,
            (ay + i) as usize,
        ),
        forall|i: int|
            0 <= i < rect_col(x, ay, by).len() ==> (#[trigger] rect_col(x, ay, by)[i]).0 == x
                && ay <= rect_col(x, ay, by)[i].1 < by,
        rect_col(x, ay, by).no_duplicates(),
{
}

proof fn lemma_rect_cols_props(tlx: usize, k: int, ay: usize, by: usize)
    requires
        k >= 0,
        tlx + k <= usize::MAX,
    ensures
        rect_cols(tlx, k, ay, by).len() == k * (if by <= ay {
            0int
        } else {
            by - ay
        }),
        forall|i: int|
            0 <= i < rect_cols(tlx, k, ay, by).len() ==> tlx <= (#[trigger] rect_cols(
                tlx,
                k,
                ay,
                by,
            )[i]).0 < tlx + k && ay <= rect_cols(tlx, k, ay, by)[i].1 < by,
        rect_cols(tlx, k, ay, by).no_duplicates(),
    decreases k,
{
    let h: int = if by <= ay {
        0int
    } else {
        by - ay
    };
    if k > 0 {
        lemma_rect_cols_props(tlx, k - 1, ay, by);
        lemma_rect_col_props((tlx + k - 1) as usize, ay, by);
        let prefix = rect_cols(tlx, k - 1, ay, by);
        let col = rect_col((tlx + k - 1) as usize, ay, by);
        let whole = rect_cols(tlx, k, ay, by);
        assert((k - 1) * h + h == k * h) by (nonlinear_arith);
        assert(whole.len() == prefix.len() + col.len());
        assert forall|i: int, j: int| 0 <= i < j < whole.len() implies whole[i] != whole[j] by {
            if i < prefix.len() && j < prefix.len() {
            } else if i >= prefix.len() && j >= prefix.len() {
                assert(col[i - prefix.len()] != col[j - prefix.len()]);
            } else {
                assert(whole[i] == prefix[i]);
                assert(whole[j] == col[j - prefix.len()]);
                assert(prefix[i].0 < tlx + k - 1);
                assert(col[j - prefix.len()].0 == tlx + k - 1);
            }
        }
    }
}

/// Every cell of the half-open box appears in its coordinate sequence.
proof fn lemma_rect_cols_complete(tlx: usize, k: int, ay: usize, by: usize, x: usize, y: usize)
    requires
        k >= 0,
        tlx + k <= usize::MAX,
        tlx <= x < tlx + k,
        ay <= y < by,
    ensures
        rect_cols(tlx, k, ay, by).contains((x, y)),
    decreases k,
{
    let col = rect_col((tlx + k - 1) as usize, ay, by);
    let prefix = rect_cols(tlx, k - 1, ay, by);
    if x == tlx + k - 1 {
        assert(col[y - ay] == (x, y));
        assert(rect_cols(tlx, k, ay, by)[prefix.len() + y - ay] == (x, y));
    } else {
        lemma_rect_cols_complete(tlx, k - 1, ay, by, x, y);
        let i = choose|i: int| 0 <= i < prefix.len() && prefix[i] == (x, y);
        assert(rect_cols(tlx, k, ay, by)[i] == (x, y));
    }
}

/// The coordinates of a random single-colored rectangle candidate: the cells
/// of the half-open box `[top_left, bottom_right)`, exactly
/// `(bottom_right.0 - top_left.0) * (bottom_right.1 - top_left.1)` of them,
/// each unique, each within the box. A degenerate box yields no coordinates.
pub fn get_rectangle(top_left: Coord, bottom_right: Coord) -> (coords: Vec<Coord>)
    ensures
        coords@ == rect_coords(top_left, bottom_right),
        coords@.len() == (if top_left.0 <= bottom_right.0 && top_left.1 <= bottom_right.1 {
            (bottom_right.0 - top_left.0) * (bottom_right.1 - top_left.1)
        } else {
            0int
        }),
        forall|i: int|
            0 <= i < coords@.len() ==> top_left.0 <= (#[trigger] coords@[i]).0 < bottom_right.0
                && top_left.1 <= coords@[i].1 < bottom_right.1,
        coords@.no_duplicates(),
        forall|x: usize, y: usize|
            top_left.0 <= x < bottom_right.0 && top_left.1 <= y < bottom_right.1
                ==> coords@.contains((x, y)),
{
    let mut coords: Vec<Coord> = Vec::new();
    let mut x: usize = top_left.0;
    while x < bottom_right.0
        invariant
            top_left.0 <= x,
            x <= bottom_right.0 || x == top_left.0,
            coords@ == rect_cols(top_left.0, x - top_left.0, top_left.1, bottom_right.1),
        decreases bottom_right.0 - x,
    {
        let mut y: usize = top_left.1;
        while y < bottom_right.1
            invariant
                top_left.0 <= x < bottom_right.0,
                top_left.1 <= y,
                y <= bottom_right.1 || y == top_left.1,
                coords@ == rect_cols(top_left.0, x - top_left.0, top_left.1, bottom_right.1)
                    + rect_col(x, top_left.1, bottom_right.1).take(y - top_left.1),
            decreases bottom_right.1 - y,
        {
            coords.push((x, y));
            proof {
                assert(rect_col(x, top_left.1, bottom_right.1).take(y + 1 - top_left.1)
                    =~= rect_col(x, top_left.1, bottom_right.1).take(y - top_left.1).push(
                    (x, y),
                ));
            }
            y = y + 1;
        }
        proof {
            assert(rect_col(x, top_left.1, bottom_right.1).take(
                rect_col(x, top_left.1, bottom_right.1).len() as int,
            ) =~= rect_col(x, top_left.1, bottom_right.1));
            if bottom_right.1 <= top_left.1 {
                assert(rect_col(x, top_left.1, bottom_right.1).take(0) =~= rect_col(
                    x,
                    top_left.1,
                    bottom_right.1,
                ));
            }
            assert(rect_cols(top_left.0, x + 1 - top_left.0, top_left.1, bottom_right.1)
                == rect_cols(top_left.0, x - top_left.0, top_left.1, bottom_right.1) + rect_col(
                x,
                top_left.1,
                bottom_right.1,
            ));
        }
        x = x + 1;
    }
    proof {
        if bottom_right.0 <= top_left.0 {
            assert(coords@ =~= rect_coords(top_left, bottom_right));
        }
        lemma_rect_cols_props(
            top_left.0,
            if top_left.0 <= bottom_right.0 {
                bottom_right.0 - top_left.0
            } else {
                0int
            },
            top_left.1,
            bottom_right.1,
        );
        if top_left.0 <= bottom_right.0 && bottom_right.1 < top_left.1 {
            assert((bottom_right.0 - top_left.0) * 0 == 0) by (nonlinear_arith);
        }
        assert forall|x2: usize, y2: usize|
            top_left.0 <= x2 < bottom_right.0 && top_left.1 <= y2
                < bottom_right.1 implies coords@.contains((x2, y2)) by {
            lemma_rect_cols_complete(
                top_left.0,
                bottom_right.0 - top_left.0,
                top_left.1,
                bottom_right.1,
                x2,
                y2,
            );
        }
    }
    coords
}

} // verus!
