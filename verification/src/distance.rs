//! Distance functions between two locations given as `[i64; 2]`.

use vstd::prelude::*;

verus! {

/// The distance between two coordinates on one axis.
pub open spec fn gap(a: i64, b: i64) -> nat {
    if a >= b {
        (a - b) as nat
    } else {
        (b - a) as nat
    }
}

/// The larger of the two per-axis gaps (Chebyshev distance).
pub open spec fn orthogonal(a: [i64; 2], b: [i64; 2]) -> nat {
    if gap(a[0], b[0]) >= gap(a[1], b[1]) {
        gap(a[0], b[0])
    } else {
        gap(a[1], b[1])
    }
}

/// The sum of the squared per-axis gaps, capped at `u64::MAX`.
pub open spec fn squared(a: [i64; 2], b: [i64; 2]) -> nat {
    let sum = gap(a[0], b[0]) * gap(a[0], b[0]) + gap(a[1], b[1]) * gap(a[1], b[1]);
    if sum >= u64::MAX {
        u64::MAX as nat
    } else {
        sum
    }
}

/// `gap` as an executable function; the result always fits in `u64`.
pub fn coordinate_gap(a: i64, b: i64) -> (d: u64)
    ensures
        d == gap(a, b),
{
    if a >= b {
        let wide: i128 = a as i128 - b as i128;
        wide as u64
    } else {
        let wide: i128 = b as i128 - a as i128;
        wide as u64
    }
}

/// The squared gap between two coordinates, capped at `u64::MAX`.
pub fn distance_squared_scalar(a: i64, b: i64) -> (d: u64)
    ensures
        d == if gap(a, b) * gap(a, b) >= u64::MAX {
            u64::MAX as nat
        } else {
            gap(a, b) * gap(a, b)
        },
{
    let dx = coordinate_gap(a, b);
    match dx.checked_mul(dx) {
        Some(p) => p,
        None => u64::MAX,
    }
}

/// Chebyshev distance: the larger of the two per-axis gaps.
pub fn orthogonal_distance(a: &[i64; 2], b: &[i64; 2]) -> (d: u64)
    ensures
        d == orthogonal(*a, *b),
{
    let dx = coordinate_gap(a[0], b[0]);
    let dy = coordinate_gap(a[1], b[1]);
    if dx >= dy {
        dx
    } else {
        dy
    }
}

/// Squared Euclidean distance, capped at `u64::MAX`.
pub fn distance_squared(a: &[i64; 2], b: &[i64; 2]) -> (d: u64)
    ensures
        d == squared(*a, *b),
{
    let dx_squared = distance_squared_scalar(a[0], b[0]);
    let dy_squared = distance_squared_scalar(a[1], b[1]);
    proof {
        assert(gap(a[0], b[0]) * gap(a[0], b[0]) >= 0) by (nonlinear_arith);
        assert(gap(a[1], b[1]) * gap(a[1], b[1]) >= 0) by (nonlinear_arith);
    }
    dx_squared.saturating_add(dy_squared)
}

/// Whether `p` is at least as far from `q` as `near` is on `axis`, on the same
/// side of `q`, with the other coordinate unchanged.
pub open spec fn farther_on_axis(near: [i64; 2], p: [i64; 2], q: [i64; 2], axis: int) -> bool {
    &&& 0 <= axis < 2
    &&& near[1 - axis] == p[1 - axis]
    &&& (q[axis] <= near[axis] <= p[axis] || p[axis] <= near[axis] <= q[axis])
}

/// Moving a point away from the query along one axis never brings it closer
/// in Chebyshev distance.
pub proof fn lemma_orthogonal_axis_monotone(near: [i64; 2], p: [i64; 2], q: [i64; 2], axis: int)
    requires
        farther_on_axis(near, p, q, axis),
    ensures
        orthogonal(near, q) <= orthogonal(p, q),
{
}

/// Moving a point away from the query along one axis never brings it closer
/// in squared Euclidean distance.
pub proof fn lemma_squared_axis_monotone(near: [i64; 2], p: [i64; 2], q: [i64; 2], axis: int)
    requires
        farther_on_axis(near, p, q, axis),
    ensures
        squared(near, q) <= squared(p, q),
{
    let g = gap(near[axis], q[axis]);
    let h = gap(p[axis], q[axis]);
    assert(g <= h);
    assert(g * g <= h * h) by (nonlinear_arith)
        requires
            0 <= g <= h,
    ;
}

} // verus!
