//! Shared fixed-point units, angle arithmetic and the per-step action type.

use vstd::prelude::*;

verus! {

/// One full turn (2π radians) in microradians. Angles live in `[0, TAU)`.
pub const TAU: u64 = 6_283_185;

/// Fixed-point denominator: lengths, speeds, times and angles all carry this
/// many fractional units per whole unit.
pub const SCALE: u64 = 1_000_000;

/// What one car does during one engine step.
#[derive(Clone, Copy, Debug, PartialEq, Eq, Structural)]
pub enum Action {
    /// Radial transition between adjacent lanes; `1` moves one lane inward,
    /// `-1` one lane outward. These are the only legal magnitudes.
    Switch(i32),
    /// Follow the current lane toward the destination angle.
    Straight,
    /// No motion this step.
    Stop,
}

/// An angular difference folded into the forward-progress range `[0, TAU)`.
pub open spec fn spec_unwrap_theta(theta: int) -> int {
    if theta < 0 {
        theta + TAU
    } else {
        theta
    }
}

/// Maps an angular difference from `(-TAU, TAU)` into `[0, TAU)` by adding
/// one full turn to a negative value. Raw angle subtraction is only valid
/// modulo a turn, so remaining-distance computations go through this first.
pub fn unwrap_theta(theta: i64) -> (r: u64)
    requires
        -(TAU as int) < theta < TAU as int,
    ensures
        r == spec_unwrap_theta(theta as int),
        r < TAU,
{
    if theta < 0 {
        (theta + TAU as i64) as u64
    } else {
        theta as u64
    }
}

/// The angle swept travelling forward (counterclockwise) from `from` to `to`.
pub open spec fn spec_forward_dist(from: int, to: int) -> int {
    spec_unwrap_theta(to - from)
}

/// Forward angular distance from `from` to `to`, both reduced angles.
pub fn forward_dist(from: u64, to: u64) -> (r: u64)
    requires
        from < TAU,
        to < TAU,
    ensures
        r == spec_forward_dist(from as int, to as int),
        r < TAU,
{
    unwrap_theta(to as i64 - from as i64)
}

/// The smaller of the two arcs separating two reduced angles.
pub open spec fn spec_circ_dist(a: int, b: int) -> int {
    let fwd = spec_forward_dist(a, b);
    if fwd <= TAU - fwd {
        fwd
    } else {
        TAU - fwd
    }
}

/// Circular distance between two reduced angles: never more than half a turn.
pub fn circ_dist(a: u64, b: u64) -> (r: u64)
    requires
        a < TAU,
        b < TAU,
    ensures
        r == spec_circ_dist(a as int, b as int),
        2 * r <= TAU,
{
    let fwd = forward_dist(a, b);
    if fwd <= TAU - fwd {
        fwd
    } else {
        TAU - fwd
    }
}

/// A product of non-negative factors is bounded by the product of their
/// bounds.
pub proof fn lemma_mul_le(a: int, b: int, a_max: int, b_max: int)
    requires
        0 <= a <= a_max,
        0 <= b <= b_max,
    ensures
        a * b <= a_max * b_max,
{
    assert(a * b <= a_max * b_max) by (nonlinear_arith)
        requires
            0 <= a <= a_max,
            0 <= b <= b_max,
    ;
}

/// Euclidean division by a positive divisor never grows a non-negative
/// dividend.
pub proof fn lemma_div_bound(x: int, d: int)
    requires
        0 <= x,
        1 <= d,
    ensures
        0 <= x / d <= x,
{
    assert(0 <= x / d <= x) by (nonlinear_arith)
        requires
            0 <= x,
            1 <= d,
    ;
}

/// Whether a radial position lies within `tolerance` of a lane's radius.
pub open spec fn spec_is_aligned(r: int, lane_r: int, tolerance: int) -> bool {
    -tolerance <= r - lane_r <= tolerance
}

/// True iff the radial drift between an actual position and the ideal point
/// on a lane's circle is within the given tolerance. Used to forbid going
/// straight while a lane switch is still in progress.
pub fn is_aligned(r: u64, lane_r: u64, tolerance: u64) -> (b: bool)
    ensures
        b == spec_is_aligned(r as int, lane_r as int, tolerance as int),
{
    let drift = if r >= lane_r {
        r - lane_r
    } else {
        lane_r - r
    };
    drift <= tolerance
}

} // verus!
