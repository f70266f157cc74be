//! The scalar abstraction for tree coordinates.
//!
//! `Axis` collects the operations a coordinate scalar must support: an
//! absolute difference and the `rd_update` step that extends a running
//! lower-bound distance by one non-negative per-axis contribution. The
//! crate stores coordinates as bounded `i64` fixed-point values, so the
//! one implementation lives on `i64`.

use vstd::prelude::*;
use crate::COORD_LIMIT;
use crate::DIST1_LIMIT;

verus! {

/// Absolute difference of two mathematical integers.
pub open spec fn abs_diff_spec(a: int, b: int) -> int {
    if a >= b {
        a - b
    } else {
        b - a
    }
}

/// Operations a coordinate scalar must provide.
///
/// `bounded` names the scalars on which the operations are exact and free
/// of overflow; for `i64` it is the [`COORD_LIMIT`] coordinate range.
pub trait Axis: Sized + Copy {
    /// The mathematical value this scalar stands for.
    spec fn to_int(self) -> int;

    /// Whether this scalar lies in the range on which arithmetic is exact.
    spec fn bounded(self) -> bool;

    /// The additive identity.
    fn zero() -> (r: Self)
        ensures
            r.to_int() == 0,
    ;

    /// Absolute difference between two in-range values of the scalar.
    fn saturating_dist(self, other: Self) -> (r: Self)
        requires
            self.bounded(),
            other.bounded(),
        ensures
            r.to_int() == abs_diff_spec(self.to_int(), other.to_int()),
    ;

    /// Extends the running lower-bound distance `rd` by one per-axis
    /// contribution `delta`.
    fn rd_update(rd: Self, delta: Self) -> (r: Self)
        requires
            0 <= rd.to_int(),
            0 <= delta.to_int(),
            rd.to_int() + delta.to_int() <= i64::MAX,
        ensures
            r.to_int() == rd.to_int() + delta.to_int(),
    ;
}

impl Axis for i64 {
    open spec fn to_int(self) -> int {
        self as int
    }

    open spec fn bounded(self) -> bool {
        -COORD_LIMIT <= self <= COORD_LIMIT
    }

    fn zero() -> (r: Self) {
        0
    }

    fn saturating_dist(self, other: Self) -> (r: Self) {
        if self >= other {
            self - other
        } else {
            other - self
        }
    }

    fn rd_update(rd: Self, delta: Self) -> (r: Self) {
        rd + delta
    }
}

/// A per-axis contribution between coordinates in range never exceeds
/// [`DIST1_LIMIT`].
pub proof fn lemma_abs_diff_bound(a: int, b: int)
    requires
        -COORD_LIMIT <= a <= COORD_LIMIT,
        -COORD_LIMIT <= b <= COORD_LIMIT,
    ensures
        0 <= abs_diff_spec(a, b) <= 2 * COORD_LIMIT,
        abs_diff_spec(a, b) * abs_diff_spec(a, b) <= DIST1_LIMIT,
{
    let d = abs_diff_spec(a, b);
    assert(0 <= d <= 2 * COORD_LIMIT);
    assert(d * d <= 4398046511104) by (nonlinear_arith)
        requires
            0 <= d <= 2097152,
    ;
}

} // verus!
