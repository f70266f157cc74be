//! Distance metrics over bounded fixed-point coordinates.
//!
//! A metric contributes one non-negative term per axis (`dist1`); the full
//! distance between two points is the sum of the per-axis terms. The
//! properties stated on the trait — non-negativity, a bound on in-range
//! coordinates, and the "gap" monotonicity past a splitting plane — are
//! exactly what makes branch-and-bound traversal sound, and every
//! implementation proves them.

use vstd::prelude::*;
use crate::axis::Axis;
use crate::axis::abs_diff_spec;
use crate::axis::lemma_abs_diff_bound;
use crate::COORD_LIMIT;
use crate::DIST1_LIMIT;
use crate::DIM_LIMIT;

verus! {

/// Whether a coordinate lies in the supported range.
pub open spec fn coord_in_range(c: i64) -> bool {
    -COORD_LIMIT <= c <= COORD_LIMIT
}

/// Whether every coordinate of a point lies in the supported range.
pub open spec fn point_in_range(p: Seq<i64>) -> bool {
    forall|d: int| 0 <= d < p.len() ==> coord_in_range(#[trigger] p[d])
}

/// A distance metric, defined by its per-axis contribution.
pub trait DistanceMetric {
    /// The per-axis contribution between two coordinates, in the model.
    spec fn dist1_spec(a: int, b: int) -> int;

    /// A per-axis contribution is never negative.
    proof fn lemma_dist1_nonneg(a: int, b: int)
        ensures
            0 <= Self::dist1_spec(a, b),
    ;

    /// On in-range coordinates a per-axis contribution never exceeds
    /// [`DIST1_LIMIT`].
    proof fn lemma_dist1_bound(a: int, b: int)
        requires
            -COORD_LIMIT <= a <= COORD_LIMIT,
            -COORD_LIMIT <= b <= COORD_LIMIT,
        ensures
            Self::dist1_spec(a, b) <= DIST1_LIMIT,
    ;

    /// Gap monotonicity: if `p` lies on the far side of a splitting value
    /// `v` as seen from `q`, its contribution is at least the contribution
    /// of the split itself. This is what justifies pruning a far subtree.
    proof fn lemma_dist1_gap(q: int, v: int, p: int)
        requires
            q <= v <= p || p <= v <= q,
        ensures
            Self::dist1_spec(q, p) >= Self::dist1_spec(q, v),
    ;

    /// Computes the per-axis contribution between two in-range coordinates.
    fn dist1(a: i64, b: i64) -> (r: i64)
        requires
            coord_in_range(a),
            coord_in_range(b),
        ensures
            r as int == Self::dist1_spec(a as int, b as int),
    ;
}

/// Sum of the per-axis contributions on the first `n` axes.
pub open spec fn dist_upto<D: DistanceMetric>(q: Seq<i64>, p: Seq<i64>, n: int) -> int
    decreases n,
{
    if n <= 0 {
        0
    } else {
        dist_upto::<D>(q, p, n - 1) + D::dist1_spec(q[n - 1] as int, p[n - 1] as int)
    }
}

/// The full distance between two points: the sum over all axes of the
/// per-axis contributions.
pub open spec fn dist_spec<D: DistanceMetric>(q: Seq<i64>, p: Seq<i64>) -> int {
    dist_upto::<D>(q, p, q.len() as int)
}

/// A partial distance sum over `n` axes is at least zero and at most
/// `n * DIST1_LIMIT` when both points are in range.
pub proof fn lemma_dist_upto_bound<D: DistanceMetric>(q: Seq<i64>, p: Seq<i64>, n: int)
    requires
        0 <= n <= q.len(),
        n <= p.len(),
        point_in_range(q),
        point_in_range(p),
    ensures
        0 <= dist_upto::<D>(q, p, n) <= n * DIST1_LIMIT,
    decreases n,
{
    if n > 0 {
        lemma_dist_upto_bound::<D>(q, p, n - 1);
        D::lemma_dist1_nonneg(q[n - 1] as int, p[n - 1] as int);
        D::lemma_dist1_bound(q[n - 1] as int, p[n - 1] as int);
        assert((n - 1) * DIST1_LIMIT + DIST1_LIMIT == n * DIST1_LIMIT) by (nonlinear_arith);
    } else {
        assert(n * DIST1_LIMIT == 0) by (nonlinear_arith)
            requires
                n == 0,
        ;
    }
}

/// Multiplying both sides of `a <= b` by a non-negative factor keeps the
/// inequality.
pub proof fn lemma_mul_le(a: int, b: int, c: int)
    requires
        a <= b,
        0 <= c,
    ensures
        a * c <= b * c,
{
    assert(a * c <= b * c) by (nonlinear_arith)
        requires
            a <= b,
            0 <= c,
    ;
}

/// A distance summed over at most [`DIM_LIMIT`] axes fits in `i64`.
pub proof fn lemma_dist_total_bound(k: int)
    requires
        0 <= k <= DIM_LIMIT,
    ensures
        k * DIST1_LIMIT < i64::MAX,
{
    lemma_mul_le(k, DIM_LIMIT as int, DIST1_LIMIT as int);
    assert(1048576 * 4398046511104 < 0x7fff_ffff_ffff_ffff) by (nonlinear_arith);
}

/// Computes the full distance between two points.
pub fn distance<D: DistanceMetric, const K: usize>(a: &[i64; K], b: &[i64; K]) -> (r: i64)
    requires
        K <= DIM_LIMIT,
        point_in_range(a@),
        point_in_range(b@),
    ensures
        r as int == dist_spec::<D>(a@, b@),
{
    let mut acc: i64 = 0;
    let mut d: usize = 0;
    while d < K
        invariant
            0 <= d <= K,
            K <= DIM_LIMIT,
            point_in_range(a@),
            point_in_range(b@),
            acc as int == dist_upto::<D>(a@, b@, d as int),
            0 <= acc as int <= (d as int) * DIST1_LIMIT,
        decreases K - d,
    {
        let c = D::dist1(a[d], b[d]);
        proof {
            D::lemma_dist1_nonneg(a@[d as int] as int, b@[d as int] as int);
            D::lemma_dist1_bound(a@[d as int] as int, b@[d as int] as int);
            lemma_mul_le(d as int + 1, K as int, DIST1_LIMIT as int);
            lemma_dist_total_bound(K as int);
            assert((d as int) * DIST1_LIMIT + DIST1_LIMIT == (d as int + 1) * DIST1_LIMIT)
                by (nonlinear_arith);
        }
        acc = acc + c;
        d = d + 1;
    }
    acc
}

/// The squared-Euclidean metric: per-axis contribution `(a - b)^2`.
pub struct SquaredEuclidean;

/// The Manhattan (taxicab) metric: per-axis contribution `|a - b|`.
pub struct Manhattan;

impl DistanceMetric for SquaredEuclidean {
    open spec fn dist1_spec(a: int, b: int) -> int {
        (a - b) * (a - b)
    }

    proof fn lemma_dist1_nonneg(a: int, b: int) {
        assert((a - b) * (a - b) >= 0) by (nonlinear_arith);
    }

    proof fn lemma_dist1_bound(a: int, b: int) {
        lemma_abs_diff_bound(a, b);
        let d = abs_diff_spec(a, b);
        assert((a - b) * (a - b) == d * d) by (nonlinear_arith)
            requires
                d == a - b || d == b - a,
        ;
    }

    proof fn lemma_dist1_gap(q: int, v: int, p: int) {
        assert((q - p) * (q - p) >= (q - v) * (q - v)) by (nonlinear_arith)
            requires
                q <= v <= p || p <= v <= q,
        ;
    }

    fn dist1(a: i64, b: i64) -> (r: i64) {
        let d = a - b;
        proof {
            assert(d * d <= 4398046511104 && d * d >= 0) by (nonlinear_arith)
                requires
                    -2097152 <= d <= 2097152,
            ;
        }
        d * d
    }
}

impl DistanceMetric for Manhattan {
    open spec fn dist1_spec(a: int, b: int) -> int {
        abs_diff_spec(a, b)
    }

    proof fn lemma_dist1_nonneg(a: int, b: int) {
    }

    proof fn lemma_dist1_bound(a: int, b: int) {
        lemma_abs_diff_bound(a, b);
        assert(2 * COORD_LIMIT <= DIST1_LIMIT);
    }

    proof fn lemma_dist1_gap(q: int, v: int, p: int) {
    }

    fn dist1(a: i64, b: i64) -> (r: i64) {
        a.saturating_dist(b)
    }
}

} // verus!
