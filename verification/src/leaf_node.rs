//! Leaf buckets and the "best from bucket" kernel.
//!
//! A leaf stores up to `B` points in a dimension-major layout: one array
//! of `B` coordinates per dimension, so the per-axis distance accumulation
//! runs as a straight scan over each coordinate array. The kernel then
//! picks the closest live slot, ties going to the lowest slot index.

use vstd::prelude::*;
use crate::axis::Axis;
use crate::collector::Entry;
use crate::collector::fold_nearest;
use crate::collector::collect_within;
use crate::distance_metric::DistanceMetric;
use crate::distance_metric::coord_in_range;
use crate::distance_metric::point_in_range;
use crate::distance_metric::dist_upto;
use crate::distance_metric::dist_spec;
use crate::distance_metric::lemma_dist_upto_bound;
use crate::distance_metric::lemma_mul_le;
use crate::distance_metric::lemma_dist_total_bound;
use crate::DIST1_LIMIT;
use crate::DIM_LIMIT;

verus! {

broadcast use vstd::array::group_array_axioms;

/// A bucket of up to `B` points in `K` dimensions, stored
/// dimension-major: `content_points[d][i]` is coordinate `d` of slot `i`.
/// Slots at and beyond `size` are padding and never reach a query result.
pub struct LeafNode<const K: usize, const B: usize> {
    /// One coordinate array per dimension.
    pub content_points: [[i64; B]; K],
    /// The item stored in each slot.
    pub content_items: [u64; B],
    /// The number of live slots.
    pub size: usize,
}

/// The point held in slot `j` of a leaf, as a coordinate sequence.
pub open spec fn leaf_point<const K: usize, const B: usize>(
    l: LeafNode<K, B>,
    j: int,
) -> Seq<i64> {
    Seq::new(K as nat, |d: int| l.content_points[d][j])
}

/// The live entries of a leaf, in slot order.
pub open spec fn leaf_entries<const K: usize, const B: usize>(l: LeafNode<K, B>) -> Seq<Entry> {
    Seq::new(l.size as nat, |j: int| (leaf_point(l, j), l.content_items[j]))
}

impl<const K: usize, const B: usize> LeafNode<K, B> {
    /// Well-formedness: no more than `B` live slots, and every slot —
    /// padding included — holds in-range coordinates, so distance
    /// accumulation over the whole bucket never overflows.
    pub open spec fn wf(self) -> bool {
        &&& self.size <= B
        &&& forall|d: int, j: int|
            0 <= d < K && 0 <= j < B ==> coord_in_range(#[trigger] self.content_points[d][j])
    }

    /// Creates an empty leaf; every slot is zeroed padding.
    pub fn new() -> (r: Self)
        ensures
            r.wf(),
            r.size == 0,
            leaf_entries(r) == Seq::<Entry>::empty(),
            forall|d: int, j: int|
                0 <= d < K && 0 <= j < B ==> #[trigger] r.content_points[d][j] == 0,
            forall|j: int| 0 <= j < B ==> #[trigger] r.content_items[j] == 0,
    {
        let r = LeafNode {
            content_points: vstd::array::array_fill_for_copy_types(
                vstd::array::array_fill_for_copy_types(<i64 as Axis>::zero()),
            ),
            content_items: vstd::array::array_fill_for_copy_types(0u64),
            size: 0,
        };
        proof {
            assert(leaf_entries(r) =~= Seq::<Entry>::empty());
        }
        r
    }

    /// Scans the bucket against `query` and updates the caller's running
    /// best pair exactly as the single-best collector would on this
    /// leaf's live entries, in slot order.
    pub fn nearest_one<D: DistanceMetric>(
        &self,
        query: &[i64; K],
        best_dist: &mut i64,
        best_item: &mut u64,
    )
        requires
            self.wf(),
            K <= DIM_LIMIT,
            point_in_range(query@),
        ensures
            ((*final(best_dist)) as int, *final(best_item)) == fold_nearest::<D>(
                query@,
                leaf_entries(*self),
                ((*old(best_dist)) as int, *old(best_item)),
            ),
    {
        let mut acc: [i64; B] = vstd::array::array_fill_for_copy_types(0i64);
        let mut dim: usize = 0;
        while dim < K
            invariant
                dim <= K,
                K <= DIM_LIMIT,
                self.wf(),
                point_in_range(query@),
                forall|j: int|
                    0 <= j < B ==> #[trigger] acc[j] as int == dist_upto::<D>(
                        query@,
                        leaf_point(*self, j),
                        dim as int,
                    ),
            decreases K - dim,
        {
            let mut idx: usize = 0;
            while idx < B
                invariant
                    idx <= B,
                    dim < K,
                    K <= DIM_LIMIT,
                    self.wf(),
                    point_in_range(query@),
                    forall|j: int|
                        0 <= j < idx ==> #[trigger] acc[j] as int == dist_upto::<D>(
                            query@,
                            leaf_point(*self, j),
                            dim as int + 1,
                        ),
                    forall|j: int|
                        idx <= j < B ==> #[trigger] acc[j] as int == dist_upto::<D>(
                            query@,
                            leaf_point(*self, j),
                            dim as int,
                        ),
                decreases B - idx,
            {
                proof {
                    assert(point_in_range(leaf_point(*self, idx as int)));
                    assert(leaf_point(*self, idx as int).len() == K);
                    lemma_dist_upto_bound::<D>(
                        query@,
                        leaf_point(*self, idx as int),
                        dim as int,
                    );
                    D::lemma_dist1_nonneg(
                        query@[dim as int] as int,
                        leaf_point(*self, idx as int)[dim as int] as int,
                    );
                    D::lemma_dist1_bound(
                        query@[dim as int] as int,
                        leaf_point(*self, idx as int)[dim as int] as int,
                    );
                    lemma_mul_le(dim as int + 1, K as int, DIST1_LIMIT as int);
                    lemma_dist_total_bound(K as int);
                    assert((dim as int) * DIST1_LIMIT + DIST1_LIMIT == (dim as int + 1)
                        * DIST1_LIMIT) by (nonlinear_arith);
                }
                let c = D::dist1(query[dim], self.content_points[dim][idx]);
                proof {
                    assert(leaf_point(*self, idx as int)[dim as int]
                        == self.content_points[dim as int][idx as int]);
                }
                acc[idx] = <i64 as Axis>::rd_update(acc[idx], c);
                idx = idx + 1;
            }
            dim = dim + 1;
        }
        proof {
            assert(query@.len() == K);
            assert(forall|j: int|
                0 <= j < self.size ==> #[trigger] acc[j] as int == dist_spec::<D>(
                    query@,
                    leaf_entries(*self)[j].0,
                ));
            assert(forall|j: int|
                0 <= j < self.size ==> #[trigger] self.content_items[j]
                    == leaf_entries(*self)[j].1);
        }
        <i64 as BestFromDists<B>>::get_best_from_dists(
            acc,
            &self.content_items,
            self.size,
            best_dist,
            best_item,
        );
        proof {
            lemma_fold_bucket_matches::<D>(
                acc@.map_values(|x: i64| x.to_int()),
                self.content_items@,
                query@,
                leaf_entries(*self),
                self.size as int,
                ((*old(best_dist)) as int, *old(best_item)),
            );
        }
    }
}

impl<const K: usize, const B: usize> LeafNode<K, B> {
    /// The distance from `query` to the point in live slot `j`.
    pub fn distance_to_slot<D: DistanceMetric>(&self, query: &[i64; K], j: usize) -> (r: i64)
        requires
            self.wf(),
            j < self.size,
            K <= DIM_LIMIT,
            point_in_range(query@),
        ensures
            r as int == dist_spec::<D>(query@, leaf_entries(*self)[j as int].0),
            0 <= r,
    {
        let mut acc: i64 = 0;
        let mut d: usize = 0;
        while d < K
            invariant
                d <= K,
                j < self.size,
                self.wf(),
                K <= DIM_LIMIT,
                point_in_range(query@),
                acc as int == dist_upto::<D>(query@, leaf_point(*self, j as int), d as int),
                0 <= acc as int <= (d as int) * DIST1_LIMIT,
            decreases K - d,
        {
            proof {
                assert(point_in_range(leaf_point(*self, j as int)));
                assert(leaf_point(*self, j as int).len() == K);
                D::lemma_dist1_nonneg(
                    query@[d as int] as int,
                    leaf_point(*self, j as int)[d as int] as int,
                );
                D::lemma_dist1_bound(
                    query@[d as int] as int,
                    leaf_point(*self, j as int)[d as int] as int,
                );
                lemma_mul_le(d as int + 1, K as int, DIST1_LIMIT as int);
                lemma_dist_total_bound(K as int);
                assert((d as int) * DIST1_LIMIT + DIST1_LIMIT == (d as int + 1) * DIST1_LIMIT)
                    by (nonlinear_arith);
            }
            let c = D::dist1(query[d], self.content_points[d][j]);
            proof {
                assert(leaf_point(*self, j as int)[d as int]
                    == self.content_points[d as int][j as int]);
            }
            acc = <i64 as Axis>::rd_update(acc, c);
            d = d + 1;
        }
        proof {
            assert(query@.len() == K);
        }
        acc
    }

    /// Appends to `results` every live entry of this bucket whose
    /// distance from `query` does not exceed `radius`, in slot order,
    /// each paired with its distance — exactly what the "within"
    /// collector keeps from this leaf.
    pub fn within<D: DistanceMetric>(
        &self,
        query: &[i64; K],
        radius: i64,
        results: &mut Vec<(i64, u64)>,
    )
        requires
            self.wf(),
            K <= DIM_LIMIT,
            point_in_range(query@),
        ensures
            final(results)@ == old(results)@ + collect_within::<D>(
                query@,
                leaf_entries(*self),
                radius as int,
            ),
    {
        let mut j: usize = 0;
        while j < self.size
            invariant
                j <= self.size,
                self.wf(),
                K <= DIM_LIMIT,
                point_in_range(query@),
                results@ == old(results)@ + collect_within::<D>(
                    query@,
                    leaf_entries(*self).take(j as int),
                    radius as int,
                ),
            decreases self.size - j,
        {
            let mut acc: i64 = 0;
            let mut d: usize = 0;
            while d < K
                invariant
                    d <= K,
                    j < self.size,
                    self.wf(),
                    K <= DIM_LIMIT,
                    point_in_range(query@),
                    acc as int == dist_upto::<D>(query@, leaf_point(*self, j as int), d as int),
                    0 <= acc as int <= (d as int) * DIST1_LIMIT,
                decreases K - d,
            {
                proof {
                    assert(point_in_range(leaf_point(*self, j as int)));
                    assert(leaf_point(*self, j as int).len() == K);
                    D::lemma_dist1_nonneg(
                        query@[d as int] as int,
                        leaf_point(*self, j as int)[d as int] as int,
                    );
                    D::lemma_dist1_bound(
                        query@[d as int] as int,
                        leaf_point(*self, j as int)[d as int] as int,
                    );
                    lemma_mul_le(d as int + 1, K as int, DIST1_LIMIT as int);
                    lemma_dist_total_bound(K as int);
                    assert((d as int) * DIST1_LIMIT + DIST1_LIMIT == (d as int + 1)
                        * DIST1_LIMIT) by (nonlinear_arith);
                }
                let c = D::dist1(query[d], self.content_points[d][j]);
                proof {
                    assert(leaf_point(*self, j as int)[d as int]
                        == self.content_points[d as int][j as int]);
                }
                acc = <i64 as Axis>::rd_update(acc, c);
                d = d + 1;
            }
            proof {
                assert(query@.len() == K);
                assert(acc as int == dist_spec::<D>(query@, leaf_entries(*self)[j as int].0));
            }
            if acc <= radius {
                results.push((acc, self.content_items[j]));
            }
            proof {
                let pts = leaf_entries(*self);
                assert(pts.take(j as int + 1).drop_last() =~= pts.take(j as int));
                assert(pts.take(j as int + 1).last() == pts[j as int]);
                assert(leaf_entries(*self)[j as int].1 == self.content_items[j as int]);
                if acc as int <= radius as int {
                    assert(results@ =~= old(results)@ + collect_within::<D>(
                        query@,
                        pts.take(j as int + 1),
                        radius as int,
                    ));
                }
            }
            j = j + 1;
        }
        proof {
            assert(leaf_entries(*self).take(self.size as int) =~= leaf_entries(*self));
        }
    }
}

impl<const K: usize, const B: usize> Default for LeafNode<K, B> {
    /// An empty leaf, equal to a freshly created one.
    fn default() -> (r: Self)
        ensures
            r.wf(),
            r.size == 0,
            leaf_entries(r) == Seq::<Entry>::empty(),
            forall|d: int, j: int|
                0 <= d < K && 0 <= j < B ==> #[trigger] r.content_points[d][j] == 0,
            forall|j: int| 0 <= j < B ==> #[trigger] r.content_items[j] == 0,
    {
        Self::new()
    }
}

/// The bucket kernel fold: scan the first `n` slots in index order and
/// replace the running best only on a strictly smaller distance.
pub open spec fn fold_bucket(
    acc: Seq<int>,
    items: Seq<u64>,
    n: int,
    best: (int, u64),
) -> (int, u64)
    decreases n,
{
    if n <= 0 {
        best
    } else {
        let prev = fold_bucket(acc, items, n - 1, best);
        if acc[n - 1] < prev.0 {
            (acc[n - 1], items[n - 1])
        } else {
            prev
        }
    }
}

/// When the accumulated slot distances agree with the true distances of a
/// leaf's entries, the bucket fold and the single-best collector fold
/// agree.
pub proof fn lemma_fold_bucket_matches<D: DistanceMetric>(
    acc: Seq<int>,
    items: Seq<u64>,
    q: Seq<i64>,
    pts: Seq<Entry>,
    n: int,
    best: (int, u64),
)
    requires
        pts.len() == n,
        0 <= n <= acc.len(),
        n <= items.len(),
        forall|j: int| 0 <= j < n ==> acc[j] == dist_spec::<D>(q, #[trigger] pts[j].0),
        forall|j: int| 0 <= j < n ==> items[j] == #[trigger] pts[j].1,
    ensures
        fold_bucket(acc, items, n, best) == fold_nearest::<D>(q, pts, best),
    decreases n,
{
    if n > 0 {
        assert(forall|j: int| 0 <= j < n - 1 ==> pts.drop_last()[j] == #[trigger] pts[j]);
        lemma_fold_bucket_matches::<D>(acc, items, q, pts.drop_last(), n - 1, best);
        assert(pts.last() == pts[n - 1]);
    }
}

/// The scalar-dispatch seam for the bucket kernel: finds the closest live
/// slot and updates the caller's running best.
pub trait BestFromDists<const B: usize>: Axis {
    /// Updates `(best_dist, best_item)` exactly as the bucket fold over
    /// the first `size` slots does.
    fn get_best_from_dists(
        acc: [Self; B],
        items: &[u64; B],
        size: usize,
        best_dist: &mut Self,
        best_item: &mut u64,
    )
        requires
            size <= B,
        ensures
            ((*final(best_dist)).to_int(), *final(best_item)) == fold_bucket(
                acc@.map_values(|x: Self| x.to_int()),
                items@,
                size as int,
                ((*old(best_dist)).to_int(), *old(best_item)),
            ),
    ;
}

impl<const B: usize> BestFromDists<B> for i64 {
    fn get_best_from_dists(
        acc: [Self; B],
        items: &[u64; B],
        size: usize,
        best_dist: &mut Self,
        best_item: &mut u64,
    ) {
        let mut j: usize = 0;
        while j < size
            invariant
                j <= size,
                size <= B,
                ((*best_dist) as int, *best_item) == fold_bucket(
                    acc@.map_values(|x: i64| x.to_int()),
                    items@,
                    j as int,
                    ((*old(best_dist)) as int, *old(best_item)),
                ),
            decreases size - j,
        {
            if acc[j] < *best_dist {
                *best_dist = acc[j];
                *best_item = items[j];
            }
            j = j + 1;
        }
    }
}

} // verus!
