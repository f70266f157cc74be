//! The mutable tree variant.
//!
//! A `KdTree` accepts inserts one point at a time; after every insert
//! the search arena is rebuilt from the stored entries, so the tree
//! invariant — every stem partitioning its subtree around its split
//! value — holds after any sequence of inserts, and every query answers
//! against exactly the entries added so far.

use vstd::prelude::*;
use crate::collector::Entry;
use crate::collector::le_pair;
use crate::collector::sorted_pairs;
use crate::collector::fold_nearest;
use crate::collector::fold_knn;
use crate::collector::collect_within;
use crate::collector::is_entry_pair;
use crate::collector::le_item;
use crate::collector::sorted_items;
use crate::query::visit_entries;
use crate::distance_metric::DistanceMetric;
use crate::distance_metric::point_in_range;
use crate::distance_metric::dist_spec;
use crate::tree::ImmutableKdTree;
use crate::tree::to_entries;
use crate::tree::entries_in_range;
use crate::DIM_LIMIT;

verus! {

broadcast use
    vstd::array::group_array_axioms,
    vstd::seq_lib::group_to_multiset_ensures,
    vstd::multiset::group_multiset_axioms;

/// A k-d tree that accepts inserts. `K` is the dimensionality, `B` the
/// bucket capacity of the rebuilt arena's leaves.
pub struct KdTree<const K: usize, const B: usize> {
    /// The stored entries in insertion order.
    pub stored: Vec<([i64; K], u64)>,
    /// The search arena over exactly those entries.
    pub tree: ImmutableKdTree<K, B>,
}

impl<const K: usize, const B: usize> KdTree<K, B> {
    /// The invariant: the arena is well formed and holds exactly the
    /// stored entries.
    pub open spec fn wf(self) -> bool {
        &&& self.tree.wf()
        &&& entries_in_range(self.stored@)
        &&& self.tree.entries().to_multiset() == to_entries(self.stored@).to_multiset()
        &&& self.tree.entries().len() == self.stored@.len()
    }

    /// The stored entries — each point with its item, in insertion
    /// order: the tree's mathematical model.
    pub open spec fn entries(self) -> Seq<Entry> {
        to_entries(self.stored@)
    }

    /// An empty mutable tree.
    pub fn new() -> (r: Self)
        requires
            1 <= K <= DIM_LIMIT,
            1 <= B,
        ensures
            r.wf(),
            r.entries() == Seq::<Entry>::empty(),
    {
        let stored: Vec<([i64; K], u64)> = Vec::new();
        let empty: Vec<([i64; K], u64)> = Vec::new();
        let tree = ImmutableKdTree::<K, B>::new_from_entries(empty);
        let r = KdTree { stored, tree };
        proof {
            assert(to_entries(r.stored@) =~= Seq::<Entry>::empty());
        }
        r
    }

    /// An empty mutable tree with room reserved for `capacity` entries.
    pub fn with_capacity(capacity: usize) -> (r: Self)
        requires
            1 <= K <= DIM_LIMIT,
            1 <= B,
        ensures
            r.wf(),
            r.entries() == Seq::<Entry>::empty(),
    {
        let stored: Vec<([i64; K], u64)> = Vec::with_capacity(capacity);
        let empty: Vec<([i64; K], u64)> = Vec::new();
        let tree = ImmutableKdTree::<K, B>::new_from_entries(empty);
        let r = KdTree { stored, tree };
        proof {
            assert(to_entries(r.stored@) =~= Seq::<Entry>::empty());
        }
        r
    }

    /// The number of stored points.
    pub fn size(&self) -> (r: usize)
        requires
            self.wf(),
        ensures
            r == self.entries().len(),
    {
        self.stored.len()
    }

    /// Inserts one point with its item. The tree invariant holds again
    /// afterwards, over the old entries plus the new one.
    pub fn add(&mut self, point: &[i64; K], item: u64)
        requires
            old(self).wf(),
            point_in_range(point@),
        ensures
            final(self).wf(),
            final(self).entries() == old(self).entries().push((point@, item)),
    {
        self.stored.push((*point, item));
        let mut copy: Vec<([i64; K], u64)> = Vec::new();
        let n: usize = self.stored.len();
        let mut i: usize = 0;
        while i < n
            invariant
                i <= n,
                n == self.stored@.len(),
                copy@ =~= self.stored@.take(i as int),
                entries_in_range(self.stored@),
            decreases n - i,
        {
            copy.push(self.stored[i]);
            proof {
                assert(copy@ =~= self.stored@.take(i as int + 1));
            }
            i = i + 1;
        }
        proof {
            assert(copy@ =~= self.stored@);
            assert(entries_in_range(copy@));
        }
        self.tree = ImmutableKdTree::<K, B>::new_from_entries(copy);
        proof {
            assert(to_entries(self.stored@) =~= to_entries(old(self).stored@).push(
                (point@, item),
            ));
        }
    }

    /// Returns the distance to a nearest stored point and that point's
    /// item: the returned distance is minimal over every stored point
    /// and the item belongs to a point at that distance.
    pub fn nearest_one<D: DistanceMetric>(&self, query: &[i64; K]) -> (r: (i64, u64))
        requires
            self.wf(),
            self.entries().len() > 0,
            point_in_range(query@),
        ensures
            (r.0 as int, r.1) == fold_nearest::<D>(
                query@,
                visit_entries(self.tree.nodes@, 0, query@, 0),
                (i64::MAX as int, 0u64),
            ),
            forall|j: int| 0 <= j < self.entries().len() ==> r.0 as int <= dist_spec::<D>(
                query@,
                #[trigger] self.entries()[j].0,
            ),
            exists|j: int|
                0 <= j < self.entries().len() && dist_spec::<D>(query@, self.entries()[j].0)
                    == r.0 as int && self.entries()[j].1 == r.1,
    {
        let r = self.tree.nearest_one::<D>(query);
        proof {
            let tp = self.tree.entries();
            let mp = self.entries();
            assert forall|j: int| 0 <= j < mp.len() implies r.0 as int <= dist_spec::<D>(
                query@,
                mp[j].0,
            ) by {
                assert(tp.to_multiset().count(mp[j]) > 0);
                assert(tp.contains(mp[j]));
                let w = choose|w: int| 0 <= w < tp.len() && tp[w] == mp[j];
                assert(r.0 as int <= dist_spec::<D>(query@, tp[w].0));
            }
            let j = choose|j: int|
                0 <= j < tp.len() && dist_spec::<D>(query@, tp[j].0) == r.0 as int && tp[j].1
                    == r.1;
            assert(mp.to_multiset().count(tp[j]) > 0);
            assert(mp.contains(tp[j]));
            let w = choose|w: int| 0 <= w < mp.len() && mp[w] == tp[j];
            assert(dist_spec::<D>(query@, mp[w].0) == r.0 as int && mp[w].1 == r.1);
        }
        r
    }

    /// Returns every stored entry within `radius` of `query`, each with
    /// its distance.
    pub fn within<D: DistanceMetric>(&self, query: &[i64; K], radius: i64) -> (r: Vec<(i64, u64)>)
        requires
            self.wf(),
            point_in_range(query@),
        ensures
            r@ == collect_within::<D>(
                query@,
                visit_entries(self.tree.nodes@, 0, query@, 0),
                radius as int,
            ),
            forall|i: int|
                0 <= i < r@.len() ==> (#[trigger] r@[i]).0 <= radius && exists|j: int|
                    0 <= j < self.entries().len() && dist_spec::<D>(query@, self.entries()[j].0)
                        == r@[i].0 as int && self.entries()[j].1 == r@[i].1,
            forall|j: int|
                0 <= j < self.entries().len() && dist_spec::<D>(
                    query@,
                    (#[trigger] self.entries()[j]).0,
                ) <= radius ==> r@.contains(
                    (dist_spec::<D>(query@, self.entries()[j].0) as i64, self.entries()[j].1),
                ),
    {
        let r = self.tree.within::<D>(query, radius);
        proof {
            let tp = self.tree.entries();
            let mp = self.entries();
            assert forall|i: int| 0 <= i < r@.len() implies (#[trigger] r@[i]).0 <= radius
                && exists|j: int|
                0 <= j < mp.len() && dist_spec::<D>(query@, mp[j].0) == r@[i].0 as int && mp[j].1
                    == r@[i].1 by {
                let j = choose|j: int|
                    0 <= j < tp.len() && dist_spec::<D>(query@, tp[j].0) == r@[i].0 as int
                        && tp[j].1 == r@[i].1;
                assert(mp.to_multiset().count(tp[j]) > 0);
                assert(mp.contains(tp[j]));
                let w = choose|w: int| 0 <= w < mp.len() && mp[w] == tp[j];
                assert(dist_spec::<D>(query@, mp[w].0) == r@[i].0 as int && mp[w].1 == r@[i].1);
            }
            assert forall|j: int|
                0 <= j < mp.len() && dist_spec::<D>(query@, (#[trigger] mp[j]).0)
                    <= radius implies r@.contains(
                (dist_spec::<D>(query@, mp[j].0) as i64, mp[j].1),
            ) by {
                assert(tp.to_multiset().count(mp[j]) > 0);
                assert(tp.contains(mp[j]));
                let w = choose|w: int| 0 <= w < tp.len() && tp[w] == mp[j];
                assert(dist_spec::<D>(query@, tp[w].0) <= radius as int);
            }
        }
        r
    }

    /// Returns, of the stored entries within `radius` of `query`, the
    /// `n` with the smallest item identifiers, ascending by item.
    pub fn best_n_within<D: DistanceMetric>(&self, query: &[i64; K], radius: i64, n: usize) -> (r:
        Vec<(i64, u64)>)
        requires
            self.wf(),
            point_in_range(query@),
        ensures
            n == 0 ==> r@ == Seq::<(i64, u64)>::empty(),
            sorted_items(r@),
            forall|x: (i64, u64)| #[trigger] r@.to_multiset().count(x)
                <= collect_within::<D>(
                query@,
                visit_entries(self.tree.nodes@, 0, query@, 0),
                radius as int,
            ).to_multiset().count(x),
            forall|i: int|
                0 <= i < r@.len() ==> (#[trigger] r@[i]).0 <= radius && exists|j: int|
                    0 <= j < self.entries().len() && dist_spec::<D>(query@, self.entries()[j].0)
                        == r@[i].0 as int && self.entries()[j].1 == r@[i].1,
            1 <= n ==> forall|j: int|
                0 <= j < self.entries().len() && dist_spec::<D>(
                    query@,
                    (#[trigger] self.entries()[j]).0,
                ) <= radius ==> r@.contains(
                    (dist_spec::<D>(query@, self.entries()[j].0) as i64, self.entries()[j].1),
                ) || (r@.len() == n && le_item(
                    r@.last(),
                    (dist_spec::<D>(query@, self.entries()[j].0) as i64, self.entries()[j].1),
                )),
    {
        let r = self.tree.best_n_within::<D>(query, radius, n);
        proof {
            let tp = self.tree.entries();
            let mp = self.entries();
            assert forall|i: int| 0 <= i < r@.len() implies (#[trigger] r@[i]).0 <= radius
                && exists|j: int|
                0 <= j < mp.len() && dist_spec::<D>(query@, mp[j].0) == r@[i].0 as int && mp[j].1
                    == r@[i].1 by {
                let j = choose|j: int|
                    0 <= j < tp.len() && dist_spec::<D>(query@, tp[j].0) == r@[i].0 as int
                        && tp[j].1 == r@[i].1;
                assert(mp.to_multiset().count(tp[j]) > 0);
                assert(mp.contains(tp[j]));
                let w = choose|w: int| 0 <= w < mp.len() && mp[w] == tp[j];
                assert(dist_spec::<D>(query@, mp[w].0) == r@[i].0 as int && mp[w].1 == r@[i].1);
            }
            if n >= 1 {
                assert forall|j: int|
                    0 <= j < mp.len() && dist_spec::<D>(query@, (#[trigger] mp[j]).0)
                        <= radius implies r@.contains(
                    (dist_spec::<D>(query@, mp[j].0) as i64, mp[j].1),
                ) || (r@.len() == n && le_item(
                    r@.last(),
                    (dist_spec::<D>(query@, mp[j].0) as i64, mp[j].1),
                )) by {
                    assert(tp.to_multiset().count(mp[j]) > 0);
                    assert(tp.contains(mp[j]));
                    let w = choose|w: int| 0 <= w < tp.len() && tp[w] == mp[j];
                    assert(dist_spec::<D>(query@, tp[w].0) <= radius as int);
                }
            }
        }
        r
    }

    /// Returns the `n` closest stored entries, ascending by distance
    /// with ties broken by ascending item, and the empty list when
    /// nothing is asked for.
    pub fn nearest_n<D: DistanceMetric>(&self, query: &[i64; K], n: usize) -> (r: Vec<(i64, u64)>)
        requires
            self.wf(),
            point_in_range(query@),
        ensures
            n == 0 ==> r@ == Seq::<(i64, u64)>::empty(),
            1 <= n ==> r@ == fold_knn::<D>(
                query@,
                visit_entries(self.tree.nodes@, 0, query@, 0),
                Seq::<(i64, u64)>::empty(),
                n as int,
            ),
            sorted_pairs(r@),
            r@.len() == if self.entries().len() < n {
                self.entries().len()
            } else {
                n as nat
            },
            forall|i: int|
                0 <= i < r@.len() ==> is_entry_pair::<D>(query@, self.entries(), #[trigger] r@[i]),
            1 <= n ==> forall|j: int|
                0 <= j < self.entries().len() ==> r@.contains(
                    (
                        dist_spec::<D>(query@, (#[trigger] self.entries()[j]).0) as i64,
                        self.entries()[j].1,
                    ),
                ) || (r@.len() == n && le_pair(
                    r@.last(),
                    (dist_spec::<D>(query@, self.entries()[j].0) as i64, self.entries()[j].1),
                )),
    {
        let r = self.tree.nearest_n::<D>(query, n);
        proof {
            let tp = self.tree.entries();
            let mp = self.entries();
            assert forall|i: int| 0 <= i < r@.len() implies is_entry_pair::<D>(
                query@,
                mp,
                #[trigger] r@[i],
            ) by {
                assert(is_entry_pair::<D>(query@, tp, r@[i]));
                let j = choose|j: int|
                    0 <= j < tp.len() && dist_spec::<D>(query@, tp[j].0) == r@[i].0 as int
                        && tp[j].1 == r@[i].1;
                assert(mp.to_multiset().count(tp[j]) > 0);
                assert(mp.contains(tp[j]));
                let w = choose|w: int| 0 <= w < mp.len() && mp[w] == tp[j];
                assert(dist_spec::<D>(query@, mp[w].0) == r@[i].0 as int && mp[w].1 == r@[i].1);
            }
            if n >= 1 {
                assert forall|j: int| 0 <= j < mp.len() implies r@.contains(
                    (dist_spec::<D>(query@, (#[trigger] mp[j]).0) as i64, mp[j].1),
                ) || (r@.len() == n && le_pair(
                    r@.last(),
                    (dist_spec::<D>(query@, mp[j].0) as i64, mp[j].1),
                )) by {
                    assert(tp.to_multiset().count(mp[j]) > 0);
                    assert(tp.contains(mp[j]));
                    let w = choose|w: int| 0 <= w < tp.len() && tp[w] == mp[j];
                    assert(r@.contains(
                        (dist_spec::<D>(query@, tp[w].0) as i64, tp[w].1),
                    ) || (r@.len() == n && le_pair(
                        r@.last(),
                        (dist_spec::<D>(query@, tp[w].0) as i64, tp[w].1),
                    )));
                }
            }
        }
        r
    }
}

} // verus!
