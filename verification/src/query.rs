//! The branch-and-bound traversal engine.
//!
//! A query walks the arena holding a per-axis "off-split" contribution
//! vector `off` and its sum `rd`: a lower bound on the distance from the
//! query point to anything stored in the current subtree. At a stem the
//! near child — the one on the query's side of the split — is visited
//! first; the far child is visited only when `rd`, recharged on the
//! stem's axis, still does not exceed the collector's pruning radius.
//! The candidates a traversal offers to its collector are exactly
//! [`visit_entries`], the entries in near-first order; pruning is proved
//! to never change what the collector returns.

use vstd::prelude::*;
use crate::collector::Entry;
use crate::collector::fold_nearest;
use crate::collector::collect_within;
use crate::collector::lemma_collect_within_append;
use crate::collector::lemma_collect_within_empty;
use crate::collector::lemma_collect_within_props;
use crate::collector::le_pair;
use crate::collector::lt_pair;
use crate::collector::sorted_pairs;
use crate::collector::insert_sorted;
use crate::collector::knn_step;
use crate::collector::fold_knn;
use crate::collector::entry_pairs;
use crate::collector::is_entry_pair;
use crate::collector::lemma_insert_sorted_at;
use crate::collector::lemma_fold_knn_sorted;
use crate::collector::lemma_fold_knn_no_improvement;
use crate::collector::lemma_fold_knn_append;
use crate::collector::lemma_fold_knn_seen;
use crate::collector::le_item;
use crate::collector::sorted_items;
use crate::collector::insert_item;
use crate::collector::lemma_insert_item_props;
use crate::collector::lemma_insert_item_at;
use crate::collector::lemma_fold_nearest_append;
use crate::collector::lemma_fold_nearest_props;
use crate::collector::lemma_fold_nearest_no_improvement;
use crate::collector::lemma_fold_nearest_monotone;
use crate::distance_metric::DistanceMetric;
use crate::distance_metric::point_in_range;
use crate::distance_metric::dist_upto;
use crate::distance_metric::dist_spec;
use crate::distance_metric::lemma_dist_upto_bound;
use crate::distance_metric::lemma_dist_total_bound;
use crate::leaf_node::leaf_entries;
use crate::tree::Node;
use crate::tree::ImmutableKdTree;
use crate::tree::next_dim;
use crate::tree::wf_node;
use crate::tree::subtree_entries;
use crate::tree::lemma_subtree_entries_in_range;
use crate::DIST1_LIMIT;
use crate::DIM_LIMIT;

verus! {

broadcast use
    vstd::array::group_array_axioms,
    vstd::seq_lib::group_to_multiset_ensures,
    vstd::seq_lib::lemma_multiset_commutative,
    vstd::multiset::group_multiset_axioms;

/// The candidates a traversal offers its collector, in visiting order:
/// at a stem the near child's entries first, then the far child's.
pub open spec fn visit_entries<const K: usize, const B: usize>(
    nodes: Seq<Node<K, B>>,
    i: int,
    q: Seq<i64>,
    dim: int,
) -> Seq<Entry>
    decreases nodes.len() - i,
{
    if 0 <= i < nodes.len() {
        match nodes[i] {
            Node::Stem(s) => if i < s.left < nodes.len() && i < s.right < nodes.len() {
                let nd = next_dim(dim, K as int);
                if q[dim] <= s.split_val {
                    visit_entries(nodes, s.left as int, q, nd) + visit_entries(
                        nodes,
                        s.right as int,
                        q,
                        nd,
                    )
                } else {
                    visit_entries(nodes, s.right as int, q, nd) + visit_entries(
                        nodes,
                        s.left as int,
                        q,
                        nd,
                    )
                }
            } else {
                Seq::empty()
            },
            Node::Leaf(l) => leaf_entries(l),
        }
    } else {
        Seq::empty()
    }
}

/// The visiting order is a permutation of the subtree's entries.
pub proof fn lemma_visit_permutes<const K: usize, const B: usize>(
    nodes: Seq<Node<K, B>>,
    i: int,
    q: Seq<i64>,
    dim: int,
)
    ensures
        visit_entries(nodes, i, q, dim).to_multiset() == subtree_entries(nodes, i).to_multiset(),
    decreases nodes.len() - i,
{
    if 0 <= i < nodes.len() {
        match nodes[i] {
            Node::Stem(s) => {
                if i < s.left < nodes.len() && i < s.right < nodes.len() {
                    let nd = next_dim(dim, K as int);
                    lemma_visit_permutes(nodes, s.left as int, q, nd);
                    lemma_visit_permutes(nodes, s.right as int, q, nd);
                    let vl = visit_entries(nodes, s.left as int, q, nd);
                    let vr = visit_entries(nodes, s.right as int, q, nd);
                    assert((vl + vr).to_multiset() =~= (vr + vl).to_multiset());
                }
            },
            Node::Leaf(l) => {},
        }
    }
}

/// Sum of the first `n` per-axis contributions of `off`.
pub open spec fn sum_off(off: Seq<i64>, n: int) -> int
    decreases n,
{
    if n <= 0 {
        0
    } else {
        sum_off(off, n - 1) + off[n - 1]
    }
}

/// A bounded `off` vector has a bounded sum.
pub proof fn lemma_sum_off_bound(off: Seq<i64>, n: int, lim: int)
    requires
        0 <= n <= off.len(),
        forall|d: int| 0 <= d < n ==> 0 <= #[trigger] off[d] <= lim,
    ensures
        0 <= sum_off(off, n) <= n * lim,
    decreases n,
{
    if n > 0 {
        lemma_sum_off_bound(off, n - 1, lim);
        assert((n - 1) * lim + lim == n * lim) by (nonlinear_arith);
    } else {
        assert(n * lim == 0) by (nonlinear_arith)
            requires
                n == 0,
        ;
    }
}

/// Recharging one axis changes the sum by the difference on that axis.
pub proof fn lemma_sum_off_update(off: Seq<i64>, n: int, d: int, x: i64)
    requires
        0 <= d < n <= off.len(),
    ensures
        sum_off(off.update(d, x), n) == sum_off(off, n) - off[d] + x,
    decreases n,
{
    if d == n - 1 {
        assert(sum_off(off.update(d, x), n - 1) == sum_off(off, n - 1)) by {
            lemma_sum_off_same(off.update(d, x), off, n - 1);
        }
    } else {
        lemma_sum_off_update(off, n - 1, d, x);
    }
}

/// Sequences equal on the first `n` slots have the same partial sums.
pub proof fn lemma_sum_off_same(a: Seq<i64>, b: Seq<i64>, n: int)
    requires
        forall|d: int| 0 <= d < n ==> #[trigger] a[d] == b[d],
    ensures
        sum_off(a, n) == sum_off(b, n),
    decreases n,
{
    if n > 0 {
        lemma_sum_off_same(a, b, n - 1);
    }
}

/// Per-axis lower bounds below a point's contributions bound its
/// distance from below.
pub proof fn lemma_dist_ge_off<D: DistanceMetric>(q: Seq<i64>, p: Seq<i64>, off: Seq<i64>, n: int)
    requires
        0 <= n,
        forall|d: int| 0 <= d < n ==> D::dist1_spec(q[d] as int, p[d] as int) >= #[trigger] off[d],
    ensures
        dist_upto::<D>(q, p, n) >= sum_off(off, n),
    decreases n,
{
    if n > 0 {
        lemma_dist_ge_off::<D>(q, p, off, n - 1);
    }
}

/// The traversal's per-axis bookkeeping: each entry of the subtree pays
/// at least `off[d]` on every axis `d`.
pub open spec fn off_below_entries<D: DistanceMetric>(
    q: Seq<i64>,
    pts: Seq<Entry>,
    off: Seq<i64>,
    k: int,
) -> bool {
    forall|j: int, d: int|
        0 <= j < pts.len() && 0 <= d < k ==> D::dist1_spec(
            q[d] as int,
            (#[trigger] pts[j].0[d]) as int,
        ) >= off[d]
}

/// A distance lower bound on a bag of entries survives reordering.
pub proof fn lemma_dist_lb_transfer<D: DistanceMetric>(
    q: Seq<i64>,
    a: Seq<Entry>,
    b: Seq<Entry>,
    bound: int,
)
    requires
        a.to_multiset() == b.to_multiset(),
        forall|j: int| 0 <= j < a.len() ==> dist_spec::<D>(q, #[trigger] a[j].0) >= bound,
    ensures
        forall|j: int| 0 <= j < b.len() ==> dist_spec::<D>(q, #[trigger] b[j].0) >= bound,
{
    assert forall|j: int| 0 <= j < b.len() implies dist_spec::<D>(q, b[j].0) >= bound by {
        assert(b.to_multiset().count(b[j]) > 0);
        assert(a.contains(b[j]));
        let i = choose|i: int| 0 <= i < a.len() && a[i] == b[j];
        assert(dist_spec::<D>(q, a[i].0) >= bound);
    }
}

/// One traversal step: updates the caller's best pair exactly as the
/// single-best collector would on this subtree's candidates in visiting
/// order. With `prune` set, subtrees whose lower bound exceeds the
/// current best are skipped — their candidates are proved to leave the
/// collector unchanged — and with `prune` cleared both children are
/// always descended.
fn nearest_one_rec<D: DistanceMetric, const K: usize, const B: usize>(
    nodes: &Vec<Node<K, B>>,
    i: usize,
    dim: usize,
    query: &[i64; K],
    off: &mut [i64; K],
    rd: i64,
    best_dist: &mut i64,
    best_item: &mut u64,
    prune: bool,
)
    requires
        1 <= K <= DIM_LIMIT,
        dim < K,
        wf_node(nodes@, i as int, dim as int),
        point_in_range(query@),
        forall|d: int| 0 <= d < K ==> 0 <= #[trigger] old(off)[d] <= DIST1_LIMIT,
        rd as int == sum_off(old(off)@, K as int),
        off_below_entries::<D>(query@, subtree_entries(nodes@, i as int), old(off)@, K as int),
    ensures
        final(off)@ == old(off)@,
        *final(best_dist) <= *old(best_dist),
        ((*final(best_dist)) as int, *final(best_item)) == fold_nearest::<D>(
            query@,
            visit_entries(nodes@, i as int, query@, dim as int),
            ((*old(best_dist)) as int, *old(best_item)),
        ),
    decreases nodes@.len() - i,
{
    let node = &nodes[i];
    match node {
        Node::Leaf(l) => {
            proof {
                lemma_fold_nearest_monotone::<D>(
                    query@,
                    leaf_entries(*l),
                    ((*best_dist) as int, *best_item),
                );
            }
            l.nearest_one::<D>(query, best_dist, best_item);
        },
        Node::Stem(s) => {
            let ghost pts = subtree_entries(nodes@, i as int);
            let ghost lpts = subtree_entries(nodes@, s.left as int);
            let ghost rpts = subtree_entries(nodes@, s.right as int);
            let ghost pair0 = ((*best_dist) as int, *best_item);
            let qd: i64 = query[dim];
            let v: i64 = s.split_val;
            let next_d: usize = if dim + 1 < K {
                dim + 1
            } else {
                0
            };
            let (near, far): (usize, usize) = if qd <= v {
                (s.left, s.right)
            } else {
                (s.right, s.left)
            };
            let ghost npts = subtree_entries(nodes@, near as int);
            let ghost fpts = subtree_entries(nodes@, far as int);
            proof {
                assert(pts == lpts + rpts);
                assert(forall|j: int| 0 <= j < lpts.len() ==> #[trigger] lpts[j] == pts[j]);
                assert(forall|j: int|
                    0 <= j < rpts.len() ==> #[trigger] rpts[j] == pts[j + lpts.len()]);
                assert(off_below_entries::<D>(query@, npts, off@, K as int));
                assert(off_below_entries::<D>(query@, fpts, off@, K as int));
            }
            nearest_one_rec::<D, K, B>(nodes, near, next_d, query, off, rd, best_dist, best_item, prune);
            let ghost pair1 = ((*best_dist) as int, *best_item);
            let ghost nvisit = visit_entries(nodes@, near as int, query@, next_d as int);
            let ghost fvisit = visit_entries(nodes@, far as int, query@, next_d as int);
            let old_off: i64 = off[dim];
            let new_off: i64 = D::dist1(qd, v);
            proof {
                D::lemma_dist1_nonneg(qd as int, v as int);
                D::lemma_dist1_bound(qd as int, v as int);
                lemma_sum_off_bound(off@, K as int, DIST1_LIMIT as int);
                lemma_dist_total_bound(K as int);
            }
            let rd2: i64 = rd - old_off + new_off;
            proof {
                lemma_sum_off_update(off@, K as int, dim as int, new_off);
                // the far child's entries pay at least the recharged
                // contribution on the split axis
                assert forall|j: int, d: int|
                    0 <= j < fpts.len() && 0 <= d < K implies D::dist1_spec(
                    query@[d] as int,
                    (#[trigger] fpts[j].0[d]) as int,
                ) >= off@.update(dim as int, new_off)[d] by {
                    if d == dim {
                        if qd <= v {
                            assert(fpts[j].0[d] >= v);
                            D::lemma_dist1_gap(qd as int, v as int, fpts[j].0[d] as int);
                        } else {
                            assert(fpts[j].0[d] <= v);
                            D::lemma_dist1_gap(qd as int, v as int, fpts[j].0[d] as int);
                        }
                    } else {
                        assert(D::dist1_spec(query@[d] as int, fpts[j].0[d] as int) >= off@[d]);
                    }
                }
            }
            if !prune || rd2 <= *best_dist {
                off[dim] = new_off;
                nearest_one_rec::<D, K, B>(
                    nodes,
                    far,
                    next_d,
                    query,
                    off,
                    rd2,
                    best_dist,
                    best_item,
                    prune,
                );
                off[dim] = old_off;
                proof {
                    assert(off@ =~= old(off)@);
                }
            } else {
                proof {
                    // every far entry's distance is at least rd2, which
                    // already exceeds the current best: skipping the far
                    // child leaves the collector unchanged
                    lemma_subtree_entries_in_range(nodes@, far as int, next_d as int);
                    assert forall|j: int|
                        0 <= j < fpts.len() implies dist_spec::<D>(query@, fpts[j].0)
                        >= rd2 as int by {
                        lemma_dist_ge_off::<D>(
                            query@,
                            fpts[j].0,
                            off@.update(dim as int, new_off),
                            K as int,
                        );
                        assert(fpts[j].0.len() == K);
                        assert(query@.len() == K);
                    }
                    lemma_visit_permutes(nodes@, far as int, query@, next_d as int);
                    lemma_dist_lb_transfer::<D>(query@, fpts, fvisit, rd2 as int);
                    lemma_fold_nearest_no_improvement::<D>(query@, fvisit, pair1, rd2 as int);
                }
            }
            proof {
                lemma_fold_nearest_append::<D>(query@, nvisit, fvisit, pair0);
                if qd <= v {
                    assert(visit_entries(nodes@, i as int, query@, dim as int) == nvisit + fvisit);
                } else {
                    assert(visit_entries(nodes@, i as int, query@, dim as int) == nvisit + fvisit);
                }
            }
        },
    }
}

/// One "within" traversal step: appends to `results` exactly what the
/// "within" collector keeps from this subtree's candidates in visiting
/// order. A far child is skipped only when its lower bound exceeds the
/// radius, so nothing inside the radius is ever missed.
fn within_rec<D: DistanceMetric, const K: usize, const B: usize>(
    nodes: &Vec<Node<K, B>>,
    i: usize,
    dim: usize,
    query: &[i64; K],
    off: &mut [i64; K],
    rd: i64,
    radius: i64,
    results: &mut Vec<(i64, u64)>,
)
    requires
        1 <= K <= DIM_LIMIT,
        dim < K,
        wf_node(nodes@, i as int, dim as int),
        point_in_range(query@),
        forall|d: int| 0 <= d < K ==> 0 <= #[trigger] old(off)[d] <= DIST1_LIMIT,
        rd as int == sum_off(old(off)@, K as int),
        off_below_entries::<D>(query@, subtree_entries(nodes@, i as int), old(off)@, K as int),
    ensures
        final(off)@ == old(off)@,
        final(results)@ == old(results)@ + collect_within::<D>(
            query@,
            visit_entries(nodes@, i as int, query@, dim as int),
            radius as int,
        ),
    decreases nodes@.len() - i,
{
    let node = &nodes[i];
    match node {
        Node::Leaf(l) => {
            l.within::<D>(query, radius, results);
        },
        Node::Stem(s) => {
            let ghost pts = subtree_entries(nodes@, i as int);
            let ghost lpts = subtree_entries(nodes@, s.left as int);
            let ghost rpts = subtree_entries(nodes@, s.right as int);
            let ghost res0 = results@;
            let qd: i64 = query[dim];
            let v: i64 = s.split_val;
            let next_d: usize = if dim + 1 < K {
                dim + 1
            } else {
                0
            };
            let (near, far): (usize, usize) = if qd <= v {
                (s.left, s.right)
            } else {
                (s.right, s.left)
            };
            let ghost npts = subtree_entries(nodes@, near as int);
            let ghost fpts = subtree_entries(nodes@, far as int);
            proof {
                assert(pts == lpts + rpts);
                assert(forall|j: int| 0 <= j < lpts.len() ==> #[trigger] lpts[j] == pts[j]);
                assert(forall|j: int|
                    0 <= j < rpts.len() ==> #[trigger] rpts[j] == pts[j + lpts.len()]);
                assert(off_below_entries::<D>(query@, npts, off@, K as int));
                assert(off_below_entries::<D>(query@, fpts, off@, K as int));
            }
            within_rec::<D, K, B>(nodes, near, next_d, query, off, rd, radius, results);
            let ghost nvisit = visit_entries(nodes@, near as int, query@, next_d as int);
            let ghost fvisit = visit_entries(nodes@, far as int, query@, next_d as int);
            let old_off: i64 = off[dim];
            let new_off: i64 = D::dist1(qd, v);
            proof {
                D::lemma_dist1_nonneg(qd as int, v as int);
                D::lemma_dist1_bound(qd as int, v as int);
                lemma_sum_off_bound(off@, K as int, DIST1_LIMIT as int);
                lemma_dist_total_bound(K as int);
            }
            let rd2: i64 = rd - old_off + new_off;
            proof {
                lemma_sum_off_update(off@, K as int, dim as int, new_off);
                assert forall|j: int, d: int|
                    0 <= j < fpts.len() && 0 <= d < K implies D::dist1_spec(
                    query@[d] as int,
                    (#[trigger] fpts[j].0[d]) as int,
                ) >= off@.update(dim as int, new_off)[d] by {
                    if d == dim {
                        if qd <= v {
                            assert(fpts[j].0[d] >= v);
                            D::lemma_dist1_gap(qd as int, v as int, fpts[j].0[d] as int);
                        } else {
                            assert(fpts[j].0[d] <= v);
                            D::lemma_dist1_gap(qd as int, v as int, fpts[j].0[d] as int);
                        }
                    } else {
                        assert(D::dist1_spec(query@[d] as int, fpts[j].0[d] as int) >= off@[d]);
                    }
                }
            }
            if rd2 <= radius {
                off[dim] = new_off;
                within_rec::<D, K, B>(nodes, far, next_d, query, off, rd2, radius, results);
                off[dim] = old_off;
                proof {
                    assert(off@ =~= old(off)@);
                }
            } else {
                proof {
                    lemma_subtree_entries_in_range(nodes@, far as int, next_d as int);
                    assert forall|j: int|
                        0 <= j < fpts.len() implies dist_spec::<D>(query@, fpts[j].0)
                        >= rd2 as int by {
                        lemma_dist_ge_off::<D>(
                            query@,
                            fpts[j].0,
                            off@.update(dim as int, new_off),
                            K as int,
                        );
                        assert(fpts[j].0.len() == K);
                        assert(query@.len() == K);
                    }
                    lemma_visit_permutes(nodes@, far as int, query@, next_d as int);
                    lemma_dist_lb_transfer::<D>(query@, fpts, fvisit, rd2 as int);
                    assert(forall|j: int|
                        0 <= j < fvisit.len() ==> dist_spec::<D>(query@, #[trigger] fvisit[j].0)
                            > radius as int);
                    lemma_collect_within_empty::<D>(query@, fvisit, radius as int);
                }
            }
            proof {
                lemma_collect_within_append::<D>(query@, nvisit, fvisit, radius as int);
                assert(visit_entries(nodes@, i as int, query@, dim as int) == nvisit + fvisit);
                assert(results@ =~= res0 + collect_within::<D>(
                    query@,
                    nvisit + fvisit,
                    radius as int,
                ));
            }
        },
    }
}

/// Compares two result pairs in the collector order: by distance, ties
/// by item.
fn le_pair_exec(a: (i64, u64), b: (i64, u64)) -> (r: bool)
    ensures
        r == le_pair(a, b),
{
    a.0 < b.0 || (a.0 == b.0 && a.1 <= b.1)
}

/// Strict comparison in the collector order.
fn lt_pair_exec(a: (i64, u64), b: (i64, u64)) -> (r: bool)
    ensures
        r == lt_pair(a, b),
{
    a.0 < b.0 || (a.0 == b.0 && a.1 < b.1)
}

/// Inserts a pair at its place in a sorted result list.
fn insert_pair(results: &mut Vec<(i64, u64)>, c: (i64, u64))
    ensures
        final(results)@ == insert_sorted(old(results)@, c),
{
    let mut pos: usize = 0;
    loop
        invariant_except_break
            pos <= results@.len(),
            results@ == old(results)@,
            forall|i: int| 0 <= i < pos ==> !le_pair(c, #[trigger] results@[i]),
        ensures
            pos <= results@.len(),
            results@ == old(results)@,
            forall|i: int| 0 <= i < pos ==> !le_pair(c, #[trigger] results@[i]),
            pos < results@.len() ==> le_pair(c, results@[pos as int]),
        decreases results@.len() - pos,
    {
        if pos >= results.len() {
            break ;
        }
        let x = results[pos];
        if le_pair_exec(c, x) {
            break ;
        }
        pos = pos + 1;
    }
    proof {
        lemma_insert_sorted_at(results@, c, pos as int);
    }
    results.insert(pos, c);
    proof {
        assert(results@ =~= old(results)@.take(pos as int) + seq![c] + old(results)@.skip(
            pos as int,
        ));
    }
}

/// Inserts a pair at its place in an item-sorted result list.
fn insert_pair_item(results: &mut Vec<(i64, u64)>, c: (i64, u64))
    ensures
        final(results)@ == insert_item(old(results)@, c),
{
    let mut pos: usize = 0;
    loop
        invariant_except_break
            pos <= results@.len(),
            results@ == old(results)@,
            forall|i: int| 0 <= i < pos ==> !le_item(c, #[trigger] results@[i]),
        ensures
            pos <= results@.len(),
            results@ == old(results)@,
            forall|i: int| 0 <= i < pos ==> !le_item(c, #[trigger] results@[i]),
            pos < results@.len() ==> le_item(c, results@[pos as int]),
        decreases results@.len() - pos,
    {
        if pos >= results.len() {
            break ;
        }
        let x = results[pos];
        if c.1 < x.1 || (c.1 == x.1 && c.0 <= x.0) {
            break ;
        }
        pos = pos + 1;
    }
    proof {
        lemma_insert_item_at(results@, c, pos as int);
    }
    results.insert(pos, c);
    proof {
        assert(results@ =~= old(results)@.take(pos as int) + seq![c] + old(results)@.skip(
            pos as int,
        ));
    }
}

/// Offers one candidate to the bounded-n collector.
fn knn_consider(results: &mut Vec<(i64, u64)>, c: (i64, u64), n: usize)
    requires
        1 <= n,
        sorted_pairs(old(results)@),
        old(results)@.len() <= n,
    ensures
        final(results)@ == knn_step(old(results)@, c, n as int),
{
    if results.len() < n {
        insert_pair(results, c);
    } else {
        let last: (i64, u64) = results[results.len() - 1];
        proof {
            assert(last == old(results)@.last());
        }
        if lt_pair_exec(c, last) {
            let _ = results.pop();
            proof {
                assert(results@ =~= old(results)@.drop_last());
                assert(forall|i: int, j: int|
                    0 <= i <= j < results@.len() ==> le_pair(
                        #[trigger] results@[i],
                        #[trigger] results@[j],
                    ));
            }
            insert_pair(results, c);
        }
    }
}

/// One bounded-n traversal step: feeds this subtree's candidates, in
/// visiting order, to the bounded-n collector. A far child is skipped
/// only when the collector is full and the child's lower bound exceeds
/// the largest kept distance.
fn nearest_n_rec<D: DistanceMetric, const K: usize, const B: usize>(
    nodes: &Vec<Node<K, B>>,
    i: usize,
    dim: usize,
    query: &[i64; K],
    off: &mut [i64; K],
    rd: i64,
    results: &mut Vec<(i64, u64)>,
    n: usize,
)
    requires
        1 <= K <= DIM_LIMIT,
        dim < K,
        wf_node(nodes@, i as int, dim as int),
        point_in_range(query@),
        forall|d: int| 0 <= d < K ==> 0 <= #[trigger] old(off)[d] <= DIST1_LIMIT,
        rd as int == sum_off(old(off)@, K as int),
        off_below_entries::<D>(query@, subtree_entries(nodes@, i as int), old(off)@, K as int),
        1 <= n,
        sorted_pairs(old(results)@),
        old(results)@.len() <= n,
    ensures
        final(off)@ == old(off)@,
        final(results)@ == fold_knn::<D>(
            query@,
            visit_entries(nodes@, i as int, query@, dim as int),
            old(results)@,
            n as int,
        ),
        sorted_pairs(final(results)@),
        final(results)@.len() <= n,
    decreases nodes@.len() - i,
{
    let node = &nodes[i];
    match node {
        Node::Leaf(l) => {
            let ghost res0 = results@;
            let ghost pts = leaf_entries(*l);
            let mut j: usize = 0;
            while j < l.size
                invariant
                    j <= l.size,
                    l.wf(),
                    1 <= K <= DIM_LIMIT,
                    point_in_range(query@),
                    1 <= n,
                    results@ == fold_knn::<D>(query@, pts.take(j as int), res0, n as int),
                    sorted_pairs(results@),
                    results@.len() <= n,
                    sorted_pairs(res0),
                    res0.len() <= n,
                    pts == leaf_entries(*l),
                decreases l.size - j,
            {
                let dist: i64 = l.distance_to_slot::<D>(query, j);
                let item: u64 = l.content_items[j];
                proof {
                    assert(pts[j as int].1 == item);
                    assert((dist as int) as i64 == dist);
                }
                knn_consider(results, (dist, item), n);
                proof {
                    assert(pts.take(j as int + 1).drop_last() =~= pts.take(j as int));
                    assert(pts.take(j as int + 1).last() == pts[j as int]);
                    assert((dist_spec::<D>(query@, pts[j as int].0) as i64, pts[j as int].1) == (
                    dist,
                    item,
                ));
                    lemma_fold_knn_sorted::<D>(query@, pts.take(j as int + 1), res0, n as int);
                }
                j = j + 1;
            }
            proof {
                assert(pts.take(l.size as int) =~= pts);
            }
        },
        Node::Stem(s) => {
            let ghost pts = subtree_entries(nodes@, i as int);
            let ghost lpts = subtree_entries(nodes@, s.left as int);
            let ghost rpts = subtree_entries(nodes@, s.right as int);
            let ghost res0 = results@;
            let qd: i64 = query[dim];
            let v: i64 = s.split_val;
            let next_d: usize = if dim + 1 < K {
                dim + 1
            } else {
                0
            };
            let (near, far): (usize, usize) = if qd <= v {
                (s.left, s.right)
            } else {
                (s.right, s.left)
            };
            let ghost npts = subtree_entries(nodes@, near as int);
            let ghost fpts = subtree_entries(nodes@, far as int);
            proof {
                assert(pts == lpts + rpts);
                assert(forall|j: int| 0 <= j < lpts.len() ==> #[trigger] lpts[j] == pts[j]);
                assert(forall|j: int|
                    0 <= j < rpts.len() ==> #[trigger] rpts[j] == pts[j + lpts.len()]);
                assert(off_below_entries::<D>(query@, npts, off@, K as int));
                assert(off_below_entries::<D>(query@, fpts, off@, K as int));
            }
            nearest_n_rec::<D, K, B>(nodes, near, next_d, query, off, rd, results, n);
            let ghost res1 = results@;
            let ghost nvisit = visit_entries(nodes@, near as int, query@, next_d as int);
            let ghost fvisit = visit_entries(nodes@, far as int, query@, next_d as int);
            let old_off: i64 = off[dim];
            let new_off: i64 = D::dist1(qd, v);
            proof {
                D::lemma_dist1_nonneg(qd as int, v as int);
                D::lemma_dist1_bound(qd as int, v as int);
                lemma_sum_off_bound(off@, K as int, DIST1_LIMIT as int);
                lemma_dist_total_bound(K as int);
            }
            let rd2: i64 = rd - old_off + new_off;
            proof {
                lemma_sum_off_update(off@, K as int, dim as int, new_off);
                assert forall|j: int, d: int|
                    0 <= j < fpts.len() && 0 <= d < K implies D::dist1_spec(
                    query@[d] as int,
                    (#[trigger] fpts[j].0[d]) as int,
                ) >= off@.update(dim as int, new_off)[d] by {
                    if d == dim {
                        if qd <= v {
                            assert(fpts[j].0[d] >= v);
                            D::lemma_dist1_gap(qd as int, v as int, fpts[j].0[d] as int);
                        } else {
                            assert(fpts[j].0[d] <= v);
                            D::lemma_dist1_gap(qd as int, v as int, fpts[j].0[d] as int);
                        }
                    } else {
                        assert(D::dist1_spec(query@[d] as int, fpts[j].0[d] as int) >= off@[d]);
                    }
                }
            }
            let full: bool = results.len() >= n;
            let descend: bool = if !full {
                true
            } else {
                rd2 <= results[results.len() - 1].0
            };
            if descend {
                off[dim] = new_off;
                nearest_n_rec::<D, K, B>(nodes, far, next_d, query, off, rd2, results, n);
                off[dim] = old_off;
                proof {
                    assert(off@ =~= old(off)@);
                }
            } else {
                proof {
                    lemma_subtree_entries_in_range(nodes@, far as int, next_d as int);
                    assert forall|j: int|
                        0 <= j < fpts.len() implies dist_spec::<D>(query@, fpts[j].0)
                        >= rd2 as int && dist_spec::<D>(query@, fpts[j].0) <= i64::MAX by {
                        lemma_dist_ge_off::<D>(
                            query@,
                            fpts[j].0,
                            off@.update(dim as int, new_off),
                            K as int,
                        );
                        assert(fpts[j].0.len() == K);
                        assert(query@.len() == K);
                        lemma_dist_upto_bound::<D>(query@, fpts[j].0, K as int);
                    }
                    lemma_visit_permutes(nodes@, far as int, query@, next_d as int);
                    lemma_dist_lb_transfer::<D>(query@, fpts, fvisit, rd2 as int);
                    assert forall|j: int|
                        0 <= j < fvisit.len() implies dist_spec::<D>(query@, fvisit[j].0)
                        <= i64::MAX by {
                        assert(fpts.to_multiset().count(fvisit[j]) > 0);
                        assert(fpts.contains(fvisit[j]));
                        let w = choose|w: int| 0 <= w < fpts.len() && fpts[w] == fvisit[j];
                        assert(dist_spec::<D>(query@, fpts[w].0) <= i64::MAX);
                    }
                    lemma_fold_knn_no_improvement::<D>(
                        query@,
                        fvisit,
                        res1,
                        n as int,
                        rd2 as int,
                    );
                }
            }
            proof {
                lemma_fold_knn_append::<D>(query@, nvisit, fvisit, res0, n as int);
                assert(visit_entries(nodes@, i as int, query@, dim as int) == nvisit + fvisit);
            }
        },
    }
}

impl<const K: usize, const B: usize> ImmutableKdTree<K, B> {
    /// Establishes the traversal preconditions for a fresh query: a
    /// zeroed `off` vector sums to zero and bounds every entry from
    /// below.
    proof fn lemma_fresh_off<D: DistanceMetric>(&self, query: Seq<i64>, off: Seq<i64>)
        requires
            self.wf(),
            off.len() == K,
            forall|d: int| 0 <= d < K ==> #[trigger] off[d] == 0,
        ensures
            sum_off(off, K as int) == 0,
            off_below_entries::<D>(query, self.entries(), off, K as int),
            forall|d: int| 0 <= d < K ==> 0 <= #[trigger] off[d] <= DIST1_LIMIT,
    {
        lemma_sum_off_bound(off, K as int, 0);
        assert((K as int) * 0 == 0) by (nonlinear_arith);
        assert forall|j: int, d: int|
            0 <= j < self.entries().len() && 0 <= d < K implies D::dist1_spec(
            query[d] as int,
            (#[trigger] self.entries()[j].0[d]) as int,
        ) >= off[d] by {
            D::lemma_dist1_nonneg(query[d] as int, self.entries()[j].0[d] as int);
        }
    }

    /// Transfers what the single-best fold over the visiting order says
    /// to the tree's entries: the result distance is a lower bound on
    /// every stored point's distance and is achieved by a stored point.
    proof fn lemma_nearest_result<D: DistanceMetric>(&self, query: Seq<i64>, r: (int, u64))
        requires
            self.wf(),
            self.entries().len() > 0,
            point_in_range(query),
            query.len() == K,
            r == fold_nearest::<D>(
                query,
                visit_entries(self.nodes@, 0, query, 0),
                (i64::MAX as int, 0u64),
            ),
        ensures
            forall|j: int| 0 <= j < self.entries().len() ==> r.0 <= dist_spec::<D>(
                query,
                #[trigger] self.entries()[j].0,
            ),
            exists|j: int|
                0 <= j < self.entries().len() && dist_spec::<D>(query, self.entries()[j].0)
                    == r.0 && self.entries()[j].1 == r.1,
    {
        let visit = visit_entries(self.nodes@, 0, query, 0);
        let pts = self.entries();
        lemma_visit_permutes(self.nodes@, 0, query, 0);
        lemma_fold_nearest_props::<D>(query, visit, (i64::MAX as int, 0u64));
        self.lemma_entries_shape();
        assert(visit.to_multiset().len() == visit.len());
        assert(pts.to_multiset().len() == pts.len());
        assert(visit.len() == pts.len());
        // the first visited entry keeps the fold strictly under the
        // initial sentinel, so a genuine witness exists
        assert(visit.to_multiset().count(visit[0]) > 0);
        assert(pts.contains(visit[0]));
        let w = choose|w: int| 0 <= w < pts.len() && pts[w] == visit[0];
        lemma_dist_upto_bound::<D>(query, visit[0].0, K as int);
        lemma_dist_total_bound(K as int);
        assert(r.0 <= dist_spec::<D>(query, visit[0].0) < i64::MAX as int);
        let j = choose|j: int|
            0 <= j < visit.len() && dist_spec::<D>(query, visit[j].0) == r.0 && visit[j].1 == r.1;
        assert(pts.to_multiset().count(visit[j]) > 0);
        assert(pts.contains(visit[j]));
        let w2 = choose|w2: int| 0 <= w2 < pts.len() && pts[w2] == visit[j];
        assert(dist_spec::<D>(query, pts[w2].0) == r.0 && pts[w2].1 == r.1);
        assert forall|j2: int| 0 <= j2 < pts.len() implies r.0 <= dist_spec::<D>(
            query,
            pts[j2].0,
        ) by {
            assert(visit.to_multiset().count(pts[j2]) > 0);
            assert(visit.contains(pts[j2]));
            let v2 = choose|v2: int| 0 <= v2 < visit.len() && visit[v2] == pts[j2];
            assert(r.0 <= dist_spec::<D>(query, visit[v2].0));
        }
    }

    /// Returns the distance to a nearest stored point and that point's
    /// item: the exact result of the single-best collector over the
    /// candidates in visiting order, so the returned distance is minimal
    /// over every stored point and the item belongs to a point at that
    /// distance.
    pub fn nearest_one<D: DistanceMetric>(&self, query: &[i64; K]) -> (r: (i64, u64))
        requires
            self.wf(),
            self.entries().len() > 0,
            point_in_range(query@),
        ensures
            (r.0 as int, r.1) == fold_nearest::<D>(
                query@,
                visit_entries(self.nodes@, 0, query@, 0),
                (i64::MAX as int, 0u64),
            ),
            forall|j: int| 0 <= j < self.entries().len() ==> r.0 as int <= dist_spec::<D>(
                query@,
                #[trigger] self.entries()[j].0,
            ),
            exists|j: int|
                0 <= j < self.entries().len() && dist_spec::<D>(query@, self.entries()[j].0)
                    == r.0 as int && self.entries()[j].1 == r.1,
    {
        let mut best_dist: i64 = i64::MAX;
        let mut best_item: u64 = 0;
        let mut off: [i64; K] = vstd::array::array_fill_for_copy_types(0i64);
        proof {
            self.lemma_fresh_off::<D>(query@, off@);
        }
        nearest_one_rec::<D, K, B>(
            &self.nodes,
            0,
            0,
            query,
            &mut off,
            0,
            &mut best_dist,
            &mut best_item,
            true,
        );
        proof {
            self.lemma_nearest_result::<D>(query@, (best_dist as int, best_item));
        }
        (best_dist, best_item)
    }

    /// Returns every stored entry whose distance from `query` is at most
    /// `radius`, each paired with its distance, in visiting order: every
    /// returned pair is a stored point inside the radius, and every
    /// stored point inside the radius is returned.
    pub fn within<D: DistanceMetric>(&self, query: &[i64; K], radius: i64) -> (r: Vec<(i64, u64)>)
        requires
            self.wf(),
            point_in_range(query@),
        ensures
            r@ == collect_within::<D>(
                query@,
                visit_entries(self.nodes@, 0, query@, 0),
                radius as int,
            ),
            forall|i: int|
                0 <= i < r@.len() ==> (#[trigger] r@[i]).0 <= radius && exists|j: int|
                    0 <= j < self.entries().len() && dist_spec::<D>(query@, self.entries()[j].0)
                        == r@[i].0 as int && self.entries()[j].1 == r@[i].1,
            forall|j: int|
                0 <= j < self.entries().len() && dist_spec::<D>(
                    query@,
                    (#[trigger] self.entries()[j]).0,
                ) <= radius ==> r@.contains(
                    (dist_spec::<D>(query@, self.entries()[j].0) as i64, self.entries()[j].1),
                ),
    {
        let mut results: Vec<(i64, u64)> = Vec::new();
        let mut off: [i64; K] = vstd::array::array_fill_for_copy_types(0i64);
        proof {
            self.lemma_fresh_off::<D>(query@, off@);
        }
        within_rec::<D, K, B>(&self.nodes, 0, 0, query, &mut off, 0, radius, &mut results);
        proof {
            let visit = visit_entries(self.nodes@, 0, query@, 0);
            let pts = self.entries();
            lemma_visit_permutes(self.nodes@, 0, query@, 0);
            lemma_collect_within_props::<D>(query@, visit, radius as int);
            assert(results@ =~= collect_within::<D>(query@, visit, radius as int));
            assert forall|i: int|
                0 <= i < results@.len() implies (#[trigger] results@[i]).0 <= radius && exists|
                j: int,
            |
                0 <= j < pts.len() && dist_spec::<D>(query@, pts[j].0) == results@[i].0 as int
                    && pts[j].1 == results@[i].1 by {
                let j = choose|j: int|
                    0 <= j < visit.len() && dist_spec::<D>(query@, visit[j].0) == results@[i].0
                        as int && visit[j].1 == results@[i].1;
                assert(pts.to_multiset().count(visit[j]) > 0);
                assert(pts.contains(visit[j]));
                let w = choose|w: int| 0 <= w < pts.len() && pts[w] == visit[j];
                assert(dist_spec::<D>(query@, pts[w].0) == results@[i].0 as int && pts[w].1
                    == results@[i].1);
            }
            assert forall|j: int|
                0 <= j < pts.len() && dist_spec::<D>(query@, (#[trigger] pts[j]).0)
                    <= radius implies results@.contains(
                (dist_spec::<D>(query@, pts[j].0) as i64, pts[j].1),
            ) by {
                assert(visit.to_multiset().count(pts[j]) > 0);
                assert(visit.contains(pts[j]));
                let v2 = choose|v2: int| 0 <= v2 < visit.len() && visit[v2] == pts[j];
                assert(dist_spec::<D>(query@, visit[v2].0) <= radius as int);
            }
        }
        results
    }

    /// Transfers what the bounded-n fold over the visiting order says to
    /// the tree's entries: every kept pair is a genuine stored point, and
    /// every stored point is kept or no smaller than the last kept pair
    /// of a full result.
    proof fn lemma_knn_result<D: DistanceMetric>(&self, query: Seq<i64>, rs: Seq<(i64, u64)>, n: int)
        requires
            self.wf(),
            point_in_range(query),
            query.len() == K,
            1 <= n,
            rs == fold_knn::<D>(
                query,
                visit_entries(self.nodes@, 0, query, 0),
                Seq::<(i64, u64)>::empty(),
                n,
            ),
        ensures
            forall|i: int|
                0 <= i < rs.len() ==> is_entry_pair::<D>(query, self.entries(), #[trigger] rs[i]),
            forall|j: int|
                0 <= j < self.entries().len() ==> rs.contains(
                    (
                        dist_spec::<D>(query, (#[trigger] self.entries()[j]).0) as i64,
                        self.entries()[j].1,
                    ),
                ) || (rs.len() == n && le_pair(
                    rs.last(),
                    (dist_spec::<D>(query, self.entries()[j].0) as i64, self.entries()[j].1),
                )),
    {
        let visit = visit_entries(self.nodes@, 0, query, 0);
        let empty = Seq::<(i64, u64)>::empty();
        lemma_visit_permutes(self.nodes@, 0, query, 0);
        self.lemma_entries_shape();
        lemma_fold_knn_seen::<D>(query, empty, visit, empty, n);
        let seen = empty + entry_pairs::<D>(query, visit);
        assert(seen =~= entry_pairs::<D>(query, visit));
        assert forall|i: int| 0 <= i < rs.len() implies is_entry_pair::<D>(
            query,
            self.entries(),
            #[trigger] rs[i],
        ) by {
            assert(rs.contains(rs[i]));
            assert(rs.to_multiset().count(rs[i]) > 0);
            assert(seen.to_multiset().count(rs[i]) > 0);
            assert(seen.contains(rs[i]));
            let w = choose|w: int| 0 <= w < seen.len() && seen[w] == rs[i];
            assert(seen[w] == (dist_spec::<D>(query, visit[w].0) as i64, visit[w].1));
            assert(self.entries().to_multiset().count(visit[w]) > 0);
            assert(self.entries().contains(visit[w]));
            let w2 = choose|w2: int| 0 <= w2 < self.entries().len() && self.entries()[w2] == visit[w];
            crate::collector::lemma_dist_nonneg::<D>(query, visit[w].0, query.len() as int);
            lemma_dist_upto_bound::<D>(query, self.entries()[w2].0, K as int);
            lemma_dist_total_bound(K as int);
            assert(dist_spec::<D>(query, self.entries()[w2].0) == rs[i].0 as int
                && self.entries()[w2].1 == rs[i].1);
            assert(is_entry_pair::<D>(query, self.entries(), rs[i]));
        }
        assert forall|j: int| 0 <= j < self.entries().len() implies rs.contains(
            (dist_spec::<D>(query, (#[trigger] self.entries()[j]).0) as i64, self.entries()[j].1),
        ) || (rs.len() == n && le_pair(
            rs.last(),
            (dist_spec::<D>(query, self.entries()[j].0) as i64, self.entries()[j].1),
        )) by {
            assert(visit.to_multiset().count(self.entries()[j]) > 0);
            assert(visit.contains(self.entries()[j]));
            let v2 = choose|v2: int| 0 <= v2 < visit.len() && visit[v2] == self.entries()[j];
            assert(seen[v2] == (dist_spec::<D>(query, visit[v2].0) as i64, visit[v2].1));
            assert(rs.contains(seen[v2]) || (rs.len() == n && le_pair(rs.last(), seen[v2])));
        }
    }

    /// Returns the `n` closest stored entries, ascending by distance with
    /// ties broken by ascending item: exactly the result of the bounded-n
    /// collector over the candidates in visiting order, and empty when
    /// nothing is asked for. The list holds `min(n, size)` pairs; each is
    /// a genuine stored point, and any stored point missing from a full
    /// list is no closer than the last returned pair.
    #[verifier::rlimit(50)]
    pub fn nearest_n<D: DistanceMetric>(&self, query: &[i64; K], n: usize) -> (r: Vec<(i64, u64)>)
        requires
            self.wf(),
            point_in_range(query@),
        ensures
            n == 0 ==> r@ == Seq::<(i64, u64)>::empty(),
            1 <= n ==> r@ == fold_knn::<D>(
                query@,
                visit_entries(self.nodes@, 0, query@, 0),
                Seq::<(i64, u64)>::empty(),
                n as int,
            ),
            sorted_pairs(r@),
            r@.len() == if self.entries().len() < n {
                self.entries().len()
            } else {
                n as nat
            },
            forall|i: int|
                0 <= i < r@.len() ==> is_entry_pair::<D>(query@, self.entries(), #[trigger] r@[i]),
            1 <= n ==> forall|j: int|
                0 <= j < self.entries().len() ==> r@.contains(
                    (
                        dist_spec::<D>(query@, (#[trigger] self.entries()[j]).0) as i64,
                        self.entries()[j].1,
                    ),
                ) || (r@.len() == n && le_pair(
                    r@.last(),
                    (dist_spec::<D>(query@, self.entries()[j].0) as i64, self.entries()[j].1),
                )),
    {
        let mut results: Vec<(i64, u64)> = Vec::new();
        if n == 0 {
            return results;
        }
        let mut off: [i64; K] = vstd::array::array_fill_for_copy_types(0i64);
        proof {
            self.lemma_fresh_off::<D>(query@, off@);
        }
        nearest_n_rec::<D, K, B>(&self.nodes, 0, 0, query, &mut off, 0, &mut results, n);
        proof {
            let visit = visit_entries(self.nodes@, 0, query@, 0);
            let empty = Seq::<(i64, u64)>::empty();
            lemma_visit_permutes(self.nodes@, 0, query@, 0);
            assert(visit.to_multiset().len() == visit.len());
            assert(self.entries().to_multiset().len() == self.entries().len());
            lemma_fold_knn_sorted::<D>(query@, visit, empty, n as int);
            self.lemma_knn_result::<D>(query@, results@, n as int);
        }
        results
    }

    /// Returns, of the stored entries within `radius` of `query`, the
    /// `n` best — those with the smallest item identifiers — ascending
    /// by item: each returned pair is a stored point inside the radius,
    /// and any in-radius point left out of a full list has no better an
    /// item than the last returned pair.
    pub fn best_n_within<D: DistanceMetric>(&self, query: &[i64; K], radius: i64, n: usize) -> (r:
        Vec<(i64, u64)>)
        requires
            self.wf(),
            point_in_range(query@),
        ensures
            n == 0 ==> r@ == Seq::<(i64, u64)>::empty(),
            sorted_items(r@),
            r@.len() == if collect_within::<D>(
                query@,
                visit_entries(self.nodes@, 0, query@, 0),
                radius as int,
            ).len() < n {
                collect_within::<D>(
                    query@,
                    visit_entries(self.nodes@, 0, query@, 0),
                    radius as int,
                ).len()
            } else {
                n as nat
            },
            forall|x: (i64, u64)| #[trigger] r@.to_multiset().count(x)
                <= collect_within::<D>(
                query@,
                visit_entries(self.nodes@, 0, query@, 0),
                radius as int,
            ).to_multiset().count(x),
            forall|i: int|
                0 <= i < r@.len() ==> (#[trigger] r@[i]).0 <= radius && exists|j: int|
                    0 <= j < self.entries().len() && dist_spec::<D>(query@, self.entries()[j].0)
                        == r@[i].0 as int && self.entries()[j].1 == r@[i].1,
            1 <= n ==> forall|j: int|
                0 <= j < self.entries().len() && dist_spec::<D>(
                    query@,
                    (#[trigger] self.entries()[j]).0,
                ) <= radius ==> r@.contains(
                    (dist_spec::<D>(query@, self.entries()[j].0) as i64, self.entries()[j].1),
                ) || (r@.len() == n && le_item(
                    r@.last(),
                    (dist_spec::<D>(query@, self.entries()[j].0) as i64, self.entries()[j].1),
                )),
    {
        let within_res: Vec<(i64, u64)> = self.within::<D>(query, radius);
        let ghost c = within_res@;
        let mut sorted: Vec<(i64, u64)> = Vec::new();
        let mut i: usize = 0;
        while i < within_res.len()
            invariant
                i <= within_res@.len(),
                sorted_items(sorted@),
                sorted@.len() == i,
                sorted@.to_multiset() == within_res@.take(i as int).to_multiset(),
            decreases within_res@.len() - i,
        {
            proof {
                lemma_insert_item_props(sorted@, within_res@[i as int]);
                assert(within_res@.take(i as int + 1) =~= within_res@.take(i as int).push(
                    within_res@[i as int],
                ));
            }
            insert_pair_item(&mut sorted, within_res[i]);
            i = i + 1;
        }
        proof {
            assert(within_res@.take(within_res@.len() as int) =~= within_res@);
        }
        let ghost full = sorted@;
        let mut r = sorted;
        proof {
            assert(full.take(full.len() as int) =~= full);
        }
        while r.len() > n
            invariant
                r@.len() <= full.len(),
                n <= r@.len() || r@.len() == full.len(),
                r@ == full.take(r@.len() as int),
            decreases r@.len(),
        {
            let ghost lpre = r@.len() as int;
            let _ = r.pop();
            proof {
                assert(r@ =~= full.take(lpre).drop_last());
                assert(full.take(lpre - 1) =~= full.take(lpre).drop_last());
            }
        }
        proof {
            assert(full.len() == c.len());
            assert(full =~= r@ + full.skip(r@.len() as int));
            assert(full.to_multiset() == r@.to_multiset().add(
                full.skip(r@.len() as int).to_multiset(),
            ));
            assert(r@.len() == if c.len() < n {
                c.len()
            } else {
                n as nat
            });
            assert(sorted_items(r@)) by {
                assert(forall|i2: int|
                    0 <= i2 < r@.len() ==> r@[i2] == #[trigger] full[i2]);
            }
            // everything kept is one of the in-radius pairs
            assert forall|i2: int| 0 <= i2 < r@.len() implies (#[trigger] r@[i2]).0 <= radius
                && exists|j: int|
                0 <= j < self.entries().len() && dist_spec::<D>(query@, self.entries()[j].0)
                    == r@[i2].0 as int && self.entries()[j].1 == r@[i2].1 by {
                assert(r@[i2] == full[i2]);
                assert(full.contains(full[i2]));
                assert(full.to_multiset().count(full[i2]) > 0);
                assert(c.to_multiset().count(full[i2]) > 0);
                assert(c.contains(full[i2]));
                let w = choose|w: int| 0 <= w < c.len() && c[w] == full[i2];
                assert(c[w].0 <= radius);
            }
            if n == 0 {
                assert(r@ =~= Seq::<(i64, u64)>::empty());
            }
            // any in-radius pair that was dropped lost to the last kept
            if n >= 1 {
                assert forall|j: int|
                    0 <= j < self.entries().len() && dist_spec::<D>(
                        query@,
                        (#[trigger] self.entries()[j]).0,
                    ) <= radius implies r@.contains(
                    (dist_spec::<D>(query@, self.entries()[j].0) as i64, self.entries()[j].1),
                ) || (r@.len() == n && le_item(
                    r@.last(),
                    (dist_spec::<D>(query@, self.entries()[j].0) as i64, self.entries()[j].1),
                )) by {
                    let p = (
                        dist_spec::<D>(query@, self.entries()[j].0) as i64,
                        self.entries()[j].1,
                    );
                    assert(c.contains(p));
                    assert(c.to_multiset().count(p) > 0);
                    assert(full.to_multiset().count(p) > 0);
                    assert(full.contains(p));
                    let w = choose|w: int| 0 <= w < full.len() && full[w] == p;
                    if w < r@.len() {
                        assert(r@[w] == p);
                        assert(r@.contains(p));
                    } else {
                        assert(r@.len() == n);
                        assert(le_item(full[r@.len() - 1], full[w]));
                        assert(r@.last() == full[r@.len() - 1]);
                    }
                }
            }
        }
        r
    }

    /// The same query with pruning disabled: both children of every stem
    /// are always descended. The contract is identical to
    /// [`Self::nearest_one`] — pruning never changes the result.
    pub fn nearest_one_unpruned<D: DistanceMetric>(&self, query: &[i64; K]) -> (r: (i64, u64))
        requires
            self.wf(),
            self.entries().len() > 0,
            point_in_range(query@),
        ensures
            (r.0 as int, r.1) == fold_nearest::<D>(
                query@,
                visit_entries(self.nodes@, 0, query@, 0),
                (i64::MAX as int, 0u64),
            ),
            forall|j: int| 0 <= j < self.entries().len() ==> r.0 as int <= dist_spec::<D>(
                query@,
                #[trigger] self.entries()[j].0,
            ),
            exists|j: int|
                0 <= j < self.entries().len() && dist_spec::<D>(query@, self.entries()[j].0)
                    == r.0 as int && self.entries()[j].1 == r.1,
    {
        let mut best_dist: i64 = i64::MAX;
        let mut best_item: u64 = 0;
        let mut off: [i64; K] = vstd::array::array_fill_for_copy_types(0i64);
        proof {
            self.lemma_fresh_off::<D>(query@, off@);
        }
        nearest_one_rec::<D, K, B>(
            &self.nodes,
            0,
            0,
            query,
            &mut off,
            0,
            &mut best_dist,
            &mut best_item,
            false,
        );
        proof {
            self.lemma_nearest_result::<D>(query@, (best_dist as int, best_item));
        }
        (best_dist, best_item)
    }
}

} // verus!
