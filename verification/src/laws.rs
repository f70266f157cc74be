//! Laws relating the query families to each other and to the tree
//! invariant.

use vstd::prelude::*;
use crate::collector::Entry;
use crate::collector::le_pair;
use crate::collector::sorted_pairs;
use crate::distance_metric::DistanceMetric;
use crate::distance_metric::dist_spec;
use crate::leaf_node::LeafNode;
use crate::tree::Node;
use crate::tree::next_dim;
use crate::tree::wf_node;

verus! {

/// When a single stored point is strictly closest, the nearest-one
/// result is exactly that point's distance and item: any result meeting
/// the nearest-one contract — a distance below every stored point's and
/// achieved by a stored point — names the unique minimizer.
pub proof fn lemma_nearest_one_unique_minimizer<D: DistanceMetric>(
    q: Seq<i64>,
    pts: Seq<Entry>,
    r: (int, u64),
    m: int,
)
    requires
        0 <= m < pts.len(),
        forall|j: int| 0 <= j < pts.len() ==> r.0 <= dist_spec::<D>(q, #[trigger] pts[j].0),
        exists|j: int|
            0 <= j < pts.len() && dist_spec::<D>(q, pts[j].0) == r.0 && pts[j].1 == r.1,
        forall|j: int|
            0 <= j < pts.len() && j != m ==> dist_spec::<D>(q, #[trigger] pts[j].0) > dist_spec::<
                D,
            >(q, pts[m].0),
    ensures
        r.0 == dist_spec::<D>(q, pts[m].0),
        r.1 == pts[m].1,
{
    let j = choose|j: int|
        0 <= j < pts.len() && dist_spec::<D>(q, pts[j].0) == r.0 && pts[j].1 == r.1;
    if j != m {
        assert(dist_spec::<D>(q, pts[j].0) > dist_spec::<D>(q, pts[m].0));
        assert(r.0 <= dist_spec::<D>(q, pts[m].0));
        assert(false);
    }
}

/// The first element of a nearest-n result is at the nearest-one
/// distance: any list meeting the nearest-n contract — sorted, of the
/// right length, sound and complete — opens with the minimum distance
/// over the stored points.
pub proof fn lemma_nearest_n_first_is_nearest_one<D: DistanceMetric>(
    q: Seq<i64>,
    pts: Seq<Entry>,
    r1: (int, u64),
    rn: Seq<(i64, u64)>,
    n: int,
)
    requires
        pts.len() > 0,
        n >= 1,
        0 <= r1.0 <= i64::MAX,
        forall|j: int| 0 <= j < pts.len() ==> r1.0 <= dist_spec::<D>(q, #[trigger] pts[j].0),
        exists|j: int|
            0 <= j < pts.len() && dist_spec::<D>(q, pts[j].0) == r1.0 && pts[j].1 == r1.1,
        sorted_pairs(rn),
        rn.len() == if pts.len() < n {
            pts.len()
        } else {
            n as nat
        },
        forall|i: int|
            0 <= i < rn.len() ==> exists|j: int|
                0 <= j < pts.len() && dist_spec::<D>(q, pts[j].0) == (#[trigger] rn[i]).0 as int
                    && pts[j].1 == rn[i].1,
        forall|j: int|
            0 <= j < pts.len() ==> rn.contains(
                (dist_spec::<D>(q, (#[trigger] pts[j]).0) as i64, pts[j].1),
            ) || (rn.len() == n && le_pair(
                rn.last(),
                (dist_spec::<D>(q, pts[j].0) as i64, pts[j].1),
            )),
    ensures
        rn.len() > 0,
        rn[0].0 as int == r1.0,
{
    assert(rn.len() > 0);
    // the head is a genuine stored distance, so at least the minimum
    let j0 = choose|j: int|
        0 <= j < pts.len() && dist_spec::<D>(q, pts[j].0) == rn[0].0 as int
            && pts[j].1 == rn[0].1;
    assert(r1.0 <= rn[0].0 as int);
    // the minimizer is kept or dominated by the last kept pair; either
    // way the sorted head cannot exceed the minimum
    let jw = choose|j: int|
        0 <= j < pts.len() && dist_spec::<D>(q, pts[j].0) == r1.0 && pts[j].1 == r1.1;
    let pw = (dist_spec::<D>(q, pts[jw].0) as i64, pts[jw].1);
    assert(pw.0 as int == r1.0);
    if rn.contains(pw) {
        let w = choose|w: int| 0 <= w < rn.len() && rn[w] == pw;
        assert(le_pair(rn[0], rn[w]));
    } else {
        assert(rn.len() == n && le_pair(rn.last(), pw));
        assert(le_pair(rn[0], rn[rn.len() - 1]));
    }
}

/// Pruning does not change results: a pruned traversal and one that
/// always descends both children both return the single-best fold over
/// the same candidates in the same visiting order, so their outputs are
/// identical — distance and item alike.
pub proof fn lemma_pruning_preserves_nearest_one<D: DistanceMetric>(
    q: Seq<i64>,
    visited: Seq<Entry>,
    best: (int, u64),
    pruned: (int, u64),
    unpruned: (int, u64),
)
    requires
        pruned == crate::collector::fold_nearest::<D>(q, visited, best),
        unpruned == crate::collector::fold_nearest::<D>(q, visited, best),
    ensures
        pruned == unpruned,
{
}

/// Dispatch equivalence: any two bucket-kernel implementations meeting
/// the `BestFromDists` contract — whatever instruction set they use —
/// update the best pair identically on the same bucket.
pub proof fn lemma_kernel_dispatch_equivalence(
    acc: Seq<int>,
    items: Seq<u64>,
    size: int,
    best: (int, u64),
    first: (int, u64),
    second: (int, u64),
)
    requires
        first == crate::leaf_node::fold_bucket(acc, items, size, best),
        second == crate::leaf_node::fold_bucket(acc, items, size, best),
    ensures
        first == second,
{
}

/// Whether arena slot `j` belongs to the subtree rooted at slot `i`.
pub open spec fn reachable<const K: usize, const B: usize>(
    nodes: Seq<Node<K, B>>,
    i: int,
    j: int,
) -> bool
    decreases nodes.len() - i,
{
    i == j || (0 <= i < nodes.len() && match nodes[i] {
        Node::Stem(s) => i < s.left < nodes.len() && i < s.right < nodes.len() && (reachable(
            nodes,
            s.left as int,
            j,
        ) || reachable(nodes, s.right as int, j)),
        Node::Leaf(l) => false,
    })
}

/// The leaf capacity invariant: in a well-formed tree, every reachable
/// leaf holds between zero and `B` live slots.
pub proof fn lemma_leaf_size_invariant<const K: usize, const B: usize>(
    nodes: Seq<Node<K, B>>,
    i: int,
    dim: int,
    j: int,
)
    requires
        wf_node(nodes, i, dim),
        reachable(nodes, i, j),
    ensures
        nodes[j] matches Node::Leaf(l) ==> 0 <= l.size <= B,
    decreases nodes.len() - i,
{
    if i != j {
        match nodes[i] {
            Node::Stem(s) => {
                if reachable(nodes, s.left as int, j) {
                    lemma_leaf_size_invariant(nodes, s.left as int, next_dim(dim, K as int), j);
                } else {
                    lemma_leaf_size_invariant(nodes, s.right as int, next_dim(dim, K as int), j);
                }
            },
            Node::Leaf(l) => {},
        }
    }
}

/// The leaf capacity invariant, at the tree's public surface: every
/// reachable leaf of a well-formed tree holds between zero and `B` live
/// slots.
pub proof fn lemma_tree_leaf_sizes<const K: usize, const B: usize>(
    t: &crate::tree::ImmutableKdTree<K, B>,
    j: int,
)
    requires
        t.wf(),
        reachable(t.nodes@, 0, j),
    ensures
        t.nodes@[j] matches Node::Leaf(l) ==> 0 <= l.size <= B,
{
    lemma_leaf_size_invariant(t.nodes@, 0, 0, j);
}

} // verus!
