//! Tree topology: stems, the node arena, and its well-formedness.
//!
//! A tree is an arena of nodes with the root at index zero; every stem's
//! children sit at strictly larger indices, which both rules out cycles
//! and gives every recursive definition over the arena a measure. A stem
//! splits on one axis — chosen round-robin by depth — and partitions its
//! points: everything reachable through `left` lies at or below the split
//! value on that axis, everything through `right` at or above it.

use vstd::prelude::*;
use crate::collector::Entry;
use crate::distance_metric::coord_in_range;
use crate::distance_metric::point_in_range;
use crate::leaf_node::LeafNode;
use crate::leaf_node::leaf_entries;
use crate::DIM_LIMIT;

verus! {

broadcast use
    vstd::array::group_array_axioms,
    vstd::seq_lib::group_to_multiset_ensures,
    vstd::seq_lib::lemma_multiset_commutative,
    vstd::multiset::group_multiset_axioms;

/// An internal node: a split value and the arena indices of the two
/// children. The split axis is implicit — depth modulo `K`.
pub struct StemNode {
    /// Arena index of the child holding points at or below the split.
    pub left: usize,
    /// Arena index of the child holding points at or above the split.
    pub right: usize,
    /// The coordinate value partitioning the two children.
    pub split_val: i64,
}

/// One slot of the node arena.
pub enum Node<const K: usize, const B: usize> {
    /// An internal node.
    Stem(StemNode),
    /// A terminal bucket.
    Leaf(LeafNode<K, B>),
}

/// The split axis of a node's children, given the node's own axis.
pub open spec fn next_dim(dim: int, k: int) -> int {
    if dim + 1 < k {
        dim + 1
    } else {
        0
    }
}

/// Every entry of the subtree rooted at arena index `i`, leaves left to
/// right.
pub open spec fn subtree_entries<const K: usize, const B: usize>(
    nodes: Seq<Node<K, B>>,
    i: int,
) -> Seq<Entry>
    decreases nodes.len() - i,
{
    if 0 <= i < nodes.len() {
        match nodes[i] {
            Node::Stem(s) => if i < s.left < nodes.len() && i < s.right < nodes.len() {
                subtree_entries(nodes, s.left as int) + subtree_entries(nodes, s.right as int)
            } else {
                Seq::empty()
            },
            Node::Leaf(l) => leaf_entries(l),
        }
    } else {
        Seq::empty()
    }
}

/// Every entry's coordinate on axis `d` is at most `v`.
pub open spec fn side_at_most(pts: Seq<Entry>, d: int, v: int) -> bool {
    forall|j: int| 0 <= j < pts.len() ==> #[trigger] pts[j].0[d] <= v
}

/// Every entry's coordinate on axis `d` is at least `v`.
pub open spec fn side_at_least(pts: Seq<Entry>, d: int, v: int) -> bool {
    forall|j: int| 0 <= j < pts.len() ==> #[trigger] pts[j].0[d] >= v
}

/// Well-formedness of the subtree rooted at `i`, whose split axis is
/// `dim`: children indices grow strictly, split values are in range, the
/// two children partition their points around the split value, and every
/// leaf is well formed.
pub open spec fn wf_node<const K: usize, const B: usize>(
    nodes: Seq<Node<K, B>>,
    i: int,
    dim: int,
) -> bool
    decreases nodes.len() - i,
{
    &&& 0 <= i < nodes.len()
    &&& match nodes[i] {
        Node::Stem(s) => {
            &&& i < s.left < nodes.len()
            &&& i < s.right < nodes.len()
            &&& coord_in_range(s.split_val)
            &&& wf_node(nodes, s.left as int, next_dim(dim, K as int))
            &&& wf_node(nodes, s.right as int, next_dim(dim, K as int))
            &&& side_at_most(subtree_entries(nodes, s.left as int), dim, s.split_val as int)
            &&& side_at_least(subtree_entries(nodes, s.right as int), dim, s.split_val as int)
        },
        Node::Leaf(l) => l.wf(),
    }
}

/// Growing the arena beyond a well-formed subtree, or changing slots
/// below its root index, disturbs neither its well-formedness nor its
/// entries.
pub proof fn lemma_subtree_frame<const K: usize, const B: usize>(
    nodes1: Seq<Node<K, B>>,
    nodes2: Seq<Node<K, B>>,
    i: int,
    dim: int,
)
    requires
        wf_node(nodes1, i, dim),
        nodes1.len() <= nodes2.len(),
        forall|j: int| i <= j < nodes1.len() ==> nodes2[j] == nodes1[j],
    ensures
        wf_node(nodes2, i, dim),
        subtree_entries(nodes2, i) == subtree_entries(nodes1, i),
    decreases nodes1.len() - i,
{
    match nodes1[i] {
        Node::Stem(s) => {
            lemma_subtree_frame(nodes1, nodes2, s.left as int, next_dim(dim, K as int));
            lemma_subtree_frame(nodes1, nodes2, s.right as int, next_dim(dim, K as int));
        },
        Node::Leaf(l) => {},
    }
}

/// Entry-wise upper bounds survive any reordering of the entries.
pub proof fn lemma_side_at_most_transfer(a: Seq<Entry>, b: Seq<Entry>, d: int, v: int)
    requires
        a.to_multiset() == b.to_multiset(),
        side_at_most(a, d, v),
    ensures
        side_at_most(b, d, v),
{
    assert forall|j: int| 0 <= j < b.len() implies b[j].0[d] <= v by {
        assert(b.to_multiset().count(b[j]) > 0);
        assert(a.contains(b[j]));
        let i = choose|i: int| 0 <= i < a.len() && a[i] == b[j];
        assert(a[i].0[d] <= v);
    }
}

/// Entry-wise lower bounds survive any reordering of the entries.
pub proof fn lemma_side_at_least_transfer(a: Seq<Entry>, b: Seq<Entry>, d: int, v: int)
    requires
        a.to_multiset() == b.to_multiset(),
        side_at_least(a, d, v),
    ensures
        side_at_least(b, d, v),
{
    assert forall|j: int| 0 <= j < b.len() implies b[j].0[d] >= v by {
        assert(b.to_multiset().count(b[j]) > 0);
        assert(a.contains(b[j]));
        let i = choose|i: int| 0 <= i < a.len() && a[i] == b[j];
        assert(a[i].0[d] >= v);
    }
}

/// The entries a build input stands for: each point paired with its item.
pub open spec fn to_entries<const K: usize>(s: Seq<([i64; K], u64)>) -> Seq<Entry> {
    s.map_values(|e: ([i64; K], u64)| (e.0@, e.1))
}

/// Every point of a build input is in coordinate range.
pub open spec fn entries_in_range<const K: usize>(s: Seq<([i64; K], u64)>) -> bool {
    forall|j: int| 0 <= j < s.len() ==> point_in_range(#[trigger] s[j].0@)
}

/// Everything a well-formed subtree stores is in coordinate range and of
/// the tree's dimensionality.
pub proof fn lemma_subtree_entries_in_range<const K: usize, const B: usize>(
    nodes: Seq<Node<K, B>>,
    i: int,
    dim: int,
)
    requires
        wf_node(nodes, i, dim),
    ensures
        forall|j: int| 0 <= j < subtree_entries(nodes, i).len() ==> point_in_range(
            #[trigger] subtree_entries(nodes, i)[j].0,
        ) && subtree_entries(nodes, i)[j].0.len() == K,
    decreases nodes.len() - i,
{
    match nodes[i] {
        Node::Stem(s) => {
            lemma_subtree_entries_in_range(nodes, s.left as int, next_dim(dim, K as int));
            lemma_subtree_entries_in_range(nodes, s.right as int, next_dim(dim, K as int));
            let a = subtree_entries(nodes, s.left as int);
            let b = subtree_entries(nodes, s.right as int);
            assert(forall|j: int|
                0 <= j < a.len() ==> (a + b)[j] == #[trigger] a[j]);
            assert(forall|j: int|
                a.len() <= j < a.len() + b.len() ==> (a + b)[j] == #[trigger] b[j - a.len()]);
        },
        Node::Leaf(l) => {
            let pts = subtree_entries(nodes, i);
            assert forall|j: int| 0 <= j < pts.len() implies point_in_range(pts[j].0)
                && pts[j].0.len() == K by {
                assert(pts[j].0 == crate::leaf_node::leaf_point(l, j));
                assert(forall|d: int|
                    0 <= d < K ==> coord_in_range(#[trigger] pts[j].0[d]));
            }
        },
    }
}

/// Pushing onto a sequence keeps everything it already contained.
pub proof fn lemma_push_keeps_contains<T>(s: Seq<T>, e: T)
    ensures
        forall|x: T| s.contains(x) ==> #[trigger] s.push(e).contains(x),
        s.push(e).contains(e),
{
    assert forall|x: T| s.contains(x) implies s.push(e).contains(x) by {
        let i = choose|i: int| 0 <= i < s.len() && s[i] == x;
        assert(s.push(e)[i] == x);
    }
    assert(s.push(e)[s.len() as int] == e);
}

/// Builds the subtree for `entries` at the end of the arena, returning
/// its root index: a leaf when the entries fit in one bucket, otherwise a
/// stem splitting on `dim`.
fn build_rec<const K: usize, const B: usize>(
    nodes: &mut Vec<Node<K, B>>,
    entries: Vec<([i64; K], u64)>,
    dim: usize,
) -> (idx: usize)
    requires
        1 <= K <= DIM_LIMIT,
        1 <= B,
        dim < K,
        entries_in_range(entries@),
    ensures
        idx == old(nodes)@.len(),
        final(nodes)@.len() > idx,
        forall|j: int| 0 <= j < old(nodes)@.len() ==> final(nodes)@[j] == old(nodes)@[j],
        wf_node(final(nodes)@, idx as int, dim as int),
        subtree_entries(final(nodes)@, idx as int).to_multiset() == to_entries(
            entries@,
        ).to_multiset(),
    decreases entries@.len(), 1int,
{
    let n: usize = entries.len();
    if n <= B {
        let mut pts: [[i64; B]; K] = vstd::array::array_fill_for_copy_types(
            vstd::array::array_fill_for_copy_types(0i64),
        );
        let mut d: usize = 0;
        while d < K
            invariant
                d <= K,
                n == entries@.len(),
                n <= B,
                entries_in_range(entries@),
                forall|d2: int, s2: int|
                    0 <= d2 < d && 0 <= s2 < n ==> #[trigger] pts[d2][s2] == entries@[s2].0@[d2],
                forall|d2: int, s2: int|
                    0 <= d2 < d && n <= s2 < B ==> #[trigger] pts[d2][s2] == 0,
                forall|d2: int, s2: int|
                    d <= d2 < K && 0 <= s2 < B ==> #[trigger] pts[d2][s2] == 0,
            decreases K - d,
        {
            let mut col: [i64; B] = vstd::array::array_fill_for_copy_types(0i64);
            let mut s: usize = 0;
            while s < n
                invariant
                    s <= n,
                    n == entries@.len(),
                    n <= B,
                    d < K,
                    forall|s2: int| 0 <= s2 < s ==> #[trigger] col[s2] == entries@[s2].0@[d as int],
                    forall|s2: int| s <= s2 < B ==> #[trigger] col[s2] == 0,
                decreases n - s,
            {
                col[s] = entries[s].0[d];
                s = s + 1;
            }
            pts[d] = col;
            d = d + 1;
        }
        let mut its: [u64; B] = vstd::array::array_fill_for_copy_types(0u64);
        let mut s: usize = 0;
        while s < n
            invariant
                s <= n,
                n == entries@.len(),
                n <= B,
                forall|s2: int| 0 <= s2 < s ==> #[trigger] its[s2] == entries@[s2].1,
            decreases n - s,
        {
            its[s] = entries[s].1;
            s = s + 1;
        }
        let leaf = LeafNode::<K, B> { content_points: pts, content_items: its, size: n };
        let idx: usize = nodes.len();
        proof {
            assert forall|d2: int, j2: int|
                0 <= d2 < K && 0 <= j2 < B implies coord_in_range(
                #[trigger] leaf.content_points[d2][j2],
            ) by {
                if j2 < n {
                    assert(point_in_range(entries@[j2].0@));
                    assert(leaf.content_points[d2][j2] == entries@[j2].0@[d2]);
                }
            }
            assert(leaf.wf());
        }
        nodes.push(Node::Leaf(leaf));
        proof {
            assert(leaf_entries(leaf) =~~= to_entries(entries@));
            assert(subtree_entries(nodes@, idx as int) == leaf_entries(leaf));
        }
        idx
    } else {
        let mut minv: i64 = entries[0].0[dim];
        let mut maxv: i64 = minv;
        let mut min_at: usize = 0;
        let mut max_at: usize = 0;
        let mut i: usize = 1;
        while i < n
            invariant
                1 <= i <= n,
                n == entries@.len(),
                dim < K,
                min_at < i,
                max_at < i,
                entries@[min_at as int].0@[dim as int] == minv,
                entries@[max_at as int].0@[dim as int] == maxv,
                forall|j: int|
                    0 <= j < i ==> minv <= #[trigger] entries@[j].0@[dim as int] <= maxv,
            decreases n - i,
        {
            let c: i64 = entries[i].0[dim];
            if c < minv {
                minv = c;
                min_at = i;
            }
            if c > maxv {
                maxv = c;
                max_at = i;
            }
            i = i + 1;
        }
        proof {
            assert(point_in_range(entries@[min_at as int].0@));
            assert(point_in_range(entries@[max_at as int].0@));
            assert(coord_in_range(minv) && coord_in_range(maxv));
        }
        if minv < maxv {
            let split_val: i64 = minv + (maxv - minv) / 2;
            let mut left_e: Vec<([i64; K], u64)> = Vec::new();
            let mut right_e: Vec<([i64; K], u64)> = Vec::new();
            let mut i: usize = 0;
            while i < n
                invariant
                    i <= n,
                    n == entries@.len(),
                    dim < K,
                    entries_in_range(entries@),
                    minv <= split_val < maxv,
                    left_e@.len() + right_e@.len() == i,
                    entries_in_range(left_e@),
                    entries_in_range(right_e@),
                    side_at_most(to_entries(left_e@), dim as int, split_val as int),
                    side_at_least(to_entries(right_e@), dim as int, split_val as int),
                    to_entries(left_e@).to_multiset().add(to_entries(right_e@).to_multiset())
                        == to_entries(entries@.subrange(0, i as int)).to_multiset(),
                    forall|j: int|
                        0 <= j < i && entries@[j].0@[dim as int] <= split_val
                            ==> left_e@.contains(#[trigger] entries@[j]),
                    forall|j: int|
                        0 <= j < i && entries@[j].0@[dim as int] > split_val
                            ==> right_e@.contains(#[trigger] entries@[j]),
                decreases n - i,
            {
                let e: ([i64; K], u64) = entries[i];
                proof {
                    lemma_push_keeps_contains(left_e@, e);
                    lemma_push_keeps_contains(right_e@, e);
                    assert(to_entries(left_e@.push(e)) =~= to_entries(left_e@).push(
                        (e.0@, e.1),
                    ));
                    assert(to_entries(right_e@.push(e)) =~= to_entries(right_e@).push(
                        (e.0@, e.1),
                    ));
                    assert(to_entries(entries@.subrange(0, i as int + 1)) =~= to_entries(
                        entries@.subrange(0, i as int),
                    ).push((e.0@, e.1)));
                }
                if e.0[dim] <= split_val {
                    left_e.push(e);
                } else {
                    right_e.push(e);
                }
                i = i + 1;
            }
            proof {
                assert(entries@.subrange(0, n as int) =~= entries@);
                assert(left_e@.contains(entries@[min_at as int]));
                assert(right_e@.contains(entries@[max_at as int]));
                assert(left_e@.len() >= 1);
                assert(right_e@.len() >= 1);
            }
            build_children(nodes, left_e, right_e, split_val, dim)
        } else {
            let split_val: i64 = minv;
            let h: usize = n / 2;
            proof {
                assert(n >= 2);
                assert(1 <= h < n);
            }
            let mut left_e: Vec<([i64; K], u64)> = Vec::new();
            let mut right_e: Vec<([i64; K], u64)> = Vec::new();
            let mut i: usize = 0;
            while i < h
                invariant
                    i <= h,
                    h < n,
                    n == entries@.len(),
                    left_e@ =~= entries@.subrange(0, i as int),
                decreases h - i,
            {
                left_e.push(entries[i]);
                proof {
                    assert(left_e@ =~= entries@.subrange(0, i as int + 1));
                }
                i = i + 1;
            }
            let mut i: usize = h;
            while i < n
                invariant
                    h <= i <= n,
                    n == entries@.len(),
                    right_e@ =~= entries@.subrange(h as int, i as int),
                decreases n - i,
            {
                right_e.push(entries[i]);
                proof {
                    assert(right_e@ =~= entries@.subrange(h as int, i as int + 1));
                }
                i = i + 1;
            }
            proof {
                assert(left_e@ + right_e@ =~= entries@);
                assert(to_entries(left_e@) + to_entries(right_e@) =~= to_entries(entries@));
                assert((to_entries(left_e@) + to_entries(right_e@)).to_multiset()
                    == to_entries(left_e@).to_multiset().add(to_entries(right_e@).to_multiset()));
                assert(entries_in_range(left_e@));
                assert(entries_in_range(right_e@));
                assert forall|j: int| 0 <= j < to_entries(left_e@).len() implies #[trigger]
                    to_entries(left_e@)[j].0[dim as int] <= split_val by {
                    assert(to_entries(left_e@)[j].0 == left_e@[j].0@);
                    assert(left_e@[j] == entries@[j]);
                    assert(minv <= entries@[j].0@[dim as int] <= maxv);
                }
                assert forall|j: int| 0 <= j < to_entries(right_e@).len() implies #[trigger]
                    to_entries(right_e@)[j].0[dim as int] >= split_val by {
                    assert(to_entries(right_e@)[j].0 == right_e@[j].0@);
                    assert(right_e@[j] == entries@[j + h]);
                    assert(minv <= entries@[j + h].0@[dim as int] <= maxv);
                }
            }
            build_children(nodes, left_e, right_e, split_val, dim)
        }
    }
}

/// Pushes a stem whose two children are built from the given halves of a
/// partition around `split_val` on axis `dim`.
fn build_children<const K: usize, const B: usize>(
    nodes: &mut Vec<Node<K, B>>,
    left_e: Vec<([i64; K], u64)>,
    right_e: Vec<([i64; K], u64)>,
    split_val: i64,
    dim: usize,
) -> (idx: usize)
    requires
        1 <= K <= DIM_LIMIT,
        1 <= B,
        dim < K,
        coord_in_range(split_val),
        entries_in_range(left_e@),
        entries_in_range(right_e@),
        left_e@.len() >= 1,
        right_e@.len() >= 1,
        side_at_most(to_entries(left_e@), dim as int, split_val as int),
        side_at_least(to_entries(right_e@), dim as int, split_val as int),
    ensures
        idx == old(nodes)@.len(),
        final(nodes)@.len() > idx,
        forall|j: int| 0 <= j < old(nodes)@.len() ==> final(nodes)@[j] == old(nodes)@[j],
        wf_node(final(nodes)@, idx as int, dim as int),
        subtree_entries(final(nodes)@, idx as int).to_multiset() == to_entries(
            left_e@,
        ).to_multiset().add(to_entries(right_e@).to_multiset()),
    decreases left_e@.len() + right_e@.len(), 0int,
{
    let ghost les = to_entries(left_e@);
    let ghost res = to_entries(right_e@);
    let my_idx: usize = nodes.len();
    nodes.push(Node::Stem(StemNode { left: 0, right: 0, split_val }));
    let next_d: usize = if dim + 1 < K {
        dim + 1
    } else {
        0
    };
    let li: usize = build_rec(nodes, left_e, next_d);
    let ghost nodes1 = nodes@;
    let ri: usize = build_rec(nodes, right_e, next_d);
    let ghost nodes2 = nodes@;
    nodes[my_idx] = Node::Stem(StemNode { left: li, right: ri, split_val });
    proof {
        let nn = nodes@;
        assert(my_idx < li < ri < nn.len());
        assert(forall|j: int| li <= j < nodes1.len() ==> nn[j] == nodes1[j]);
        lemma_subtree_frame(nodes1, nn, li as int, next_d as int);
        assert(forall|j: int| ri <= j < nodes2.len() ==> nn[j] == nodes2[j]);
        lemma_subtree_frame(nodes2, nn, ri as int, next_d as int);
        assert(subtree_entries(nn, my_idx as int) == subtree_entries(nn, li as int)
            + subtree_entries(nn, ri as int));
        assert(subtree_entries(nn, my_idx as int).to_multiset() == subtree_entries(
            nn,
            li as int,
        ).to_multiset().add(subtree_entries(nn, ri as int).to_multiset()));
        lemma_side_at_most_transfer(
            les,
            subtree_entries(nn, li as int),
            dim as int,
            split_val as int,
        );
        lemma_side_at_least_transfer(
            res,
            subtree_entries(nn, ri as int),
            dim as int,
            split_val as int,
        );
        assert(next_d as int == next_dim(dim as int, K as int));
        assert(wf_node(nn, my_idx as int, dim as int));
    }
    my_idx
}

/// The entries a slice of points stands for: each point paired with its
/// position in the slice as its item.
pub open spec fn slice_entries<const K: usize>(points: Seq<[i64; K]>) -> Seq<Entry> {
    Seq::new(points.len(), |j: int| (points[j]@, j as u64))
}

/// An immutable k-d tree over `K`-dimensional points with buckets of
/// capacity `B`. Built once from a slice; queries never mutate it.
pub struct ImmutableKdTree<const K: usize, const B: usize> {
    /// The node arena; the root is at index zero.
    pub nodes: Vec<Node<K, B>>,
    /// The number of stored points.
    pub size: usize,
}

impl<const K: usize, const B: usize> ImmutableKdTree<K, B> {
    /// The tree invariant: a well-formed arena rooted at index zero whose
    /// stored count matches the model. Every constructor establishes it
    /// and every query requires it.
    pub open spec fn wf(self) -> bool {
        &&& 1 <= K <= DIM_LIMIT
        &&& 1 <= B
        &&& wf_node(self.nodes@, 0, 0)
        &&& self.size == subtree_entries(self.nodes@, 0).len()
    }

    /// The stored entries — each a point with its item — in arena order.
    /// This sequence is the tree's mathematical model; every query
    /// contract speaks of it.
    pub open spec fn entries(self) -> Seq<Entry> {
        subtree_entries(self.nodes@, 0)
    }

    /// Everything a well-formed tree stores is in coordinate range and
    /// has `K` coordinates.
    pub proof fn lemma_entries_shape(&self)
        requires
            self.wf(),
        ensures
            forall|j: int| 0 <= j < self.entries().len() ==> point_in_range(
                #[trigger] self.entries()[j].0,
            ) && self.entries()[j].0.len() == K,
    {
        lemma_subtree_entries_in_range(self.nodes@, 0, 0);
    }

    /// Builds a tree from points that already carry their items.
    pub fn new_from_entries(entries: Vec<([i64; K], u64)>) -> (r: Self)
        requires
            1 <= K <= DIM_LIMIT,
            1 <= B,
            entries_in_range(entries@),
        ensures
            r.wf(),
            r.entries().len() == entries@.len(),
            r.entries().to_multiset() == to_entries(entries@).to_multiset(),
    {
        let n: usize = entries.len();
        let ghost target = to_entries(entries@);
        let mut nodes: Vec<Node<K, B>> = Vec::new();
        let ridx: usize = build_rec(&mut nodes, entries, 0);
        proof {
            assert(ridx == 0);
            assert(subtree_entries(nodes@, 0).to_multiset() == target.to_multiset());
            assert(subtree_entries(nodes@, 0).len() == subtree_entries(
                nodes@,
                0,
            ).to_multiset().len());
            assert(target.to_multiset().len() == target.len());
        }
        ImmutableKdTree { nodes, size: n }
    }

    /// Builds a tree from a slice of points; the item of each point is
    /// its position in the slice.
    pub fn new_from_slice(points: &[[i64; K]]) -> (r: Self)
        requires
            1 <= K <= DIM_LIMIT,
            1 <= B,
            forall|j: int| 0 <= j < points@.len() ==> point_in_range(#[trigger] points@[j]@),
        ensures
            r.wf(),
            r.entries().len() == points@.len(),
            r.entries().to_multiset() == slice_entries(points@).to_multiset(),
    {
        let n: usize = points.len();
        let mut entries: Vec<([i64; K], u64)> = Vec::new();
        let mut i: usize = 0;
        while i < n
            invariant
                i <= n,
                n == points@.len(),
                entries@.len() == i,
                forall|j: int| 0 <= j < points@.len() ==> point_in_range(#[trigger] points@[j]@),
                forall|j: int|
                    0 <= j < i ==> #[trigger] entries@[j] == (points@[j], j as u64),
            decreases n - i,
        {
            entries.push((points[i], i as u64));
            i = i + 1;
        }
        proof {
            assert(entries_in_range(entries@));
            assert(to_entries(entries@) =~~= slice_entries(points@));
        }
        Self::new_from_entries(entries)
    }

    /// The number of stored points.
    pub fn size(&self) -> (r: usize)
        requires
            self.wf(),
        ensures
            r == self.entries().len(),
    {
        self.size
    }
}

} // verus!
