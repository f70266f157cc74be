//! Result collectors, as specification-level folds.
//!
//! Each query family ingests candidates one at a time: the single-best
//! collector keeps the strictly closest candidate seen so far, the
//! bounded-n collector keeps the n smallest (distance, item) pairs, and
//! the "within" collector keeps everything inside a fixed radius. This
//! module gives each collector its mathematical meaning — a fold over a
//! candidate sequence — together with the lemmas that let a traversal
//! skip candidates that cannot change the fold's outcome.

use vstd::prelude::*;
use vstd::multiset::Multiset;
use crate::distance_metric::DistanceMetric;
use crate::distance_metric::dist_spec;

verus! {

broadcast use
    vstd::seq_lib::group_to_multiset_ensures,
    vstd::seq_lib::lemma_multiset_commutative,
    vstd::multiset::group_multiset_axioms;

/// A stored point together with its item: the unit every query works on.
pub type Entry = (Seq<i64>, u64);

/// The single-best fold: scan candidates left to right, replacing the
/// running best only on a strictly smaller distance, so the earliest
/// candidate of minimal distance wins.
pub open spec fn fold_nearest<D: DistanceMetric>(
    q: Seq<i64>,
    pts: Seq<Entry>,
    best: (int, u64),
) -> (int, u64)
    decreases pts.len(),
{
    if pts.len() == 0 {
        best
    } else {
        let prev = fold_nearest::<D>(q, pts.drop_last(), best);
        if dist_spec::<D>(q, pts.last().0) < prev.0 {
            (dist_spec::<D>(q, pts.last().0), pts.last().1)
        } else {
            prev
        }
    }
}

/// Folding a concatenation is folding the second part starting from the
/// fold of the first.
pub proof fn lemma_fold_nearest_append<D: DistanceMetric>(
    q: Seq<i64>,
    a: Seq<Entry>,
    b: Seq<Entry>,
    best: (int, u64),
)
    ensures
        fold_nearest::<D>(q, a + b, best) == fold_nearest::<D>(q, b, fold_nearest::<D>(q, a, best)),
    decreases b.len(),
{
    if b.len() == 0 {
        assert(a + b =~= a);
    } else {
        lemma_fold_nearest_append::<D>(q, a, b.drop_last(), best);
        assert((a + b).drop_last() =~= a + b.drop_last());
        assert((a + b).last() == b.last());
    }
}

/// What the single-best fold computes: a distance no larger than the
/// incoming best or any candidate's, reached by a genuine candidate
/// whenever the incoming best is beaten, and left untouched otherwise.
pub proof fn lemma_fold_nearest_props<D: DistanceMetric>(
    q: Seq<i64>,
    pts: Seq<Entry>,
    best: (int, u64),
)
    ensures
        fold_nearest::<D>(q, pts, best).0 <= best.0,
        forall|j: int| 0 <= j < pts.len() ==> fold_nearest::<D>(q, pts, best).0 <= dist_spec::<D>(
            q,
            #[trigger] pts[j].0,
        ),
        fold_nearest::<D>(q, pts, best).0 == best.0 ==> fold_nearest::<D>(q, pts, best) == best,
        fold_nearest::<D>(q, pts, best).0 < best.0 ==> exists|j: int|
            0 <= j < pts.len() && dist_spec::<D>(q, pts[j].0) == fold_nearest::<D>(q, pts, best).0
                && pts[j].1 == fold_nearest::<D>(q, pts, best).1,
    decreases pts.len(),
{
    if pts.len() > 0 {
        lemma_fold_nearest_props::<D>(q, pts.drop_last(), best);
        let r = fold_nearest::<D>(q, pts, best);
        let prev = fold_nearest::<D>(q, pts.drop_last(), best);
        assert(forall|j: int| 0 <= j < pts.len() - 1 ==> pts.drop_last()[j] == #[trigger] pts[j]);
        if dist_spec::<D>(q, pts.last().0) < prev.0 {
            assert(dist_spec::<D>(q, pts[pts.len() - 1].0) == r.0 && pts[pts.len() - 1].1 == r.1);
        } else {
            if r.0 < best.0 {
                let j = choose|j: int|
                    0 <= j < pts.drop_last().len() && dist_spec::<D>(q, pts.drop_last()[j].0)
                        == prev.0 && pts.drop_last()[j].1 == prev.1;
                assert(dist_spec::<D>(q, pts[j].0) == r.0 && pts[j].1 == r.1);
            }
        }
    }
}

/// If every candidate's distance is at least the current best, the fold
/// leaves the best unchanged. This is what lets a traversal prune.
pub proof fn lemma_fold_nearest_no_improvement<D: DistanceMetric>(
    q: Seq<i64>,
    pts: Seq<Entry>,
    best: (int, u64),
    bound: int,
)
    requires
        best.0 <= bound,
        forall|j: int| 0 <= j < pts.len() ==> dist_spec::<D>(q, #[trigger] pts[j].0) >= bound,
    ensures
        fold_nearest::<D>(q, pts, best) == best,
    decreases pts.len(),
{
    if pts.len() > 0 {
        assert(forall|j: int|
            0 <= j < pts.drop_last().len() ==> dist_spec::<D>(
                q,
                #[trigger] pts.drop_last()[j].0,
            ) >= bound);
        lemma_fold_nearest_no_improvement::<D>(q, pts.drop_last(), best, bound);
        assert(dist_spec::<D>(q, pts[pts.len() - 1].0) >= bound);
    }
}

/// The "within" fold: keep, in visiting order, every candidate whose
/// distance does not exceed the radius, paired with its distance.
pub open spec fn collect_within<D: DistanceMetric>(
    q: Seq<i64>,
    pts: Seq<Entry>,
    radius: int,
) -> Seq<(i64, u64)>
    decreases pts.len(),
{
    if pts.len() == 0 {
        Seq::empty()
    } else {
        let prev = collect_within::<D>(q, pts.drop_last(), radius);
        if dist_spec::<D>(q, pts.last().0) <= radius {
            prev.push((dist_spec::<D>(q, pts.last().0) as i64, pts.last().1))
        } else {
            prev
        }
    }
}

/// Collecting over a concatenation concatenates the collections.
pub proof fn lemma_collect_within_append<D: DistanceMetric>(
    q: Seq<i64>,
    a: Seq<Entry>,
    b: Seq<Entry>,
    radius: int,
)
    ensures
        collect_within::<D>(q, a + b, radius) == collect_within::<D>(q, a, radius)
            + collect_within::<D>(q, b, radius),
    decreases b.len(),
{
    if b.len() == 0 {
        assert(a + b =~= a);
        assert(collect_within::<D>(q, a, radius) + collect_within::<D>(q, b, radius)
            =~= collect_within::<D>(q, a, radius));
    } else {
        lemma_collect_within_append::<D>(q, a, b.drop_last(), radius);
        assert((a + b).drop_last() =~= a + b.drop_last());
        assert((a + b).last() == b.last());
        if dist_spec::<D>(q, b.last().0) <= radius {
            assert(collect_within::<D>(q, a, radius) + collect_within::<D>(
                q,
                b.drop_last(),
                radius,
            ).push((dist_spec::<D>(q, b.last().0) as i64, b.last().1)) =~= (collect_within::<D>(
                q,
                a,
                radius,
            ) + collect_within::<D>(q, b.drop_last(), radius)).push(
                (dist_spec::<D>(q, b.last().0) as i64, b.last().1),
            ));
        }
    }
}

/// When every candidate lies beyond the radius, nothing is collected.
pub proof fn lemma_collect_within_empty<D: DistanceMetric>(
    q: Seq<i64>,
    pts: Seq<Entry>,
    radius: int,
)
    requires
        forall|j: int| 0 <= j < pts.len() ==> dist_spec::<D>(q, #[trigger] pts[j].0) > radius,
    ensures
        collect_within::<D>(q, pts, radius) == Seq::<(i64, u64)>::empty(),
    decreases pts.len(),
{
    if pts.len() > 0 {
        assert(forall|j: int|
            0 <= j < pts.drop_last().len() ==> dist_spec::<D>(
                q,
                #[trigger] pts.drop_last()[j].0,
            ) > radius);
        lemma_collect_within_empty::<D>(q, pts.drop_last(), radius);
        assert(dist_spec::<D>(q, pts[pts.len() - 1].0) > radius);
    }
}

/// What the "within" fold collects: exactly the candidates inside the
/// radius — each kept element is a genuine candidate inside the radius,
/// and every candidate inside the radius is kept.
pub proof fn lemma_collect_within_props<D: DistanceMetric>(
    q: Seq<i64>,
    pts: Seq<Entry>,
    radius: int,
)
    requires
        radius <= i64::MAX,
    ensures
        forall|i: int|
            0 <= i < collect_within::<D>(q, pts, radius).len() ==> (#[trigger] collect_within::<D>(
                q,
                pts,
                radius,
            )[i].0) as int <= radius && exists|j: int|
                0 <= j < pts.len() && dist_spec::<D>(q, pts[j].0) == collect_within::<D>(
                    q,
                    pts,
                    radius,
                )[i].0 as int && pts[j].1 == collect_within::<D>(q, pts, radius)[i].1,
        forall|j: int|
            0 <= j < pts.len() && dist_spec::<D>(q, (#[trigger] pts[j]).0) <= radius
                ==> collect_within::<D>(q, pts, radius).contains(
                (dist_spec::<D>(q, pts[j].0) as i64, pts[j].1),
            ),
    decreases pts.len(),
{
    let c = collect_within::<D>(q, pts, radius);
    if pts.len() > 0 {
        lemma_collect_within_props::<D>(q, pts.drop_last(), radius);
        let prev = collect_within::<D>(q, pts.drop_last(), radius);
        assert(forall|j: int| 0 <= j < pts.len() - 1 ==> pts.drop_last()[j] == #[trigger] pts[j]);
        assert forall|i: int| 0 <= i < c.len() implies (#[trigger] c[i].0) as int <= radius
            && exists|j: int|
            0 <= j < pts.len() && dist_spec::<D>(q, pts[j].0) == c[i].0 as int && pts[j].1
                == c[i].1 by {
            if i < prev.len() {
                assert(c[i] == prev[i]);
                let j = choose|j: int|
                    0 <= j < pts.drop_last().len() && dist_spec::<D>(q, pts.drop_last()[j].0)
                        == prev[i].0 as int && pts.drop_last()[j].1 == prev[i].1;
                assert(dist_spec::<D>(q, pts[j].0) == c[i].0 as int && pts[j].1 == c[i].1);
            } else {
                assert(dist_spec::<D>(q, pts[pts.len() - 1].0) <= radius);
                lemma_dist_cast_exact::<D>(q, pts[pts.len() - 1].0, radius);
                assert(dist_spec::<D>(q, pts[pts.len() - 1].0) == c[i].0 as int && pts[pts.len()
                    - 1].1 == c[i].1);
            }
        }
        assert forall|j: int|
            0 <= j < pts.len() && dist_spec::<D>(q, (#[trigger] pts[j]).0) <= radius implies c
            .contains((dist_spec::<D>(q, pts[j].0) as i64, pts[j].1)) by {
            if j < pts.len() - 1 {
                assert(prev.contains((dist_spec::<D>(q, pts[j].0) as i64, pts[j].1)));
                let i = choose|i: int|
                    0 <= i < prev.len() && prev[i] == (
                    dist_spec::<D>(q, pts[j].0) as i64,
                    pts[j].1,
                );
                assert(c[i] == prev[i]);
            } else {
                assert(c[c.len() - 1] == (dist_spec::<D>(q, pts[j].0) as i64, pts[j].1));
            }
        }
    }
}

/// A non-negative distance within an `i64` radius is represented exactly
/// by its `i64` cast.
pub proof fn lemma_dist_cast_exact<D: DistanceMetric>(q: Seq<i64>, p: Seq<i64>, radius: int)
    requires
        dist_spec::<D>(q, p) <= radius,
        radius <= i64::MAX,
    ensures
        (dist_spec::<D>(q, p) as i64) as int == dist_spec::<D>(q, p),
{
    lemma_dist_nonneg::<D>(q, p, q.len() as int);
}

/// A sum of per-axis contributions is never negative.
pub proof fn lemma_dist_nonneg<D: DistanceMetric>(q: Seq<i64>, p: Seq<i64>, n: int)
    ensures
        crate::distance_metric::dist_upto::<D>(q, p, n) >= 0,
    decreases n,
{
    if n > 0 {
        lemma_dist_nonneg::<D>(q, p, n - 1);
        D::lemma_dist1_nonneg(q[n - 1] as int, p[n - 1] as int);
    }
}

/// Ordering of result pairs: by distance, ties by item identifier. A
/// total order, so the n smallest pairs of a candidate bag are unique.
pub open spec fn le_pair(a: (i64, u64), b: (i64, u64)) -> bool {
    a.0 < b.0 || (a.0 == b.0 && a.1 <= b.1)
}

/// Strict pair ordering.
pub open spec fn lt_pair(a: (i64, u64), b: (i64, u64)) -> bool {
    a.0 < b.0 || (a.0 == b.0 && a.1 < b.1)
}

/// Weakly ascending in the pair order.
pub open spec fn sorted_pairs(s: Seq<(i64, u64)>) -> bool {
    forall|i: int, j: int| 0 <= i <= j < s.len() ==> le_pair(#[trigger] s[i], #[trigger] s[j])
}

/// Inserts a pair into a sorted sequence, keeping it sorted; an equal
/// pair goes in front of its duplicates.
pub open spec fn insert_sorted(res: Seq<(i64, u64)>, c: (i64, u64)) -> Seq<(i64, u64)>
    decreases res.len(),
{
    if res.len() == 0 {
        seq![c]
    } else if le_pair(c, res[0]) {
        seq![c] + res
    } else {
        seq![res[0]] + insert_sorted(res.drop_first(), c)
    }
}

/// One step of the bounded-n collector: insert while below capacity,
/// else replace the largest kept pair when strictly beaten.
pub open spec fn knn_step(res: Seq<(i64, u64)>, c: (i64, u64), n: int) -> Seq<(i64, u64)> {
    if res.len() < n {
        insert_sorted(res, c)
    } else if lt_pair(c, res.last()) {
        insert_sorted(res.drop_last(), c)
    } else {
        res
    }
}

/// The bounded-n fold over candidates in visiting order: what
/// `nearest_n` returns.
pub open spec fn fold_knn<D: DistanceMetric>(
    q: Seq<i64>,
    pts: Seq<Entry>,
    res: Seq<(i64, u64)>,
    n: int,
) -> Seq<(i64, u64)>
    decreases pts.len(),
{
    if pts.len() == 0 {
        res
    } else {
        knn_step(
            fold_knn::<D>(q, pts.drop_last(), res, n),
            (dist_spec::<D>(q, pts.last().0) as i64, pts.last().1),
            n,
        )
    }
}

/// Folding a concatenation is folding the second part starting from the
/// fold of the first.
pub proof fn lemma_fold_knn_append<D: DistanceMetric>(
    q: Seq<i64>,
    a: Seq<Entry>,
    b: Seq<Entry>,
    res: Seq<(i64, u64)>,
    n: int,
)
    ensures
        fold_knn::<D>(q, a + b, res, n) == fold_knn::<D>(q, b, fold_knn::<D>(q, a, res, n), n),
    decreases b.len(),
{
    if b.len() == 0 {
        assert(a + b =~= a);
    } else {
        lemma_fold_knn_append::<D>(q, a, b.drop_last(), res, n);
        assert((a + b).drop_last() =~= a + b.drop_last());
        assert((a + b).last() == b.last());
    }
}

/// What insertion does: length grows by one, the result is sorted when
/// the input was, and the kept pairs are the input's plus the new one.
pub proof fn lemma_insert_sorted_props(res: Seq<(i64, u64)>, c: (i64, u64))
    requires
        sorted_pairs(res),
    ensures
        insert_sorted(res, c).len() == res.len() + 1,
        sorted_pairs(insert_sorted(res, c)),
        insert_sorted(res, c).to_multiset() == res.to_multiset().insert(c),
        forall|x: (i64, u64)| res.contains(x) ==> #[trigger] insert_sorted(res, c).contains(x),
        insert_sorted(res, c).contains(c),
        le_pair(insert_sorted(res, c).last(), c) || insert_sorted(res, c).last() == c
            || res.contains(insert_sorted(res, c).last()),
    decreases res.len(),
{
    let r = insert_sorted(res, c);
    if res.len() == 0 {
        assert(seq![c].to_multiset() =~= Seq::<(i64, u64)>::empty().push(c).to_multiset());
        assert(Seq::<(i64, u64)>::empty().push(c) =~= seq![c]);
        assert(res.to_multiset().insert(c) =~= seq![c].to_multiset()) by {
            assert(seq![c] =~= Seq::<(i64, u64)>::empty().push(c));
        }
        assert(r[0] == c);
    } else if le_pair(c, res[0]) {
        assert(r =~= seq![c] + res);
        assert(forall|i: int| 0 <= i < res.len() ==> r[i + 1] == #[trigger] res[i]);
        assert(r[0] == c);
        assert forall|i: int, j: int| 0 <= i <= j < r.len() implies le_pair(r[i], r[j]) by {
            if i > 0 {
                assert(le_pair(res[i - 1], res[j - 1]));
            } else if j > 0 {
                assert(le_pair(res[0], res[j - 1]));
            }
        }
        assert(r.to_multiset() =~= res.to_multiset().insert(c)) by {
            assert(r.drop_first() =~= res);
            lemma_multiset_first(r);
        }
        assert(r.last() == res.last());
        assert(res.contains(res.last()));
    } else {
        let sub = res.drop_first();
        assert(forall|i: int, j: int|
            0 <= i <= j < sub.len() ==> le_pair(#[trigger] sub[i], #[trigger] sub[j]));
        lemma_insert_sorted_props(sub, c);
        let rs = insert_sorted(sub, c);
        assert(r =~= seq![res[0]] + rs);
        assert(forall|i: int| 0 <= i < rs.len() ==> r[i + 1] == #[trigger] rs[i]);
        assert(r[0] == res[0]);
        assert forall|i: int, j: int| 0 <= i <= j < r.len() implies le_pair(r[i], r[j]) by {
            if i > 0 {
                assert(le_pair(rs[i - 1], rs[j - 1]));
            } else if j > 0 {
                // the head is below everything inserted behind it
                let x = rs[j - 1];
                assert(rs.contains(x));
                assert(rs.to_multiset().count(x) > 0);
                assert(rs.to_multiset() == sub.to_multiset().insert(c));
                if x != c {
                    assert(sub.to_multiset().count(x) > 0);
                    assert(sub.contains(x));
                }
                if sub.contains(x) {
                    let w = choose|w: int| 0 <= w < sub.len() && sub[w] == x;
                    assert(le_pair(res[0], res[w + 1]));
                } else {
                    assert(!le_pair(c, res[0]));
                    assert(le_pair(res[0], c));
                }
            }
        }
        assert(r.to_multiset() =~= res.to_multiset().insert(c)) by {
            assert(r.drop_first() =~= rs);
            lemma_multiset_first(r);
            lemma_multiset_first(res);
        }
        assert forall|x: (i64, u64)| res.contains(x) implies r.contains(x) by {
            assert(r.to_multiset().count(x) >= res.to_multiset().count(x));
        }
        assert(r.contains(c)) by {
            assert(r.to_multiset().count(c) > 0);
        }
        assert(r.last() == rs.last());
        if rs.last() == c {
        } else if sub.contains(rs.last()) {
            let w = choose|w: int| 0 <= w < sub.len() && sub[w] == rs.last();
            assert(res[w + 1] == rs.last());
            assert(res.contains(rs.last()));
        } else {
            assert(le_pair(rs.last(), c) || rs.last() == c || sub.contains(rs.last()));
        }
    }
}

/// One collector step keeps the result sorted, tracks the length
/// exactly, and never invents a pair: each kept pair was kept before or
/// is the new candidate, and each previously kept pair either survives
/// or is at least the new largest kept pair.
pub proof fn lemma_knn_step_props(res: Seq<(i64, u64)>, c: (i64, u64), n: int)
    requires
        1 <= n,
        sorted_pairs(res),
        res.len() <= n,
    ensures
        sorted_pairs(knn_step(res, c, n)),
        knn_step(res, c, n).len() == if res.len() < n {
            res.len() + 1
        } else {
            n as nat
        },
        forall|x: (i64, u64)| #[trigger] knn_step(res, c, n).to_multiset().count(x)
            <= res.to_multiset().insert(c).count(x),
        forall|x: (i64, u64)| res.contains(x) ==> #[trigger] knn_step(res, c, n).contains(x) || (
        knn_step(res, c, n).len() == n && le_pair(knn_step(res, c, n).last(), x)),
        knn_step(res, c, n).contains(c) || (knn_step(res, c, n).len() == n && le_pair(
            knn_step(res, c, n).last(),
            c,
        )),
        res.len() == n ==> le_pair(knn_step(res, c, n).last(), res.last()),
{
    let r = knn_step(res, c, n);
    if res.len() < n {
        lemma_insert_sorted_props(res, c);
    } else if lt_pair(c, res.last()) {
        let sub = res.drop_last();
        assert(forall|i: int, j: int|
            0 <= i <= j < sub.len() ==> le_pair(#[trigger] sub[i], #[trigger] sub[j]));
        lemma_insert_sorted_props(sub, c);
        lemma_multiset_last(res);
        assert(r.to_multiset() == sub.to_multiset().insert(c));
        assert forall|x: (i64, u64)| #[trigger] r.to_multiset().count(x) <= res.to_multiset()
            .insert(c).count(x) by {
            assert(res.to_multiset() == sub.to_multiset().insert(res.last()));
        }
        // the new largest kept pair never exceeds the dropped one
        assert(le_pair(r.last(), res.last())) by {
            if r.last() == c {
                assert(le_pair(c, res.last()));
            } else if sub.contains(r.last()) {
                let w = choose|w: int| 0 <= w < sub.len() && sub[w] == r.last();
                assert(le_pair(res[w], res.last()));
            }
        }
        assert forall|x: (i64, u64)| res.contains(x) implies r.contains(x) || (r.len() == n
            && le_pair(r.last(), x)) by {
            let w = choose|w: int| 0 <= w < res.len() && res[w] == x;
            if w < res.len() - 1 {
                assert(sub[w] == x);
                assert(r.contains(x));
            } else {
                assert(x == res.last());
            }
        }
        assert(r.contains(c));
    } else {
        assert(r == res);
        assert forall|x: (i64, u64)| #[trigger] r.to_multiset().count(x) <= res.to_multiset()
            .insert(c).count(x) by {}
        assert(res.contains(res.last()));
        assert(le_pair(r.last(), c));
    }
}

/// A sequence's multiset is its last element plus the rest.
pub proof fn lemma_multiset_last<T>(s: Seq<T>)
    requires
        s.len() > 0,
    ensures
        s.to_multiset() == s.drop_last().to_multiset().insert(s.last()),
{
    assert(s =~= s.drop_last().push(s.last()));
    assert(s.drop_last().push(s.last()).to_multiset() =~= s.drop_last().to_multiset().insert(
        s.last(),
    ));
}

/// The bounded-n fold keeps the result sorted and of the expected
/// length.
pub proof fn lemma_fold_knn_sorted<D: DistanceMetric>(
    q: Seq<i64>,
    pts: Seq<Entry>,
    res: Seq<(i64, u64)>,
    n: int,
)
    requires
        1 <= n,
        sorted_pairs(res),
        res.len() <= n,
    ensures
        sorted_pairs(fold_knn::<D>(q, pts, res, n)),
        fold_knn::<D>(q, pts, res, n).len() <= n,
        fold_knn::<D>(q, pts, res, n).len() == if res.len() + pts.len() < n {
            res.len() + pts.len()
        } else {
            n as nat
        },
    decreases pts.len(),
{
    if pts.len() > 0 {
        lemma_fold_knn_sorted::<D>(q, pts.drop_last(), res, n);
        lemma_knn_step_props(
            fold_knn::<D>(q, pts.drop_last(), res, n),
            (dist_spec::<D>(q, pts.last().0) as i64, pts.last().1),
            n,
        );
    }
}

/// When the collector is full and every candidate's distance is at least
/// a bound beyond the largest kept distance, the fold keeps nothing new.
pub proof fn lemma_fold_knn_no_improvement<D: DistanceMetric>(
    q: Seq<i64>,
    pts: Seq<Entry>,
    res: Seq<(i64, u64)>,
    n: int,
    bound: int,
)
    requires
        1 <= n,
        res.len() == n,
        (res.last().0 as int) < bound,
        forall|j: int| 0 <= j < pts.len() ==> dist_spec::<D>(q, #[trigger] pts[j].0) >= bound,
        forall|j: int| 0 <= j < pts.len() ==> dist_spec::<D>(q, #[trigger] pts[j].0)
            <= i64::MAX,
    ensures
        fold_knn::<D>(q, pts, res, n) == res,
    decreases pts.len(),
{
    if pts.len() > 0 {
        assert(forall|j: int|
            0 <= j < pts.drop_last().len() ==> dist_spec::<D>(
                q,
                #[trigger] pts.drop_last()[j].0,
            ) >= bound);
        assert(forall|j: int|
            0 <= j < pts.drop_last().len() ==> dist_spec::<D>(
                q,
                #[trigger] pts.drop_last()[j].0,
            ) <= i64::MAX);
        lemma_fold_knn_no_improvement::<D>(q, pts.drop_last(), res, n, bound);
        assert(dist_spec::<D>(q, pts[pts.len() - 1].0) >= bound);
        let c = (dist_spec::<D>(q, pts.last().0) as i64, pts.last().1);
        assert(dist_spec::<D>(q, pts.last().0) >= 0) by {
            lemma_dist_nonneg::<D>(q, pts.last().0, q.len() as int);
        }
        assert(c.0 as int == dist_spec::<D>(q, pts.last().0));
        assert(!lt_pair(c, res.last()));
    }
}

/// The candidate pairs a sequence of entries stands for.
pub open spec fn entry_pairs<D: DistanceMetric>(q: Seq<i64>, pts: Seq<Entry>) -> Seq<(i64, u64)> {
    pts.map_values(|e: Entry| (dist_spec::<D>(q, e.0) as i64, e.1))
}

/// Whether `p` is the (distance, item) pair of one of the entries: the
/// soundness predicate of every returned result pair.
pub open spec fn is_entry_pair<D: DistanceMetric>(
    q: Seq<i64>,
    pts: Seq<Entry>,
    p: (i64, u64),
) -> bool {
    exists|j: int|
        0 <= j < pts.len() && dist_spec::<D>(q, pts[j].0) == p.0 as int && pts[j].1 == p.1
}

/// The bounded-n fold is sound and complete with respect to everything
/// it has seen: each kept pair is a seen candidate pair, and each seen
/// candidate pair was kept or is no smaller than the largest kept pair
/// of a full collector.
pub proof fn lemma_fold_knn_seen<D: DistanceMetric>(
    q: Seq<i64>,
    seen: Seq<(i64, u64)>,
    pts: Seq<Entry>,
    res: Seq<(i64, u64)>,
    n: int,
)
    requires
        1 <= n,
        sorted_pairs(res),
        res.len() <= n,
        forall|x: (i64, u64)| #[trigger] res.to_multiset().count(x) <= seen.to_multiset().count(
            x,
        ),
        forall|j: int| 0 <= j < seen.len() ==> res.contains(#[trigger] seen[j]) || (res.len() == n
            && le_pair(res.last(), seen[j])),
    ensures
        forall|x: (i64, u64)| #[trigger] fold_knn::<D>(q, pts, res, n).to_multiset().count(x) <= (
        seen + entry_pairs::<D>(q, pts)).to_multiset().count(x),
        forall|j: int| 0 <= j < (seen + entry_pairs::<D>(q, pts)).len() ==> fold_knn::<D>(
            q,
            pts,
            res,
            n,
        ).contains(#[trigger] (seen + entry_pairs::<D>(q, pts))[j]) || (fold_knn::<D>(
            q,
            pts,
            res,
            n,
        ).len() == n && le_pair(fold_knn::<D>(q, pts, res, n).last(), (seen + entry_pairs::<D>(
            q,
            pts,
        ))[j])),
    decreases pts.len(),
{
    if pts.len() == 0 {
        assert(seen + entry_pairs::<D>(q, pts) =~= seen);
    } else {
        lemma_fold_knn_seen::<D>(q, seen, pts.drop_last(), res, n);
        lemma_fold_knn_sorted::<D>(q, pts.drop_last(), res, n);
        let prev = fold_knn::<D>(q, pts.drop_last(), res, n);
        let c = (dist_spec::<D>(q, pts.last().0) as i64, pts.last().1);
        let r = fold_knn::<D>(q, pts, res, n);
        lemma_knn_step_props(prev, c, n);
        let seen1 = seen + entry_pairs::<D>(q, pts.drop_last());
        let seen2 = seen + entry_pairs::<D>(q, pts);
        assert(seen2 =~= seen1.push(c)) by {
            assert(entry_pairs::<D>(q, pts).len() == pts.len());
            assert(forall|j: int|
                0 <= j < pts.len() - 1 ==> #[trigger] entry_pairs::<D>(q, pts)[j]
                    == entry_pairs::<D>(q, pts.drop_last())[j]);
            assert(entry_pairs::<D>(q, pts)[pts.len() - 1] == c);
        }
        assert forall|x: (i64, u64)| #[trigger] r.to_multiset().count(x) <= seen2.to_multiset()
            .count(x) by {
            assert(r.to_multiset().count(x) <= prev.to_multiset().insert(c).count(x));
            assert(seen2.to_multiset() == seen1.to_multiset().insert(c));
        }
        assert forall|j: int| 0 <= j < seen2.len() implies r.contains(#[trigger] seen2[j]) || (
        r.len() == n && le_pair(r.last(), seen2[j])) by {
            if j < seen1.len() {
                assert(seen2[j] == seen1[j]);
                if prev.contains(seen1[j]) {
                    assert(r.contains(seen1[j]) || (r.len() == n && le_pair(
                        r.last(),
                        seen1[j],
                    )));
                } else {
                    assert(prev.len() == n && le_pair(prev.last(), seen1[j]));
                    // the largest kept pair only shrinks as candidates
                    // arrive, so the dropped pair stays dominated
                    assert(le_pair(r.last(), prev.last()));
                    assert(r.len() == n && le_pair(r.last(), seen1[j]));
                }
            } else {
                assert(seen2[j] == c);
                assert(r.contains(c) || (r.len() == n && le_pair(r.last(), c)));
            }
        }
    }
}

/// Inserting at the first position whose pair is no smaller than the
/// candidate is what `insert_sorted` does.
pub proof fn lemma_insert_sorted_at(res: Seq<(i64, u64)>, c: (i64, u64), pos: int)
    requires
        0 <= pos <= res.len(),
        forall|i: int| 0 <= i < pos ==> !le_pair(c, #[trigger] res[i]),
        pos < res.len() ==> le_pair(c, res[pos]),
    ensures
        insert_sorted(res, c) == res.take(pos) + seq![c] + res.skip(pos),
    decreases pos,
{
    if pos == 0 {
        assert(insert_sorted(res, c) =~= res.take(0) + seq![c] + res.skip(0));
    } else {
        let sub = res.drop_first();
        assert(forall|i: int| 0 <= i < pos - 1 ==> !le_pair(c, #[trigger] sub[i]));
        lemma_insert_sorted_at(sub, c, pos - 1);
        assert(insert_sorted(res, c) =~= seq![res[0]] + (sub.take(pos - 1) + seq![c] + sub.skip(
            pos - 1,
        )));
        assert(seq![res[0]] + (sub.take(pos - 1) + seq![c] + sub.skip(pos - 1)) =~= res.take(pos)
            + seq![c] + res.skip(pos));
    }
}

/// The "best" order for `best_n_within`: by item identifier, ties by
/// distance. The best candidates are the ones with the smallest items.
pub open spec fn le_item(a: (i64, u64), b: (i64, u64)) -> bool {
    a.1 < b.1 || (a.1 == b.1 && a.0 <= b.0)
}

/// Weakly ascending in the item order.
pub open spec fn sorted_items(s: Seq<(i64, u64)>) -> bool {
    forall|i: int, j: int| 0 <= i <= j < s.len() ==> le_item(#[trigger] s[i], #[trigger] s[j])
}

/// Inserts a pair into an item-sorted sequence, keeping it sorted.
pub open spec fn insert_item(res: Seq<(i64, u64)>, c: (i64, u64)) -> Seq<(i64, u64)>
    decreases res.len(),
{
    if res.len() == 0 {
        seq![c]
    } else if le_item(c, res[0]) {
        seq![c] + res
    } else {
        seq![res[0]] + insert_item(res.drop_first(), c)
    }
}

/// Item-order insertion grows the sequence by the new pair, keeps it
/// sorted, and keeps the same pairs.
pub proof fn lemma_insert_item_props(res: Seq<(i64, u64)>, c: (i64, u64))
    requires
        sorted_items(res),
    ensures
        insert_item(res, c).len() == res.len() + 1,
        sorted_items(insert_item(res, c)),
        insert_item(res, c).to_multiset() == res.to_multiset().insert(c),
    decreases res.len(),
{
    let r = insert_item(res, c);
    if res.len() == 0 {
        assert(r =~= Seq::<(i64, u64)>::empty().push(c));
        assert(r.to_multiset() =~= res.to_multiset().insert(c));
    } else if le_item(c, res[0]) {
        assert(r =~= seq![c] + res);
        assert(forall|i: int| 0 <= i < res.len() ==> r[i + 1] == #[trigger] res[i]);
        assert(r[0] == c);
        assert forall|i: int, j: int| 0 <= i <= j < r.len() implies le_item(r[i], r[j]) by {
            if i > 0 {
                assert(le_item(res[i - 1], res[j - 1]));
            } else if j > 0 {
                assert(le_item(res[0], res[j - 1]));
            }
        }
        assert(r.drop_first() =~= res);
        lemma_multiset_first(r);
    } else {
        let sub = res.drop_first();
        assert(forall|i: int, j: int|
            0 <= i <= j < sub.len() ==> le_item(#[trigger] sub[i], #[trigger] sub[j]));
        lemma_insert_item_props(sub, c);
        let rs = insert_item(sub, c);
        assert(r =~= seq![res[0]] + rs);
        assert(forall|i: int| 0 <= i < rs.len() ==> r[i + 1] == #[trigger] rs[i]);
        assert(r[0] == res[0]);
        assert forall|i: int, j: int| 0 <= i <= j < r.len() implies le_item(r[i], r[j]) by {
            if i > 0 {
                assert(le_item(rs[i - 1], rs[j - 1]));
            } else if j > 0 {
                let x = rs[j - 1];
                assert(rs.contains(x));
                assert(rs.to_multiset().count(x) > 0);
                assert(rs.to_multiset() == sub.to_multiset().insert(c));
                if x != c {
                    assert(sub.to_multiset().count(x) > 0);
                    assert(sub.contains(x));
                    let w = choose|w: int| 0 <= w < sub.len() && sub[w] == x;
                    assert(le_item(res[0], res[w + 1]));
                } else {
                    assert(!le_item(c, res[0]));
                    assert(le_item(res[0], c));
                }
            }
        }
        assert(r.drop_first() =~= rs);
        lemma_multiset_first(r);
        lemma_multiset_first(res);
    }
}

/// Inserting at the first position whose pair is no smaller in the item
/// order is what `insert_item` does.
pub proof fn lemma_insert_item_at(res: Seq<(i64, u64)>, c: (i64, u64), pos: int)
    requires
        0 <= pos <= res.len(),
        forall|i: int| 0 <= i < pos ==> !le_item(c, #[trigger] res[i]),
        pos < res.len() ==> le_item(c, res[pos]),
    ensures
        insert_item(res, c) == res.take(pos) + seq![c] + res.skip(pos),
    decreases pos,
{
    if pos == 0 {
        assert(insert_item(res, c) =~= res.take(0) + seq![c] + res.skip(0));
    } else {
        let sub = res.drop_first();
        assert(forall|i: int| 0 <= i < pos - 1 ==> !le_item(c, #[trigger] sub[i]));
        lemma_insert_item_at(sub, c, pos - 1);
        assert(insert_item(res, c) =~= seq![res[0]] + (sub.take(pos - 1) + seq![c] + sub.skip(
            pos - 1,
        )));
        assert(seq![res[0]] + (sub.take(pos - 1) + seq![c] + sub.skip(pos - 1)) =~= res.take(pos)
            + seq![c] + res.skip(pos));
    }
}

/// A sequence's multiset is its first element plus the rest.
pub proof fn lemma_multiset_first<T>(s: Seq<T>)
    requires
        s.len() > 0,
    ensures
        s.to_multiset() == s.drop_first().to_multiset().insert(s[0]),
{
    assert(s =~= seq![s[0]] + s.drop_first());
    assert((seq![s[0]] + s.drop_first()).to_multiset() == seq![s[0]].to_multiset().add(
        s.drop_first().to_multiset(),
    ));
    assert(seq![s[0]].to_multiset() =~= Multiset::<T>::empty().insert(s[0])) by {
        assert(seq![s[0]] =~= Seq::<T>::empty().push(s[0]));
    }
    assert(Multiset::<T>::empty().insert(s[0]).add(s.drop_first().to_multiset())
        =~= s.drop_first().to_multiset().insert(s[0]));
}

/// The fold never raises the running best distance.
pub proof fn lemma_fold_nearest_monotone<D: DistanceMetric>(
    q: Seq<i64>,
    pts: Seq<Entry>,
    best: (int, u64),
)
    ensures
        fold_nearest::<D>(q, pts, best).0 <= best.0,
    decreases pts.len(),
{
    if pts.len() > 0 {
        lemma_fold_nearest_monotone::<D>(q, pts.drop_last(), best);
    }
}

} // verus!
