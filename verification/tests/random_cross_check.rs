//! Randomized cross-checks of the tree against brute-force scans.

use kiddo::ImmutableKdTree;
use kiddo::SquaredEuclidean;

fn random_point<const K: usize>(span: i64) -> [i64; K] {
    let mut p = [0i64; K];
    for d in 0..K {
        p[d] = rand::random_range(-span..span);
    }
    p
}

fn brute_force_nearest(points: &[[i64; 3]], query: &[i64; 3]) -> (i64, u64) {
    let mut best = (i64::MAX, 0u64);
    for (i, p) in points.iter().enumerate() {
        let mut d = 0i64;
        for k in 0..3 {
            d += (p[k] - query[k]) * (p[k] - query[k]);
        }
        if d < best.0 {
            best = (d, i as u64);
        }
    }
    best
}

#[test]
fn nearest_one_matches_brute_force() {
    let mut points: Vec<[i64; 3]> = Vec::new();
    for _ in 0..10_000 {
        points.push(random_point::<3>(1000));
    }
    let tree: ImmutableKdTree<3, 32> = ImmutableKdTree::new_from_slice(&points);
    assert_eq!(tree.size(), 10_000);
    for _ in 0..1000 {
        let q = random_point::<3>(1200);
        let got = tree.nearest_one::<SquaredEuclidean>(&q);
        let want = brute_force_nearest(&points, &q);
        assert_eq!(got.0, want.0);
        // items may differ only between equidistant points
        let gp = points[got.1 as usize];
        let mut d = 0i64;
        for k in 0..3 {
            d += (gp[k] - q[k]) * (gp[k] - q[k]);
        }
        assert_eq!(d, want.0);
    }
}

#[test]
fn pruning_does_not_change_results() {
    let mut points: Vec<[i64; 2]> = Vec::new();
    for _ in 0..500 {
        points.push(random_point::<2>(50));
    }
    let tree: ImmutableKdTree<2, 8> = ImmutableKdTree::new_from_slice(&points);
    for _ in 0..200 {
        let q = random_point::<2>(80);
        let pruned = tree.nearest_one::<SquaredEuclidean>(&q);
        let unpruned = tree.nearest_one_unpruned::<SquaredEuclidean>(&q);
        assert_eq!(pruned, unpruned);
    }
}

#[test]
fn within_matches_brute_force() {
    let mut points: Vec<[i64; 2]> = Vec::new();
    for _ in 0..2000 {
        points.push(random_point::<2>(100));
    }
    let tree: ImmutableKdTree<2, 16> = ImmutableKdTree::new_from_slice(&points);
    for _ in 0..100 {
        let q = random_point::<2>(120);
        let radius = rand::random_range(0..4000i64);
        let mut got = tree.within::<SquaredEuclidean>(&q, radius);
        got.sort();
        let mut want: Vec<(i64, u64)> = Vec::new();
        for (i, p) in points.iter().enumerate() {
            let d = (p[0] - q[0]) * (p[0] - q[0]) + (p[1] - q[1]) * (p[1] - q[1]);
            if d <= radius {
                want.push((d, i as u64));
            }
        }
        want.sort();
        assert_eq!(got, want);
    }
}

#[test]
fn nearest_n_matches_brute_force() {
    let mut points: Vec<[i64; 2]> = Vec::new();
    for _ in 0..2000 {
        points.push(random_point::<2>(100));
    }
    let tree: ImmutableKdTree<2, 16> = ImmutableKdTree::new_from_slice(&points);
    for _ in 0..100 {
        let q = random_point::<2>(120);
        let n = rand::random_range(1..20usize);
        let got = tree.nearest_n::<SquaredEuclidean>(&q, n);
        let mut all: Vec<(i64, u64)> = Vec::new();
        for (i, p) in points.iter().enumerate() {
            let d = (p[0] - q[0]) * (p[0] - q[0]) + (p[1] - q[1]) * (p[1] - q[1]);
            all.push((d, i as u64));
        }
        all.sort();
        all.truncate(n);
        assert_eq!(got, all);
    }
}
