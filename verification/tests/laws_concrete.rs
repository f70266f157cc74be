//! Concrete instances of the library's laws.

use kiddo::ImmutableKdTree;
use kiddo::SquaredEuclidean;
use kiddo::tree::Node;

#[test]
fn nearest_n_first_equals_nearest_one() {
    let mut points: Vec<[i64; 2]> = Vec::new();
    for i in 0..100i64 {
        points.push([(i * 37) % 61 - 30, (i * 17) % 53 - 26]);
    }
    let tree: ImmutableKdTree<2, 8> = ImmutableKdTree::new_from_slice(&points);
    for q in [[0i64, 0], [15, -20], [-30, 26], [61, 53]] {
        let one = tree.nearest_one::<SquaredEuclidean>(&q);
        let many = tree.nearest_n::<SquaredEuclidean>(&q, 5);
        assert_eq!(many[0].0, one.0);
        for w in many.windows(2) {
            assert!(w[0].0 <= w[1].0);
        }
    }
}

#[test]
fn every_leaf_respects_the_bucket_capacity() {
    let mut points: Vec<[i64; 3]> = Vec::new();
    for i in 0..500i64 {
        points.push([(i * 7) % 97, (i * 13) % 89, (i * 31) % 83]);
    }
    let tree: ImmutableKdTree<3, 4> = ImmutableKdTree::new_from_slice(&points);
    let mut live = 0usize;
    for node in tree.nodes.iter() {
        if let Node::Leaf(l) = node {
            assert!(l.size <= 4);
            live += l.size;
        }
    }
    assert_eq!(live, 500);
}

#[test]
fn duplicate_coordinates_overflow_one_bucket() {
    let points: Vec<[i64; 2]> = vec![[5, 5]; 20];
    let tree: ImmutableKdTree<2, 4> = ImmutableKdTree::new_from_slice(&points);
    assert_eq!(tree.size(), 20);
    let got = tree.within::<SquaredEuclidean>(&[5, 5], 0);
    assert_eq!(got.len(), 20);
    let mut items: Vec<u64> = got.iter().map(|p| p.1).collect();
    items.sort();
    let want: Vec<u64> = (0..20).collect();
    assert_eq!(items, want);
}

#[test]
fn extreme_coordinates_stay_exact() {
    let limit = 1_048_576i64;
    let points: Vec<[i64; 2]> = vec![[-limit, -limit], [limit, limit], [0, 0]];
    let tree: ImmutableKdTree<2, 2> = ImmutableKdTree::new_from_slice(&points);
    let got = tree.nearest_one::<SquaredEuclidean>(&[limit, limit - 1]);
    assert_eq!(got, (1, 1));
    let far = tree.nearest_n::<SquaredEuclidean>(&[-limit, -limit], 3);
    assert_eq!(far[2].0, 2 * (2 * limit) * (2 * limit));
}
