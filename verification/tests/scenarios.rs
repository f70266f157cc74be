//! End-to-end query scenarios over small trees.

use kiddo::ImmutableKdTree;
use kiddo::KdTree;
use kiddo::SquaredEuclidean;
use kiddo::Manhattan;

#[test]
fn nearest_one_of_four_points() {
    let points: Vec<[i64; 2]> = vec![[0, 0], [1, 1], [2, 2], [3, 3]];
    let tree: ImmutableKdTree<2, 4> = ImmutableKdTree::new_from_slice(&points);
    assert_eq!(tree.size(), 4);
    assert_eq!(tree.nearest_one::<SquaredEuclidean>(&[0, 0]), (0, 0));
}

#[test]
fn nearest_n_of_four_points() {
    let points: Vec<[i64; 2]> = vec![[0, 0], [1, 1], [2, 2], [3, 3]];
    let tree: ImmutableKdTree<2, 4> = ImmutableKdTree::new_from_slice(&points);
    let got = tree.nearest_n::<SquaredEuclidean>(&[0, 0], 3);
    assert_eq!(got, vec![(0, 0), (2, 1), (8, 2)]);
}

#[test]
fn within_radius_of_four_points() {
    let points: Vec<[i64; 2]> = vec![[0, 0], [1, 1], [2, 2], [3, 3]];
    let tree: ImmutableKdTree<2, 4> = ImmutableKdTree::new_from_slice(&points);
    let mut got = tree.within::<SquaredEuclidean>(&[0, 0], 5);
    got.sort();
    assert_eq!(got, vec![(0, 0), (2, 1)]);
}

#[test]
fn empty_tree_has_size_zero() {
    let points: Vec<[i64; 2]> = vec![];
    let tree: ImmutableKdTree<2, 4> = ImmutableKdTree::new_from_slice(&points);
    assert_eq!(tree.size(), 0);
    assert!(tree.within::<SquaredEuclidean>(&[0, 0], 100).is_empty());
}

#[test]
fn duplicate_points_lowest_slot_wins() {
    let mut tree: KdTree<3, 4> = KdTree::new();
    tree.add(&[5, 5, 5], 3);
    tree.add(&[1, 1, 1], 7);
    tree.add(&[1, 1, 1], 9);
    tree.add(&[9, 9, 9], 2);
    assert_eq!(tree.size(), 4);
    assert_eq!(tree.nearest_one::<SquaredEuclidean>(&[1, 1, 1]), (0, 7));
}

#[test]
fn manhattan_distances_are_exact() {
    let points: Vec<[i64; 2]> = vec![[0, 0], [3, 4], [-2, 1]];
    let tree: ImmutableKdTree<2, 4> = ImmutableKdTree::new_from_slice(&points);
    assert_eq!(tree.nearest_one::<Manhattan>(&[3, 3]), (1, 1));
    let mut got = tree.within::<Manhattan>(&[0, 0], 3);
    got.sort();
    assert_eq!(got, vec![(0, 0), (3, 2)]);
}

#[test]
fn best_n_within_picks_smallest_items() {
    let points: Vec<[i64; 2]> = vec![[0, 1], [1, 0], [0, -1], [-1, 0], [10, 10]];
    let tree: ImmutableKdTree<2, 2> = ImmutableKdTree::new_from_slice(&points);
    let got = tree.best_n_within::<SquaredEuclidean>(&[0, 0], 1, 2);
    assert_eq!(got, vec![(1, 0), (1, 1)]);
}

#[test]
fn within_radius_zero_finds_exact_matches_only() {
    let points: Vec<[i64; 2]> = vec![[2, 2], [2, 3], [3, 2]];
    let tree: ImmutableKdTree<2, 2> = ImmutableKdTree::new_from_slice(&points);
    assert_eq!(tree.within::<SquaredEuclidean>(&[2, 2], 0), vec![(0, 0)]);
}

#[test]
fn nearest_n_asks_for_more_than_stored() {
    let points: Vec<[i64; 2]> = vec![[4, 4], [1, 1]];
    let tree: ImmutableKdTree<2, 4> = ImmutableKdTree::new_from_slice(&points);
    let got = tree.nearest_n::<SquaredEuclidean>(&[0, 0], 10);
    assert_eq!(got, vec![(2, 1), (32, 0)]);
}

#[test]
fn asking_for_zero_results_yields_empty_lists() {
    let points: Vec<[i64; 2]> = vec![[0, 0], [1, 1], [2, 2], [3, 3]];
    let tree: ImmutableKdTree<2, 4> = ImmutableKdTree::new_from_slice(&points);
    assert!(tree.nearest_n::<SquaredEuclidean>(&[0, 0], 0).is_empty());
    assert!(tree.best_n_within::<SquaredEuclidean>(&[0, 0], 100, 0).is_empty());
    let mut mutable: KdTree<2, 4> = KdTree::new();
    mutable.add(&[1, 1], 1);
    assert!(mutable.nearest_n::<SquaredEuclidean>(&[0, 0], 0).is_empty());
    assert!(mutable.best_n_within::<SquaredEuclidean>(&[0, 0], 100, 0).is_empty());
}

#[test]
fn inserts_preserve_queries() {
    let mut tree: KdTree<2, 4> = KdTree::with_capacity(16);
    assert_eq!(tree.size(), 0);
    for i in 0..20i64 {
        tree.add(&[i, -i], i as u64);
        assert_eq!(tree.size(), (i + 1) as usize);
    }
    assert_eq!(tree.nearest_one::<SquaredEuclidean>(&[7, -7]), (0, 7));
    let got = tree.nearest_n::<SquaredEuclidean>(&[0, 0], 2);
    assert_eq!(got, vec![(0, 0), (2, 1)]);
    let mut w = tree.within::<SquaredEuclidean>(&[19, -19], 2);
    w.sort();
    assert_eq!(w, vec![(0, 19), (2, 18)]);
}
