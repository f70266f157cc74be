//! Direct tests of the leaf bucket and its kernel.

use kiddo::BestFromDists;
use kiddo::LeafNode;
use kiddo::SquaredEuclidean;
use kiddo::distance_metric::distance;

#[test]
fn kernel_finds_minimum_with_lowest_slot_on_ties() {
    let acc: [i64; 4] = [9, 3, 3, 7];
    let items: [u64; 4] = [10, 11, 12, 13];
    let mut best_dist: i64 = i64::MAX;
    let mut best_item: u64 = 0;
    <i64 as BestFromDists<4>>::get_best_from_dists(acc, &items, 4, &mut best_dist, &mut best_item);
    assert_eq!(best_dist, 3);
    assert_eq!(best_item, 11);
}

#[test]
fn kernel_ignores_padding_slots() {
    let acc: [i64; 4] = [9, 5, 0, 0];
    let items: [u64; 4] = [10, 11, 0, 0];
    let mut best_dist: i64 = i64::MAX;
    let mut best_item: u64 = 0;
    <i64 as BestFromDists<4>>::get_best_from_dists(acc, &items, 2, &mut best_dist, &mut best_item);
    assert_eq!(best_dist, 5);
    assert_eq!(best_item, 11);
}

#[test]
fn kernel_keeps_a_better_incumbent() {
    let acc: [i64; 2] = [9, 5];
    let items: [u64; 2] = [10, 11];
    let mut best_dist: i64 = 4;
    let mut best_item: u64 = 99;
    <i64 as BestFromDists<2>>::get_best_from_dists(acc, &items, 2, &mut best_dist, &mut best_item);
    assert_eq!(best_dist, 4);
    assert_eq!(best_item, 99);
}

#[test]
fn fresh_leaves_are_zeroed() {
    let leaf: LeafNode<3, 4> = LeafNode::new();
    assert_eq!(leaf.size, 0);
    for d in 0..3 {
        for j in 0..4 {
            assert_eq!(leaf.content_points[d][j], 0);
        }
    }
    for j in 0..4 {
        assert_eq!(leaf.content_items[j], 0);
    }
    let defaulted: LeafNode<3, 4> = LeafNode::default();
    assert_eq!(defaulted.size, leaf.size);
    assert_eq!(defaulted.content_points, leaf.content_points);
    assert_eq!(defaulted.content_items, leaf.content_items);
}

#[test]
fn leaf_nearest_one_scans_live_slots() {
    let mut leaf: LeafNode<2, 4> = LeafNode::new();
    assert_eq!(leaf.size, 0);
    // slot 0: (0, 0); slot 1: (5, 5)
    leaf.content_points[0][0] = 0;
    leaf.content_points[1][0] = 0;
    leaf.content_points[0][1] = 5;
    leaf.content_points[1][1] = 5;
    leaf.content_items[0] = 42;
    leaf.content_items[1] = 43;
    leaf.size = 2;
    let mut best_dist: i64 = i64::MAX;
    let mut best_item: u64 = 0;
    leaf.nearest_one::<SquaredEuclidean>(&[4, 4], &mut best_dist, &mut best_item);
    assert_eq!(best_dist, 2);
    assert_eq!(best_item, 43);
}

#[test]
fn full_distance_sums_per_axis_contributions() {
    let a: [i64; 3] = [1, 2, 3];
    let b: [i64; 3] = [4, 6, 3];
    assert_eq!(distance::<SquaredEuclidean, 3>(&a, &b), 25);
}
