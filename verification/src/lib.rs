//! A k-d tree library for spatial search over fixed-point coordinates.
//!
//! Coordinates are `i64` values bounded by [`COORD_LIMIT`]; distances are
//! computed exactly in `i64`, so every query result is reproducible and
//! verified against a mathematical model of the stored point set.
//!
//! [`ImmutableKdTree`] is built once from a slice and answers
//! `nearest_one`, `nearest_n`, `within` and `best_n_within` queries under
//! a metric such as [`SquaredEuclidean`] or [`Manhattan`]; [`KdTree`]
//! additionally accepts inserts. Every query contract is stated over the
//! tree's stored entries: the nearest-one distance is minimal over every
//! stored point, the within result holds exactly the points inside the
//! radius, and the nearest-n list is the bounded collector's fold over
//! the traversal's candidates.

pub mod axis;
pub mod collector;
pub mod distance_metric;
pub mod leaf_node;
pub mod kdtree;
pub mod laws;
pub mod query;
pub mod tree;

pub use axis::Axis;
pub use distance_metric::DistanceMetric;
pub use distance_metric::Manhattan;
pub use distance_metric::SquaredEuclidean;
pub use kdtree::KdTree;
pub use leaf_node::BestFromDists;
pub use leaf_node::LeafNode;
pub use tree::ImmutableKdTree;
pub use tree::StemNode;

use vstd::prelude::*;

verus! {

/// Largest magnitude a stored or queried coordinate may have.
///
/// Keeping coordinates within this bound makes every distance computation
/// in the crate free of overflow: a per-axis squared difference is at most
/// `DIST1_LIMIT`, and a full distance over `K` axes is at most
/// `K * DIST1_LIMIT`, which fits in `i64` for any `K` up to `DIM_LIMIT`.
pub const COORD_LIMIT: i64 = 1048576;

/// Upper bound on any single-axis distance contribution between two
/// coordinates bounded by [`COORD_LIMIT`]: `(2 * COORD_LIMIT) ^ 2`.
pub const DIST1_LIMIT: i64 = 4398046511104;

/// Upper bound on the number of dimensions `K`.
pub const DIM_LIMIT: usize = 1048576;

} // verus!
