//! An R-tree of points in `DIM` dimensions whose nodes hold at most `M`
//! children, with nearest-neighbour queries.
//!
//! Coordinates are of any type that implements [`Scalar`]; the tree only
//! compares them and combines them with the operations of that trait.
pub mod rect;
pub mod rtree;
pub mod scalar;
pub mod search;

pub use rect::{points_distance, Rect};
pub use rtree::RTree;
pub use scalar::Scalar;
pub use search::WeightedTree;
