//! A k-d tree: a binary tree that indexes points of `k` dimensions by
//! cycling the splitting axis with the depth. A tree is built from a slice
//! of points by sorting along the axis and splitting at the median, level
//! by level; further points are inserted one at a time, without
//! rebalancing. Both operations are proved against a mathematical
//! description of the tree they produce.

use vstd::prelude::*;

pub mod builder;
pub mod decimal;
pub mod node;
pub mod point;
pub mod sort;
pub mod vec2;
pub mod vec3;

pub use builder::from_slice;
pub use node::Node;
pub use point::Point;
pub use vec2::Vec2;
pub use vec3::Vec3;
