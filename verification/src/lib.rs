//! An octree over an integer grid, and the walks that answer which of its
//! elements a volume touches and which one a ray meets first.
mod stack;
pub mod tree;
pub mod ids;
pub mod query;

pub use query::{RayHits, VolumeHits};
pub use tree::{Aabb, Branch, ElementId, Node, NodeId, NodeType, Octree, TUVec3, TreeModel};
