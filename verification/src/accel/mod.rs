pub mod bvh;
pub mod bvh_base;
pub mod entering;
pub mod flat;
pub mod tree;

pub use self::bvh::{BVHNode, Traversal, TraversalStep, BVH};
pub use self::bvh_base::{BVHBase, BVHBaseNode, BVH_MAX_DEPTH};
pub use self::tree::Tree;
