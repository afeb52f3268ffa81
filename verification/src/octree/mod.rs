//! Implicit octree for LOD-based spatial subdivision.
//!
//! LOD 0 = finest detail (smallest cells), higher LOD = coarser. No explicit
//! tree nodes are kept: the leaves define the tree, and parent/child
//! relationships are computed from coordinates.
pub mod budget;
pub mod config;
pub mod leaves;
pub mod node;
pub mod refinement;
pub mod transition;

pub use budget::{RefinementBudget, RefinementStats};
pub use config::{GridBounds, LodRange, OctreeConfig};
pub use leaves::OctreeLeaves;
pub use node::OctreeNode;
pub use transition::{NodeBatch, TransitionGroup, TransitionType};
