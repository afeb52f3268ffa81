//! Voxel pipeline: refinement → presample → meshing → composition →
//! presentation. Invalidation work (terrain edits) bypasses composition.
//!
//! The stages here are generic over the mesh payload `M`: they route, group
//! and label meshes without looking inside them.
pub mod async_refinement;
pub mod composition;
pub mod presentation;
pub mod process;
pub mod types;

pub use types::{Epoch, GroupedMesh, MeshResult, NodeMesh, PresentationHint, ReadyChunk, WorkSource};
