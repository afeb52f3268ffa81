//! Voxel world meshing and LOD octree logic, verified with Verus.
use vstd::prelude::*;

pub mod constants;
pub mod edge_table;
pub mod metrics;
pub mod noise;
pub mod octree;
pub mod pipeline;
pub mod sdf_samplers;
pub mod surface_nets;
pub mod types;
pub mod world;

verus! {
}
