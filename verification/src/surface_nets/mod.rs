//! Surface Nets meshing: crossing cells and mesh topology, corner masks,
//! material votes, LOD seam detection, quad topology and cube geometry.
pub mod cells;
pub mod corner_mask;
pub mod lod_seams;
pub mod material_weights;
pub mod mesh_topology;
pub mod topology;
pub mod vertex_calc;
