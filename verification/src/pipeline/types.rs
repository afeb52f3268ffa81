//! Pipeline I/O types.
use vstd::prelude::*;

use crate::octree::{OctreeNode, TransitionType};
use crate::world::WorldId;

verus! {

/// Origin of pipeline work; it decides the route through the stages.
#[derive(Clone, Copy, Debug, PartialEq, Eq, Structural)]
pub enum WorkSource {
    /// LOD refinement triggered by viewer movement: goes through composition.
    Refinement,
    /// Terrain invalidation triggered by an edit: bypasses composition and is
    /// presented immediately.
    Invalidation,
}

/// Result of meshing a single node.
#[derive(Debug)]
pub struct MeshResult<M> {
    /// The node that was meshed.
    pub node: OctreeNode,
    /// The generated mesh (may be empty if there is no surface).
    pub output: M,
    /// Time taken to mesh in microseconds.
    pub timing_us: u64,
    /// Origin of this work (preserved through the pipeline).
    pub work_source: WorkSource,
}

/// Mesh of a single node within a group.
#[derive(Debug)]
pub struct NodeMesh<M> {
    /// The node this mesh belongs to.
    pub node: OctreeNode,
    /// The mesh.
    pub output: M,
}

/// The meshes of one transition group: up to 8 children for a subdivide, the
/// parent for a merge.
#[derive(Debug)]
pub struct GroupedMesh<M> {
    /// Parent node (the group key of the transition).
    pub group_key: OctreeNode,
    /// The meshes in this group.
    pub meshes: Vec<NodeMesh<M>>,
    /// Type of transition (decides how the group is presented).
    pub transition_type: TransitionType,
}

/// How a chunk should be presented to the renderer.
#[derive(Clone, Copy, Debug, PartialEq, Eq, Structural)]
pub enum PresentationHint {
    /// Swap the mesh immediately (invalidation).
    Immediate,
    /// Fade in as part of a subdivide of `group_key`.
    FadeIn { group_key: OctreeNode },
    /// Fade out as part of a merge into `group_key`.
    FadeOut { group_key: OctreeNode },
}

/// Final output ready for rendering.
#[derive(Debug)]
pub struct ReadyChunk<M> {
    /// The world this chunk belongs to.
    pub world_id: WorldId,
    /// The node this chunk represents.
    pub node: OctreeNode,
    /// The mesh.
    pub output: M,
    /// Presentation hint for the renderer.
    pub hint: PresentationHint,
}

/// Epoch counter for detecting stale invalidation work: refinement that
/// changes the octree structure moves to the next epoch.
#[derive(Clone, Copy, Debug, Default, PartialEq, Eq, PartialOrd, Ord, Hash, Structural)]
pub struct Epoch(pub u64);

impl Epoch {
    /// A new epoch starting at 0.
    pub fn new() -> (e: Self)
        ensures
            e.0 == 0,
    {
        Epoch(0)
    }

    /// Move to the next epoch.
    pub fn increment(&mut self)
        requires
            old(self).0 < u64::MAX,
        ensures
            final(self).0 == old(self).0 + 1,
    {
        self.0 = self.0 + 1;
    }
}

} // verus!
