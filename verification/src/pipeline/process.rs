//! Pipeline orchestration helpers: which nodes a batch of transitions needs
//! meshed, and the seam mask of each.
use vstd::prelude::*;

use crate::edge_table::corner_solid;
use crate::octree::node::node_in_range;
use crate::octree::refinement::{coarser_face_neighbor, coarser_neighbor_from};
use crate::octree::{OctreeConfig, OctreeLeaves, OctreeNode, TransitionGroup, TransitionType};
use crate::surface_nets::corner_mask::lemma_set_bit;

verus! {

/// Faces of `node` (in the order -X, +X, -Y, +Y, -Z, +Z) whose neighboring
/// position is covered by a coarser leaf at LODs `node.lod + 1 ..= max_lod`.
pub open spec fn coarser_face(leaves: Set<OctreeNode>, node: OctreeNode, face: int, max_lod: int) -> bool {
    coarser_neighbor_from(leaves, node, face, node.lod + 1, max_lod) is Some
}

/// The seam mask of `node`: bit `f` (face order -X, +X, -Y, +Y, -Z, +Z) is
/// set exactly when a coarser leaf covers the neighboring position on face
/// `f`; bits 6 and 7 are clear.
///
/// The LOD range `0..=30` and leaves within `±2^30` finest-level cells of the
/// origin are what keep the coordinate arithmetic in `i32`: children double a
/// coordinate, neighbors step it by one, and ancestors shift it by up to 30
/// LODs.
pub fn compute_neighbor_mask(node: &OctreeNode, leaves: &OctreeLeaves, config: &OctreeConfig) -> (mask: u8)
    requires
        node_in_range(*node),
        config.lods_in_range(),
    ensures
        forall|f: int|
            0 <= f < 8 ==> (#[trigger] corner_solid(mask as int, f) <==> f < 6 && coarser_face(
                leaves@,
                *node,
                f,
                config.max_lod as int,
            )),
{
    let mut mask: u8 = 0;
    proof {
        assert forall|j: int| 0 <= j < 8 implies !#[trigger] corner_solid(0u8 as int, j) by {
            lemma_set_bit(0u8, 0u8, j as u8);
        }
    }
    let mut face: usize = 0;
    while face < 6
        invariant
            face <= 6,
            node_in_range(*node),
            config.lods_in_range(),
            forall|j: int|
                0 <= j < 8 ==> (#[trigger] corner_solid(mask as int, j) <==> j < face && coarser_face(
                    leaves@,
                    *node,
                    j,
                    config.max_lod as int,
                )),
        decreases 6 - face,
    {
        let ghost before = mask;
        let found = coarser_face_neighbor(node, face, leaves, config.max_lod);
        if found.is_some() {
            mask = mask | (1u8 << face as u8);
        }
        proof {
            assert forall|j: int| 0 <= j < 8 implies (#[trigger] corner_solid(mask as int, j) <==> j < face + 1
                && coarser_face(leaves@, *node, j, config.max_lod as int)) by {
                lemma_set_bit(before, face as u8, j as u8);
                assert(corner_solid(before as int, j) <==> j < face && coarser_face(
                    leaves@,
                    *node,
                    j,
                    config.max_lod as int,
                ));
            }
        }
        face = face + 1;
    }
    mask
}

/// The nodes a group needs meshed: the children it adds for a subdivide, the
/// parent for a merge.
pub open spec fn nodes_to_mesh_of(g: TransitionGroup) -> Seq<OctreeNode> {
    match g.transition_type {
        TransitionType::Subdivide => g.adds(),
        TransitionType::Merge => seq![g.group_key],
    }
}

/// The nodes all groups need meshed, group after group.
pub open spec fn all_nodes_to_mesh(gs: Seq<TransitionGroup>) -> Seq<OctreeNode>
    decreases gs.len(),
{
    if gs.len() == 0 {
        Seq::empty()
    } else {
        all_nodes_to_mesh(gs.drop_last()) + nodes_to_mesh_of(gs.last())
    }
}

/// Collect the nodes that need meshing: for each group in order, the
/// children of a subdivide or the parent of a merge.
pub fn nodes_to_mesh(transition_groups: &[TransitionGroup]) -> (nodes: Vec<OctreeNode>)
    ensures
        nodes@ == all_nodes_to_mesh(transition_groups@),
{
    let mut nodes: Vec<OctreeNode> = Vec::new();
    let mut gi: usize = 0;
    while gi < transition_groups.len()
        invariant
            gi <= transition_groups@.len(),
            nodes@ == all_nodes_to_mesh(transition_groups@.take(gi as int)),
        decreases transition_groups@.len() - gi,
    {
        let group = &transition_groups[gi];
        let ghost before = nodes@;
        proof {
            assert(transition_groups@.take(gi as int + 1).drop_last() =~= transition_groups@.take(gi as int));
            assert(transition_groups@.take(gi as int + 1).last() == *group);
        }
        match group.transition_type {
            TransitionType::Subdivide => {
                let kids = group.nodes_to_add.as_slice();
                let mut k: usize = 0;
                while k < kids.len()
                    invariant
                        k <= kids@.len(),
                        nodes@ == before + kids@.take(k as int),
                    decreases kids@.len() - k,
                {
                    nodes.push(kids[k]);
                    proof {
                        assert(before + kids@.take(k as int + 1) =~= (before + kids@.take(k as int)).push(kids@[k as int]));
                    }
                    k = k + 1;
                }
                proof {
                    assert(kids@.take(kids@.len() as int) =~= kids@);
                }
            },
            TransitionType::Merge => {
                nodes.push(group.group_key);
                proof {
                    assert(nodes@ =~= before + seq![group.group_key]);
                }
            },
        }
        gi = gi + 1;
    }
    proof {
        assert(transition_groups@.take(transition_groups@.len() as int) =~= transition_groups@);
    }
    nodes
}

} // verus!
