use voxel_plugin::octree::{NodeBatch, OctreeConfig, OctreeLeaves, OctreeNode, TransitionGroup};
use voxel_plugin::pipeline::async_refinement::{assemble_result, RefinementStats};
use voxel_plugin::pipeline::process::{compute_neighbor_mask, nodes_to_mesh};
use voxel_plugin::pipeline::types::{Epoch, PresentationHint, ReadyChunk};
use voxel_plugin::world::WorldId;

fn merge_of(parent: OctreeNode) -> TransitionGroup {
    let mut children = NodeBatch::new();
    for octant in 0..8u8 {
        children.push(parent.get_child(octant).unwrap());
    }
    TransitionGroup::new_merge(parent, children).unwrap()
}

fn chunk(node: OctreeNode, hint: PresentationHint) -> ReadyChunk<u32> {
    ReadyChunk { world_id: WorldId(1), node, output: 0, hint }
}

#[test]
fn epoch_starts_at_zero_and_increments() {
    let mut e = Epoch::new();
    assert_eq!(e, Epoch(0));
    e.increment();
    e.increment();
    assert_eq!(e.0, 2);
    assert!(Epoch(1) < Epoch(2));
}

#[test]
fn nodes_to_mesh_lists_children_then_parents() {
    let a = OctreeNode::new(0, 0, 0, 2);
    let b = OctreeNode::new(4, 0, 0, 3);
    let groups = vec![TransitionGroup::new_subdivide(a).unwrap(), merge_of(b)];
    let nodes = nodes_to_mesh(&groups);
    assert_eq!(nodes.len(), 9);
    for o in 0..8u8 {
        assert_eq!(nodes[o as usize], a.get_child(o).unwrap());
    }
    assert_eq!(nodes[8], b);
    assert!(nodes_to_mesh(&[]).is_empty());
}

#[test]
fn neighbor_mask_flags_coarser_faces() {
    let node = OctreeNode::new(2, 0, 0, 2);
    let mut leaves = OctreeLeaves::new();
    leaves.insert(node);
    // +X neighbor (3,0,0) at LOD 2 lies in (1,0,0) at LOD 3.
    leaves.insert(OctreeNode::new(1, 0, 0, 3));
    // -Y neighbor (2,-1,0) lies in (0,-1,0) at LOD 4 (floor division).
    leaves.insert(OctreeNode::new(0, -1, 0, 4));
    // A same-LOD -X neighbor does not count.
    leaves.insert(OctreeNode::new(1, 0, 0, 2));
    // +Y (2,1,0) and +Z (2,0,1) also lie in (1,0,0) at LOD 3.
    let mask = compute_neighbor_mask(&node, &leaves, &OctreeConfig::default());
    assert_eq!(mask, 0b101110);
}

#[test]
fn neighbor_mask_respects_max_lod() {
    let node = OctreeNode::new(2, 0, 0, 2);
    let mut leaves = OctreeLeaves::new();
    leaves.insert(OctreeNode::new(0, 0, 0, 5));
    let config = OctreeConfig { min_lod: 0, max_lod: 4, world_bounds: None };
    assert_eq!(compute_neighbor_mask(&node, &leaves, &config), 0);
    // -Y and -Z neighbors floor to -1 at LOD 5 and miss the leaf.
    assert_eq!(compute_neighbor_mask(&node, &leaves, &OctreeConfig::default()), 0b101011);
}

#[test]
fn assemble_puts_collapses_first_and_routes_chunks() {
    let sub_parent = OctreeNode::new(0, 0, 0, 3);
    let merge_parent = OctreeNode::new(8, 0, 0, 3);
    let groups = vec![TransitionGroup::new_subdivide(sub_parent).unwrap(), merge_of(merge_parent)];
    let child = sub_parent.get_child(2).unwrap();
    let chunks = vec![
        chunk(child, PresentationHint::FadeIn { group_key: sub_parent }),
        chunk(merge_parent, PresentationHint::FadeOut { group_key: merge_parent }),
        chunk(OctreeNode::new(99, 0, 0, 0), PresentationHint::Immediate),
    ];
    let stats = RefinementStats { subdivisions: 1, collapses: 1, neighbor_subdivisions: 0, refine_us: 10, mesh_us: 20 };
    let result = assemble_result(WorldId(5), groups, chunks, stats);
    assert_eq!(result.world_id, WorldId(5));
    assert_eq!(result.stats.mesh_us, 20);
    assert_eq!(result.transitions.len(), 2);
    let first = &result.transitions[0];
    assert!(first.is_collapse);
    assert_eq!(first.group_key, merge_parent);
    assert_eq!(first.nodes_to_add, vec![merge_parent]);
    assert_eq!(first.nodes_to_remove.len(), 8);
    assert_eq!(first.ready_chunks.len(), 1);
    let second = &result.transitions[1];
    assert!(!second.is_collapse);
    assert_eq!(second.group_key, sub_parent);
    assert_eq!(second.nodes_to_remove, vec![sub_parent]);
    assert_eq!(second.ready_chunks.len(), 1);
    assert_eq!(second.ready_chunks[0].node, child);
}

#[test]
fn assemble_gives_shared_key_chunks_to_first_group() {
    let p = OctreeNode::new(0, 0, 0, 3);
    let groups = vec![merge_of(p), TransitionGroup::new_subdivide(p).unwrap()];
    let chunks = vec![
        chunk(p, PresentationHint::FadeOut { group_key: p }),
        chunk(p.get_child(0).unwrap(), PresentationHint::FadeIn { group_key: p }),
    ];
    let result = assemble_result(WorldId(1), groups, chunks, RefinementStats::default());
    assert_eq!(result.transitions[0].ready_chunks.len(), 2);
    assert_eq!(result.transitions[1].ready_chunks.len(), 0);
}
