use voxel_plugin::octree::{OctreeNode, TransitionType};
use voxel_plugin::pipeline::composition::CompositionOutput;
use voxel_plugin::pipeline::presentation::{present, present_grouped, present_ungrouped};
use voxel_plugin::pipeline::types::{GroupedMesh, MeshResult, NodeMesh, PresentationHint, WorkSource};
use voxel_plugin::world::WorldId;

#[derive(Debug, Clone, PartialEq)]
struct Mesh(u32);

fn test_world_id() -> WorldId {
    WorldId(1)
}

fn mock_mesh_result(node: OctreeNode, work_source: WorkSource) -> MeshResult<Mesh> {
    MeshResult { node, output: Mesh(3), timing_us: 100, work_source }
}

fn group_of(parent: OctreeNode, count: u8, transition_type: TransitionType) -> GroupedMesh<Mesh> {
    let nodes: Vec<OctreeNode> = match transition_type {
        TransitionType::Subdivide => (0..count).filter_map(|o| parent.get_child(o)).collect(),
        TransitionType::Merge => vec![parent],
    };
    GroupedMesh {
        group_key: parent,
        meshes: nodes.iter().map(|&node| NodeMesh { node, output: Mesh(0) }).collect(),
        transition_type,
    }
}

#[test]
fn test_subdivide_produces_fade_in_hints() {
    let parent = OctreeNode::new(0, 0, 0, 3);
    let chunks = present_grouped(test_world_id(), vec![group_of(parent, 8, TransitionType::Subdivide)]);

    assert_eq!(chunks.len(), 8, "Should produce 8 ready chunks");
    for chunk in &chunks {
        match &chunk.hint {
            PresentationHint::FadeIn { group_key } => assert_eq!(*group_key, parent),
            other => panic!("Expected FadeIn, got {:?}", other),
        }
    }
}

#[test]
fn test_merge_produces_fade_out_hints() {
    let parent = OctreeNode::new(0, 0, 0, 3);
    let chunks = present_grouped(test_world_id(), vec![group_of(parent, 1, TransitionType::Merge)]);

    assert_eq!(chunks.len(), 1, "Should produce 1 ready chunk");
    match &chunks[0].hint {
        PresentationHint::FadeOut { group_key } => assert_eq!(*group_key, parent),
        other => panic!("Expected FadeOut, got {:?}", other),
    }
}

#[test]
fn test_invalidation_produces_immediate_hints() {
    let node = OctreeNode::new(5, 3, 2, 2);
    let chunks = present_ungrouped(test_world_id(), vec![mock_mesh_result(node, WorkSource::Invalidation)]);

    assert_eq!(chunks.len(), 1);
    assert_eq!(chunks[0].hint, PresentationHint::Immediate);
    assert_eq!(chunks[0].node, node);
}

#[test]
fn test_present_combines_grouped_and_ungrouped() {
    let parent = OctreeNode::new(0, 0, 0, 3);
    let invalidation_node = OctreeNode::new(10, 0, 0, 2);
    let output = CompositionOutput {
        grouped: vec![group_of(parent, 8, TransitionType::Subdivide)],
        ungrouped: vec![mock_mesh_result(invalidation_node, WorkSource::Invalidation)],
    };

    let chunks = present(test_world_id(), output);

    assert_eq!(chunks.len(), 9, "Should have 8 grouped + 1 ungrouped");
    let fade_in_count = chunks.iter().filter(|c| matches!(c.hint, PresentationHint::FadeIn { .. })).count();
    let immediate_count = chunks.iter().filter(|c| matches!(c.hint, PresentationHint::Immediate)).count();
    assert_eq!(fade_in_count, 8);
    assert_eq!(immediate_count, 1);
}

#[test]
fn test_group_key_correct_in_all_chunks_of_group() {
    let parent = OctreeNode::new(7, 3, 5, 4);
    let chunks = present_grouped(test_world_id(), vec![group_of(parent, 8, TransitionType::Subdivide)]);

    for chunk in &chunks {
        match &chunk.hint {
            PresentationHint::FadeIn { group_key } => {
                assert_eq!(*group_key, parent, "All children should reference same parent")
            },
            _ => panic!("Expected FadeIn hint"),
        }
    }
}

#[test]
fn test_present_empty_composition() {
    let output = CompositionOutput::<Mesh> { grouped: vec![], ungrouped: vec![] };
    let chunks = present(test_world_id(), output);
    assert!(chunks.is_empty());
}

#[test]
fn test_present_partial_group() {
    let parent = OctreeNode::new(0, 0, 0, 3);
    let chunks = present_grouped(test_world_id(), vec![group_of(parent, 5, TransitionType::Subdivide)]);
    assert_eq!(chunks.len(), 5, "Should produce 5 chunks for partial group");
}

#[test]
fn chunks_carry_world_node_and_mesh() {
    let node = OctreeNode::new(1, 1, 1, 1);
    let chunks = present_ungrouped(WorldId(42), vec![MeshResult { node, output: Mesh(9), timing_us: 5, work_source: WorkSource::Invalidation }]);
    assert_eq!(chunks[0].world_id, WorldId(42));
    assert_eq!(chunks[0].output, Mesh(9));
}
