use voxel_plugin::octree::{NodeBatch, OctreeNode, TransitionGroup, TransitionType};
use voxel_plugin::pipeline::composition::compose;
use voxel_plugin::pipeline::types::{MeshResult, WorkSource};

#[derive(Debug, Clone, PartialEq)]
struct Mesh(u32);

fn mock_mesh_result(node: OctreeNode, work_source: WorkSource) -> MeshResult<Mesh> {
    MeshResult { node, output: Mesh(7), timing_us: 100, work_source }
}

fn child_mesh_results(parent: &OctreeNode) -> Vec<MeshResult<Mesh>> {
    (0..8u8)
        .filter_map(|octant| {
            let child = parent.get_child(octant)?;
            Some(MeshResult { node: child, output: Mesh(octant as u32), timing_us: 100, work_source: WorkSource::Refinement })
        })
        .collect()
}

fn merge_fixture(lod: i32) -> TransitionGroup {
    let parent = OctreeNode::new(0, 0, 0, lod);
    let mut children = NodeBatch::new();
    for octant in 0..8u8 {
        children.push(parent.get_child(octant).unwrap());
    }
    TransitionGroup::new_merge(parent, children).expect("Should create merge group")
}

#[test]
fn test_subdivide_groups_8_meshes_by_parent() {
    let parent = OctreeNode::new(0, 0, 0, 3);
    let transition = TransitionGroup::new_subdivide(parent).unwrap();
    let output = compose(child_mesh_results(&parent), &[transition]);

    assert_eq!(output.grouped.len(), 1, "Should produce 1 group");
    assert_eq!(output.grouped[0].meshes.len(), 8, "Group should have 8 meshes");
}

#[test]
fn test_subdivide_group_key_is_parent() {
    let parent = OctreeNode::new(5, 3, 2, 4);
    let transition = TransitionGroup::new_subdivide(parent).unwrap();
    let output = compose(child_mesh_results(&parent), &[transition]);

    assert_eq!(output.grouped[0].group_key, parent);
}

#[test]
fn test_subdivide_transition_type_preserved() {
    let parent = OctreeNode::new(0, 0, 0, 3);
    let transition = TransitionGroup::new_subdivide(parent).unwrap();
    let output = compose(child_mesh_results(&parent), &[transition]);

    assert_eq!(output.grouped[0].transition_type, TransitionType::Subdivide);
}

#[test]
fn test_merge_groups_1_mesh() {
    let parent = OctreeNode::new(0, 0, 0, 3);
    let output = compose(vec![mock_mesh_result(parent, WorkSource::Refinement)], &[merge_fixture(3)]);

    assert_eq!(output.grouped.len(), 1, "Should produce 1 group");
    assert_eq!(output.grouped[0].meshes.len(), 1, "Merge group should have 1 mesh");
}

#[test]
fn test_merge_group_key_is_parent() {
    let parent = OctreeNode::new(0, 0, 0, 3);
    let output = compose(vec![mock_mesh_result(parent, WorkSource::Refinement)], &[merge_fixture(3)]);

    assert_eq!(output.grouped[0].group_key, parent);
}

#[test]
fn test_merge_transition_type_preserved() {
    let parent = OctreeNode::new(0, 0, 0, 3);
    let output = compose(vec![mock_mesh_result(parent, WorkSource::Refinement)], &[merge_fixture(3)]);

    assert_eq!(output.grouped[0].transition_type, TransitionType::Merge);
}

#[test]
fn test_multiple_transition_groups_produce_multiple_grouped_meshes() {
    let parent1 = OctreeNode::new(0, 0, 0, 3);
    let parent2 = OctreeNode::new(1, 0, 0, 3);
    let parent3 = OctreeNode::new(0, 1, 0, 3);

    let t1 = TransitionGroup::new_subdivide(parent1).unwrap();
    let t2 = TransitionGroup::new_subdivide(parent2).unwrap();
    let t3 = TransitionGroup::new_subdivide(parent3).unwrap();

    let mut mesh_results = Vec::new();
    mesh_results.extend(child_mesh_results(&parent1));
    mesh_results.extend(child_mesh_results(&parent2));
    mesh_results.extend(child_mesh_results(&parent3));

    let output = compose(mesh_results, &[t1, t2, t3]);

    assert_eq!(output.grouped.len(), 3, "Should produce 3 groups");
}

#[test]
fn test_invalidation_work_source_bypasses_composition() {
    let node = OctreeNode::new(0, 0, 0, 2);
    let output = compose(vec![mock_mesh_result(node, WorkSource::Invalidation)], &[]);

    assert!(output.grouped.is_empty(), "Invalidation should not be grouped");
    assert_eq!(output.ungrouped.len(), 1, "Invalidation should be in ungrouped");
    assert_eq!(output.ungrouped[0].node, node);
}

#[test]
fn test_mixed_work_sources_routed_correctly() {
    let parent = OctreeNode::new(0, 0, 0, 3);
    let transition = TransitionGroup::new_subdivide(parent).unwrap();
    let mut mesh_results = child_mesh_results(&parent);
    mesh_results.push(mock_mesh_result(OctreeNode::new(10, 0, 0, 2), WorkSource::Invalidation));
    mesh_results.push(mock_mesh_result(OctreeNode::new(11, 0, 0, 2), WorkSource::Invalidation));

    let output = compose(mesh_results, &[transition]);

    assert_eq!(output.grouped.len(), 1, "Should have 1 grouped mesh");
    assert_eq!(output.grouped[0].meshes.len(), 8, "Group should have 8 children");
    assert_eq!(output.ungrouped.len(), 2, "Should have 2 ungrouped (invalidation)");
}

#[test]
fn test_missing_mesh_for_group_member() {
    let parent = OctreeNode::new(0, 0, 0, 3);
    let transition = TransitionGroup::new_subdivide(parent).unwrap();
    let mut mesh_results = child_mesh_results(&parent);
    mesh_results.truncate(6);

    let output = compose(mesh_results, &[transition]);

    assert_eq!(output.grouped.len(), 1, "Should still produce 1 group");
    assert_eq!(output.grouped[0].meshes.len(), 6, "Group should have 6 meshes (partial)");
}

#[test]
fn test_composition_with_no_transitions() {
    let mesh_results = vec![
        mock_mesh_result(OctreeNode::new(0, 0, 0, 2), WorkSource::Invalidation),
        mock_mesh_result(OctreeNode::new(1, 0, 0, 2), WorkSource::Invalidation),
    ];

    let output = compose(mesh_results, &[]);

    assert!(output.grouped.is_empty());
    assert_eq!(output.ungrouped.len(), 2);
}

#[test]
fn test_empty_inputs() {
    let output = compose::<Mesh>(vec![], &[]);

    assert!(output.grouped.is_empty());
    assert!(output.ungrouped.is_empty());
}

#[test]
fn later_refinement_mesh_replaces_earlier_one() {
    let parent = OctreeNode::new(0, 0, 0, 3);
    let results = vec![
        MeshResult { node: parent, output: Mesh(1), timing_us: 0, work_source: WorkSource::Refinement },
        MeshResult { node: parent, output: Mesh(2), timing_us: 0, work_source: WorkSource::Refinement },
    ];
    let output = compose(results, &[merge_fixture(3)]);
    assert_eq!(output.grouped.len(), 1);
    assert_eq!(output.grouped[0].meshes.len(), 1);
    assert_eq!(output.grouped[0].meshes[0].output, Mesh(2));
}

#[test]
fn mesh_goes_to_first_group_only_and_groups_keep_child_order() {
    let parent = OctreeNode::new(0, 0, 0, 3);
    let t1 = TransitionGroup::new_subdivide(parent).unwrap();
    let t2 = TransitionGroup::new_subdivide(parent).unwrap();
    let mut results = child_mesh_results(&parent);
    results.reverse();
    let output = compose(results, &[t1, t2]);
    assert_eq!(output.grouped.len(), 1);
    let order: Vec<u32> = output.grouped[0].meshes.iter().map(|m| m.output.0).collect();
    assert_eq!(order, (0..8).collect::<Vec<u32>>());
}

#[test]
fn grouped_meshes_never_outnumber_results() {
    let parent = OctreeNode::new(0, 0, 0, 3);
    let mut results = child_mesh_results(&parent);
    results.extend(child_mesh_results(&parent));
    results.push(mock_mesh_result(parent, WorkSource::Refinement));
    let n = results.len();
    let groups = [
        TransitionGroup::new_subdivide(parent).unwrap(),
        merge_fixture(3),
        TransitionGroup::new_subdivide(parent).unwrap(),
        merge_fixture(3),
    ];
    let output = compose(results, &groups);
    let total: usize = output.grouped.iter().map(|g| g.meshes.len()).sum();
    assert_eq!(total, 9);
    assert!(total <= n);
    assert_eq!(output.grouped.len(), 2);
}
