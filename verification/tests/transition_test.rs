use voxel_plugin::octree::{NodeBatch, OctreeNode, TransitionGroup, TransitionType};

#[test]
fn test_transition_group_key_is_parent() {
    let parent = OctreeNode::new(1, 2, 3, 5);
    let group = TransitionGroup::new_subdivide(parent).expect("Should create subdivide group");
    assert_eq!(group.group_key, parent, "Group key should be parent");
}

#[test]
fn test_subdivide_group_invariants() {
    let parent = OctreeNode::new(1, 2, 3, 5);
    let group = TransitionGroup::new_subdivide(parent).expect("Should create subdivide group");

    assert_eq!(group.transition_type, TransitionType::Subdivide);
    assert_eq!(group.nodes_to_add.len(), 8, "Subdivide adds 8 children");
    assert_eq!(group.nodes_to_remove.len(), 1, "Subdivide removes 1 parent");
    assert_eq!(group.nodes_to_remove.as_slice()[0], parent);
}

#[test]
fn test_merge_group_invariants() {
    let parent = OctreeNode::new(1, 2, 3, 5);
    let mut children = NodeBatch::new();
    for octant in 0..8u8 {
        children.push(parent.get_child(octant).unwrap());
    }

    let group = TransitionGroup::new_merge(parent, children).expect("Should create merge group");

    assert_eq!(group.transition_type, TransitionType::Merge);
    assert_eq!(group.nodes_to_add.len(), 1, "Merge adds 1 parent");
    assert_eq!(group.nodes_to_remove.len(), 8, "Merge removes 8 children");
    assert_eq!(group.nodes_to_add.as_slice()[0], parent);
}

#[test]
fn subdivide_at_lod_zero_is_refused() {
    assert!(TransitionGroup::new_subdivide(OctreeNode::new(0, 0, 0, 0)).is_none());
}

#[test]
fn merge_needs_exactly_eight_children() {
    let parent = OctreeNode::new(0, 0, 0, 2);
    let mut children = NodeBatch::new();
    for octant in 0..7u8 {
        children.push(parent.get_child(octant).unwrap());
    }
    assert!(TransitionGroup::new_merge(parent, children).is_none());
}

#[test]
fn filtered_subdivide_keeps_given_children() {
    let parent = OctreeNode::new(0, 0, 0, 2);
    let mut children = NodeBatch::new();
    children.push(parent.get_child(1).unwrap());
    children.push(parent.get_child(3).unwrap());
    let group = TransitionGroup::new_subdivide_filtered(parent, children).unwrap();
    assert_eq!(group.nodes_to_add.as_slice(), &[parent.get_child(1).unwrap(), parent.get_child(3).unwrap()]);
    assert_eq!(group.nodes_to_remove.as_slice(), &[parent]);
    assert!(TransitionGroup::new_subdivide_filtered(parent, NodeBatch::new()).is_none());
}

#[test]
fn cloned_group_keeps_its_nodes() {
    let parent = OctreeNode::new(1, 2, 3, 5);
    let group = TransitionGroup::new_subdivide(parent).unwrap();
    let copy = group.clone();
    assert_eq!(copy.group_key, group.group_key);
    assert_eq!(copy.transition_type, group.transition_type);
    assert_eq!(copy.nodes_to_add.as_slice(), group.nodes_to_add.as_slice());
    assert_eq!(copy.nodes_to_remove.as_slice(), group.nodes_to_remove.as_slice());
    let mut batch = NodeBatch::new();
    batch.push(parent);
    assert_eq!(batch.clone().as_slice(), &[parent]);
}
