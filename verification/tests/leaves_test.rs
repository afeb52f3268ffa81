use voxel_plugin::octree::{OctreeLeaves, OctreeNode};

#[test]
fn test_empty_leaves_no_transitions() {
    let leaves = OctreeLeaves::new();
    assert!(leaves.is_empty());
    assert_eq!(leaves.len(), 0);
}

#[test]
fn test_single_leaf_at_min_lod_no_subdivide() {
    let leaves = OctreeLeaves::new_with_initial(0);
    assert_eq!(leaves.len(), 1);

    let leaf = leaves.iter().next().unwrap();
    assert_eq!(leaf.lod, 0);
    assert!(leaf.get_child(0).is_none(), "LOD 0 node cannot subdivide");
}

#[test]
fn insert_twice_keeps_one_copy() {
    let mut leaves = OctreeLeaves::default();
    let n = OctreeNode::new(1, 2, 3, 4);
    assert!(leaves.insert(n));
    assert!(!leaves.insert(n));
    assert_eq!(leaves.len(), 1);
    assert!(leaves.contains(&n));
    assert!(leaves.remove(&n));
    assert!(!leaves.remove(&n));
    assert!(leaves.is_empty());
}

#[test]
fn effective_max_lod_is_coarsest_or_zero() {
    let mut leaves = OctreeLeaves::new();
    assert_eq!(leaves.effective_max_lod(), 0);
    leaves.insert(OctreeNode::new(0, 0, 0, 3));
    leaves.insert(OctreeNode::new(1, 0, 0, 7));
    leaves.insert(OctreeNode::new(2, 0, 0, 5));
    assert_eq!(leaves.effective_max_lod(), 7);
    assert_eq!(leaves.as_set().len(), 3);
}
