use voxel_plugin::octree::refinement::{
    all_children_are_leaves, apply_merge, apply_subdivide, apply_transitions, find_face_neighbor, refine,
    sort_groups_by_distance, LeafPriority, RefinementInput, RefinementOutput,
};
use voxel_plugin::octree::{
    GridBounds, LodRange, OctreeConfig, OctreeLeaves, OctreeNode, RefinementBudget, RefinementStats, TransitionType,
};

/// A world-space configuration for these tests, and the float work a
/// host does before calling `refine`.
struct World {
    voxel_size: f64,
    origin: [f64; 3],
    min_lod: i32,
    max_lod: i32,
    lod_exponent: f64,
    bounds: Option<([f64; 3], [f64; 3])>,
}

impl World {
    fn default() -> Self {
        World { voxel_size: 1.0, origin: [0.0; 3], min_lod: 0, max_lod: 30, lod_exponent: 0.0, bounds: None }
    }

    fn cell_size(&self, lod: i32) -> f64 {
        self.voxel_size * 28.0 * (1u64 << lod) as f64
    }

    fn threshold(&self, lod: i32) -> f64 {
        self.cell_size(lod) * 2.0_f64.powf(self.lod_exponent)
    }

    fn node_min(&self, n: &OctreeNode) -> [f64; 3] {
        let cs = self.cell_size(n.lod);
        [
            self.origin[0] + n.x as f64 * cs,
            self.origin[1] + n.y as f64 * cs,
            self.origin[2] + n.z as f64 * cs,
        ]
    }

    fn center(&self, n: &OctreeNode) -> [f64; 3] {
        let cs = self.cell_size(n.lod);
        let m = self.node_min(n);
        [m[0] + cs * 0.5, m[1] + cs * 0.5, m[2] + cs * 0.5]
    }

    fn axis_overlaps(&self, axis: usize, coord: i64, lod: i32) -> bool {
        let (bmin, bmax) = self.bounds.unwrap();
        let cs = self.cell_size(lod);
        let lo = self.origin[axis] + coord as f64 * cs;
        let hi = lo + cs;
        bmin[axis] <= hi && bmax[axis] >= lo
    }

    fn axis_range(&self, axis: usize, lod: i32) -> (i32, i32) {
        let (bmin, bmax) = self.bounds.unwrap();
        let cs = self.cell_size(lod);
        let mut lo = ((bmin[axis] - self.origin[axis]) / cs).floor() as i64 - 1;
        while !self.axis_overlaps(axis, lo, lod) {
            lo += 1;
        }
        let mut hi = ((bmax[axis] - self.origin[axis]) / cs).floor() as i64 + 1;
        while !self.axis_overlaps(axis, hi, lod) {
            hi -= 1;
        }
        (lo.clamp(i32::MIN as i64, i32::MAX as i64) as i32, hi.clamp(i32::MIN as i64, i32::MAX as i64) as i32)
    }

    fn config(&self) -> OctreeConfig {
        let world_bounds = self.bounds.map(|_| {
            let per_lod = (0..=self.max_lod)
                .map(|lod| {
                    let (min_x, max_x) = self.axis_range(0, lod);
                    let (min_y, max_y) = self.axis_range(1, lod);
                    let (min_z, max_z) = self.axis_range(2, lod);
                    LodRange { min_x, max_x, min_y, max_y, min_z, max_z }
                })
                .collect();
            GridBounds { per_lod }
        });
        OctreeConfig { min_lod: self.min_lod, max_lod: self.max_lod, world_bounds }
    }

    fn dist_sq(&self, viewer: [f64; 3], n: &OctreeNode) -> f64 {
        let c = self.center(n);
        (viewer[0] - c[0]).powi(2) + (viewer[1] - c[1]).powi(2) + (viewer[2] - c[2]).powi(2)
    }

    fn priorities(&self, viewer: [f64; 3], leaves: &[OctreeNode]) -> Vec<LeafPriority> {
        leaves
            .iter()
            .map(|node| {
                let d2 = self.dist_sq(viewer, node);
                let parent = node.get_parent(self.max_lod);
                let (parent_beyond, parent_key) = match parent {
                    Some(p) => {
                        let pd2 = self.dist_sq(viewer, &p);
                        (pd2.sqrt() >= self.threshold(p.lod), pd2.to_bits())
                    },
                    None => (false, 0),
                };
                LeafPriority {
                    node: *node,
                    within_threshold: d2.sqrt() < self.threshold(node.lod),
                    parent_beyond_threshold: parent_beyond,
                    distance_key: d2.to_bits(),
                    parent_distance_key: parent_key,
                }
            })
            .collect()
    }

    fn refine(&self, viewer: [f64; 3], leaves: &[OctreeNode], budget: RefinementBudget) -> RefinementOutput {
        let input = RefinementInput { leaves: self.priorities(viewer, leaves), config: self.config(), budget };
        let mut out = refine(input);
        let keys: Vec<u64> = out.transition_groups.iter().map(|g| self.dist_sq(viewer, &g.group_key).to_bits()).collect();
        let groups = std::mem::take(&mut out.transition_groups);
        out.transition_groups = sort_groups_by_distance(groups, &keys);
        out
    }
}

fn leaves_of(nodes: &[OctreeNode]) -> OctreeLeaves {
    let mut leaves = OctreeLeaves::new();
    for n in nodes {
        leaves.insert(*n);
    }
    leaves
}

fn children(parent: &OctreeNode) -> Vec<OctreeNode> {
    (0..8u8).map(|o| parent.get_child(o).unwrap()).collect()
}

#[test]
fn test_subdivide_produces_8_children() {
    let parent = OctreeNode::new(0, 0, 0, 5);
    let mut leaves = leaves_of(&[parent]);
    let mut groups = Vec::new();

    apply_subdivide(&parent, &mut leaves, &mut groups, None);

    assert_eq!(leaves.len(), 8, "Should have 8 children after subdivide");
    for octant in 0..8u8 {
        let child = parent.get_child(octant).unwrap();
        assert!(leaves.contains(&child), "Child {} should be in leaves", octant);
    }
}

#[test]
fn test_subdivide_removes_parent_from_leaves() {
    let parent = OctreeNode::new(0, 0, 0, 5);
    let mut leaves = leaves_of(&[parent]);
    let mut groups = Vec::new();

    apply_subdivide(&parent, &mut leaves, &mut groups, None);

    assert!(!leaves.contains(&parent), "Parent should be removed after subdivide");
}

#[test]
fn test_merge_produces_1_parent() {
    let parent = OctreeNode::new(0, 0, 0, 5);
    let mut leaves = leaves_of(&children(&parent));
    let mut groups = Vec::new();

    apply_merge(&parent, &mut leaves, &mut groups);

    assert!(leaves.contains(&parent), "Parent should be added after merge");
}

#[test]
fn test_merge_removes_8_children_from_leaves() {
    let parent = OctreeNode::new(0, 0, 0, 5);
    let mut leaves = leaves_of(&children(&parent));
    let mut groups = Vec::new();

    apply_merge(&parent, &mut leaves, &mut groups);

    assert_eq!(leaves.len(), 1, "Should have 1 node (parent) after merge");
    for octant in 0..8u8 {
        let child = parent.get_child(octant).unwrap();
        assert!(!leaves.contains(&child), "Child {} should be removed", octant);
    }
}

#[test]
fn test_no_subdivide_at_min_lod() {
    let node = OctreeNode::new(0, 0, 0, 0);
    let mut leaves = leaves_of(&[node]);
    let mut groups = Vec::new();

    let len_before = leaves.len();
    apply_subdivide(&node, &mut leaves, &mut groups, None);

    assert_eq!(leaves.len(), len_before, "LOD 0 node should not subdivide");
    assert!(groups.is_empty(), "No transition group for LOD 0 subdivide");
}

#[test]
fn test_no_merge_at_max_lod() {
    let child_parent = OctreeNode::new(0, 0, 0, 29);
    let mut leaves = leaves_of(&children(&child_parent));
    let mut groups = Vec::new();
    let _config = OctreeConfig::default();

    apply_merge(&child_parent, &mut leaves, &mut groups);
}

#[test]
fn test_merge_requires_all_8_siblings() {
    let parent = OctreeNode::new(0, 0, 0, 5);
    let mut leaves = OctreeLeaves::new();
    for octant in 0..7u8 {
        leaves.insert(parent.get_child(octant).unwrap());
    }

    let result = all_children_are_leaves(&parent, &leaves);
    assert!(!result, "Should return false when not all 8 children present");

    leaves.insert(parent.get_child(7).unwrap());
    let result = all_children_are_leaves(&parent, &leaves);
    assert!(result, "Should return true when all 8 children present");
}

#[test]
fn test_subdivide_priority_closest_first() {
    let world = World::default();
    let near_node = OctreeNode::new(0, 0, 0, 5);
    let far_node = OctreeNode::new(10, 10, 10, 5);

    let budget = RefinementBudget { max_subdivisions: 1, max_collapses: 1, ..RefinementBudget::default_limits() };
    let output = world.refine([0.0; 3], &[near_node, far_node], budget);

    if !output.transition_groups.is_empty() {
        let group = &output.transition_groups[0];
        if group.transition_type == TransitionType::Subdivide {
            assert_eq!(group.group_key, near_node, "Closer node should subdivide first");
        }
    }
}

#[test]
fn test_merge_priority_farthest_first() {}

#[test]
fn test_separate_budgets_enforced() {
    let world = World::default();
    let leaves: Vec<OctreeNode> = (0..10).map(|i| OctreeNode::new(i, 0, 0, 5)).collect();

    let budget = RefinementBudget { max_subdivisions: 3, max_collapses: 5, ..RefinementBudget::default_limits() };
    let output = world.refine([0.0; 3], &leaves, budget);

    assert!(output.stats.subdivisions_performed <= 3, "Should not exceed max_subdivisions budget");
    assert!(output.stats.collapses_performed <= 5, "Should not exceed max_collapses budget");
}

#[test]
fn test_transition_groups_sorted_by_distance() {}

#[test]
fn test_stats_tracking() {
    let world = World::default();
    let output = world.refine([0.0; 3], &[OctreeNode::new(0, 0, 0, 5)], RefinementBudget::unlimited());

    assert!(
        output.stats.subdivisions_performed > 0
            || output.stats.collapses_performed > 0
            || output.stats.neighbor_subdivisions_performed > 0
            || output.transition_groups.is_empty(),
        "Stats should track operations or no operations occurred"
    );
}

#[test]
fn test_viewer_very_far_collapses_to_coarse() {
    let world = World::default();
    let parent = OctreeNode::new(0, 0, 0, 5);
    let output = world.refine([100000.0, 100000.0, 100000.0], &children(&parent), RefinementBudget::unlimited());
    let _ = output;
}

#[test]
fn test_viewer_at_node_center_subdivides() {
    let world = World::default();
    let node = OctreeNode::new(0, 0, 0, 5);
    let center = world.center(&node);

    let output = world.refine(center, &[node], RefinementBudget::unlimited());

    let has_subdivide = output
        .transition_groups
        .iter()
        .any(|g| g.transition_type == TransitionType::Subdivide && g.group_key == node);
    assert!(has_subdivide || output.next_leaves.len() == 8, "Viewer at center should trigger subdivide");
}

#[test]
fn test_neighbor_enforcement_disabled() {
    let world = World::default();
    let leaves = [OctreeNode::new(0, 0, 0, 2), OctreeNode::new(1, 0, 0, 5)];

    let output = world.refine([0.0; 3], &leaves, RefinementBudget::no_neighbor_enforcement());

    assert_eq!(output.stats.neighbor_subdivisions_performed, 0, "Neighbor enforcement should be disabled");
}

#[test]
fn test_find_face_neighbor_same_lod() {
    let node = OctreeNode::new(0, 0, 0, 3);
    let neighbor = OctreeNode::new(1, 0, 0, 3);
    let leaves = leaves_of(&[node, neighbor]);

    let found = find_face_neighbor(&node, 1, &leaves, 10);
    assert_eq!(found, Some(neighbor));
}

#[test]
fn test_find_face_neighbor_coarser_lod() {
    let node = OctreeNode::new(0, 0, 0, 2);
    let coarser_neighbor = OctreeNode::new(0, 0, 0, 3);
    let _leaves = leaves_of(&[node, coarser_neighbor]);

    let node2 = OctreeNode::new(2, 0, 0, 2);
    let coarser2 = OctreeNode::new(1, 0, 0, 3);
    let leaves2 = leaves_of(&[node2, coarser2]);

    let found = find_face_neighbor(&node2, 1, &leaves2, 10);
    assert_eq!(found, Some(coarser2));
}

#[test]
fn test_find_face_neighbor_none() {
    let node = OctreeNode::new(0, 0, 0, 3);
    let leaves = leaves_of(&[node]);

    let found = find_face_neighbor(&node, 1, &leaves, 10);
    assert_eq!(found, None);
}

#[test]
fn test_stats_total_transitions() {
    let stats = RefinementStats { subdivisions_performed: 5, collapses_performed: 3, neighbor_subdivisions_performed: 2 };

    assert_eq!(stats.total_transitions(), 10);
    assert_eq!(stats.total_subdivisions(), 7);
}

#[test]
fn test_neighbor_enforcement_skips_boundary_nodes_with_partial_children() {
    let world = World {
        voxel_size: 1.0,
        origin: [0.0; 3],
        min_lod: 0,
        max_lod: 20,
        lod_exponent: 0.0,
        bounds: Some(([0.0, 0.0, 0.0], [10000.0, 10000.0, 10000.0])),
    };
    let leaves = [OctreeNode::new(0, 0, 0, 2), OctreeNode::new(-1, 0, 0, 15)];
    let budget =
        RefinementBudget { max_subdivisions: 10000, max_collapses: 0, max_relative_lod: 1, max_neighbor_iterations: 50 };

    let output = world.refine([50.0, 50.0, 50.0], &leaves, budget);

    assert!(
        output.stats.neighbor_subdivisions_performed < 50,
        "Neighbor enforcement caused {} subdivisions, expected < 50 for boundary nodes",
        output.stats.neighbor_subdivisions_performed
    );
    assert!(output.next_leaves.len() < 200, "Leaf count exploded to {} due to boundary subdivisions", output.next_leaves.len());
}

#[test]
fn test_apply_subdivide_produces_partial_children_at_boundary() {
    let world = World {
        voxel_size: 1.0,
        origin: [0.0; 3],
        min_lod: 0,
        max_lod: 20,
        lod_exponent: 0.0,
        bounds: Some(([0.0, 0.0, 0.0], [1000.0, 1000.0, 1000.0])),
    };
    let config = world.config();
    let boundary_node = OctreeNode::new(-1, 0, 0, 5);
    let mut leaves = leaves_of(&[boundary_node]);
    let mut groups = Vec::new();

    apply_subdivide(&boundary_node, &mut leaves, &mut groups, Some(&config));

    assert!(leaves.len() < 8, "Expected partial children at boundary, got {} children", leaves.len());
    assert!(!leaves.is_empty(), "Should have at least some children in bounds");
    assert_eq!(leaves.len(), 4, "Expected exactly 4 children (the +X half) to be in bounds");
}

#[test]
fn test_boundary_subdivision_does_not_explode() {
    let world = World {
        voxel_size: 1.0,
        origin: [0.0; 3],
        min_lod: 0,
        max_lod: 20,
        lod_exponent: 2.0,
        bounds: Some(([0.0, 0.0, 0.0], [50000.0, 50000.0, 50000.0])),
    };
    let leaves = [OctreeNode::new(0, 0, 0, 0), OctreeNode::new(-1, 0, 0, 10)];
    let budget =
        RefinementBudget { max_subdivisions: 100000, max_collapses: 0, max_relative_lod: 1, max_neighbor_iterations: 20 };

    let output = world.refine([14.0, 14.0, 14.0], &leaves, budget);

    let max_acceptable_leaves = 100;
    assert!(
        output.next_leaves.len() <= max_acceptable_leaves,
        "BOUNDARY EXPLOSION BUG: {} leaves created, expected <= {}.",
        output.next_leaves.len(),
        max_acceptable_leaves
    );
    assert_eq!(
        output.stats.neighbor_subdivisions_performed, 0,
        "Boundary nodes should not be subdivided by neighbor enforcement. Got {} subdivisions.",
        output.stats.neighbor_subdivisions_performed
    );
}

#[test]
fn viewer_far_away_merges_all_eight_siblings() {
    let world = World::default();
    let parent = OctreeNode::new(0, 0, 0, 5);
    let output = world.refine([100000.0, 100000.0, 100000.0], &children(&parent), RefinementBudget::unlimited());
    assert_eq!(output.stats.collapses_performed, 1);
    assert_eq!(output.transition_groups.len(), 1);
    assert_eq!(output.transition_groups[0].transition_type, TransitionType::Merge);
    assert_eq!(output.transition_groups[0].group_key, parent);
    assert_eq!(output.next_leaves.len(), 1);
    assert!(output.next_leaves.contains(&parent));
}

#[test]
fn collapses_farthest_first_within_budget() {
    let world = World::default();
    let near_parent = OctreeNode::new(100, 0, 0, 5);
    let far_parent = OctreeNode::new(200, 0, 0, 5);
    let mut leaves = children(&near_parent);
    leaves.extend(children(&far_parent));
    let budget = RefinementBudget { max_collapses: 1, ..RefinementBudget::default_limits() };
    let output = world.refine([0.0; 3], &leaves, budget);
    assert_eq!(output.stats.collapses_performed, 1);
    let merged: Vec<OctreeNode> = output
        .transition_groups
        .iter()
        .filter(|g| g.transition_type == TransitionType::Merge)
        .map(|g| g.group_key)
        .collect();
    assert_eq!(merged, vec![far_parent]);
}

#[test]
fn neighbor_enforcement_subdivides_coarse_neighbor() {
    let world = World::default();
    // A fine leaf just left (-X) of a coarse one, three LODs apart.
    let fine_left = OctreeNode::new(-1, 0, 0, 2);
    let coarse = OctreeNode::new(0, 0, 0, 5);
    let budget = RefinementBudget { max_subdivisions: 0, max_collapses: 0, ..RefinementBudget::default_limits() };
    let output = world.refine([-1.0e7, 0.0, 0.0], &[fine_left, coarse], budget);
    assert!(output.stats.neighbor_subdivisions_performed > 0);
    assert!(!output.next_leaves.contains(&coarse));
    for g in &output.transition_groups {
        assert_eq!(g.transition_type, TransitionType::Subdivide);
    }
}

#[test]
fn neighbor_enforcement_runs_to_a_fixed_point() {
    let world = World::default();
    let fine_left = OctreeNode::new(-1, 0, 0, 2);
    let coarse = OctreeNode::new(0, 0, 0, 5);
    let budget = RefinementBudget {
        max_subdivisions: 0,
        max_collapses: 0,
        max_relative_lod: 1,
        max_neighbor_iterations: 10,
    };
    let output = world.refine([-1.0e7, 0.0, 0.0], &[fine_left, coarse], budget);
    assert!(output.stats.neighbor_subdivisions_performed < 10);
    for leaf in output.next_leaves.iter() {
        for dir in 0..6 {
            if let Some(nb) = find_face_neighbor(leaf, dir, &output.next_leaves, world.max_lod) {
                assert!(nb.lod - leaf.lod <= 1, "{:?} has a coarse neighbor {:?}", leaf, nb);
            }
        }
    }
}

#[test]
fn refine_output_leaves_are_input_with_groups_applied() {
    let world = World::default();
    let leaves = [OctreeNode::new(0, 0, 0, 5), OctreeNode::new(1, 0, 0, 5), OctreeNode::new(0, 1, 0, 5)];
    let output = world.refine([10.0, 10.0, 10.0], &leaves, RefinementBudget::unlimited());
    let mut replay = leaves_of(&leaves);
    apply_transitions(&mut replay, &output.transition_groups);
    let mut a: Vec<OctreeNode> = replay.iter().copied().collect();
    let mut b: Vec<OctreeNode> = output.next_leaves.iter().copied().collect();
    let key = |n: &OctreeNode| (n.lod, n.x, n.y, n.z);
    a.sort_by_key(key);
    b.sort_by_key(key);
    assert_eq!(a, b);
}

#[test]
fn groups_sorted_by_distance_keep_ties_in_order() {
    let groups: Vec<_> = [OctreeNode::new(3, 0, 0, 5), OctreeNode::new(1, 0, 0, 5), OctreeNode::new(2, 0, 0, 5)]
        .iter()
        .map(|n| voxel_plugin::octree::TransitionGroup::new_subdivide(*n).unwrap())
        .collect();
    let keys = vec![5u64, 1, 5];
    let sorted = sort_groups_by_distance(groups, &keys);
    let order: Vec<i32> = sorted.iter().map(|g| g.group_key.x).collect();
    assert_eq!(order, vec![1, 3, 2]);
}

#[test]
fn budget_of_one_subdivides_the_closer_leaf() {
    let world = World::default();
    let near = OctreeNode::new(0, 0, 0, 5);
    let far = OctreeNode::new(1, 0, 0, 5);
    let budget = RefinementBudget { max_subdivisions: 1, max_collapses: 1, ..RefinementBudget::default_limits() };
    let output = world.refine([800.0, 448.0, 448.0], &[near, far], budget);
    assert_eq!(
        output.stats,
        RefinementStats { subdivisions_performed: 1, collapses_performed: 0, neighbor_subdivisions_performed: 0 }
    );
    assert_eq!(output.transition_groups.len(), 1);
    assert_eq!(output.transition_groups[0].transition_type, TransitionType::Subdivide);
    assert_eq!(output.transition_groups[0].group_key, near);
    let mut expected = children(&near);
    expected.push(far);
    let key = |n: &OctreeNode| (n.lod, n.x, n.y, n.z);
    expected.sort_by_key(key);
    let mut got: Vec<OctreeNode> = output.next_leaves.iter().copied().collect();
    got.sort_by_key(key);
    assert_eq!(got, expected);
}
