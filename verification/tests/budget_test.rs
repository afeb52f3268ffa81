use voxel_plugin::octree::{RefinementBudget, RefinementStats};

#[test]
fn test_default_budget() {
    let budget = RefinementBudget::default();
    assert_eq!(budget.max_subdivisions, 32);
    assert_eq!(budget.max_collapses, 32);
    assert_eq!(budget.max_relative_lod, 1);
    assert_eq!(budget.max_neighbor_iterations, 4);
    assert!(budget.neighbor_enforcement_enabled());
}

#[test]
fn test_unlimited_budget() {
    let budget = RefinementBudget::unlimited();
    assert_eq!(budget.max_subdivisions, usize::MAX);
    assert_eq!(budget.max_collapses, usize::MAX);
    assert!(budget.neighbor_enforcement_enabled());
}

#[test]
fn test_no_neighbor_enforcement() {
    let budget = RefinementBudget::no_neighbor_enforcement();
    assert!(!budget.neighbor_enforcement_enabled());
    assert_eq!(budget.max_relative_lod, 0);
    assert_eq!(budget.max_neighbor_iterations, 0);
}

#[test]
fn test_can_subdivide() {
    let budget = RefinementBudget { max_subdivisions: 5, ..Default::default() };
    assert!(budget.can_subdivide(0));
    assert!(budget.can_subdivide(4));
    assert!(!budget.can_subdivide(5));
    assert!(!budget.can_subdivide(10));
}

#[test]
fn test_can_collapse() {
    let budget = RefinementBudget { max_collapses: 3, ..Default::default() };
    assert!(budget.can_collapse(0));
    assert!(budget.can_collapse(2));
    assert!(!budget.can_collapse(3));
}

#[test]
fn test_unlimited_budget_always_allows() {
    let budget = RefinementBudget { max_subdivisions: 0, max_collapses: 0, ..Default::default() };
    assert!(budget.can_subdivide(1000));
    assert!(budget.can_collapse(1000));
}

#[test]
fn test_stats_totals() {
    let stats = RefinementStats {
        subdivisions_performed: 10,
        collapses_performed: 5,
        neighbor_subdivisions_performed: 3,
    };
    assert_eq!(stats.total_transitions(), 18);
    assert_eq!(stats.total_subdivisions(), 13);
}

#[test]
fn default_limits_equal_default() {
    assert_eq!(RefinementBudget::default_limits(), RefinementBudget::default());
}

#[test]
fn negative_relative_lod_disables_enforcement() {
    let budget = RefinementBudget { max_relative_lod: -2, ..Default::default() };
    assert!(!budget.neighbor_enforcement_enabled());
}
