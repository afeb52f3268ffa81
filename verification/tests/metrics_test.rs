use voxel_plugin::metrics::{is_enabled, RollingWindow, WorldMetrics};

fn average(window: &RollingWindow<u64>) -> f64 {
    if window.is_empty() {
        0.0
    } else {
        window.sum() as f64 / window.len() as f64
    }
}

#[test]
fn test_rolling_window() {
    let mut window = RollingWindow::new(3);
    assert!(window.is_empty());

    window.push(10u64);
    window.push(20);
    window.push(30);
    assert_eq!(window.len(), 3);
    assert_eq!(window.sum(), 60);
    assert_eq!(average(&window), 20.0);

    window.push(40);
    assert_eq!(window.len(), 3);
    assert_eq!(window.sum(), 90);
    assert_eq!(average(&window), 30.0);

    let (min, max) = window.min_max().unwrap();
    assert_eq!(min, 20);
    assert_eq!(max, 40);
}

#[test]
fn test_world_metrics() {
    let mut metrics = WorldMetrics::new();

    metrics.record_chunk(0, 1000, 3000);
    metrics.record_chunk(1, 500, 1500);
    metrics.record_chunk(0, 800, 2400);

    assert_eq!(metrics.leaves_per_lod[0], 2);
    assert_eq!(metrics.leaves_per_lod[1], 1);
    assert_eq!(metrics.total_leaves(), 3);
    assert_eq!(metrics.visible_nodes, 3);

    metrics.remove_chunk(0, 1000, 3000);
    assert_eq!(metrics.leaves_per_lod[0], 1);
    assert_eq!(metrics.visible_nodes, 2);
}

#[test]
fn test_timing_recording() {
    let mut metrics = WorldMetrics::new();

    metrics.record_mesh_timing(1000);
    metrics.record_mesh_timing(2000);
    metrics.record_mesh_timing(3000);

    assert_eq!(metrics.mesh_timings.len(), 3);
    assert_eq!(average(&metrics.mesh_timings), 2000.0);
    assert_eq!(metrics.last_mesh_us, 3000);
}

#[test]
fn metrics_are_enabled() {
    assert!(is_enabled());
}

#[test]
fn rolling_window_last_and_iteration_order() {
    let mut window = RollingWindow::new(2);
    assert_eq!(window.last(), None);
    assert_eq!(window.min_max(), None);
    window.push(5u64);
    window.push(7);
    window.push(9);
    assert_eq!(window.last(), Some(&9));
    let values: Vec<u64> = window.iter().copied().collect();
    assert_eq!(values, vec![7, 9]);
    assert_eq!(window.as_slice().len(), 2);
    window.clear();
    assert!(window.is_empty());
}

#[test]
fn rolling_window_zero_capacity_keeps_newest() {
    let mut window = RollingWindow::new(0);
    window.push(1u64);
    window.push(2);
    assert_eq!(window.len(), 1);
    assert_eq!(window.last(), Some(&2));
}

#[test]
fn rolling_window_default_capacity_is_128() {
    let mut window = RollingWindow::<u64>::default();
    for i in 0..200u64 {
        window.push(i);
    }
    assert_eq!(window.len(), 128);
    assert_eq!(window.min_max(), Some((72, 199)));
}

#[test]
fn record_then_remove_restores_counters() {
    let mut metrics = WorldMetrics::new();
    metrics.record_chunk(3, 100, 300);
    let before = metrics.clone();
    metrics.record_chunk(20, 40, 90);
    assert_eq!(metrics.leaves_per_lod[15], 1);
    assert_eq!(metrics.mesh_memory_bytes, before.mesh_memory_bytes + 40 * 32 + 90 * 4);
    assert_eq!(metrics.visible_triangles, before.visible_triangles + 30);
    metrics.remove_chunk(20, 40, 90);
    assert_eq!(metrics.leaves_per_lod, before.leaves_per_lod);
    assert_eq!(metrics.vertices_per_lod, before.vertices_per_lod);
    assert_eq!(metrics.indices_per_lod, before.indices_per_lod);
    assert_eq!(metrics.mesh_memory_bytes, before.mesh_memory_bytes);
    assert_eq!(metrics.visible_nodes, before.visible_nodes);
    assert_eq!(metrics.visible_triangles, before.visible_triangles);
    assert_eq!(metrics.total_chunks_generated, 2);
}

#[test]
fn remove_chunk_saturates_at_zero() {
    let mut metrics = WorldMetrics::new();
    metrics.remove_chunk(-4, 10, 30);
    assert_eq!(metrics.leaves_per_lod[15], 0);
    assert_eq!(metrics.visible_nodes, 0);
    assert_eq!(metrics.mesh_memory_bytes, 0);
}

#[test]
fn reset_keeps_total_chunks() {
    let mut metrics = WorldMetrics::new();
    metrics.record_chunk(2, 10, 30);
    metrics.record_refine_timing(55);
    metrics.record_sample_timing(66);
    metrics.reset();
    assert_eq!(metrics.total_leaves(), 0);
    assert_eq!(metrics.total_vertices(), 0);
    assert_eq!(metrics.total_indices(), 0);
    assert!(metrics.refine_timings.is_empty());
    assert!(metrics.sample_timings.is_empty());
    assert_eq!(metrics.last_refine_us, 0);
    assert_eq!(metrics.total_chunks_generated, 1);
}

#[test]
fn totals_sum_all_lods() {
    let mut metrics = WorldMetrics::new();
    metrics.record_chunk(0, 10, 30);
    metrics.record_chunk(5, 20, 60);
    assert_eq!(metrics.total_vertices(), 30);
    assert_eq!(metrics.total_indices(), 90);
}
