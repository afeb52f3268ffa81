use voxel_plugin::edge_table::EDGE_CORNERS;
use voxel_plugin::surface_nets::vertex_calc::CUBE_EDGES;

#[test]
fn test_cube_edges_valid() {
    for (i, &[c0, c1]) in CUBE_EDGES.iter().enumerate() {
        assert!(c0 < 8, "edge {} corner 0 out of bounds", i);
        assert!(c1 < 8, "edge {} corner 1 out of bounds", i);
        assert_ne!(c0, c1, "edge {} connects corner to itself", i);
    }
}

#[test]
fn cube_edges_follow_the_edge_table_order() {
    for (e, &[c0, c1]) in CUBE_EDGES.iter().enumerate() {
        assert_eq!([c0, c1], [EDGE_CORNERS[e][0] as usize, EDGE_CORNERS[e][1] as usize]);
        assert_eq!((c0 ^ c1).count_ones(), 1, "edge {} joins corners that differ in one axis", e);
    }
}
