use voxel_plugin::surface_nets::lod_seams::{
    is_boundary_vertex, NeighborMask, ALL_EDGE_BITS, ALL_FACE_BITS, ALL_TRANSITION_BITS, ALL_VERTEX_BITS, EDGE_X_NN,
    EDGE_Z_PP, FACE_NEG_X, FACE_POS_X, VERTEX_NNN, VERTEX_PPP,
};

#[test]
fn test_interior_vertex_not_boundary() {
    let pos = [15, 15, 15];
    let mask = ALL_TRANSITION_BITS;
    assert!(!is_boundary_vertex(pos, mask));
}

#[test]
fn test_face_boundary_detection() {
    let pos = [27, 15, 15];
    assert!(is_boundary_vertex(pos, FACE_POS_X));
    assert!(!is_boundary_vertex(pos, FACE_NEG_X));
}

#[test]
fn test_corner_boundary_detection() {
    let pos = [27, 27, 27];
    assert!(is_boundary_vertex(pos, VERTEX_PPP));
    assert!(!is_boundary_vertex(pos, VERTEX_NNN));
}

#[test]
fn test_no_mask_no_boundary() {
    let pos = [27, 27, 27];
    assert!(!is_boundary_vertex(pos, 0));
}

#[test]
fn mask_groups_are_the_named_bits() {
    assert_eq!(ALL_FACE_BITS, 0b111_1110);
    assert_eq!(ALL_VERTEX_BITS, 0xFF << 7);
    assert_eq!(ALL_EDGE_BITS, 0xFFF << 15);
    assert_eq!(ALL_TRANSITION_BITS, ALL_FACE_BITS | ALL_VERTEX_BITS | ALL_EDGE_BITS);
    assert_eq!(NeighborMask::FACE_POS_X, FACE_POS_X);
    assert_eq!(NeighborMask::ALL_SAME_LOD, 1);
}

#[test]
fn edge_needs_both_axes_near() {
    assert!(is_boundary_vertex([15, 1, 2], EDGE_X_NN));
    assert!(!is_boundary_vertex([15, 1, 15], EDGE_X_NN));
    assert!(is_boundary_vertex([27, 28, 15], EDGE_Z_PP));
    assert!(!is_boundary_vertex([27, 26, 15], EDGE_Z_PP));
}

#[test]
fn influence_zone_edges() {
    assert!(is_boundary_vertex([2, 15, 15], FACE_NEG_X));
    assert!(!is_boundary_vertex([3, 15, 15], FACE_NEG_X));
    assert!(!is_boundary_vertex([26, 15, 15], FACE_POS_X));
    assert!(is_boundary_vertex([-5, 15, 15], FACE_NEG_X));
}
