use voxel_plugin::surface_nets::topology::{quad_indices, quad_vertices, winding_flipped, IndexBuffer};

#[test]
fn index_buffer_starts_empty_and_stores_values() {
    let mut buf = IndexBuffer::new();
    assert_eq!(buf.get(3, 4, 5), -1);
    buf.set(3, 4, 5, 17);
    assert_eq!(buf.get(3, 4, 5), 17);
    // Same parity of x, same (y, z): the slot is reused two slices later.
    assert_eq!(buf.get(5, 4, 5), 17);
    assert_eq!(buf.get(4, 4, 5), -1);
    buf.clear();
    assert_eq!(buf.get(3, 4, 5), -1);
}

#[test]
fn index_buffer_slots() {
    let buf = IndexBuffer::new();
    assert_eq!(buf.calculate_index(0, 0, 0), 1 + 33 * 34);
    assert_eq!(buf.calculate_index(1, 0, 0), 34);
    assert_eq!(buf.calculate_index(2, 1, 2), 2 + 33 + 1 + 33 * 34);
}

#[test]
fn quad_needs_crossing_edge_and_four_vertices() {
    let mut buf = IndexBuffer::new();
    // Quad around the X edge of cell (5, 5, 5): cells (5,5,5), (5,4,4), (5,4,5), (5,5,4).
    buf.set(5, 5, 5, 0);
    buf.set(5, 4, 4, 1);
    buf.set(5, 4, 5, 2);
    assert_eq!(quad_vertices(&buf, [5, 5, 5], 0, 0b001), None);
    buf.set(5, 5, 4, 3);
    assert_eq!(quad_vertices(&buf, [5, 5, 5], 0, 0b001), Some((0, 1, 2, 3)));
    assert_eq!(quad_vertices(&buf, [5, 5, 5], 0, 0b110), None);
    assert_eq!(quad_vertices(&buf, [5, 0, 5], 0, 0b001), None);
}

#[test]
fn quad_triangle_windings() {
    let q = (10, 11, 12, 13);
    assert_eq!(quad_indices(q, true, true), [10, 13, 11, 10, 11, 12]);
    assert_eq!(quad_indices(q, false, true), [10, 11, 13, 10, 12, 11]);
    assert_eq!(quad_indices(q, true, false), [12, 13, 11, 12, 10, 13]);
    assert_eq!(quad_indices(q, false, false), [12, 11, 13, 12, 13, 10]);
}

#[test]
fn winding_flips_when_corner_zero_is_outside() {
    assert!(winding_flipped(0b1111_1110));
    assert!(!winding_flipped(0b0000_0001));
}
