use voxel_plugin::constants::{
    coord_to_index, index_to_coord, CORNER_OFFSETS, FIRST_INTERIOR_CELL, INTERIOR_CELLS, LAST_INTERIOR_CELL,
    LAST_INTERIOR_SAMPLE, MAX_SAMPLE_INDEX, NEGATIVE_APRON, SAMPLE_SIZE, SAMPLE_SIZE_CB, SAMPLE_SIZE_SQ,
};

#[test]
fn test_sample_size_is_power_of_two() {
    assert!(SAMPLE_SIZE.is_power_of_two());
    assert_eq!(SAMPLE_SIZE, 32);
}

#[test]
fn test_coord_to_index_roundtrip() {
    for x in 0..SAMPLE_SIZE {
        for y in 0..SAMPLE_SIZE {
            for z in 0..SAMPLE_SIZE {
                let idx = coord_to_index(x, y, z);
                let (rx, ry, rz) = index_to_coord(idx);
                assert_eq!((x, y, z), (rx, ry, rz), "Roundtrip failed for ({}, {}, {})", x, y, z);
            }
        }
    }
}

#[test]
fn test_corner_offsets() {
    assert_eq!(CORNER_OFFSETS[0], 0);
    let expected = coord_to_index(1, 0, 0) + coord_to_index(0, 1, 0) + 1;
    assert_eq!(CORNER_OFFSETS[7], expected);
}

#[test]
fn test_voxels_per_cell_is_28() {
    assert_eq!(INTERIOR_CELLS, 28, "INTERIOR_CELLS must be 28 for octree cell sizing");
}

#[test]
fn test_index_bounds() {
    assert_eq!(NEGATIVE_APRON, 1, "Negative apron should be 1");
    assert_eq!(FIRST_INTERIOR_CELL, 1, "First interior cell should be 1");
    assert_eq!(LAST_INTERIOR_CELL, 28, "Last interior cell should be 28");
    assert_eq!(LAST_INTERIOR_SAMPLE, 29, "Last interior sample should be 29");
    assert_eq!(MAX_SAMPLE_INDEX, 31, "Max sample index should be 31");

    for i in FIRST_INTERIOR_CELL..=LAST_INTERIOR_CELL {
        assert!(i < SAMPLE_SIZE, "Interior cell {} should be within sample bounds", i);
    }

    let corners = [
        (0, 0, 0),
        (MAX_SAMPLE_INDEX, MAX_SAMPLE_INDEX, MAX_SAMPLE_INDEX),
        (FIRST_INTERIOR_CELL, FIRST_INTERIOR_CELL, FIRST_INTERIOR_CELL),
        (LAST_INTERIOR_CELL, LAST_INTERIOR_CELL, LAST_INTERIOR_CELL),
    ];
    for (x, y, z) in corners {
        let idx = coord_to_index(x, y, z);
        let (rx, ry, rz) = index_to_coord(idx);
        assert_eq!((x, y, z), (rx, ry, rz), "Roundtrip failed for corner ({}, {}, {})", x, y, z);
    }
}

#[test]
fn coord_to_index_exact_values() {
    assert_eq!(coord_to_index(0, 0, 0), 0);
    assert_eq!(coord_to_index(1, 2, 3), 1024 + 64 + 3);
    assert_eq!(coord_to_index(31, 31, 31), SAMPLE_SIZE_CB - 1);
    assert_eq!(coord_to_index(0, 1, 0), SAMPLE_SIZE);
    assert_eq!(coord_to_index(1, 0, 0), SAMPLE_SIZE_SQ);
}

#[test]
fn index_to_coord_exact_values() {
    assert_eq!(index_to_coord(0), (0, 0, 0));
    assert_eq!(index_to_coord(1024 + 64 + 3), (1, 2, 3));
    assert_eq!(index_to_coord(SAMPLE_SIZE_CB - 1), (31, 31, 31));
}

#[test]
fn index_roundtrip_over_whole_chunk() {
    for idx in 0..SAMPLE_SIZE_CB {
        let (x, y, z) = index_to_coord(idx);
        assert_eq!(coord_to_index(x, y, z), idx);
    }
}

#[test]
fn corner_offsets_follow_corner_bits() {
    for c in 0..8usize {
        assert_eq!(CORNER_OFFSETS[c], coord_to_index(c & 1, (c >> 1) & 1, (c >> 2) & 1));
    }
}
