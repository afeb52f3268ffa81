use voxel_plugin::edge_table::{generate_edge_table, EDGE_CORNERS};

#[test]
fn test_edge_table_homogeneous() {
    let table = generate_edge_table();
    assert_eq!(table[0], 0, "All air should have no edges");
    assert_eq!(table[255], 0, "All solid should have no edges");
}

#[test]
fn test_edge_table_single_corner() {
    let table = generate_edge_table();
    for corner in 0..8 {
        let mask = 1u8 << corner;
        let edge_count = table[mask as usize].count_ones();
        assert_eq!(edge_count, 3, "Corner {} should have 3 edges, got {}", corner, edge_count);
    }
}

#[test]
fn test_edge_table_symmetry() {
    let table = generate_edge_table();
    for i in 0..128 {
        assert_eq!(table[i], table[255 - i], "Edge masks should be symmetric for {} and {}", i, 255 - i);
    }
}

#[test]
fn test_edge_corners_validity() {
    for edge in &EDGE_CORNERS {
        assert!(edge[0] < 8);
        assert!(edge[1] < 8);
        assert_ne!(edge[0], edge[1]);
    }
}

#[test]
fn edge_table_single_corner_zero_is_first_three_edges() {
    let table = generate_edge_table();
    assert_eq!(table[1], 0b0000_0000_0111);
}

#[test]
fn edge_table_entries_are_twelve_bits_and_match_corner_differences() {
    let table = generate_edge_table();
    for mask in 0..256usize {
        assert!(table[mask] < 4096);
        for (e, ends) in EDGE_CORNERS.iter().enumerate() {
            let a = (mask >> ends[0]) & 1;
            let b = (mask >> ends[1]) & 1;
            assert_eq!((table[mask] >> e) & 1 == 1, a != b, "mask {} edge {}", mask, e);
        }
    }
}

#[test]
fn edge_table_known_values() {
    let table = generate_edge_table();
    assert_eq!(table[2], 25);
    assert_eq!(table[3], 30);
    assert_eq!(table[16], 772);
}
