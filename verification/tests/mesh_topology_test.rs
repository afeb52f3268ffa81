use voxel_plugin::constants::{coord_to_index, SAMPLE_SIZE_CB};
use voxel_plugin::noise::has_surface_crossing;
use voxel_plugin::surface_nets::mesh_topology::mesh_topology;

#[test]
fn uniform_volume_has_no_topology() {
    let (cells, quads) = mesh_topology(&[7i8; SAMPLE_SIZE_CB]);
    assert!(cells.is_empty());
    assert!(quads.is_empty());
}

#[test]
fn single_solid_sample_is_closed_by_six_quads() {
    let mut volume = [10i8; SAMPLE_SIZE_CB];
    volume[coord_to_index(5, 5, 5)] = -10;
    let (cells, quads) = mesh_topology(&volume);
    let positions: Vec<(usize, usize, usize)> = cells.iter().map(|&(x, y, z, _)| (x, y, z)).collect();
    assert_eq!(
        positions,
        vec![(4, 4, 4), (4, 4, 5), (4, 5, 4), (4, 5, 5), (5, 4, 4), (5, 4, 5), (5, 5, 4), (5, 5, 5)]
    );
    assert_eq!(
        quads,
        vec![
            (3, 0, 1, 2, true),
            (5, 0, 4, 1, true),
            (6, 0, 2, 4, true),
            (7, 4, 5, 6, false),
            (7, 2, 6, 3, false),
            (7, 1, 3, 5, false),
        ]
    );
}

#[test]
fn plane_gives_one_quad_per_interior_cell_of_its_layer() {
    let mut volume = [10i8; SAMPLE_SIZE_CB];
    for x in 0..32 {
        for y in 0..10 {
            for z in 0..32 {
                volume[coord_to_index(x, y, z)] = -10;
            }
        }
    }
    let (cells, quads) = mesh_topology(&volume);
    assert_eq!(cells.len(), 31 * 31);
    assert_eq!(quads.len(), 30 * 30);
    for &(a, b, c, d, flip) in &quads {
        assert!(!flip);
        for v in [a, b, c, d] {
            assert!(v >= 0 && (v as usize) < cells.len());
        }
    }
}

#[test]
fn surface_crossing_agrees_with_the_crossing_cells() {
    let mut corner = [10i8; SAMPLE_SIZE_CB];
    corner[coord_to_index(31, 31, 31)] = -1;
    let mut edge = [-3i8; SAMPLE_SIZE_CB];
    edge[coord_to_index(0, 17, 4)] = 0;
    for volume in [[5i8; SAMPLE_SIZE_CB], [-5i8; SAMPLE_SIZE_CB], corner, edge] {
        assert_eq!(has_surface_crossing(&volume), !mesh_topology(&volume).0.is_empty());
    }
    assert!(has_surface_crossing(&corner));
    assert_eq!(mesh_topology(&corner).0, vec![(30, 30, 30, 128)]);
}
