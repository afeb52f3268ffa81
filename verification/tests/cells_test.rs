use voxel_plugin::constants::{coord_to_index, SAMPLE_SIZE_CB};
use voxel_plugin::surface_nets::mesh_topology::mesh_topology;

fn surface_cells(volume: &[i8; SAMPLE_SIZE_CB]) -> Vec<(usize, usize, usize, u8)> {
    mesh_topology(volume).0
}

#[test]
fn uniform_volumes_have_no_surface_cells() {
    assert!(surface_cells(&[10i8; SAMPLE_SIZE_CB]).is_empty());
    assert!(surface_cells(&[-10i8; SAMPLE_SIZE_CB]).is_empty());
}

#[test]
fn a_single_solid_sample_touches_its_eight_cells_in_order() {
    let mut volume = [10i8; SAMPLE_SIZE_CB];
    volume[coord_to_index(5, 5, 5)] = -10;
    let cells = surface_cells(&volume);
    assert_eq!(
        cells,
        vec![
            (4, 4, 4, 128),
            (4, 4, 5, 8),
            (4, 5, 4, 32),
            (4, 5, 5, 2),
            (5, 4, 4, 64),
            (5, 4, 5, 4),
            (5, 5, 4, 16),
            (5, 5, 5, 1),
        ]
    );
}

#[test]
fn a_plane_crosses_every_cell_of_one_layer() {
    let mut volume = [10i8; SAMPLE_SIZE_CB];
    for x in 0..32 {
        for y in 0..10 {
            for z in 0..32 {
                volume[coord_to_index(x, y, z)] = -10;
            }
        }
    }
    let cells = surface_cells(&volume);
    assert_eq!(cells.len(), 31 * 31);
    assert!(cells.iter().all(|&(_, y, _, mask)| y == 9 && mask == 0b0011_0011));
}
