use voxel_plugin::constants::{coord_to_index, SAMPLE_SIZE_CB};
use voxel_plugin::noise::{has_surface_crossing, is_homogeneous};

#[test]
fn uniform_volumes_have_no_crossing() {
    let air = [1i8; SAMPLE_SIZE_CB];
    let solid = [-5i8; SAMPLE_SIZE_CB];
    assert!(!has_surface_crossing(&air));
    assert!(!has_surface_crossing(&solid));
    assert!(is_homogeneous(&air));
}

#[test]
fn single_negative_sample_is_a_crossing_on_each_axis() {
    for (x, y, z) in [(31, 0, 0), (0, 31, 0), (0, 0, 31), (15, 16, 17)] {
        let mut v = [0i8; SAMPLE_SIZE_CB];
        v[coord_to_index(x, y, z)] = -1;
        assert!(has_surface_crossing(&v), "({}, {}, {})", x, y, z);
        assert!(!is_homogeneous(&v));
    }
}

#[test]
fn zero_counts_as_outside() {
    let mut v = [0i8; SAMPLE_SIZE_CB];
    v[coord_to_index(3, 3, 3)] = 0;
    assert!(!has_surface_crossing(&v));
}

#[test]
fn horizontal_surface_is_found() {
    let mut v = [1i8; SAMPLE_SIZE_CB];
    for x in 0..32 {
        for y in 0..32 {
            for z in 0..16 {
                v[coord_to_index(x, y, z)] = -1;
            }
        }
    }
    assert!(has_surface_crossing(&v));
}
