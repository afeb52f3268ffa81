use voxel_plugin::constants::{CORNER_OFFSETS, SAMPLE_SIZE_CB};
use voxel_plugin::surface_nets::material_weights::material_votes;

#[test]
fn votes_of_a_single_material() {
    let materials = [0u8; SAMPLE_SIZE_CB];
    assert_eq!(material_votes(&materials, 0xFF, 0), [8, 0, 0, 0]);
}

#[test]
fn votes_of_mixed_materials() {
    let mut materials = [0u8; SAMPLE_SIZE_CB];
    for i in 4..8 {
        materials[CORNER_OFFSETS[i]] = 1;
    }
    assert_eq!(material_votes(&materials, 0xFF, 0), [4, 4, 0, 0]);
}

#[test]
fn only_solid_corners_vote() {
    let mut materials = [0u8; SAMPLE_SIZE_CB];
    materials[CORNER_OFFSETS[1]] = 1;
    assert_eq!(material_votes(&materials, 0b0000_0001, 0), [1, 0, 0, 0]);
}

#[test]
fn high_material_ids_share_the_last_slot() {
    let materials = [255u8; SAMPLE_SIZE_CB];
    assert_eq!(material_votes(&materials, 0xFF, 0), [0, 0, 0, 8]);
}

#[test]
fn each_solid_corner_votes_once() {
    let mut materials = [0u8; SAMPLE_SIZE_CB];
    materials[CORNER_OFFSETS[1]] = 1;
    materials[CORNER_OFFSETS[2]] = 2;
    materials[CORNER_OFFSETS[3]] = 3;
    let votes = material_votes(&materials, 0b0000_1111, 0);
    assert_eq!(votes, [1, 1, 1, 1]);
    assert_eq!(votes.iter().map(|&v| v as u32).sum::<u32>(), 4);
}

#[test]
fn votes_read_the_cell_at_its_base_index() {
    let mut materials = [0u8; SAMPLE_SIZE_CB];
    let base = 1 + 32 + 1024;
    for offset in CORNER_OFFSETS {
        materials[base + offset] = 2;
    }
    assert_eq!(material_votes(&materials, 0xFF, base), [0, 0, 8, 0]);
    assert_eq!(material_votes(&materials, 0xFF, 0), [7, 0, 1, 0]);
}

#[test]
fn no_solid_corner_no_votes() {
    let materials = [3u8; SAMPLE_SIZE_CB];
    assert_eq!(material_votes(&materials, 0, 0), [0, 0, 0, 0]);
}
