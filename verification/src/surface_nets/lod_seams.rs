//! LOD seam detection for Surface Nets.
//!
//! A chunk next to a coarser neighbor displaces the vertices near that
//! neighbor so that both meshes meet. The 27-bit neighbor mask says which of
//! the 26 neighbors (6 faces, 8 corners, 12 edges) are coarser; bit 0 flags a
//! chunk whose neighbors all share its LOD.
use vstd::prelude::*;

verus! {

/// Bit 0: all neighbors have the same LOD (no displacement needed).
pub const ALL_SAME_LOD: u32 = 1;

/// Face neighbor +X is coarser.
pub const FACE_POS_X: u32 = 2;
/// Face neighbor -X is coarser.
pub const FACE_NEG_X: u32 = 4;
/// Face neighbor +Y is coarser.
pub const FACE_POS_Y: u32 = 8;
/// Face neighbor -Y is coarser.
pub const FACE_NEG_Y: u32 = 16;
/// Face neighbor +Z is coarser.
pub const FACE_POS_Z: u32 = 32;
/// Face neighbor -Z is coarser.
pub const FACE_NEG_Z: u32 = 64;

/// Corner neighbor (-1,-1,-1) is coarser.
pub const VERTEX_NNN: u32 = 128;
/// Corner neighbor (+1,-1,-1) is coarser.
pub const VERTEX_PNN: u32 = 256;
/// Corner neighbor (-1,+1,-1) is coarser.
pub const VERTEX_NPN: u32 = 512;
/// Corner neighbor (+1,+1,-1) is coarser.
pub const VERTEX_PPN: u32 = 1024;
/// Corner neighbor (-1,-1,+1) is coarser.
pub const VERTEX_NNP: u32 = 2048;
/// Corner neighbor (+1,-1,+1) is coarser.
pub const VERTEX_PNP: u32 = 4096;
/// Corner neighbor (-1,+1,+1) is coarser.
pub const VERTEX_NPP: u32 = 8192;
/// Corner neighbor (+1,+1,+1) is coarser.
pub const VERTEX_PPP: u32 = 16384;

/// X-axis edge neighbor at Y-, Z- is coarser.
pub const EDGE_X_NN: u32 = 32768;
/// X-axis edge neighbor at Y+, Z- is coarser.
pub const EDGE_X_PN: u32 = 65536;
/// X-axis edge neighbor at Y-, Z+ is coarser.
pub const EDGE_X_NP: u32 = 131072;
/// X-axis edge neighbor at Y+, Z+ is coarser.
pub const EDGE_X_PP: u32 = 262144;
/// Y-axis edge neighbor at X-, Z- is coarser.
pub const EDGE_Y_NN: u32 = 524288;
/// Y-axis edge neighbor at X+, Z- is coarser.
pub const EDGE_Y_PN: u32 = 1048576;
/// Y-axis edge neighbor at X-, Z+ is coarser.
pub const EDGE_Y_NP: u32 = 2097152;
/// Y-axis edge neighbor at X+, Z+ is coarser.
pub const EDGE_Y_PP: u32 = 4194304;
/// Z-axis edge neighbor at X-, Y- is coarser.
pub const EDGE_Z_NN: u32 = 8388608;
/// Z-axis edge neighbor at X+, Y- is coarser.
pub const EDGE_Z_PN: u32 = 16777216;
/// Z-axis edge neighbor at X-, Y+ is coarser.
pub const EDGE_Z_NP: u32 = 33554432;
/// Z-axis edge neighbor at X+, Y+ is coarser.
pub const EDGE_Z_PP: u32 = 67108864;

/// All face bits (1-6).
pub const ALL_FACE_BITS: u32 = 126;
/// All corner bits (7-14).
pub const ALL_VERTEX_BITS: u32 = 32640;
/// All edge bits (15-26).
pub const ALL_EDGE_BITS: u32 = 134184960;
/// All transition bits (1-26).
pub const ALL_TRANSITION_BITS: u32 = 134217726;

/// Neighbor mask bit names.
pub struct NeighborMask;

impl NeighborMask {
    /// See [`ALL_SAME_LOD`].
    pub const ALL_SAME_LOD: u32 = 1;
    /// See [`FACE_POS_X`].
    pub const FACE_POS_X: u32 = 2;
    /// See [`FACE_NEG_X`].
    pub const FACE_NEG_X: u32 = 4;
    /// See [`FACE_POS_Y`].
    pub const FACE_POS_Y: u32 = 8;
    /// See [`FACE_NEG_Y`].
    pub const FACE_NEG_Y: u32 = 16;
    /// See [`FACE_POS_Z`].
    pub const FACE_POS_Z: u32 = 32;
    /// See [`FACE_NEG_Z`].
    pub const FACE_NEG_Z: u32 = 64;
}

/// The mask bit of the neighbor in direction `(dx, dy, dz)` (each -1, 0 or
/// +1, not all 0).
pub open spec fn direction_bit(dx: int, dy: int, dz: int) -> u32 {
    if dy == 0 && dz == 0 {
        if dx > 0 {
            FACE_POS_X
        } else {
            FACE_NEG_X
        }
    } else if dx == 0 && dz == 0 {
        if dy > 0 {
            FACE_POS_Y
        } else {
            FACE_NEG_Y
        }
    } else if dx == 0 && dy == 0 {
        if dz > 0 {
            FACE_POS_Z
        } else {
            FACE_NEG_Z
        }
    } else if dx == 0 {
        if dy < 0 && dz < 0 {
            EDGE_X_NN
        } else if dy > 0 && dz < 0 {
            EDGE_X_PN
        } else if dy < 0 {
            EDGE_X_NP
        } else {
            EDGE_X_PP
        }
    } else if dy == 0 {
        if dx < 0 && dz < 0 {
            EDGE_Y_NN
        } else if dx > 0 && dz < 0 {
            EDGE_Y_PN
        } else if dx < 0 {
            EDGE_Y_NP
        } else {
            EDGE_Y_PP
        }
    } else if dz == 0 {
        if dx < 0 && dy < 0 {
            EDGE_Z_NN
        } else if dx > 0 && dy < 0 {
            EDGE_Z_PN
        } else if dx < 0 {
            EDGE_Z_NP
        } else {
            EDGE_Z_PP
        }
    } else if dz < 0 {
        if dx < 0 && dy < 0 {
            VERTEX_NNN
        } else if dx > 0 && dy < 0 {
            VERTEX_PNN
        } else if dx < 0 {
            VERTEX_NPN
        } else {
            VERTEX_PPN
        }
    } else {
        if dx < 0 && dy < 0 {
            VERTEX_NNP
        } else if dx > 0 && dy < 0 {
            VERTEX_PNP
        } else if dx < 0 {
            VERTEX_NPP
        } else {
            VERTEX_PPP
        }
    }
}

/// Cell coordinate `v` lies within the influence zone (2 cells) of the chunk
/// side in direction `d` along one axis: above 26 for +, below 3 for -, and
/// anywhere for 0.
pub open spec fn near_side(d: int, v: int) -> bool {
    if d > 0 {
        v > 26
    } else if d < 0 {
        v < 3
    } else {
        true
    }
}

/// `(dx, dy, dz)` is one of the 26 neighbor directions.
pub open spec fn is_direction(dx: int, dy: int, dz: int) -> bool {
    &&& -1 <= dx <= 1 && -1 <= dy <= 1 && -1 <= dz <= 1
    &&& !(dx == 0 && dy == 0 && dz == 0)
}

/// The cell at `(x, y, z)` is within the influence zone of a coarser
/// neighbor flagged in `mask`: near the face for a face neighbor, near both
/// faces for an edge neighbor, near all three for a corner neighbor.
pub open spec fn boundary_vertex(x: int, y: int, z: int, mask: u32) -> bool {
    exists|dx: int, dy: int, dz: int|
        is_direction(dx, dy, dz) && #[trigger] (mask & direction_bit(dx, dy, dz)) != 0 && near_side(dx, x)
            && near_side(dy, y) && near_side(dz, z)
}

/// Whether a vertex at `cell_pos` lies in the influence zone of a direction
/// that `mask` flags as having a coarser neighbor. Interior cells (all
/// coordinates in 3..=26) never do.
pub fn is_boundary_vertex(cell_pos: [i32; 3], mask: u32) -> (b: bool)
    ensures
        b == boundary_vertex(cell_pos@[0] as int, cell_pos@[1] as int, cell_pos@[2] as int, mask),
{
    let x = cell_pos[0];
    let y = cell_pos[1];
    let z = cell_pos[2];
    let ghost (gx, gy, gz) = (x as int, y as int, z as int);
    if 3 <= x && x <= 26 && 3 <= y && y <= 26 && 3 <= z && z <= 26 {
        proof {
            assert forall|dx: int, dy: int, dz: int| is_direction(dx, dy, dz) implies !(near_side(dx, gx)
                && near_side(dy, gy) && near_side(dz, gz)) by {}
        }
        return false;
    }
    let near_pos_x = x > 26;
    let near_neg_x = x < 3;
    let near_pos_y = y > 26;
    let near_neg_y = y < 3;
    let near_pos_z = z > 26;
    let near_neg_z = z < 3;
    let checks: [(u32, bool); 26] = [
        (FACE_POS_X, near_pos_x),
        (FACE_NEG_X, near_neg_x),
        (FACE_POS_Y, near_pos_y),
        (FACE_NEG_Y, near_neg_y),
        (FACE_POS_Z, near_pos_z),
        (FACE_NEG_Z, near_neg_z),
        (EDGE_X_NN, near_neg_y && near_neg_z),
        (EDGE_X_PN, near_pos_y && near_neg_z),
        (EDGE_X_NP, near_neg_y && near_pos_z),
        (EDGE_X_PP, near_pos_y && near_pos_z),
        (EDGE_Y_NN, near_neg_x && near_neg_z),
        (EDGE_Y_PN, near_pos_x && near_neg_z),
        (EDGE_Y_NP, near_neg_x && near_pos_z),
        (EDGE_Y_PP, near_pos_x && near_pos_z),
        (EDGE_Z_NN, near_neg_x && near_neg_y),
        (EDGE_Z_PN, near_pos_x && near_neg_y),
        (EDGE_Z_NP, near_neg_x && near_pos_y),
        (EDGE_Z_PP, near_pos_x && near_pos_y),
        (VERTEX_NNN, near_neg_x && near_neg_y && near_neg_z),
        (VERTEX_PNN, near_pos_x && near_neg_y && near_neg_z),
        (VERTEX_NPN, near_neg_x && near_pos_y && near_neg_z),
        (VERTEX_PPN, near_pos_x && near_pos_y && near_neg_z),
        (VERTEX_NNP, near_neg_x && near_neg_y && near_pos_z),
        (VERTEX_PNP, near_pos_x && near_neg_y && near_pos_z),
        (VERTEX_NPP, near_neg_x && near_pos_y && near_pos_z),
        (VERTEX_PPP, near_pos_x && near_pos_y && near_pos_z),
    ];
    let ghost dirs: Seq<(int, int, int)> = seq![
        (1, 0, 0), (-1, 0, 0), (0, 1, 0), (0, -1, 0), (0, 0, 1), (0, 0, -1),
        (0, -1, -1), (0, 1, -1), (0, -1, 1), (0, 1, 1),
        (-1, 0, -1), (1, 0, -1), (-1, 0, 1), (1, 0, 1),
        (-1, -1, 0), (1, -1, 0), (-1, 1, 0), (1, 1, 0),
        (-1, -1, -1), (1, -1, -1), (-1, 1, -1), (1, 1, -1),
        (-1, -1, 1), (1, -1, 1), (-1, 1, 1), (1, 1, 1),
    ];
    proof {
        assert forall|k: int| 0 <= k < 26 implies {
            let d = #[trigger] dirs[k];
            &&& is_direction(d.0, d.1, d.2)
            &&& checks@[k].0 == direction_bit(d.0, d.1, d.2)
            &&& checks@[k].1 == (near_side(d.0, gx) && near_side(d.1, gy) && near_side(d.2, gz))
        } by {}
        assert forall|dx: int, dy: int, dz: int| #[trigger] is_direction(dx, dy, dz) implies exists|k: int|
            0 <= k < 26 && dirs[k] == (dx, dy, dz) by {
            if dx == 1 && dy == 0 && dz == 0 { assert(dirs[0] == (dx, dy, dz)); }
            else if dx == -1 && dy == 0 && dz == 0 { assert(dirs[1] == (dx, dy, dz)); }
            else if dx == 0 && dy == 1 && dz == 0 { assert(dirs[2] == (dx, dy, dz)); }
            else if dx == 0 && dy == -1 && dz == 0 { assert(dirs[3] == (dx, dy, dz)); }
            else if dx == 0 && dy == 0 && dz == 1 { assert(dirs[4] == (dx, dy, dz)); }
            else if dx == 0 && dy == 0 && dz == -1 { assert(dirs[5] == (dx, dy, dz)); }
            else if dx == 0 && dy == -1 && dz == -1 { assert(dirs[6] == (dx, dy, dz)); }
            else if dx == 0 && dy == 1 && dz == -1 { assert(dirs[7] == (dx, dy, dz)); }
            else if dx == 0 && dy == -1 && dz == 1 { assert(dirs[8] == (dx, dy, dz)); }
            else if dx == 0 && dy == 1 && dz == 1 { assert(dirs[9] == (dx, dy, dz)); }
            else if dx == -1 && dy == 0 && dz == -1 { assert(dirs[10] == (dx, dy, dz)); }
            else if dx == 1 && dy == 0 && dz == -1 { assert(dirs[11] == (dx, dy, dz)); }
            else if dx == -1 && dy == 0 && dz == 1 { assert(dirs[12] == (dx, dy, dz)); }
            else if dx == 1 && dy == 0 && dz == 1 { assert(dirs[13] == (dx, dy, dz)); }
            else if dx == -1 && dy == -1 && dz == 0 { assert(dirs[14] == (dx, dy, dz)); }
            else if dx == 1 && dy == -1 && dz == 0 { assert(dirs[15] == (dx, dy, dz)); }
            else if dx == -1 && dy == 1 && dz == 0 { assert(dirs[16] == (dx, dy, dz)); }
            else if dx == 1 && dy == 1 && dz == 0 { assert(dirs[17] == (dx, dy, dz)); }
            else if dx == -1 && dy == -1 && dz == -1 { assert(dirs[18] == (dx, dy, dz)); }
            else if dx == 1 && dy == -1 && dz == -1 { assert(dirs[19] == (dx, dy, dz)); }
            else if dx == -1 && dy == 1 && dz == -1 { assert(dirs[20] == (dx, dy, dz)); }
            else if dx == 1 && dy == 1 && dz == -1 { assert(dirs[21] == (dx, dy, dz)); }
            else if dx == -1 && dy == -1 && dz == 1 { assert(dirs[22] == (dx, dy, dz)); }
            else if dx == 1 && dy == -1 && dz == 1 { assert(dirs[23] == (dx, dy, dz)); }
            else if dx == -1 && dy == 1 && dz == 1 { assert(dirs[24] == (dx, dy, dz)); }
            else { assert(dirs[25] == (dx, dy, dz)); }
        }
    }
    let mut k: usize = 0;
    while k < 26
        invariant
            k <= 26,
            gx == cell_pos@[0] as int && gy == cell_pos@[1] as int && gz == cell_pos@[2] as int,
            forall|j: int| 0 <= j < k ==> !((mask & (#[trigger] checks@[j]).0) != 0 && checks@[j].1),
            forall|j: int|
                0 <= j < 26 ==> {
                    let d = #[trigger] dirs[j];
                    &&& is_direction(d.0, d.1, d.2)
                    &&& checks@[j].0 == direction_bit(d.0, d.1, d.2)
                    &&& checks@[j].1 == (near_side(d.0, gx) && near_side(d.1, gy) && near_side(d.2, gz))
                },
        decreases 26 - k,
    {
        let (bit, near) = checks[k];
        if (mask & bit) != 0 && near {
            proof {
                let d = dirs[k as int];
                assert(is_direction(d.0, d.1, d.2));
                assert((mask & direction_bit(d.0, d.1, d.2)) != 0);
                assert(near_side(d.0, gx) && near_side(d.1, gy) && near_side(d.2, gz));
            }
            return true;
        }
        k = k + 1;
    }
    proof {
        assert forall|dx: int, dy: int, dz: int| is_direction(dx, dy, dz) implies !(#[trigger] (mask
            & direction_bit(dx, dy, dz)) != 0 && near_side(dx, gx) && near_side(dy, gy) && near_side(dz, gz)) by {
            let j = choose|j: int| 0 <= j < 26 && dirs[j] == (dx, dy, dz);
            assert(!((mask & checks@[j].0) != 0 && checks@[j].1));
        }
    }
    false
}

/// Interior cells (all coordinates in 3..=26) are never boundary vertices,
/// whatever the mask.
pub proof fn lemma_interior_not_boundary(x: int, y: int, z: int, mask: u32)
    requires
        3 <= x <= 26,
        3 <= y <= 26,
        3 <= z <= 26,
    ensures
        !boundary_vertex(x, y, z, mask),
{
}

/// With no coarser neighbor flagged, no vertex is a boundary vertex.
pub proof fn lemma_empty_mask_not_boundary(x: int, y: int, z: int)
    ensures
        !boundary_vertex(x, y, z, 0),
{
    assert forall|b: u32| (0u32 & b) == 0 by {
        assert((0u32 & b) == 0) by (bit_vector);
    }
}


/// The position of the mask bit of direction `(dx, dy, dz)`.
spec fn direction_index(dx: int, dy: int, dz: int) -> u32 {
    if dy == 0 && dz == 0 {
        if dx > 0 { 1 } else { 2 }
    } else if dx == 0 && dz == 0 {
        if dy > 0 { 3 } else { 4 }
    } else if dx == 0 && dy == 0 {
        if dz > 0 { 5 } else { 6 }
    } else if dx == 0 {
        if dy < 0 && dz < 0 { 15 } else if dy > 0 && dz < 0 { 16 } else if dy < 0 { 17 } else { 18 }
    } else if dy == 0 {
        if dx < 0 && dz < 0 { 19 } else if dx > 0 && dz < 0 { 20 } else if dx < 0 { 21 } else { 22 }
    } else if dz == 0 {
        if dx < 0 && dy < 0 { 23 } else if dx > 0 && dy < 0 { 24 } else if dx < 0 { 25 } else { 26 }
    } else if dz < 0 {
        if dx < 0 && dy < 0 { 7 } else if dx > 0 && dy < 0 { 8 } else if dx < 0 { 9 } else { 10 }
    } else {
        if dx < 0 && dy < 0 { 11 } else if dx > 0 && dy < 0 { 12 } else if dx < 0 { 13 } else { 14 }
    }
}

proof fn lemma_single_bits(i: u32, j: u32)
    by (bit_vector)
    requires
        i < 32,
        j < 32,
    ensures
        i != j ==> (1u32 << i) & (1u32 << j) == 0u32,
        (1u32 << i) & (1u32 << i) != 0u32,
{
}

proof fn lemma_mask_constants()
    by (bit_vector)
    ensures
        2u32 == 1u32 << 1u32,
        4u32 == 1u32 << 2u32,
        8u32 == 1u32 << 3u32,
        16u32 == 1u32 << 4u32,
        32u32 == 1u32 << 5u32,
        64u32 == 1u32 << 6u32,
        128u32 == 1u32 << 7u32,
        256u32 == 1u32 << 8u32,
        512u32 == 1u32 << 9u32,
        1024u32 == 1u32 << 10u32,
        2048u32 == 1u32 << 11u32,
        4096u32 == 1u32 << 12u32,
        8192u32 == 1u32 << 13u32,
        16384u32 == 1u32 << 14u32,
        32768u32 == 1u32 << 15u32,
        65536u32 == 1u32 << 16u32,
        131072u32 == 1u32 << 17u32,
        262144u32 == 1u32 << 18u32,
        524288u32 == 1u32 << 19u32,
        1048576u32 == 1u32 << 20u32,
        2097152u32 == 1u32 << 21u32,
        4194304u32 == 1u32 << 22u32,
        8388608u32 == 1u32 << 23u32,
        16777216u32 == 1u32 << 24u32,
        33554432u32 == 1u32 << 25u32,
        67108864u32 == 1u32 << 26u32,
{
}

/// Each direction's bit is a single bit of its own: the bits of two
/// directions overlap exactly when the directions are the same.
proof fn lemma_direction_bits_disjoint(dx: int, dy: int, dz: int, ex: int, ey: int, ez: int)
    requires
        is_direction(dx, dy, dz),
        is_direction(ex, ey, ez),
    ensures
        (direction_bit(dx, dy, dz) & direction_bit(ex, ey, ez)) != 0 <==> (dx == ex && dy == ey && dz == ez),
{
    lemma_mask_constants();
    let i = direction_index(dx, dy, dz);
    let j = direction_index(ex, ey, ez);
    assert(direction_bit(dx, dy, dz) == 1u32 << i);
    assert(direction_bit(ex, ey, ez) == 1u32 << j);
    lemma_single_bits(i, j);
    assert(i == j ==> (dx == ex && dy == ey && dz == ez));
}

/// With only the bit of direction `d` set, a vertex is a boundary vertex
/// exactly when it lies in that direction's zone.
proof fn lemma_only_direction(x: int, y: int, z: int, dx: int, dy: int, dz: int)
    requires
        is_direction(dx, dy, dz),
    ensures
        boundary_vertex(x, y, z, direction_bit(dx, dy, dz)) <==> (near_side(dx, x) && near_side(dy, y) && near_side(
            dz,
            z,
        )),
{
    let m = direction_bit(dx, dy, dz);
    lemma_direction_bits_disjoint(dx, dy, dz, dx, dy, dz);
    if boundary_vertex(x, y, z, m) {
        let (ex, ey, ez) = choose|ex: int, ey: int, ez: int|
            is_direction(ex, ey, ez) && #[trigger] (m & direction_bit(ex, ey, ez)) != 0 && near_side(ex, x)
                && near_side(ey, y) && near_side(ez, z);
        lemma_direction_bits_disjoint(dx, dy, dz, ex, ey, ez);
    }
}

/// A flagged direction's zone makes a boundary vertex, whatever else the
/// mask holds.
proof fn lemma_flagged_direction(x: int, y: int, z: int, mask: u32, dx: int, dy: int, dz: int)
    requires
        is_direction(dx, dy, dz),
        (mask & direction_bit(dx, dy, dz)) != 0,
        near_side(dx, x) && near_side(dy, y) && near_side(dz, z),
    ensures
        boundary_vertex(x, y, z, mask),
{
}

/// Each named bit of the neighbor mask stands for its own side of the chunk:
/// a flagged bit makes every vertex in its zone a boundary vertex (within 2
/// cells of the +side means a coordinate above 26, of the -side below 3), and
/// a mask holding only that bit makes exactly the vertices of that zone
/// boundary vertices.
pub proof fn lemma_mask_bits_sides(x: int, y: int, z: int, mask: u32)
    ensures
        (mask & FACE_POS_X) != 0 && x > 26 ==> boundary_vertex(x, y, z, mask),
        (mask & FACE_NEG_X) != 0 && x < 3 ==> boundary_vertex(x, y, z, mask),
        (mask & FACE_POS_Y) != 0 && y > 26 ==> boundary_vertex(x, y, z, mask),
        (mask & FACE_NEG_Y) != 0 && y < 3 ==> boundary_vertex(x, y, z, mask),
        (mask & FACE_POS_Z) != 0 && z > 26 ==> boundary_vertex(x, y, z, mask),
        (mask & FACE_NEG_Z) != 0 && z < 3 ==> boundary_vertex(x, y, z, mask),
        (mask & EDGE_X_NN) != 0 && y < 3 && z < 3 ==> boundary_vertex(x, y, z, mask),
        (mask & EDGE_X_PN) != 0 && y > 26 && z < 3 ==> boundary_vertex(x, y, z, mask),
        (mask & EDGE_X_NP) != 0 && y < 3 && z > 26 ==> boundary_vertex(x, y, z, mask),
        (mask & EDGE_X_PP) != 0 && y > 26 && z > 26 ==> boundary_vertex(x, y, z, mask),
        (mask & EDGE_Y_NN) != 0 && x < 3 && z < 3 ==> boundary_vertex(x, y, z, mask),
        (mask & EDGE_Y_PN) != 0 && x > 26 && z < 3 ==> boundary_vertex(x, y, z, mask),
        (mask & EDGE_Y_NP) != 0 && x < 3 && z > 26 ==> boundary_vertex(x, y, z, mask),
        (mask & EDGE_Y_PP) != 0 && x > 26 && z > 26 ==> boundary_vertex(x, y, z, mask),
        (mask & EDGE_Z_NN) != 0 && x < 3 && y < 3 ==> boundary_vertex(x, y, z, mask),
        (mask & EDGE_Z_PN) != 0 && x > 26 && y < 3 ==> boundary_vertex(x, y, z, mask),
        (mask & EDGE_Z_NP) != 0 && x < 3 && y > 26 ==> boundary_vertex(x, y, z, mask),
        (mask & EDGE_Z_PP) != 0 && x > 26 && y > 26 ==> boundary_vertex(x, y, z, mask),
        (mask & VERTEX_NNN) != 0 && x < 3 && y < 3 && z < 3 ==> boundary_vertex(x, y, z, mask),
        (mask & VERTEX_PNN) != 0 && x > 26 && y < 3 && z < 3 ==> boundary_vertex(x, y, z, mask),
        (mask & VERTEX_NPN) != 0 && x < 3 && y > 26 && z < 3 ==> boundary_vertex(x, y, z, mask),
        (mask & VERTEX_PPN) != 0 && x > 26 && y > 26 && z < 3 ==> boundary_vertex(x, y, z, mask),
        (mask & VERTEX_NNP) != 0 && x < 3 && y < 3 && z > 26 ==> boundary_vertex(x, y, z, mask),
        (mask & VERTEX_PNP) != 0 && x > 26 && y < 3 && z > 26 ==> boundary_vertex(x, y, z, mask),
        (mask & VERTEX_NPP) != 0 && x < 3 && y > 26 && z > 26 ==> boundary_vertex(x, y, z, mask),
        (mask & VERTEX_PPP) != 0 && x > 26 && y > 26 && z > 26 ==> boundary_vertex(x, y, z, mask),
        mask == FACE_POS_X ==> (boundary_vertex(x, y, z, mask) <==> x > 26),
        mask == FACE_NEG_X ==> (boundary_vertex(x, y, z, mask) <==> x < 3),
        mask == FACE_POS_Y ==> (boundary_vertex(x, y, z, mask) <==> y > 26),
        mask == FACE_NEG_Y ==> (boundary_vertex(x, y, z, mask) <==> y < 3),
        mask == FACE_POS_Z ==> (boundary_vertex(x, y, z, mask) <==> z > 26),
        mask == FACE_NEG_Z ==> (boundary_vertex(x, y, z, mask) <==> z < 3),
        mask == EDGE_X_NN ==> (boundary_vertex(x, y, z, mask) <==> y < 3 && z < 3),
        mask == EDGE_X_PN ==> (boundary_vertex(x, y, z, mask) <==> y > 26 && z < 3),
        mask == EDGE_X_NP ==> (boundary_vertex(x, y, z, mask) <==> y < 3 && z > 26),
        mask == EDGE_X_PP ==> (boundary_vertex(x, y, z, mask) <==> y > 26 && z > 26),
        mask == EDGE_Y_NN ==> (boundary_vertex(x, y, z, mask) <==> x < 3 && z < 3),
        mask == EDGE_Y_PN ==> (boundary_vertex(x, y, z, mask) <==> x > 26 && z < 3),
        mask == EDGE_Y_NP ==> (boundary_vertex(x, y, z, mask) <==> x < 3 && z > 26),
        mask == EDGE_Y_PP ==> (boundary_vertex(x, y, z, mask) <==> x > 26 && z > 26),
        mask == EDGE_Z_NN ==> (boundary_vertex(x, y, z, mask) <==> x < 3 && y < 3),
        mask == EDGE_Z_PN ==> (boundary_vertex(x, y, z, mask) <==> x > 26 && y < 3),
        mask == EDGE_Z_NP ==> (boundary_vertex(x, y, z, mask) <==> x < 3 && y > 26),
        mask == EDGE_Z_PP ==> (boundary_vertex(x, y, z, mask) <==> x > 26 && y > 26),
        mask == VERTEX_NNN ==> (boundary_vertex(x, y, z, mask) <==> x < 3 && y < 3 && z < 3),
        mask == VERTEX_PNN ==> (boundary_vertex(x, y, z, mask) <==> x > 26 && y < 3 && z < 3),
        mask == VERTEX_NPN ==> (boundary_vertex(x, y, z, mask) <==> x < 3 && y > 26 && z < 3),
        mask == VERTEX_PPN ==> (boundary_vertex(x, y, z, mask) <==> x > 26 && y > 26 && z < 3),
        mask == VERTEX_NNP ==> (boundary_vertex(x, y, z, mask) <==> x < 3 && y < 3 && z > 26),
        mask == VERTEX_PNP ==> (boundary_vertex(x, y, z, mask) <==> x > 26 && y < 3 && z > 26),
        mask == VERTEX_NPP ==> (boundary_vertex(x, y, z, mask) <==> x < 3 && y > 26 && z > 26),
        mask == VERTEX_PPP ==> (boundary_vertex(x, y, z, mask) <==> x > 26 && y > 26 && z > 26),
{
    let ds: Seq<(int, int, int)> = seq![
        (1, 0, 0), (-1, 0, 0), (0, 1, 0), (0, -1, 0), (0, 0, 1), (0, 0, -1),
        (0, -1, -1), (0, 1, -1), (0, -1, 1), (0, 1, 1),
        (-1, 0, -1), (1, 0, -1), (-1, 0, 1), (1, 0, 1),
        (-1, -1, 0), (1, -1, 0), (-1, 1, 0), (1, 1, 0),
        (-1, -1, -1), (1, -1, -1), (-1, 1, -1), (1, 1, -1),
        (-1, -1, 1), (1, -1, 1), (-1, 1, 1), (1, 1, 1),
    ];
    assert forall|k: int| 0 <= k < 26 implies {
        let d = #[trigger] ds[k];
        &&& (boundary_vertex(x, y, z, direction_bit(d.0, d.1, d.2)) <==> (near_side(d.0, x) && near_side(d.1, y)
            && near_side(d.2, z)))
        &&& ((mask & direction_bit(d.0, d.1, d.2)) != 0 && near_side(d.0, x) && near_side(d.1, y) && near_side(
            d.2,
            z,
        ) ==> boundary_vertex(x, y, z, mask))
    } by {
        let d = ds[k];
        assert(is_direction(d.0, d.1, d.2));
        lemma_only_direction(x, y, z, d.0, d.1, d.2);
        if (mask & direction_bit(d.0, d.1, d.2)) != 0 && near_side(d.0, x) && near_side(d.1, y) && near_side(d.2, z) {
            lemma_flagged_direction(x, y, z, mask, d.0, d.1, d.2);
        }
    }
    assert(ds[0] == (1int, 0int, 0int));
    assert(ds[1] == (-1int, 0int, 0int));
    assert(ds[2] == (0int, 1int, 0int));
    assert(ds[3] == (0int, -1int, 0int));
    assert(ds[4] == (0int, 0int, 1int));
    assert(ds[5] == (0int, 0int, -1int));
    assert(ds[6] == (0int, -1int, -1int));
    assert(ds[7] == (0int, 1int, -1int));
    assert(ds[8] == (0int, -1int, 1int));
    assert(ds[9] == (0int, 1int, 1int));
    assert(ds[10] == (-1int, 0int, -1int));
    assert(ds[11] == (1int, 0int, -1int));
    assert(ds[12] == (-1int, 0int, 1int));
    assert(ds[13] == (1int, 0int, 1int));
    assert(ds[14] == (-1int, -1int, 0int));
    assert(ds[15] == (1int, -1int, 0int));
    assert(ds[16] == (-1int, 1int, 0int));
    assert(ds[17] == (1int, 1int, 0int));
    assert(ds[18] == (-1int, -1int, -1int));
    assert(ds[19] == (1int, -1int, -1int));
    assert(ds[20] == (-1int, 1int, -1int));
    assert(ds[21] == (1int, 1int, -1int));
    assert(ds[22] == (-1int, -1int, 1int));
    assert(ds[23] == (1int, -1int, 1int));
    assert(ds[24] == (-1int, 1int, 1int));
    assert(ds[25] == (1int, 1int, 1int));
}

} // verus!
