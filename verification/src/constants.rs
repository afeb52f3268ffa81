//! Volume layout constants for 32³ voxel chunks.
//!
//! Sample index 0 is the negative apron (normals at cell 1), 1..=28 are the
//! interior cell origins, 29 is the last sample cell 28 needs, and 30..=31 are
//! padding for stride-2 displacement at LOD seams.
//!
//! Volumes are row-major with Z innermost: `index = x << 10 | y << 5 | z`.
use vstd::prelude::*;

verus! {

/// Number of samples per axis (32, so that indexing is by bit shifts).
pub const SAMPLE_SIZE: usize = 32;

/// Samples squared (32² = 1024).
pub const SAMPLE_SIZE_SQ: usize = 1024;

/// Total samples in a chunk (32³ = 32768).
pub const SAMPLE_SIZE_CB: usize = 32768;

/// Maximum valid sample index (31).
pub const MAX_SAMPLE_INDEX: usize = 31;

/// Bit shift for the Y coordinate (log2(32) = 5).
pub const Y_SHIFT: u32 = 5;

/// Bit shift for the X coordinate (log2(1024) = 10).
pub const X_SHIFT: u32 = 10;

/// Mask extracting one axis from an index (0x1F = 31).
pub const INDEX_MASK: usize = 0x1F;

/// Number of interior cells per axis that produce geometry.
pub const INTERIOR_CELLS: usize = 28;

/// First interior cell index (after the negative apron).
pub const FIRST_INTERIOR_CELL: usize = 1;

/// Last interior cell index.
pub const LAST_INTERIOR_CELL: usize = 28;

/// Padding for the negative boundary normal calculation.
pub const NEGATIVE_APRON: usize = 1;

/// Padding for stride-2 LOD seam displacement sampling.
pub const DISPLACEMENT_PADDING: usize = 2;

/// Last interior sample index (`LAST_INTERIOR_CELL + 1`).
pub const LAST_INTERIOR_SAMPLE: usize = 29;

/// Volume index offsets of the 8 cube corners from the base sample.
/// Corner `c` has x = bit 0, y = bit 1, z = bit 2 of `c`.
pub const CORNER_OFFSETS: [usize; 8] = [0, 1024, 32, 1056, 1, 1025, 33, 1057];

/// The linear index of sample `(x, y, z)`.
pub open spec fn sample_index(x: int, y: int, z: int) -> int {
    x * 1024 + y * 32 + z
}

/// Convert 3D coordinates to a linear index with bit shifts:
/// `x << 10 | y << 5 | z`. X has stride 1024, Y stride 32, Z stride 1.
pub fn coord_to_index(x: usize, y: usize, z: usize) -> (idx: usize)
    ensures
        idx == (x << 10usize) | (y << 5usize) | z,
        x < 32 && y < 32 && z < 32 ==> idx == sample_index(x as int, y as int, z as int),
{
    proof {
        if x < 32 && y < 32 && z < 32 {
            assert(((x << 10usize) | (y << 5usize) | z) == x * 1024 + y * 32 + z) by (bit_vector)
                requires
                    x < 32,
                    y < 32,
                    z < 32,
            ;
        }
    }
    (x << 10usize) | (y << 5usize) | z
}

/// Convert a linear index to 3D coordinates: `(idx >> 10, (idx >> 5) & 31, idx & 31)`.
pub fn index_to_coord(idx: usize) -> (c: (usize, usize, usize))
    ensures
        c == (idx >> 10usize, (idx >> 5usize) & 31usize, idx & 31usize),
        c.1 < 32 && c.2 < 32,
        idx < 32768 ==> c.0 < 32 && idx == sample_index(c.0 as int, c.1 as int, c.2 as int),
{
    let x = idx >> 10usize;
    let y = (idx >> 5usize) & 31usize;
    let z = idx & 31usize;
    proof {
        assert(y < 32 && z < 32) by (bit_vector)
            requires
                y == (idx >> 5usize) & 31usize,
                z == idx & 31usize,
        ;
        if idx < 32768 {
            assert(x < 32 && idx == x * 1024 + y * 32 + z) by (bit_vector)
                requires
                    idx < 32768,
                    x == idx >> 10usize,
                    y == (idx >> 5usize) & 31usize,
                    z == idx & 31usize,
            ;
        }
    }
    (x, y, z)
}

/// Coordinates inside the chunk survive the trip to an index and back.
pub proof fn lemma_coord_index_roundtrip(x: usize, y: usize, z: usize)
    requires
        x < 32,
        y < 32,
        z < 32,
    ensures
        ({
            let idx = (x << 10usize) | (y << 5usize) | z;
            &&& idx < 32768
            &&& (idx >> 10usize, (idx >> 5usize) & 31usize, idx & 31usize) == (x, y, z)
        }),
{
    assert(((x << 10usize) | (y << 5usize) | z) < 32768 && (((x << 10usize) | (y << 5usize) | z) >> 10usize) == x
        && ((((x << 10usize) | (y << 5usize) | z) >> 5usize) & 31usize) == y && (((x << 10usize) | (y
        << 5usize) | z) & 31usize) == z) by (bit_vector)
        requires
            x < 32,
            y < 32,
            z < 32,
    ;
}

/// Every index inside the chunk survives the trip to coordinates and back.
pub proof fn lemma_index_coord_roundtrip(idx: usize)
    requires
        idx < 32768,
    ensures
        (((idx >> 10usize) << 10usize) | (((idx >> 5usize) & 31usize) << 5usize) | (idx & 31usize)) == idx,
{
    assert((((idx >> 10usize) << 10usize) | (((idx >> 5usize) & 31usize) << 5usize) | (idx & 31usize)) == idx)
        by (bit_vector)
        requires
            idx < 32768,
    ;
}

/// Corner `c`'s offset is the index of its (x, y, z) bits.
pub proof fn lemma_corner_offsets()
    ensures
        forall|c: int|
            0 <= c < 8 ==> #[trigger] CORNER_OFFSETS@[c] == sample_index(c % 2, (c / 2) % 2, c / 4),
{
    assert forall|c: int| 0 <= c < 8 implies #[trigger] CORNER_OFFSETS@[c] == sample_index(
        c % 2,
        (c / 2) % 2,
        c / 4,
    ) by {
        assert(c == 0 || c == 1 || c == 2 || c == 3 || c == 4 || c == 5 || c == 6 || c == 7);
    }
}

} // verus!
