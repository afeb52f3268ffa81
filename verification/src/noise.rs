//! Volume checks shared by the terrain samplers.
use vstd::prelude::*;

use crate::constants::{sample_index, SAMPLE_SIZE_CB};
use crate::types::SdfSample;

verus! {

/// Whether the samples at indices `i` and `j` lie on different sides of the
/// surface (one negative, the other not).
pub open spec fn sign_differs(v: Seq<i8>, i: int, j: int) -> bool {
    (v[i] < 0) != (v[j] < 0)
}

/// Sample `(x, y, z)` differs in sign from its +X, +Y or +Z neighbor.
pub open spec fn crossing_at(v: Seq<i8>, x: int, y: int, z: int) -> bool {
    &&& 0 <= x < 32 && 0 <= y < 32 && 0 <= z < 32
    &&& {
        ||| x < 31 && sign_differs(v, sample_index(x, y, z), sample_index(x + 1, y, z))
        ||| y < 31 && sign_differs(v, sample_index(x, y, z), sample_index(x, y + 1, z))
        ||| z < 31 && sign_differs(v, sample_index(x, y, z), sample_index(x, y, z + 1))
    }
}

/// Some pair of adjacent samples differs in sign: the volume holds surface.
pub open spec fn surface_crossing(v: Seq<i8>) -> bool {
    exists|x: int, y: int, z: int| #[trigger] crossing_at(v, x, y, z)
}

proof fn lemma_index_unique(x: int, y: int, z: int, a: int, b: int, c: int)
    requires
        0 <= y < 32,
        0 <= z < 32,
        0 <= b < 32,
        0 <= c < 32,
        sample_index(x, y, z) == sample_index(a, b, c),
    ensures
        x == a && y == b && z == c,
{
}

/// Whether the volume has a surface crossing: two adjacent samples (along X,
/// Y or Z) with different signs. This is what Surface Nets turns into
/// geometry, so `false` means the chunk can be skipped.
pub fn has_surface_crossing(volume: &[SdfSample; SAMPLE_SIZE_CB]) -> (b: bool)
    ensures
        b == surface_crossing(volume@),
{
    let mut idx: usize = 0;
    while idx < 32768
        invariant
            idx <= 32768,
            volume@.len() == 32768,
            forall|x: int, y: int, z: int|
                0 <= y < 32 && 0 <= z < 32 && 0 <= x && sample_index(x, y, z) < idx ==> !#[trigger] crossing_at(
                    volume@,
                    x,
                    y,
                    z,
                ),
        decreases 32768 - idx,
    {
        let x = idx >> 10usize;
        let y = (idx >> 5usize) & 31usize;
        let z = idx & 31usize;
        proof {
            assert(x < 32 && y < 32 && z < 32 && idx == x * 1024 + y * 32 + z) by (bit_vector)
                requires
                    idx < 32768,
                    x == idx >> 10usize,
                    y == (idx >> 5usize) & 31usize,
                    z == idx & 31usize,
            ;
        }
        let here = volume[idx] < 0;
        if x < 31 && here != (volume[idx + 1024] < 0) {
            assert(crossing_at(volume@, x as int, y as int, z as int));
            return true;
        }
        if y < 31 && here != (volume[idx + 32] < 0) {
            assert(crossing_at(volume@, x as int, y as int, z as int));
            return true;
        }
        if z < 31 && here != (volume[idx + 1] < 0) {
            assert(crossing_at(volume@, x as int, y as int, z as int));
            return true;
        }
        proof {
            assert(!crossing_at(volume@, x as int, y as int, z as int));
            assert forall|a: int, b: int, c: int|
                0 <= b < 32 && 0 <= c < 32 && 0 <= a && sample_index(a, b, c) < idx + 1 implies !#[trigger] crossing_at(
                volume@,
                a,
                b,
                c,
            ) by {
                if sample_index(a, b, c) == idx {
                    lemma_index_unique(a, b, c, x as int, y as int, z as int);
                }
            }
        }
        idx = idx + 1;
    }
    proof {
        if surface_crossing(volume@) {
            let (x, y, z) = choose|x: int, y: int, z: int| #[trigger] crossing_at(volume@, x, y, z);
            assert(crossing_at(volume@, x, y, z));
        }
    }
    false
}

/// Whether the volume is entirely on one side of the surface at every pair
/// of adjacent samples (the negation of [`has_surface_crossing`]).
pub fn is_homogeneous(volume: &[SdfSample; SAMPLE_SIZE_CB]) -> (b: bool)
    ensures
        b == !surface_crossing(volume@),
{
    !has_surface_crossing(volume)
}

} // verus!
