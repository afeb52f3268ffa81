//! Corner masks: which corners of a 2×2×2 cell are inside the surface.
use vstd::prelude::*;

use crate::edge_table::{corner_solid, edge_crosses, EDGE_CORNERS};

verus! {

pub proof fn lemma_set_bit(m: u8, i: u8, j: u8)
    by (bit_vector)
    requires
        i < 8,
        j < 8,
    ensures
        j != i ==> ((m | (1u8 << i)) >> j) & 1u8 == (m >> j) & 1u8,
        ((m | (1u8 << i)) >> i) & 1u8 == 1u8,
        (0u8 >> j) & 1u8 == 0u8,
{
}

/// Build the corner mask of 8 samples: bit `i` is set exactly when sample `i`
/// is negative (inside the surface). Corner `i` sits at x = bit 0, y = bit 1,
/// z = bit 2 of `i`; zero counts as outside.
pub fn build(samples: [i8; 8]) -> (mask: u8)
    ensures
        forall|i: int| 0 <= i < 8 ==> (#[trigger] corner_solid(mask as int, i) <==> samples@[i] < 0),
{
    let mut mask: u8 = 0;
    let mut i: usize = 0;
    proof {
        assert forall|j: int| 0 <= j < 8 implies !#[trigger] corner_solid(0u8 as int, j) by {
            lemma_set_bit(0u8, 0u8, j as u8);
        }
    }
    while i < 8
        invariant
            i <= 8,
            forall|j: int| 0 <= j < i ==> (#[trigger] corner_solid(mask as int, j) <==> samples@[j] < 0),
            forall|j: int| i <= j < 8 ==> !#[trigger] corner_solid(mask as int, j),
        decreases 8 - i,
    {
        let ghost before = mask;
        if samples[i] < 0 {
            mask = mask | (1u8 << i as u8);
        }
        proof {
            assert forall|j: int| 0 <= j < 8 implies (#[trigger] corner_solid(mask as int, j) <==> if j < i + 1 {
                samples@[j] < 0
            } else {
                false
            }) by {
                lemma_set_bit(before, i as u8, j as u8);
                if j < i {
                    assert(corner_solid(before as int, j) <==> samples@[j] < 0);
                } else if j > i {
                    assert(!corner_solid(before as int, j));
                } else {
                    assert(!corner_solid(before as int, j));
                }
            }
        }
        i = i + 1;
    }
    mask
}

/// With a corner mask built from samples, an edge crosses the surface
/// exactly when its two corner samples lie on different sides.
pub proof fn lemma_mask_crossings(samples: [i8; 8], mask: u8, e: int)
    requires
        0 <= e < 12,
        forall|i: int| 0 <= i < 8 ==> (#[trigger] corner_solid(mask as int, i) <==> samples@[i] < 0),
    ensures
        edge_crosses(mask as int, e) <==> ((samples@[EDGE_CORNERS@[e]@[0] as int] < 0) != (
        samples@[EDGE_CORNERS@[e]@[1] as int] < 0)),
{
    crate::edge_table::lemma_edge_corners_valid();
    assert(corner_solid(mask as int, EDGE_CORNERS@[e]@[0] as int) <==> samples@[EDGE_CORNERS@[e]@[0] as int] < 0);
    assert(corner_solid(mask as int, EDGE_CORNERS@[e]@[1] as int) <==> samples@[EDGE_CORNERS@[e]@[1] as int] < 0);
}

} // verus!
