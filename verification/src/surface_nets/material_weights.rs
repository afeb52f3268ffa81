//! Material votes of a Surface Nets cell.
//!
//! Each solid corner of a cell votes for the weight slot of its material;
//! material IDs above 3 share slot 3. The votes, normalized, are the blend
//! weights of the cell's vertex.
use vstd::prelude::*;

use crate::constants::{CORNER_OFFSETS, SAMPLE_SIZE_CB};
use crate::edge_table::corner_solid;
use crate::types::MaterialId;

verus! {

/// The weight slot of material `m`: IDs above 3 share slot 3.
pub open spec fn material_slot(m: u8) -> int {
    if m < 3 {
        m as int
    } else {
        3
    }
}

/// Corner `c` of the cell whose corner 0 sits at `base` is solid in `mask`
/// and its material falls in `slot`.
pub open spec fn votes_for(materials: Seq<u8>, mask: u8, base: int, c: int, slot: int) -> bool {
    corner_solid(mask as int, c) && material_slot(materials[base + CORNER_OFFSETS@[c] as int]) == slot
}

/// How many of the corners `0..n` vote for `slot`.
pub open spec fn vote_count(materials: Seq<u8>, mask: u8, base: int, slot: int, n: int) -> nat
    decreases n,
{
    if n <= 0 {
        0
    } else {
        vote_count(materials, mask, base, slot, n - 1) + if votes_for(materials, mask, base, n - 1, slot) {
            1nat
        } else {
            0nat
        }
    }
}

proof fn lemma_vote_count_bound(materials: Seq<u8>, mask: u8, base: int, slot: int, n: int)
    ensures
        vote_count(materials, mask, base, slot, n) <= if n < 0 { 0 } else { n },
    decreases n,
{
    if n > 0 {
        lemma_vote_count_bound(materials, mask, base, slot, n - 1);
    }
}

/// The votes per weight slot of the cell whose corner 0 is sample
/// `base_idx`: slot `s` counts the solid corners of `corner_mask` whose
/// material falls in slot `s`.
pub fn material_votes(materials: &[MaterialId; SAMPLE_SIZE_CB], corner_mask: u8, base_idx: usize) -> (v: [u8; 4])
    requires
        base_idx + CORNER_OFFSETS@[7] < SAMPLE_SIZE_CB,
    ensures
        forall|s: int| 0 <= s < 4 ==> v@[s] == vote_count(materials@, corner_mask, base_idx as int, s, 8),
{
    let mut v: [u8; 4] = [0, 0, 0, 0];
    let mut c: u8 = 0;
    while c < 8
        invariant
            c <= 8,
            base_idx + CORNER_OFFSETS@[7] < SAMPLE_SIZE_CB,
            forall|s: int|
                0 <= s < 4 ==> #[trigger] v@[s] == vote_count(materials@, corner_mask, base_idx as int, s, c as int),
        decreases 8 - c,
    {
        let ghost before = v@;
        if (corner_mask >> c) & 1u8 == 1u8 {
            let m = materials[base_idx + CORNER_OFFSETS[c as usize]];
            let slot: usize = if m < 3 {
                m as usize
            } else {
                3
            };
            proof {
                lemma_vote_count_bound(materials@, corner_mask, base_idx as int, slot as int, c as int);
            }
            v[slot] = v[slot] + 1;
        }
        proof {
            assert forall|s: int| 0 <= s < 4 implies #[trigger] v@[s] == vote_count(
                materials@,
                corner_mask,
                base_idx as int,
                s,
                c as int + 1,
            ) by {
                assert(before[s] == vote_count(materials@, corner_mask, base_idx as int, s, c as int));
            }
        }
        c = c + 1;
    }
    v
}

} // verus!
