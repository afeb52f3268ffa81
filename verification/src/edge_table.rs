//! Edge crossing table for Surface Nets.
//!
//! Maps an 8-bit corner mask (bit `c` set when corner `c` is solid) to a
//! 12-bit edge mask (bit `e` set when edge `e` has a surface crossing).
//! Corner `c` sits at x = bit 0, y = bit 1, z = bit 2 of `c`.
use vstd::prelude::*;

verus! {

/// The two corners joined by each of the 12 cube edges.
/// X edges: 0, 5, 8, 11; Y edges: 1, 3, 9, 10; Z edges: 2, 4, 6, 7.
pub const EDGE_CORNERS: [[u8; 2]; 12] = [
    [0, 1],
    [0, 2],
    [0, 4],
    [1, 3],
    [1, 5],
    [2, 3],
    [2, 6],
    [3, 7],
    [4, 5],
    [4, 6],
    [5, 7],
    [6, 7],
];

/// Corner `c` is solid in `mask`.
pub open spec fn corner_solid(mask: int, c: int) -> bool {
    (mask as u8 >> c as u8) & 1u8 == 1u8
}

/// Edge `e` has a crossing in `mask`: exactly one of its corners is solid.
pub open spec fn edge_crosses(mask: int, e: int) -> bool {
    corner_solid(mask, EDGE_CORNERS@[e]@[0] as int) != corner_solid(mask, EDGE_CORNERS@[e]@[1] as int)
}

/// Bit `e` of `m` is set.
pub open spec fn bit_set(m: u16, e: int) -> bool {
    (m >> e as u16) & 1u16 == 1u16
}

/// `m` is the edge mask of corner mask `mask`: exactly the crossing edges'
/// bits are set.
pub open spec fn is_edge_mask(m: u16, mask: int) -> bool {
    &&& m < 4096
    &&& forall|e: int| 0 <= e < 12 ==> (#[trigger] bit_set(m, e) <==> edge_crosses(mask, e))
}

proof fn lemma_mask_step(em: u16, e: u16, e2: u16)
    by (bit_vector)
    requires
        e < 12,
        e2 < 16,
        em < (1u16 << e),
    ensures
        e2 < e ==> (((em | (1u16 << e)) >> e2) & 1u16) == ((em >> e2) & 1u16),
        ((em | (1u16 << e)) >> e) & 1u16 == 1u16,
        (em >> e) & 1u16 == 0u16,
        (em | (1u16 << e)) < (1u16 << (e + 1u16)),
        em < (1u16 << (e + 1u16)),
{
}

proof fn lemma_corner_bit(cm: usize, c: usize)
    by (bit_vector)
    requires
        cm < 256,
        c < 8,
    ensures
        (((cm >> c) & 1usize) == 1usize) == ((((cm as u8) >> (c as u8)) & 1u8) == 1u8),
        ((cm >> c) & 1usize) <= 1usize,
{
}

/// Build the edge table: entry `m` has bit `e` set exactly when the two
/// corners of edge `e` differ in solidity under corner mask `m`.
pub fn generate_edge_table() -> (table: [u16; 256])
    ensures
        forall|m: int| 0 <= m < 256 ==> is_edge_mask(#[trigger] table@[m], m),
{
    let mut table = [0u16; 256];
    let mut corner_mask: usize = 0;
    while corner_mask < 256
        invariant
            corner_mask <= 256,
            forall|m: int| 0 <= m < corner_mask ==> is_edge_mask(#[trigger] table@[m], m),
        decreases 256 - corner_mask,
    {
        let mut edge_mask: u16 = 0;
        let mut edge: usize = 0;
        assert(0u16 < (1u16 << 0u16)) by (bit_vector);
        while edge < 12
            invariant
                corner_mask < 256,
                edge <= 12,
                edge_mask < (1u16 << edge as u16),
                forall|e: int| 0 <= e < edge ==> (#[trigger] bit_set(edge_mask, e) <==> edge_crosses(corner_mask as int, e)),
            decreases 12 - edge,
        {
            let c0 = EDGE_CORNERS[edge][0] as usize;
            let c1 = EDGE_CORNERS[edge][1] as usize;
            let solid0 = (corner_mask >> c0) & 1;
            let solid1 = (corner_mask >> c1) & 1;
            let ghost before = edge_mask;
            proof {
                lemma_corner_bit(corner_mask, c0);
                lemma_corner_bit(corner_mask, c1);
                assert((solid0 != solid1) == edge_crosses(corner_mask as int, edge as int));
            }
            if solid0 != solid1 {
                edge_mask = edge_mask | (1u16 << edge as u16);
            }
            proof {
                lemma_mask_step(before, edge as u16, 0);
                assert forall|e: int| 0 <= e < edge + 1 implies (#[trigger] bit_set(edge_mask, e)
                    <==> edge_crosses(corner_mask as int, e)) by {
                    lemma_mask_step(before, edge as u16, e as u16);
                    if e < edge {
                        assert(bit_set(before, e) <==> edge_crosses(corner_mask as int, e));
                    }
                }
            }
            edge = edge + 1;
        }
        let ghost old_table = table@;
        proof {
            assert((1u16 << 12u16) == 4096u16) by (bit_vector);
        }
        table[corner_mask] = edge_mask;
        proof {
            assert forall|m: int| 0 <= m < corner_mask + 1 implies is_edge_mask(#[trigger] table@[m], m) by {
                if m < corner_mask {
                    assert(table@[m] == old_table[m]);
                }
            }
        }
        corner_mask = corner_mask + 1;
    }
    table
}

/// The number of set bits among the low `k` bits of `m`.
pub open spec fn ones(m: u16, k: nat) -> nat
    decreases k,
{
    if k == 0 {
        0
    } else {
        ones(m, (k - 1) as nat) + if bit_set(m, k - 1) {
            1nat
        } else {
            0nat
        }
    }
}

proof fn lemma_mask_from_bits(t: u16, u: u16)
    by (bit_vector)
    requires
        t < 4096,
        u < 4096,
        (t >> 0u16) & 1u16 == (u >> 0u16) & 1u16,
        (t >> 1u16) & 1u16 == (u >> 1u16) & 1u16,
        (t >> 2u16) & 1u16 == (u >> 2u16) & 1u16,
        (t >> 3u16) & 1u16 == (u >> 3u16) & 1u16,
        (t >> 4u16) & 1u16 == (u >> 4u16) & 1u16,
        (t >> 5u16) & 1u16 == (u >> 5u16) & 1u16,
        (t >> 6u16) & 1u16 == (u >> 6u16) & 1u16,
        (t >> 7u16) & 1u16 == (u >> 7u16) & 1u16,
        (t >> 8u16) & 1u16 == (u >> 8u16) & 1u16,
        (t >> 9u16) & 1u16 == (u >> 9u16) & 1u16,
        (t >> 10u16) & 1u16 == (u >> 10u16) & 1u16,
        (t >> 11u16) & 1u16 == (u >> 11u16) & 1u16,
    ensures
        t == u,
{
}

proof fn lemma_bit_is_0_or_1(t: u16, e: u16)
    by (bit_vector)
    ensures
        (t >> e) & 1u16 == 0u16 || (t >> e) & 1u16 == 1u16,
{
}

proof fn lemma_same_bit(t: u16, u: u16, e: int)
    requires
        0 <= e < 12,
        bit_set(t, e) <==> bit_set(u, e),
    ensures
        (t >> e as u16) & 1u16 == (u >> e as u16) & 1u16,
{
    lemma_bit_is_0_or_1(t, e as u16);
    lemma_bit_is_0_or_1(u, e as u16);
}

/// Two masks with the same crossing edges are equal.
proof fn lemma_edge_mask_unique(t: u16, u: u16, m: int, n: int)
    requires
        is_edge_mask(t, m),
        is_edge_mask(u, n),
        forall|e: int| 0 <= e < 12 ==> (edge_crosses(m, e) <==> edge_crosses(n, e)),
    ensures
        t == u,
{
    assert forall|e: int| 0 <= e < 12 implies (#[trigger] bit_set(t, e) <==> bit_set(u, e)) by {
        assert(bit_set(t, e) <==> edge_crosses(m, e));
        assert(bit_set(u, e) <==> edge_crosses(n, e));
    }
    lemma_same_bit(t, u, 0);
    lemma_same_bit(t, u, 1);
    lemma_same_bit(t, u, 2);
    lemma_same_bit(t, u, 3);
    lemma_same_bit(t, u, 4);
    lemma_same_bit(t, u, 5);
    lemma_same_bit(t, u, 6);
    lemma_same_bit(t, u, 7);
    lemma_same_bit(t, u, 8);
    lemma_same_bit(t, u, 9);
    lemma_same_bit(t, u, 10);
    lemma_same_bit(t, u, 11);
    lemma_mask_from_bits(t, u);
}

proof fn lemma_complement_corner(m: u8, c: u8)
    by (bit_vector)
    requires
        c < 8,
    ensures
        (((255u8 - m) as u8 >> c) & 1u8 == 1u8) == !((m >> c) & 1u8 == 1u8),
{
}

/// Every edge joins two different corners of the cube.
pub proof fn lemma_edge_corners_valid()
    ensures
        forall|e: int|
            0 <= e < 12 ==> #[trigger] EDGE_CORNERS@[e]@[0] < 8 && EDGE_CORNERS@[e]@[1] < 8 && EDGE_CORNERS@[e]@[0]
                != EDGE_CORNERS@[e]@[1],
{
    assert forall|e: int| 0 <= e < 12 implies #[trigger] EDGE_CORNERS@[e]@[0] < 8 && EDGE_CORNERS@[e]@[1] < 8
        && EDGE_CORNERS@[e]@[0] != EDGE_CORNERS@[e]@[1] by {
        assert(e == 0 || e == 1 || e == 2 || e == 3 || e == 4 || e == 5 || e == 6 || e == 7 || e == 8 || e == 9
            || e == 10 || e == 11);
    }
}

/// All-air and all-solid cells have no crossing edges.
pub proof fn lemma_edge_mask_homogeneous(t: u16, m: int)
    requires
        m == 0 || m == 255,
        is_edge_mask(t, m),
    ensures
        t == 0,
{
    assert(is_edge_mask(0u16, m)) by {
        assert forall|e: int| 0 <= e < 12 implies (#[trigger] bit_set(0u16, e) <==> edge_crosses(m, e)) by {
            lemma_edge_corners_valid();
            let c0 = EDGE_CORNERS@[e]@[0];
            let c1 = EDGE_CORNERS@[e]@[1];
            let ee = e as u16;
            assert((0u16 >> ee) & 1u16 == 0u16) by (bit_vector);
            assert(((0u8 >> c0) & 1u8 == 1u8) == ((0u8 >> c1) & 1u8 == 1u8)) by (bit_vector);
            assert(((255u8 >> c0) & 1u8 == 1u8) == ((255u8 >> c1) & 1u8 == 1u8)) by (bit_vector)
                requires
                    c0 < 8,
                    c1 < 8,
            ;
        }
    }
    lemma_edge_mask_unique(t, 0u16, m, m);
}

/// Complementary corner masks have the same edge mask: swapping solid and
/// air changes no edge's crossing.
pub proof fn lemma_edge_mask_complement(t: u16, u: u16, m: int)
    requires
        0 <= m < 256,
        is_edge_mask(t, m),
        is_edge_mask(u, 255 - m),
    ensures
        t == u,
{
    assert forall|e: int| 0 <= e < 12 implies (edge_crosses(m, e) <==> edge_crosses(255 - m, e)) by {
        lemma_edge_corners_valid();
        lemma_complement_corner(m as u8, EDGE_CORNERS@[e]@[0]);
        lemma_complement_corner(m as u8, EDGE_CORNERS@[e]@[1]);
        assert((255 - m) as u8 == (255u8 - m as u8) as u8);
    }
    lemma_edge_mask_unique(t, u, m, 255 - m);
}

proof fn lemma_single_bit(c: u8, k: u8)
    by (bit_vector)
    requires
        c < 8,
        k < 8,
    ensures
        (((1u8 << c) >> k) & 1u8 == 1u8) == (c == k),
{
}

/// A cell with a single solid corner has exactly 3 crossing edges: the three
/// edges that meet at that corner.
pub proof fn lemma_edge_mask_single_corner(t: u16, c: u8)
    requires
        c < 8,
        is_edge_mask(t, (1u8 << c) as int),
    ensures
        ones(t, 12) == 3,
        forall|e: int|
            0 <= e < 12 ==> (#[trigger] bit_set(t, e) <==> (EDGE_CORNERS@[e]@[0] == c || EDGE_CORNERS@[e]@[1] == c)),
{
    let mask = (1u8 << c) as int;
    lemma_edge_corners_valid();
    assert forall|e: int| 0 <= e < 12 implies (#[trigger] bit_set(t, e) <==> (EDGE_CORNERS@[e]@[0] == c
        || EDGE_CORNERS@[e]@[1] == c)) by {
        lemma_single_bit(c, EDGE_CORNERS@[e]@[0]);
        lemma_single_bit(c, EDGE_CORNERS@[e]@[1]);
        assert(mask as u8 == (1u8 << c));
        assert(bit_set(t, e) <==> edge_crosses(mask, e));
    }
    reveal_with_fuel(ones, 13);
    assert(bit_set(t, 0) == (c == 0 || c == 1));
    assert(bit_set(t, 1) == (c == 0 || c == 2));
    assert(bit_set(t, 2) == (c == 0 || c == 4));
    assert(bit_set(t, 3) == (c == 1 || c == 3));
    assert(bit_set(t, 4) == (c == 1 || c == 5));
    assert(bit_set(t, 5) == (c == 2 || c == 3));
    assert(bit_set(t, 6) == (c == 2 || c == 6));
    assert(bit_set(t, 7) == (c == 3 || c == 7));
    assert(bit_set(t, 8) == (c == 4 || c == 5));
    assert(bit_set(t, 9) == (c == 4 || c == 6));
    assert(bit_set(t, 10) == (c == 5 || c == 7));
    assert(bit_set(t, 11) == (c == 6 || c == 7));
}

} // verus!
