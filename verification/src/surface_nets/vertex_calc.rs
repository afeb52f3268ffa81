//! Cube geometry used to place Surface Nets vertices.
use vstd::prelude::*;

use crate::edge_table::EDGE_CORNERS;

verus! {

/// The 12 edges of the unit cube as pairs of corner indices (corner `i` at
/// x = bit 0, y = bit 1, z = bit 2 of `i`), ordered like the edge table's
/// edges.
pub const CUBE_EDGES: [[usize; 2]; 12] = [
    [0, 1],
    [0, 2],
    [0, 4],
    [1, 3],
    [1, 5],
    [2, 3],
    [2, 6],
    [3, 7],
    [4, 5],
    [4, 6],
    [5, 7],
    [6, 7],
];

/// The cube edges are the edge table's edges, in the same order; each joins
/// two different corners that differ in exactly one coordinate bit.
pub proof fn lemma_cube_edges_match_edge_table()
    ensures
        forall|e: int, k: int|
            0 <= e < 12 && 0 <= k < 2 ==> #[trigger] CUBE_EDGES@[e]@[k] == EDGE_CORNERS@[e]@[k] as usize,
        forall|e: int|
            0 <= e < 12 ==> {
                let c0 = #[trigger] CUBE_EDGES@[e]@[0];
                let c1 = CUBE_EDGES@[e]@[1];
                &&& c0 < c1 < 8
                &&& (c1 - c0 == 1 || c1 - c0 == 2 || c1 - c0 == 4)
            },
{
    assert forall|e: int, k: int| 0 <= e < 12 && 0 <= k < 2 implies #[trigger] CUBE_EDGES@[e]@[k]
        == EDGE_CORNERS@[e]@[k] as usize by {
        assert(e == 0 || e == 1 || e == 2 || e == 3 || e == 4 || e == 5 || e == 6 || e == 7 || e == 8 || e == 9
            || e == 10 || e == 11);
        assert(k == 0 || k == 1);
    }
    assert forall|e: int| 0 <= e < 12 implies {
        let c0 = #[trigger] CUBE_EDGES@[e]@[0];
        let c1 = CUBE_EDGES@[e]@[1];
        &&& c0 < c1 < 8
        &&& (c1 - c0 == 1 || c1 - c0 == 2 || c1 - c0 == 4)
    } by {
        assert(e == 0 || e == 1 || e == 2 || e == 3 || e == 4 || e == 5 || e == 6 || e == 7 || e == 8 || e == 9
            || e == 10 || e == 11);
    }
}

} // verus!
