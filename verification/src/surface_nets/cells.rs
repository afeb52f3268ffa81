//! The cells of a volume that Surface Nets places a vertex in.
//!
//! A 32³ volume has 31³ cells; a cell gets a vertex when its 8 corner
//! samples lie on both sides of the surface. Cells are visited x-major (x,
//! then y, then z), and a cell's place in that order among the crossing
//! cells is its vertex index.
use vstd::prelude::*;

use crate::constants::{sample_index, CORNER_OFFSETS};
use crate::edge_table::corner_solid;

verus! {

/// Corner sample `i` (x = bit 0, y = bit 1, z = bit 2 of `i`) of the cell at
/// `(x, y, z)`.
pub open spec fn cell_sample(vol: Seq<i8>, x: int, y: int, z: int, i: int) -> i8 {
    vol[sample_index(x, y, z) + CORNER_OFFSETS@[i] as int]
}

/// The cell at `(x, y, z)` has a corner inside the surface and one outside.
pub open spec fn cell_crosses(vol: Seq<i8>, x: int, y: int, z: int) -> bool {
    &&& exists|i: int| 0 <= i < 8 && #[trigger] cell_sample(vol, x, y, z, i) < 0
    &&& exists|j: int| 0 <= j < 8 && #[trigger] cell_sample(vol, x, y, z, j) >= 0
}

/// The cell numbered `c` in x-major order over the 31 × 31 × 31 cells.
pub open spec fn cell_of(c: int) -> (int, int, int) {
    (c / 961, (c / 31) % 31, c % 31)
}

/// The crossing cells among the first `n` cells, in x-major order.
pub open spec fn crossing_cells(vol: Seq<i8>, n: int) -> Seq<(int, int, int)>
    decreases n,
{
    if n <= 0 {
        Seq::empty()
    } else {
        let prev = crossing_cells(vol, n - 1);
        let (x, y, z) = cell_of(n - 1);
        if cell_crosses(vol, x, y, z) {
            prev.push((x, y, z))
        } else {
            prev
        }
    }
}

/// `r` lists the crossing cells among the first `n`, each with its corner
/// mask.
pub open spec fn lists_cells(vol: Seq<i8>, r: Seq<(usize, usize, usize, u8)>, n: int) -> bool {
    &&& r.len() == crossing_cells(vol, n).len()
    &&& forall|k: int|
        0 <= k < r.len() ==> {
            let e = #[trigger] r[k];
            &&& (e.0 as int, e.1 as int, e.2 as int) == crossing_cells(vol, n)[k]
            &&& forall|i: int|
                0 <= i < 8 ==> (#[trigger] corner_solid(e.3 as int, i) <==> cell_sample(
                    vol,
                    e.0 as int,
                    e.1 as int,
                    e.2 as int,
                    i,
                ) < 0)
        }
}

pub(crate) proof fn lemma_mask_extremes(m: u8)
    ensures
        m == 0 <==> forall|i: int| 0 <= i < 8 ==> !#[trigger] corner_solid(m as int, i),
        m == 255 <==> forall|i: int| 0 <= i < 8 ==> #[trigger] corner_solid(m as int, i),
{
    assert(m == 0u8 <==> ((m >> 0u8) & 1u8 != 1u8 && (m >> 1u8) & 1u8 != 1u8 && (m >> 2u8) & 1u8 != 1u8 && (m
        >> 3u8) & 1u8 != 1u8 && (m >> 4u8) & 1u8 != 1u8 && (m >> 5u8) & 1u8 != 1u8 && (m >> 6u8) & 1u8 != 1u8 && (m
        >> 7u8) & 1u8 != 1u8)) by (bit_vector);
    assert(m == 255u8 <==> ((m >> 0u8) & 1u8 == 1u8 && (m >> 1u8) & 1u8 == 1u8 && (m >> 2u8) & 1u8 == 1u8 && (m
        >> 3u8) & 1u8 == 1u8 && (m >> 4u8) & 1u8 == 1u8 && (m >> 5u8) & 1u8 == 1u8 && (m >> 6u8) & 1u8 == 1u8 && (m
        >> 7u8) & 1u8 == 1u8)) by (bit_vector);
    assert(corner_solid(m as int, 0) == ((m >> 0u8) & 1u8 == 1u8));
    assert(corner_solid(m as int, 1) == ((m >> 1u8) & 1u8 == 1u8));
    assert(corner_solid(m as int, 2) == ((m >> 2u8) & 1u8 == 1u8));
    assert(corner_solid(m as int, 3) == ((m >> 3u8) & 1u8 == 1u8));
    assert(corner_solid(m as int, 4) == ((m >> 4u8) & 1u8 == 1u8));
    assert(corner_solid(m as int, 5) == ((m >> 5u8) & 1u8 == 1u8));
    assert(corner_solid(m as int, 6) == ((m >> 6u8) & 1u8 == 1u8));
    assert(corner_solid(m as int, 7) == ((m >> 7u8) & 1u8 == 1u8));
    if forall|i: int| 0 <= i < 8 ==> !#[trigger] corner_solid(m as int, i) {
        assert(!corner_solid(m as int, 0) && !corner_solid(m as int, 1) && !corner_solid(m as int, 2)
            && !corner_solid(m as int, 3) && !corner_solid(m as int, 4) && !corner_solid(m as int, 5)
            && !corner_solid(m as int, 6) && !corner_solid(m as int, 7));
    }
    if forall|i: int| 0 <= i < 8 ==> #[trigger] corner_solid(m as int, i) {
        assert(corner_solid(m as int, 0) && corner_solid(m as int, 1) && corner_solid(m as int, 2) && corner_solid(
            m as int,
            3,
        ) && corner_solid(m as int, 4) && corner_solid(m as int, 5) && corner_solid(m as int, 6) && corner_solid(
            m as int,
            7,
        ));
    }
    assert forall|i: int| 0 <= i < 8 && m == 0 implies !#[trigger] corner_solid(m as int, i) by {
        assert(i == 0 || i == 1 || i == 2 || i == 3 || i == 4 || i == 5 || i == 6 || i == 7);
    }
    assert forall|i: int| 0 <= i < 8 && m == 255 implies #[trigger] corner_solid(m as int, i) by {
        assert(i == 0 || i == 1 || i == 2 || i == 3 || i == 4 || i == 5 || i == 6 || i == 7);
    }
}

pub(crate) proof fn lemma_cell_number(x: int, y: int, z: int)
    requires
        0 <= x < 31,
        0 <= y < 31,
        0 <= z < 31,
    ensures
        cell_of(x * 961 + y * 31 + z) == (x, y, z),
{
    let c = x * 961 + y * 31 + z;
    vstd::arithmetic::div_mod::lemma_fundamental_div_mod_converse(c, 961, x, y * 31 + z);
    vstd::arithmetic::div_mod::lemma_fundamental_div_mod_converse(c, 31, x * 31 + y, z);
    vstd::arithmetic::div_mod::lemma_fundamental_div_mod_converse(x * 31 + y, 31, x, y);
}

/// One more cell: the list grows by the cell exactly when it crosses.
pub(crate) proof fn lemma_cells_step(
    vol: Seq<i8>,
    r: Seq<(usize, usize, usize, u8)>,
    x: usize,
    y: usize,
    z: usize,
    mask: u8,
)
    requires
        x < 31,
        y < 31,
        z < 31,
        lists_cells(vol, r, x * 961 + y * 31 + z),
        forall|i: int| 0 <= i < 8 ==> (#[trigger] corner_solid(mask as int, i) <==> cell_sample(
            vol,
            x as int,
            y as int,
            z as int,
            i,
        ) < 0),
    ensures
        lists_cells(
            vol,
            if mask != 0 && mask != 255 {
                r.push((x, y, z, mask))
            } else {
                r
            },
            x * 961 + y * 31 + z + 1,
        ),
{
    let c = x * 961 + y * 31 + z;
    lemma_cell_number(x as int, y as int, z as int);
    lemma_mask_extremes(mask);
    let crosses = cell_crosses(vol, x as int, y as int, z as int);
    if mask != 0 && mask != 255 {
        let i = choose|i: int| 0 <= i < 8 && corner_solid(mask as int, i);
        let j = choose|j: int| 0 <= j < 8 && !corner_solid(mask as int, j);
        assert(cell_sample(vol, x as int, y as int, z as int, i) < 0);
        assert(cell_sample(vol, x as int, y as int, z as int, j) >= 0);
        assert(crosses);
        let r2 = r.push((x, y, z, mask));
        assert forall|k: int| 0 <= k < r2.len() implies {
            let e = #[trigger] r2[k];
            &&& (e.0 as int, e.1 as int, e.2 as int) == crossing_cells(vol, c + 1)[k]
            &&& forall|i: int|
                0 <= i < 8 ==> (#[trigger] corner_solid(e.3 as int, i) <==> cell_sample(
                    vol,
                    e.0 as int,
                    e.1 as int,
                    e.2 as int,
                    i,
                ) < 0)
        } by {
            if k < r.len() {
                assert(r2[k] == r[k]);
            }
        }
    } else {
        if crosses {
            let i = choose|i: int| 0 <= i < 8 && #[trigger] cell_sample(vol, x as int, y as int, z as int, i) < 0;
            let j = choose|j: int| 0 <= j < 8 && #[trigger] cell_sample(vol, x as int, y as int, z as int, j) >= 0;
            assert(corner_solid(mask as int, i));
            assert(!corner_solid(mask as int, j));
        }
    }
}

} // verus!
