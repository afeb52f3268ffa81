//! The integer skeleton of a Surface Nets mesh: which cells get a vertex, the
//! vertex index of each, and the quads that join them.
//!
//! Each crossing cell gets a vertex, numbered in x-major order. Each of its
//! three axis edges that crosses the surface, away from the low boundary of
//! the other two axes, yields a quad joining the vertices of the four cells
//! that share that edge. Only the diagonal along which a quad is split
//! depends on vertex positions and is left to the caller.
use vstd::prelude::*;

use super::cells::{
    cell_crosses, cell_of, cell_sample, crossing_cells, lemma_cell_number, lemma_cells_step, lemma_mask_extremes,
    lists_cells,
};
use super::corner_mask;
use super::topology::{quad_of, quad_vertices, slot, step_back, lemma_slots_distinct, IndexBuffer, INDEX_BUFFER_SIZE};
use crate::constants::{coord_to_index, sample_index, CORNER_OFFSETS, SAMPLE_SIZE_CB};
use crate::edge_table::{bit_set, corner_solid, edge_crosses, generate_edge_table, is_edge_mask};
use crate::noise::{crossing_at, surface_crossing};
use crate::types::SdfSample;

verus! {

/// The number of cell `(x, y, z)` in x-major order.
pub open spec fn cell_number(x: int, y: int, z: int) -> int {
    x * 961 + y * 31 + z
}

/// The vertex index of cell `(x, y, z)`: how many crossing cells come before it.
pub open spec fn vertex_index(vol: Seq<i8>, x: int, y: int, z: int) -> int {
    crossing_cells(vol, cell_number(x, y, z)).len() as int
}

/// The sample at grid point `(x, y, z)`.
pub open spec fn sample_at(vol: Seq<i8>, x: int, y: int, z: int) -> i8 {
    vol[sample_index(x, y, z)]
}

/// The edge of cell `(x, y, z)` along `axis` (0 = X, 1 = Y, 2 = Z) joins
/// samples on both sides of the surface.
pub open spec fn axis_edge_crosses(vol: Seq<i8>, x: int, y: int, z: int, axis: int) -> bool {
    let s = sample_at(vol, x, y, z);
    let t = if axis == 0 {
        sample_at(vol, x + 1, y, z)
    } else if axis == 1 {
        sample_at(vol, x, y + 1, z)
    } else {
        sample_at(vol, x, y, z + 1)
    };
    (s < 0) != (t < 0)
}

/// The three other cells around the edge of cell `(x, y, z)` along `axis`:
/// the one behind in both other axes, then behind in the first, then in the
/// second (the other axes of X are Y, Z; of Y are Z, X; of Z are X, Y).
pub open spec fn quad_cells(x: int, y: int, z: int, axis: int) -> ((int, int, int), (int, int, int), (int, int, int)) {
    if axis == 0 {
        ((x, y - 1, z - 1), (x, y - 1, z), (x, y, z - 1))
    } else if axis == 1 {
        ((x - 1, y, z - 1), (x, y, z - 1), (x - 1, y, z))
    } else {
        ((x - 1, y - 1, z), (x - 1, y, z), (x, y - 1, z))
    }
}

/// Cell `(x, y, z)` has a quad along `axis`: the edge crosses and the cell
/// is off the low boundary of both other axes.
pub open spec fn has_quad(vol: Seq<i8>, x: int, y: int, z: int, axis: int) -> bool {
    &&& axis_edge_crosses(vol, x, y, z, axis)
    &&& if axis == 0 {
        y > 0 && z > 0
    } else if axis == 1 {
        z > 0 && x > 0
    } else {
        x > 0 && y > 0
    }
}

/// The quad of cell `(x, y, z)` along `axis`: the vertex indices of the cell
/// and of the three cells of [`quad_cells`], and whether its winding is
/// flipped (the cell's corner 0 lies outside the surface).
pub open spec fn quad_at(vol: Seq<i8>, x: int, y: int, z: int, axis: int) -> (int, int, int, int, bool) {
    let (b, c, d) = quad_cells(x, y, z, axis);
    (
        vertex_index(vol, x, y, z),
        vertex_index(vol, b.0, b.1, b.2),
        vertex_index(vol, c.0, c.1, c.2),
        vertex_index(vol, d.0, d.1, d.2),
        sample_at(vol, x, y, z) >= 0,
    )
}

/// The quads of cell `(x, y, z)` along the axes `0..k`, in axis order.
pub open spec fn cell_quads(vol: Seq<i8>, x: int, y: int, z: int, k: int) -> Seq<(int, int, int, int, bool)>
    decreases k,
{
    if k <= 0 {
        Seq::empty()
    } else {
        let prev = cell_quads(vol, x, y, z, k - 1);
        if has_quad(vol, x, y, z, k - 1) {
            prev.push(quad_at(vol, x, y, z, k - 1))
        } else {
            prev
        }
    }
}

/// The quads of the first `n` cells, cell by cell in x-major order.
pub open spec fn quads_upto(vol: Seq<i8>, n: int) -> Seq<(int, int, int, int, bool)>
    decreases n,
{
    if n <= 0 {
        Seq::empty()
    } else {
        let (x, y, z) = cell_of(n - 1);
        quads_upto(vol, n - 1) + cell_quads(vol, x, y, z, 3)
    }
}

/// `q` holds the quads `s`, one for one.
pub open spec fn same_quads(q: Seq<(i32, i32, i32, i32, bool)>, s: Seq<(int, int, int, int, bool)>) -> bool {
    &&& q.len() == s.len()
    &&& forall|i: int|
        0 <= i < q.len() ==> {
            let e = #[trigger] q[i];
            (e.0 as int, e.1 as int, e.2 as int, e.3 as int, e.4) == s[i]
        }
}


proof fn lemma_crossing_len(vol: Seq<i8>, n: int)
    ensures
        crossing_cells(vol, n).len() <= if n < 0 { 0 } else { n },
    decreases n,
{
    if n > 0 {
        lemma_crossing_len(vol, n - 1);
    }
}

/// The corner samples of a cell, read through the corner offsets, are the
/// grid samples at the cell's corners.
proof fn lemma_cell_sample_at(vol: Seq<i8>, x: int, y: int, z: int)
    ensures
        cell_sample(vol, x, y, z, 0) == sample_at(vol, x, y, z),
        cell_sample(vol, x, y, z, 1) == sample_at(vol, x + 1, y, z),
        cell_sample(vol, x, y, z, 2) == sample_at(vol, x, y + 1, z),
        cell_sample(vol, x, y, z, 3) == sample_at(vol, x + 1, y + 1, z),
        cell_sample(vol, x, y, z, 4) == sample_at(vol, x, y, z + 1),
        cell_sample(vol, x, y, z, 5) == sample_at(vol, x + 1, y, z + 1),
        cell_sample(vol, x, y, z, 6) == sample_at(vol, x, y + 1, z + 1),
        cell_sample(vol, x, y, z, 7) == sample_at(vol, x + 1, y + 1, z + 1),
{
}

/// A cell with a corner on each side of the surface crosses it.
proof fn lemma_crosses_of(vol: Seq<i8>, x: int, y: int, z: int, i: int, j: int)
    requires
        0 <= i < 8,
        0 <= j < 8,
        (cell_sample(vol, x, y, z, i) < 0) != (cell_sample(vol, x, y, z, j) < 0),
    ensures
        cell_crosses(vol, x, y, z),
{
    if cell_sample(vol, x, y, z, i) < 0 {
        assert(cell_sample(vol, x, y, z, j) >= 0);
    } else {
        assert(cell_sample(vol, x, y, z, j) < 0);
    }
}

/// The four cells around a crossing edge all cross the surface; the three
/// others come earlier in x-major order, in the same or the previous x slice.
proof fn lemma_quad_cells_cross(vol: Seq<i8>, x: int, y: int, z: int, axis: int)
    requires
        0 <= x < 31,
        0 <= y < 31,
        0 <= z < 31,
        0 <= axis < 3,
        has_quad(vol, x, y, z, axis),
    ensures
        cell_crosses(vol, x, y, z),
        ({
            let (b, c, d) = quad_cells(x, y, z, axis);
            &&& 0 <= b.0 < 31 && 0 <= b.1 < 31 && 0 <= b.2 < 31
            &&& 0 <= c.0 < 31 && 0 <= c.1 < 31 && 0 <= c.2 < 31
            &&& 0 <= d.0 < 31 && 0 <= d.1 < 31 && 0 <= d.2 < 31
            &&& b.0 + 1 >= x && c.0 + 1 >= x && d.0 + 1 >= x
            &&& cell_number(b.0, b.1, b.2) < cell_number(x, y, z)
            &&& cell_number(c.0, c.1, c.2) < cell_number(x, y, z)
            &&& cell_number(d.0, d.1, d.2) < cell_number(x, y, z)
            &&& cell_crosses(vol, b.0, b.1, b.2)
            &&& cell_crosses(vol, c.0, c.1, c.2)
            &&& cell_crosses(vol, d.0, d.1, d.2)
        }),
{
    lemma_cell_sample_at(vol, x, y, z);
    if axis == 0 {
        lemma_crosses_of(vol, x, y, z, 0, 1);
        lemma_cell_sample_at(vol, x, y - 1, z - 1);
        lemma_crosses_of(vol, x, y - 1, z - 1, 6, 7);
        lemma_cell_sample_at(vol, x, y - 1, z);
        lemma_crosses_of(vol, x, y - 1, z, 2, 3);
        lemma_cell_sample_at(vol, x, y, z - 1);
        lemma_crosses_of(vol, x, y, z - 1, 4, 5);
    } else if axis == 1 {
        lemma_crosses_of(vol, x, y, z, 0, 2);
        lemma_cell_sample_at(vol, x - 1, y, z - 1);
        lemma_crosses_of(vol, x - 1, y, z - 1, 5, 7);
        lemma_cell_sample_at(vol, x, y, z - 1);
        lemma_crosses_of(vol, x, y, z - 1, 4, 6);
        lemma_cell_sample_at(vol, x - 1, y, z);
        lemma_crosses_of(vol, x - 1, y, z, 1, 3);
    } else {
        lemma_crosses_of(vol, x, y, z, 0, 4);
        lemma_cell_sample_at(vol, x - 1, y - 1, z);
        lemma_crosses_of(vol, x - 1, y - 1, z, 3, 7);
        lemma_cell_sample_at(vol, x - 1, y, z);
        lemma_crosses_of(vol, x - 1, y, z, 1, 5);
        lemma_cell_sample_at(vol, x, y - 1, z);
        lemma_crosses_of(vol, x, y - 1, z, 2, 6);
    }
}

/// The buffer holds the vertex index of every crossing cell numbered below
/// `n` in the slices from `xlo` on.
pub open spec fn buffer_tracks(buf: IndexBuffer, vol: Seq<i8>, n: int, xlo: int) -> bool {
    forall|a: int, b: int, c: int|
        0 <= a < 31 && 0 <= b < 31 && 0 <= c < 31 && cell_number(a, b, c) < n && a >= xlo && cell_crosses(
            vol,
            a,
            b,
            c,
        ) ==> #[trigger] buf.lookup(a, b, c) == vertex_index(vol, a, b, c)
}

/// The quad that [`quad_vertices`] finds once the cell's own vertex is set:
/// exactly [`quad_at`] when the cell has a quad along `axis`, none otherwise.
proof fn lemma_quad_lookup(buf: IndexBuffer, vol: Seq<i8>, x: int, y: int, z: int, axis: int, em: u16)
    requires
        0 <= x < 31,
        0 <= y < 31,
        0 <= z < 31,
        0 <= axis < 3,
        buffer_tracks(buf, vol, cell_number(x, y, z) + 1, x - 1),
        bit_set(em, axis) == axis_edge_crosses(vol, x, y, z, axis),
        cell_number(x, y, z) < 29791,
    ensures
        ({
            let q = quad_of(buf, seq![x, y, z], axis, em);
            let t = quad_at(vol, x, y, z, axis);
            if has_quad(vol, x, y, z, axis) {
                q == Some((t.0 as i32, t.1 as i32, t.2 as i32, t.3 as i32)) && t.0 == t.0 as i32 && t.1 == t.1 as i32
                    && t.2 == t.2 as i32 && t.3 == t.3 as i32
            } else {
                q is None
            }
        }),
{
    let p = seq![x, y, z];
    if has_quad(vol, x, y, z, axis) {
        lemma_quad_cells_cross(vol, x, y, z, axis);
        let (b, c, d) = quad_cells(x, y, z, axis);
        lemma_crossing_len(vol, cell_number(x, y, z));
        lemma_crossing_len(vol, cell_number(b.0, b.1, b.2));
        lemma_crossing_len(vol, cell_number(c.0, c.1, c.2));
        lemma_crossing_len(vol, cell_number(d.0, d.1, d.2));
        assert(buf.lookup(x, y, z) == vertex_index(vol, x, y, z));
        assert(buf.lookup(b.0, b.1, b.2) == vertex_index(vol, b.0, b.1, b.2));
        assert(buf.lookup(c.0, c.1, c.2) == vertex_index(vol, c.0, c.1, c.2));
        assert(buf.lookup(d.0, d.1, d.2) == vertex_index(vol, d.0, d.1, d.2));
        if axis == 0 {
            assert(step_back(p, 1, 2, true, true) =~= seq![x, y - 1, z - 1]);
            assert(step_back(p, 1, 2, true, false) =~= seq![x, y - 1, z]);
            assert(step_back(p, 1, 2, false, true) =~= seq![x, y, z - 1]);
        } else if axis == 1 {
            assert(step_back(p, 2, 0, true, true) =~= seq![x - 1, y, z - 1]);
            assert(step_back(p, 2, 0, true, false) =~= seq![x, y, z - 1]);
            assert(step_back(p, 2, 0, false, true) =~= seq![x - 1, y, z]);
        } else {
            assert(step_back(p, 0, 1, true, true) =~= seq![x - 1, y - 1, z]);
            assert(step_back(p, 0, 1, true, false) =~= seq![x - 1, y, z]);
            assert(step_back(p, 0, 1, false, true) =~= seq![x, y - 1, z]);
        }
    } else {
        if bit_set(em, axis) {
            assert(axis == 0 ==> p[1] == 0 || p[2] == 0);
            assert(axis == 1 ==> p[2] == 0 || p[0] == 0);
            assert(axis == 2 ==> p[0] == 0 || p[1] == 0);
        }
    }
}

/// With the corner mask of a cell, an axis edge's bit in the edge mask says
/// whether that edge crosses, and bit 0 whether corner 0 is inside.
proof fn lemma_axis_bits(vol: Seq<i8>, x: int, y: int, z: int, mask: u8, em: u16, axis: int)
    requires
        0 <= axis < 3,
        forall|i: int| 0 <= i < 8 ==> (#[trigger] corner_solid(mask as int, i) <==> cell_sample(vol, x, y, z, i) < 0),
        is_edge_mask(em, mask as int),
    ensures
        bit_set(em, axis) == axis_edge_crosses(vol, x, y, z, axis),
        !corner_solid(mask as int, 0) == (sample_at(vol, x, y, z) >= 0),
{
    lemma_cell_sample_at(vol, x, y, z);
    assert(corner_solid(mask as int, 0) == (cell_sample(vol, x, y, z, 0) < 0));
    assert(corner_solid(mask as int, 1) == (cell_sample(vol, x, y, z, 1) < 0));
    assert(corner_solid(mask as int, 2) == (cell_sample(vol, x, y, z, 2) < 0));
    assert(corner_solid(mask as int, 4) == (cell_sample(vol, x, y, z, 4) < 0));
    assert(bit_set(em, axis) == edge_crosses(mask as int, axis));
}

proof fn lemma_mask_crosses(vol: Seq<i8>, x: int, y: int, z: int, mask: u8)
    requires
        forall|i: int| 0 <= i < 8 ==> (#[trigger] corner_solid(mask as int, i) <==> cell_sample(vol, x, y, z, i) < 0),
    ensures
        (mask != 0 && mask != 255) == cell_crosses(vol, x, y, z),
{
    lemma_mask_extremes(mask);
    if mask != 0 && mask != 255 {
        let i = choose|i: int| 0 <= i < 8 && corner_solid(mask as int, i);
        let j = choose|j: int| 0 <= j < 8 && !corner_solid(mask as int, j);
        assert(cell_sample(vol, x, y, z, i) < 0);
        assert(cell_sample(vol, x, y, z, j) >= 0);
    } else if cell_crosses(vol, x, y, z) {
        let i = choose|i: int| 0 <= i < 8 && #[trigger] cell_sample(vol, x, y, z, i) < 0;
        let j = choose|j: int| 0 <= j < 8 && #[trigger] cell_sample(vol, x, y, z, j) >= 0;
        assert(corner_solid(mask as int, i));
        assert(!corner_solid(mask as int, j));
    }
}

proof fn lemma_number_unique(a: int, b: int, c: int, x: int, y: int, z: int)
    requires
        0 <= a < 31 && 0 <= b < 31 && 0 <= c < 31,
        0 <= x < 31 && 0 <= y < 31 && 0 <= z < 31,
        cell_number(a, b, c) == cell_number(x, y, z),
    ensures
        a == x && b == y && c == z,
{
    lemma_cell_number(a, b, c);
    lemma_cell_number(x, y, z);
}

/// A cell that does not cross has no quad.
proof fn lemma_no_quads(vol: Seq<i8>, x: int, y: int, z: int)
    requires
        0 <= x < 31 && 0 <= y < 31 && 0 <= z < 31,
        !cell_crosses(vol, x, y, z),
    ensures
        cell_quads(vol, x, y, z, 3) == Seq::<(int, int, int, int, bool)>::empty(),
{
    if has_quad(vol, x, y, z, 0) {
        lemma_quad_cells_cross(vol, x, y, z, 0);
    }
    if has_quad(vol, x, y, z, 1) {
        lemma_quad_cells_cross(vol, x, y, z, 1);
    }
    if has_quad(vol, x, y, z, 2) {
        lemma_quad_cells_cross(vol, x, y, z, 2);
    }
    assert(cell_quads(vol, x, y, z, 0) =~= Seq::<(int, int, int, int, bool)>::empty());
    assert(cell_quads(vol, x, y, z, 1) =~= Seq::<(int, int, int, int, bool)>::empty());
    assert(cell_quads(vol, x, y, z, 2) =~= Seq::<(int, int, int, int, bool)>::empty());
}

/// Recording a crossing cell's vertex index keeps the buffer tracking the
/// cells of this slice and the previous one, now including the cell.
proof fn lemma_set_keeps_tracking(
    old_buf: IndexBuffer,
    buf: IndexBuffer,
    vol: Seq<i8>,
    x: int,
    y: int,
    z: int,
    v: i32,
)
    requires
        0 <= x < 31 && 0 <= y < 31 && 0 <= z < 31,
        old_buf@.len() == INDEX_BUFFER_SIZE,
        buffer_tracks(old_buf, vol, cell_number(x, y, z), x - 1),
        slot(x, y, z) < old_buf@.len() ==> buf@ == old_buf@.update(slot(x, y, z), v),
        slot(x, y, z) >= old_buf@.len() ==> buf@ == old_buf@,
        v == vertex_index(vol, x, y, z),
    ensures
        buf@.len() == INDEX_BUFFER_SIZE,
        buffer_tracks(buf, vol, cell_number(x, y, z) + 1, x - 1),
{
    assert(0 <= slot(x, y, z) < INDEX_BUFFER_SIZE);
    assert forall|a: int, b: int, c: int|
        0 <= a < 31 && 0 <= b < 31 && 0 <= c < 31 && cell_number(a, b, c) < cell_number(x, y, z) + 1 && a >= x - 1
            && cell_crosses(vol, a, b, c) implies #[trigger] buf.lookup(a, b, c) == vertex_index(vol, a, b, c) by {
        if cell_number(a, b, c) == cell_number(x, y, z) {
            lemma_number_unique(a, b, c, x, y, z);
        } else {
            assert(a <= x);
            if (a, b, c) == (x, y, z) {
                assert(false);
            }
            lemma_slots_distinct(x, y, z, a, b, c);
            assert(old_buf.lookup(a, b, c) == vertex_index(vol, a, b, c));
        }
    }
}

/// Cell number `c` crosses the surface.
pub open spec fn number_crosses(vol: Seq<i8>, c: int) -> bool {
    let (x, y, z) = cell_of(c);
    cell_crosses(vol, x, y, z)
}

proof fn lemma_cells_nonempty(vol: Seq<i8>, n: int)
    ensures
        crossing_cells(vol, n).len() > 0 <==> exists|c: int| 0 <= c < n && #[trigger] number_crosses(vol, c),
    decreases n,
{
    if n > 0 {
        lemma_cells_nonempty(vol, n - 1);
        if !number_crosses(vol, n - 1) {
            if exists|c: int| 0 <= c < n && #[trigger] number_crosses(vol, c) {
                let c = choose|c: int| 0 <= c < n && #[trigger] number_crosses(vol, c);
                assert(c < n - 1);
            }
        }
    }
}

/// The surface crosses along an edge of cell `(x, y, z)` exactly when the
/// cell crosses: some adjacent sample pair of the cell differs in sign.
proof fn lemma_cell_crossing_edge(vol: Seq<i8>, x: int, y: int, z: int)
    requires
        0 <= x < 31 && 0 <= y < 31 && 0 <= z < 31,
        cell_crosses(vol, x, y, z),
    ensures
        surface_crossing(vol),
{
    lemma_cell_sample_at(vol, x, y, z);
    let i = choose|i: int| 0 <= i < 8 && #[trigger] cell_sample(vol, x, y, z, i) < 0;
    let j = choose|j: int| 0 <= j < 8 && #[trigger] cell_sample(vol, x, y, z, j) >= 0;
    let n0 = sample_at(vol, x, y, z) < 0;
    let n1 = sample_at(vol, x + 1, y, z) < 0;
    let n2 = sample_at(vol, x, y + 1, z) < 0;
    let n3 = sample_at(vol, x + 1, y + 1, z) < 0;
    let n4 = sample_at(vol, x, y, z + 1) < 0;
    let n5 = sample_at(vol, x + 1, y, z + 1) < 0;
    let n6 = sample_at(vol, x, y + 1, z + 1) < 0;
    let n7 = sample_at(vol, x + 1, y + 1, z + 1) < 0;
    if n0 != n1 || n0 != n2 || n0 != n4 {
        assert(crossing_at(vol, x, y, z));
    } else if n1 != n3 || n1 != n5 {
        assert(crossing_at(vol, x + 1, y, z));
    } else if n2 != n3 || n2 != n6 {
        assert(crossing_at(vol, x, y + 1, z));
    } else if n4 != n5 || n4 != n6 {
        assert(crossing_at(vol, x, y, z + 1));
    } else if n3 != n7 {
        assert(crossing_at(vol, x + 1, y + 1, z));
    } else if n5 != n7 {
        assert(crossing_at(vol, x + 1, y, z + 1));
    } else if n6 != n7 {
        assert(crossing_at(vol, x, y + 1, z + 1));
    } else {
        assert(i == 0 || i == 1 || i == 2 || i == 3 || i == 4 || i == 5 || i == 6 || i == 7);
        assert(j == 0 || j == 1 || j == 2 || j == 3 || j == 4 || j == 5 || j == 6 || j == 7);
    }
}

/// An adjacent sample pair that differs in sign lies on an edge of a cell,
/// which then crosses.
proof fn lemma_crossing_cell(vol: Seq<i8>, x: int, y: int, z: int)
    requires
        crossing_at(vol, x, y, z),
    ensures
        exists|c: int| 0 <= c < 29791 && #[trigger] number_crosses(vol, c),
{
    let cx = if x == 31 { 30 } else { x };
    let cy = if y == 31 { 30 } else { y };
    let cz = if z == 31 { 30 } else { z };
    lemma_cell_sample_at(vol, cx, cy, cz);
    let n0 = sample_at(vol, x, y, z) < 0;
    // the sample (x, y, z) is corner k of the cell (cx, cy, cz)
    let k = (x - cx) + 2 * (y - cy) + 4 * (z - cz);
    assert(cell_sample(vol, cx, cy, cz, k) == sample_at(vol, x, y, z));
    if x < 31 && (n0 != (sample_at(vol, x + 1, y, z) < 0)) {
        assert(cell_sample(vol, cx, cy, cz, k + 1) == sample_at(vol, x + 1, y, z));
        lemma_crosses_of(vol, cx, cy, cz, k, k + 1);
    } else if y < 31 && (n0 != (sample_at(vol, x, y + 1, z) < 0)) {
        assert(cell_sample(vol, cx, cy, cz, k + 2) == sample_at(vol, x, y + 1, z));
        lemma_crosses_of(vol, cx, cy, cz, k, k + 2);
    } else {
        assert(cell_sample(vol, cx, cy, cz, k + 4) == sample_at(vol, x, y, z + 1));
        lemma_crosses_of(vol, cx, cy, cz, k, k + 4);
    }
    lemma_cell_number(cx, cy, cz);
    assert(number_crosses(vol, cx * 961 + cy * 31 + cz));
}

/// A volume has a surface crossing exactly when meshing it yields at least
/// one vertex: [`has_surface_crossing`](crate::noise::has_surface_crossing)
/// says whether [`mesh_topology`] lists any cell.
pub proof fn lemma_surface_crossing_iff_cells(vol: Seq<i8>)
    ensures
        surface_crossing(vol) <==> crossing_cells(vol, 29791).len() > 0,
{
    lemma_cells_nonempty(vol, 29791);
    if surface_crossing(vol) {
        let (x, y, z) = choose|x: int, y: int, z: int| #[trigger] crossing_at(vol, x, y, z);
        lemma_crossing_cell(vol, x, y, z);
    }
    if crossing_cells(vol, 29791).len() > 0 {
        let c = choose|c: int| 0 <= c < 29791 && #[trigger] number_crosses(vol, c);
        let (x, y, z) = cell_of(c);
        assert(0 <= x < 31 && 0 <= y < 31 && 0 <= z < 31) by (nonlinear_arith)
            requires
                0 <= c < 29791,
                x == c / 961,
                y == (c / 31) % 31,
                z == c % 31,
        ;
        lemma_cell_crossing_edge(vol, x, y, z);
    }
}

/// The skeleton of the Surface Nets mesh of `volume`: the crossing cells in
/// x-major order with their corner masks (a cell's place in this list is its
/// vertex index), and the quads in emission order, cell by cell and axis by
/// axis (see [`quads_upto`]), each with the vertex indices of its four cells
/// and whether its winding is flipped.
pub fn mesh_topology(volume: &[SdfSample; SAMPLE_SIZE_CB]) -> (r: (
    Vec<(usize, usize, usize, u8)>,
    Vec<(i32, i32, i32, i32, bool)>,
))
    ensures
        lists_cells(volume@, r.0@, 29791),
        same_quads(r.1@, quads_upto(volume@, 29791)),
{
    let table = generate_edge_table();
    let mut buf = IndexBuffer::new();
    let mut cells: Vec<(usize, usize, usize, u8)> = Vec::new();
    let mut quads: Vec<(i32, i32, i32, i32, bool)> = Vec::new();
    proof {
        assert(quads_upto(volume@, 0) =~= Seq::<(int, int, int, int, bool)>::empty());
    }
    let mut x: usize = 0;
    while x < 31
        invariant
            x <= 31,
            forall|m: int| 0 <= m < 256 ==> is_edge_mask(#[trigger] table@[m], m),
            buf@.len() == INDEX_BUFFER_SIZE,
            lists_cells(volume@, cells@, x * 961),
            same_quads(quads@, quads_upto(volume@, x * 961)),
            buffer_tracks(buf, volume@, x * 961, x - 1),
        decreases 31 - x,
    {
        let mut y: usize = 0;
        while y < 31
            invariant
                x < 31,
                y <= 31,
                forall|m: int| 0 <= m < 256 ==> is_edge_mask(#[trigger] table@[m], m),
                buf@.len() == INDEX_BUFFER_SIZE,
                lists_cells(volume@, cells@, x * 961 + y * 31),
                same_quads(quads@, quads_upto(volume@, x * 961 + y * 31)),
                buffer_tracks(buf, volume@, x * 961 + y * 31, x - 1),
            decreases 31 - y,
        {
            let mut z: usize = 0;
            while z < 31
                invariant
                    x < 31,
                    y < 31,
                    z <= 31,
                    forall|m: int| 0 <= m < 256 ==> is_edge_mask(#[trigger] table@[m], m),
                    buf@.len() == INDEX_BUFFER_SIZE,
                    lists_cells(volume@, cells@, x * 961 + y * 31 + z),
                    same_quads(quads@, quads_upto(volume@, x * 961 + y * 31 + z)),
                    buffer_tracks(buf, volume@, x * 961 + y * 31 + z, x - 1),
                decreases 31 - z,
            {
                let ghost n = x * 961 + y * 31 + z;
                let base = coord_to_index(x, y, z);
                let raw: [i8; 8] = [
                    volume[base + CORNER_OFFSETS[0]],
                    volume[base + CORNER_OFFSETS[1]],
                    volume[base + CORNER_OFFSETS[2]],
                    volume[base + CORNER_OFFSETS[3]],
                    volume[base + CORNER_OFFSETS[4]],
                    volume[base + CORNER_OFFSETS[5]],
                    volume[base + CORNER_OFFSETS[6]],
                    volume[base + CORNER_OFFSETS[7]],
                ];
                let mask = corner_mask::build(raw);
                proof {
                    assert forall|i: int| 0 <= i < 8 implies raw@[i] == #[trigger] cell_sample(
                        volume@,
                        x as int,
                        y as int,
                        z as int,
                        i,
                    ) by {
                        assert(i == 0 || i == 1 || i == 2 || i == 3 || i == 4 || i == 5 || i == 6 || i == 7);
                    }
                    lemma_cell_number(x as int, y as int, z as int);
                    lemma_cells_step(volume@, cells@, x, y, z, mask);
                    lemma_crossing_len(volume@, n);
                }
                let ghost q0 = quads@;
                if mask != 0 && mask != 255 {
                    let k = cells.len();
                    let ghost old_buf = buf;
                    proof {
                        lemma_mask_crosses(volume@, x as int, y as int, z as int, mask);
                    }
                    buf.set(x, y, z, k as i32);
                    proof {
                        lemma_set_keeps_tracking(old_buf, buf, volume@, x as int, y as int, z as int, k as i32);
                    }
                    cells.push((x, y, z, mask));
                    let em = table[mask as usize];
                    let flip = (mask & 1) == 0;
                    proof {
                        assert(flip == !corner_solid(mask as int, 0)) by (bit_vector)
                            requires flip == ((mask & 1u8) == 0u8),
                        ;
                    }
                    let mut axis: usize = 0;
                    while axis < 3
                        invariant
                            x < 31,
                            y < 31,
                            z < 31,
                            axis <= 3,
                            n == x * 961 + y * 31 + z,
                            buffer_tracks(buf, volume@, n + 1, x - 1),
                            is_edge_mask(em, mask as int),
                            forall|i: int| 0 <= i < 8 ==> (#[trigger] corner_solid(mask as int, i) <==> cell_sample(
                                volume@,
                                x as int,
                                y as int,
                                z as int,
                                i,
                            ) < 0),
                            flip == !corner_solid(mask as int, 0),
                            same_quads(
                                quads@,
                                quads_upto(volume@, n) + cell_quads(volume@, x as int, y as int, z as int, axis as int),
                            ),
                            same_quads(q0, quads_upto(volume@, n)),
                        decreases 3 - axis,
                    {
                        let q = quad_vertices(&buf, [x, y, z], axis, em);
                        proof {
                            lemma_axis_bits(volume@, x as int, y as int, z as int, mask, em, axis as int);
                            lemma_quad_lookup(buf, volume@, x as int, y as int, z as int, axis as int, em);
                            assert([x, y, z]@.map_values(|c: usize| c as int) =~= seq![x as int, y as int, z as int]);
                        }
                        let ghost before = quads@;
                        match q {
                            Some((a, b, c, d)) => {
                                quads.push((a, b, c, d, flip));
                            },
                            None => {},
                        }
                        proof {
                            let pre = quads_upto(volume@, n);
                            let cq = cell_quads(volume@, x as int, y as int, z as int, axis as int);
                            let cq2 = cell_quads(volume@, x as int, y as int, z as int, axis as int + 1);
                            if has_quad(volume@, x as int, y as int, z as int, axis as int) {
                                assert(pre + cq2 =~= (pre + cq).push(quad_at(volume@, x as int, y as int, z as int, axis as int)));
                                assert forall|i: int| 0 <= i < quads@.len() implies {
                                    let e = #[trigger] quads@[i];
                                    (e.0 as int, e.1 as int, e.2 as int, e.3 as int, e.4) == (pre + cq2)[i]
                                } by {
                                    if i < before.len() {
                                        assert(quads@[i] == before[i]);
                                    }
                                }
                            } else {
                                assert(pre + cq2 =~= pre + cq);
                            }
                        }
                        axis = axis + 1;
                    }
                    proof {
                        assert(quads_upto(volume@, n + 1) =~= quads_upto(volume@, n) + cell_quads(
                            volume@,
                            x as int,
                            y as int,
                            z as int,
                            3,
                        ));
                    }
                } else {
                    proof {
                        lemma_mask_crosses(volume@, x as int, y as int, z as int, mask);
                        lemma_no_quads(volume@, x as int, y as int, z as int);
                        assert(quads_upto(volume@, n + 1) =~= quads_upto(volume@, n));
                        assert forall|a: int, b: int, c: int|
                            0 <= a < 31 && 0 <= b < 31 && 0 <= c < 31 && cell_number(a, b, c) < n + 1 && a >= x - 1
                                && cell_crosses(volume@, a, b, c) implies #[trigger] buf.lookup(a, b, c) == vertex_index(
                            volume@,
                            a,
                            b,
                            c,
                        ) by {
                            if cell_number(a, b, c) == n {
                                lemma_number_unique(a, b, c, x as int, y as int, z as int);
                            }
                        }
                    }
                }
                z = z + 1;
            }
            y = y + 1;
        }
        x = x + 1;
    }
    (cells, quads)
}

} // verus!
