//! Surface Nets topology: the vertex index buffer and the quads that join
//! the vertices of neighboring cells.
//!
//! Cells are visited in x-major order. The index buffer keeps the vertex
//! index of the cells of the current and the previous x slice, alternating
//! between two halves by the parity of x.
use vstd::prelude::*;

use crate::edge_table::bit_set;

verus! {

/// Number of slots: two halves of 33 × 33, plus padding.
pub const INDEX_BUFFER_SIZE: usize = 2178;

/// The slot of cell `(x, y, z)`: `z + 33 y` offset into the half chosen by
/// the parity of `x`.
pub open spec fn slot(x: int, y: int, z: int) -> int {
    let base = z + 33 * y;
    if x % 2 == 0 {
        base + 1 + 33 * 34
    } else {
        base + 34
    }
}

/// Vertex indices of the cells of the current and previous x slice; -1
/// marks a cell without a vertex.
pub struct IndexBuffer {
    data: Vec<i32>,
}

impl View for IndexBuffer {
    type V = Seq<i32>;

    closed spec fn view(&self) -> Seq<i32> {
        self.data@
    }
}

impl IndexBuffer {
    /// The vertex index stored for cell `(x, y, z)`, or -1 past the buffer.
    pub open spec fn lookup(self, x: int, y: int, z: int) -> i32 {
        if slot(x, y, z) < self@.len() {
            self@[slot(x, y, z)]
        } else {
            -1i32
        }
    }

    /// A buffer with every slot empty (-1).
    pub fn new() -> (b: Self)
        ensures
            b@.len() == INDEX_BUFFER_SIZE,
            forall|i: int| 0 <= i < INDEX_BUFFER_SIZE ==> b@[i] == -1,
    {
        let mut data: Vec<i32> = Vec::new();
        let mut i: usize = 0;
        while i < INDEX_BUFFER_SIZE
            invariant
                i <= INDEX_BUFFER_SIZE,
                data@.len() == i,
                forall|j: int| 0 <= j < i ==> data@[j] == -1,
            decreases INDEX_BUFFER_SIZE - i,
        {
            data.push(-1);
            i = i + 1;
        }
        IndexBuffer { data }
    }

    /// The slot of cell `(x, y, z)`.
    pub fn calculate_index(&self, x: usize, y: usize, z: usize) -> (i: usize)
        requires
            z + 33 * y + 1123 <= usize::MAX,
        ensures
            i == slot(x as int, y as int, z as int),
    {
        let base = z + 33 * y;
        if x % 2 == 0 {
            base + 1 + 33 * 34
        } else {
            base + 32 + 2
        }
    }

    /// The vertex index of cell `(x, y, z)`, or -1 when its slot is past the
    /// buffer.
    pub fn get(&self, x: usize, y: usize, z: usize) -> (v: i32)
        requires
            z + 33 * y + 1123 <= usize::MAX,
        ensures
            v == self.lookup(x as int, y as int, z as int),
    {
        let idx = self.calculate_index(x, y, z);
        if idx < self.data.len() {
            self.data[idx]
        } else {
            -1
        }
    }

    /// Record the vertex index of cell `(x, y, z)`; nothing happens when its
    /// slot is past the buffer.
    pub fn set(&mut self, x: usize, y: usize, z: usize, value: i32)
        requires
            z + 33 * y + 1123 <= usize::MAX,
        ensures
            slot(x as int, y as int, z as int) < old(self)@.len() ==> final(self)@ == old(self)@.update(
                slot(x as int, y as int, z as int),
                value,
            ),
            slot(x as int, y as int, z as int) >= old(self)@.len() ==> final(self)@ == old(self)@,
    {
        let idx = self.calculate_index(x, y, z);
        if idx < self.data.len() {
            self.data.set(idx, value);
        }
    }

    /// Empty every slot (-1).
    pub fn clear(&mut self)
        ensures
            final(self)@.len() == old(self)@.len(),
            forall|i: int| 0 <= i < old(self)@.len() ==> final(self)@[i] == -1,
    {
        let mut i: usize = 0;
        while i < self.data.len()
            invariant
                i <= self@.len(),
                self@.len() == old(self)@.len(),
                forall|j: int| 0 <= j < i ==> self@[j] == -1,
            decreases self@.len() - i,
        {
            self.data.set(i, -1);
            i = i + 1;
        }
    }
}

/// Cells of neighboring x slices (and of the same slice) with coordinates
/// below 32 never share a slot, and their slots lie inside the buffer.
pub proof fn lemma_slots_distinct(x: int, y: int, z: int, a: int, b: int, c: int)
    requires
        0 <= x && 0 <= a,
        0 <= y < 32 && 0 <= z < 32 && 0 <= b < 32 && 0 <= c < 32,
        x == a || x == a + 1 || a == x + 1,
        (x, y, z) != (a, b, c),
    ensures
        slot(x, y, z) != slot(a, b, c),
        0 <= slot(x, y, z) < INDEX_BUFFER_SIZE,
{
}

/// The two in-plane axes of the quad around the edge along `axis`.
pub open spec fn quad_axes(axis: int) -> (int, int) {
    ((axis + 1) % 3, (axis + 2) % 3)
}

/// `p` with the coordinates on the axes where `du`/`dv` hold decremented.
pub open spec fn step_back(p: Seq<int>, u: int, v: int, du: bool, dv: bool) -> Seq<int> {
    let q = if du { p.update(u, p[u] - 1) } else { p };
    if dv { q.update(v, q[v] - 1) } else { q }
}

/// The quad of cell `pos` around its edge along `axis` (0 = X, 1 = Y, 2 = Z):
/// the vertex indices of the cell (a), of the cell diagonally behind in the
/// other two axes (b), and of the cells behind in one of them (c, d). There
/// is none when the edge does not cross the surface, when the cell lies on the
/// low boundary of either other axis, or when a cell has no vertex.
pub open spec fn quad_of(buf: IndexBuffer, pos: Seq<int>, axis: int, edge_mask: u16) -> Option<
    (i32, i32, i32, i32),
> {
    let (u, v) = quad_axes(axis);
    if !bit_set(edge_mask, axis) || pos[u] == 0 || pos[v] == 0 {
        None
    } else {
        let pb = step_back(pos, u, v, true, true);
        let pc = step_back(pos, u, v, true, false);
        let pd = step_back(pos, u, v, false, true);
        let va = buf.lookup(pos[0], pos[1], pos[2]);
        let vb = buf.lookup(pb[0], pb[1], pb[2]);
        let vc = buf.lookup(pc[0], pc[1], pc[2]);
        let vd = buf.lookup(pd[0], pd[1], pd[2]);
        if va < 0 || vb < 0 || vc < 0 || vd < 0 {
            None
        } else {
            Some((va, vb, vc, vd))
        }
    }
}

proof fn lemma_axis_bit(m: u16, axis: u16)
    by (bit_vector)
    requires
        axis < 3,
    ensures
        ((m & (1u16 << axis)) == 0u16) == !((m >> axis) & 1u16 == 1u16),
{
}

/// The quad around the edge of cell `pos` along `axis`, when the edge
/// crosses the surface and all four cells have vertices (see [`quad_of`]).
#[verifier::spinoff_prover]
pub fn quad_vertices(buf: &IndexBuffer, pos: [usize; 3], axis: usize, edge_mask: u16) -> (q: Option<
    (i32, i32, i32, i32),
>)
    requires
        axis < 3,
        pos@[0] < 32 && pos@[1] < 32 && pos@[2] < 32,
    ensures
        q == quad_of(*buf, pos@.map_values(|c: usize| c as int), axis as int, edge_mask),
{
    let ghost p = pos@.map_values(|c: usize| c as int);
    proof {
        lemma_axis_bit(edge_mask, axis as u16);
    }
    if (edge_mask & (1u16 << axis as u16)) == 0 {
        return None;
    }
    let u = (axis + 1) % 3;
    let v = (axis + 2) % 3;
    if pos[u] == 0 || pos[v] == 0 {
        return None;
    }
    let mut pos_b = pos;
    pos_b[u] = pos_b[u] - 1;
    pos_b[v] = pos_b[v] - 1;
    let mut pos_c = pos;
    pos_c[u] = pos_c[u] - 1;
    let mut pos_d = pos;
    pos_d[v] = pos_d[v] - 1;
    proof {
        assert(pos_b@.map_values(|c: usize| c as int) =~= step_back(p, u as int, v as int, true, true));
        assert(pos_c@.map_values(|c: usize| c as int) =~= step_back(p, u as int, v as int, true, false));
        assert(pos_d@.map_values(|c: usize| c as int) =~= step_back(p, u as int, v as int, false, true));
    }
    let va = buf.get(pos[0], pos[1], pos[2]);
    let vb = buf.get(pos_b[0], pos_b[1], pos_b[2]);
    let vc = buf.get(pos_c[0], pos_c[1], pos_c[2]);
    let vd = buf.get(pos_d[0], pos_d[1], pos_d[2]);
    if va < 0 || vb < 0 || vc < 0 || vd < 0 {
        return None;
    }
    Some((va, vb, vc, vd))
}

/// The two triangles (6 indices) of quad `(a, b, c, d)`: split along the a–b
/// diagonal when `split_ab`, else along c–d; `flip` reverses the winding (used
/// when corner 0 of the cell is outside the surface).
pub open spec fn quad_triangles(q: (i32, i32, i32, i32), flip: bool, split_ab: bool) -> Seq<u32> {
    let (a, b, c, d) = (q.0 as u32, q.1 as u32, q.2 as u32, q.3 as u32);
    if split_ab {
        if flip {
            seq![a, d, b, a, b, c]
        } else {
            seq![a, b, d, a, c, b]
        }
    } else {
        if flip {
            seq![c, d, b, c, a, d]
        } else {
            seq![c, b, d, c, d, a]
        }
    }
}

/// The triangle indices of a quad (see [`quad_triangles`]).
pub fn quad_indices(q: (i32, i32, i32, i32), flip: bool, split_ab: bool) -> (t: [u32; 6])
    requires
        q.0 >= 0 && q.1 >= 0 && q.2 >= 0 && q.3 >= 0,
    ensures
        t@ == quad_triangles(q, flip, split_ab),
{
    let (a, b, c, d) = (q.0 as u32, q.1 as u32, q.2 as u32, q.3 as u32);
    let t = if split_ab {
        if flip {
            [a, d, b, a, b, c]
        } else {
            [a, b, d, a, c, b]
        }
    } else {
        if flip {
            [c, d, b, c, a, d]
        } else {
            [c, b, d, c, d, a]
        }
    };
    proof {
        assert(t@ =~= quad_triangles(q, flip, split_ab));
    }
    t
}

/// Whether the winding of a cell's triangles is flipped: when corner 0 is
/// outside the surface (bit 0 of the corner mask clear).
pub fn winding_flipped(corner_mask: u8) -> (b: bool)
    ensures
        b == !crate::edge_table::corner_solid(corner_mask as int, 0),
{
    proof {
        assert(((corner_mask & 1u8) == 0u8) == !((corner_mask >> 0u8) & 1u8 == 1u8)) by (bit_vector);
    }
    (corner_mask & 1) == 0
}

/// Both triangles of a quad use its four vertices, and each uses both ends of
/// the diagonal it was split along.
pub proof fn lemma_quad_triangles_cover(q: (i32, i32, i32, i32), flip: bool, split_ab: bool)
    requires
        q.0 >= 0 && q.1 >= 0 && q.2 >= 0 && q.3 >= 0,
    ensures
        quad_triangles(q, flip, split_ab).len() == 6,
        quad_triangles(q, flip, split_ab).to_set() == set![q.0 as u32, q.1 as u32, q.2 as u32, q.3 as u32],
{
    let t = quad_triangles(q, flip, split_ab);
    let s = set![q.0 as u32, q.1 as u32, q.2 as u32, q.3 as u32];
    assert forall|x: u32| t.to_set().contains(x) <==> s.contains(x) by {
        if s.contains(x) {
            if split_ab && flip {
                assert(t[0] == q.0 as u32 && t[2] == q.1 as u32 && t[5] == q.2 as u32 && t[1] == q.3 as u32);
            } else if split_ab {
                assert(t[0] == q.0 as u32 && t[1] == q.1 as u32 && t[4] == q.2 as u32 && t[2] == q.3 as u32);
            } else if flip {
                assert(t[4] == q.0 as u32 && t[2] == q.1 as u32 && t[0] == q.2 as u32 && t[1] == q.3 as u32);
            } else {
                assert(t[5] == q.0 as u32 && t[1] == q.1 as u32 && t[0] == q.2 as u32 && t[2] == q.3 as u32);
            }
        }
    }
    assert(t.to_set() =~= s);
}


/// The winding of a quad's triangles depends only on the flip flag and the
/// split, never on the vertex indices: split along a–b and not flipped, the
/// triangles are (a, b, d) and (a, c, b); split along c–d, (c, b, d) and
/// (c, d, a); and flipping reverses the orientation of each triangle (its
/// first vertex stays, the other two swap).
pub proof fn lemma_quad_winding(q: (i32, i32, i32, i32), split_ab: bool)
    ensures
        quad_triangles(q, false, true) == seq![q.0 as u32, q.1 as u32, q.3 as u32, q.0 as u32, q.2 as u32, q.1 as u32],
        quad_triangles(q, false, false) == seq![q.2 as u32, q.1 as u32, q.3 as u32, q.2 as u32, q.3 as u32, q.0 as u32],
        ({
            let t = quad_triangles(q, false, split_ab);
            quad_triangles(q, true, split_ab) == seq![t[0], t[2], t[1], t[3], t[5], t[4]]
        }),
        quad_triangles(q, false, split_ab).len() == 6,
{
    assert(quad_triangles(q, false, true) =~= seq![q.0 as u32, q.1 as u32, q.3 as u32, q.0 as u32, q.2 as u32, q.1 as u32]);
    assert(quad_triangles(q, false, false) =~= seq![q.2 as u32, q.1 as u32, q.3 as u32, q.2 as u32, q.3 as u32, q.0 as u32]);
    let t = quad_triangles(q, false, split_ab);
    assert(quad_triangles(q, true, split_ab) =~= seq![t[0], t[2], t[1], t[3], t[5], t[4]]);
}

} // verus!
