//! `OctreeNode`: an immutable value type naming a cell of the implicit octree.
//!
//! Nodes are identified by their grid coordinates at their own LOD level.
//! LOD 0 is the finest detail; higher LODs are coarser.
use vstd::prelude::*;

verus! {

/// `2^k` for `k >= 0` (and 1 for negative `k`).
pub open spec fn pow2i(k: int) -> int
    decreases k,
{
    if k <= 0 {
        1
    } else {
        2 * pow2i(k - 1)
    }
}

/// Every power of two is positive.
pub proof fn lemma_pow2i_pos(k: int)
    ensures
        pow2i(k) >= 1,
    decreases k,
{
    if k > 0 {
        lemma_pow2i_pos(k - 1);
    }
}

/// `2^(a + b) == 2^a * 2^b` for non-negative exponents.
pub proof fn lemma_pow2i_add(a: int, b: int)
    requires
        a >= 0,
        b >= 0,
    ensures
        pow2i(a + b) == pow2i(a) * pow2i(b),
    decreases b,
{
    if b > 0 {
        lemma_pow2i_add(a, b - 1);
        assert(pow2i(a + b) == 2 * pow2i(a + b - 1));
        assert(pow2i(a) * pow2i(b) == pow2i(a) * (2 * pow2i(b - 1)));
        assert(pow2i(a) * (2 * pow2i(b - 1)) == 2 * (pow2i(a) * pow2i(b - 1))) by (nonlinear_arith);
    }
}

/// The shift `1 << k` computes `2^k` for shifts that stay inside `i32`.
proof fn lemma_pow2i_le(k: int)
    requires
        0 <= k <= 30,
    ensures
        pow2i(k) <= 0x4000_0000,
{
    lemma_pow2i_mono(k, 30);
    assert(pow2i(30) == 0x4000_0000) by {
        reveal_with_fuel(pow2i, 31);
    }
}

proof fn lemma_pow2i_mono(a: int, b: int)
    requires
        0 <= a <= b,
    ensures
        pow2i(a) <= pow2i(b),
    decreases b - a,
{
    if a < b {
        lemma_pow2i_mono(a, b - 1);
        lemma_pow2i_pos(b - 1);
    }
}

pub proof fn lemma_shl_is_pow2(k: u32)
    requires
        k <= 30,
    ensures
        (1i32 << k) as int == pow2i(k as int),
    decreases k,
{
    if k == 0 {
        assert((1i32 << 0u32) == 1i32) by (bit_vector);
    } else {
        lemma_shl_is_pow2((k - 1) as u32);
        let j: u32 = (k - 1) as u32;
        assert((1i32 << k) == 2 * (1i32 << j)) by (bit_vector)
            requires
                j < 30,
                k == j + 1,
        ;
    }
}

/// Octree node: grid position at the node's own LOD, and the LOD itself.
#[derive(Clone, Copy, PartialEq, Eq, Hash, Debug, Structural)]
pub struct OctreeNode {
    /// Grid X position at this node's LOD level
    pub x: i32,
    /// Grid Y position at this node's LOD level
    pub y: i32,
    /// Grid Z position at this node's LOD level
    pub z: i32,
    /// Level of detail (0 = finest, higher = coarser)
    pub lod: i32,
}

/// Offset (0 or 1) that octant `octant` adds along axis `axis` (0 = X, 1 = Y, 2 = Z).
pub open spec fn octant_offset(octant: u8, axis: int) -> int {
    if axis == 0 {
        (octant & 1u8) as int
    } else if axis == 1 {
        ((octant >> 1u8) & 1u8) as int
    } else {
        ((octant >> 2u8) & 1u8) as int
    }
}

/// The child of `n` in octant `octant`: doubled coordinates plus the octant's
/// axis bits, one LOD finer.
pub open spec fn child_of(n: OctreeNode, octant: u8) -> OctreeNode {
    OctreeNode {
        x: (n.x * 2 + octant_offset(octant, 0)) as i32,
        y: (n.y * 2 + octant_offset(octant, 1)) as i32,
        z: (n.z * 2 + octant_offset(octant, 2)) as i32,
        lod: (n.lod - 1) as i32,
    }
}

/// Rust's `/ 2` on integers: division truncated toward zero.
pub open spec fn trunc_half(c: int) -> int {
    if c >= 0 {
        c / 2
    } else {
        -((-c) / 2)
    }
}

/// The parent of `n`: halved coordinates (truncated toward zero), one LOD coarser.
pub open spec fn parent_of(n: OctreeNode) -> OctreeNode {
    OctreeNode {
        x: trunc_half(n.x as int) as i32,
        y: trunc_half(n.y as int) as i32,
        z: trunc_half(n.z as int) as i32,
        lod: (n.lod + 1) as i32,
    }
}

/// Doubling `c` stays inside `i32`.
pub open spec fn doubles_in_i32(c: i32) -> bool {
    -0x4000_0000 <= c < 0x4000_0000
}

/// The children of `n` can be computed without leaving `i32`.
pub open spec fn children_fit(n: OctreeNode) -> bool {
    doubles_in_i32(n.x) && doubles_in_i32(n.y) && doubles_in_i32(n.z)
}

/// The cell `[c, c + 1)` at LOD `lod`, measured in finest-level cells, lies in
/// `[-2^30, 2^30]`.
pub open spec fn axis_in_range(c: int, lod: int) -> bool {
    -0x4000_0000 <= c * pow2i(lod) && (c + 1) * pow2i(lod) <= 0x4000_0000
}

/// A node whose LOD lies in `0..=30` and whose extent, measured in finest-level
/// cells, lies in `[-2^30, 2^30]` on every axis. Such nodes can be subdivided,
/// merged and searched around without integer overflow.
pub open spec fn node_in_range(n: OctreeNode) -> bool {
    &&& 0 <= n.lod <= 30
    &&& axis_in_range(n.x as int, n.lod as int)
    &&& axis_in_range(n.y as int, n.lod as int)
    &&& axis_in_range(n.z as int, n.lod as int)
}

proof fn lemma_axis_in_range_bounds(c: int, lod: int)
    requires
        0 <= lod <= 30,
        axis_in_range(c, lod),
    ensures
        -0x4000_0000 <= c <= 0x4000_0000,
        lod > 0 ==> -0x2000_0000 <= c < 0x2000_0000,
{
    lemma_pow2i_pos(lod);
    let p = pow2i(lod);
    assert(-0x4000_0000 <= c * p);
    assert((c + 1) * p <= 0x4000_0000);
    if c < -0x4000_0000 {
        assert(c * p <= c) by (nonlinear_arith)
            requires
                c < 0,
                p >= 1,
        ;
    }
    if c > 0x4000_0000 {
        assert((c + 1) * p >= c + 1) by (nonlinear_arith)
            requires
                c > 0,
                p >= 1,
        ;
    }
    if lod > 0 {
        assert(p == 2 * pow2i(lod - 1));
        lemma_pow2i_pos(lod - 1);
        assert(p >= 2);
        if c < -0x2000_0000 {
            assert(c * p <= 2 * c) by (nonlinear_arith)
                requires
                    c < 0,
                    p >= 2,
            ;
        }
        if c >= 0x2000_0000 {
            assert((c + 1) * p >= 2 * (c + 1)) by (nonlinear_arith)
                requires
                    c > 0,
                    p >= 2,
            ;
        }
    }
}

/// Nodes in range have coordinates in `[-2^30, 2^30]`, and their children fit in `i32`.
pub proof fn lemma_in_range_bounds(n: OctreeNode)
    requires
        node_in_range(n),
    ensures
        -0x4000_0000 <= n.x <= 0x4000_0000,
        -0x4000_0000 <= n.y <= 0x4000_0000,
        -0x4000_0000 <= n.z <= 0x4000_0000,
        n.lod > 0 ==> children_fit(n),
{
    lemma_axis_in_range_bounds(n.x as int, n.lod as int);
    lemma_axis_in_range_bounds(n.y as int, n.lod as int);
    lemma_axis_in_range_bounds(n.z as int, n.lod as int);
}

proof fn lemma_axis_child(c: int, lod: int, off: int)
    requires
        1 <= lod <= 30,
        0 <= off <= 1,
        axis_in_range(c, lod),
    ensures
        axis_in_range(2 * c + off, lod - 1),
{
    let q = pow2i(lod - 1);
    lemma_pow2i_pos(lod - 1);
    assert(pow2i(lod) == 2 * q);
    assert(c * (2 * q) == (2 * c) * q) by (nonlinear_arith);
    assert((c + 1) * (2 * q) == (2 * c + 2) * q) by (nonlinear_arith);
    assert((2 * c + off) * q >= (2 * c) * q) by (nonlinear_arith)
        requires
            off >= 0,
            q >= 1,
    ;
    assert((2 * c + off + 1) * q <= (2 * c + 2) * q) by (nonlinear_arith)
        requires
            off <= 1,
            q >= 1,
    ;
}

/// Children of in-range nodes are in range.
pub proof fn lemma_child_in_range(n: OctreeNode, octant: u8)
    requires
        node_in_range(n),
        n.lod > 0,
        octant < 8,
    ensures
        node_in_range(child_of(n, octant)),
{
    lemma_in_range_bounds(n);
    lemma_octant_offsets(octant);
    lemma_axis_child(n.x as int, n.lod as int, octant_offset(octant, 0));
    lemma_axis_child(n.y as int, n.lod as int, octant_offset(octant, 1));
    lemma_axis_child(n.z as int, n.lod as int, octant_offset(octant, 2));
}

/// Octant offsets are 0 or 1.
pub proof fn lemma_octant_offsets(octant: u8)
    ensures
        0 <= octant_offset(octant, 0) <= 1,
        0 <= octant_offset(octant, 1) <= 1,
        0 <= octant_offset(octant, 2) <= 1,
{
    assert((octant & 1u8) <= 1u8) by (bit_vector);
    assert(((octant >> 1u8) & 1u8) <= 1u8) by (bit_vector);
    assert(((octant >> 2u8) & 1u8) <= 1u8) by (bit_vector);
}

proof fn lemma_axis_parent(c: int, lod: int)
    requires
        0 <= lod <= 29,
        axis_in_range(c, lod),
    ensures
        axis_in_range(trunc_half(c), lod + 1),
{
    let p = pow2i(lod);
    lemma_pow2i_pos(lod);
    assert(pow2i(lod + 1) == 2 * p);
    let h = trunc_half(c);
    assert(h * (2 * p) == (2 * h) * p) by (nonlinear_arith);
    assert((h + 1) * (2 * p) == (2 * h + 2) * p) by (nonlinear_arith);
    if c >= 0 {
        assert(2 * h == c || 2 * h + 1 == c);
        assert((2 * h) * p >= 0) by (nonlinear_arith)
            requires
                h >= 0,
                p >= 1,
        ;
        if 2 * h + 1 == c {
            assert((2 * h + 2) * p == (c + 1) * p);
        } else {
            // c is even: (c + 1) * p <= 2^30 = 2^(30 - lod) * p forces c + 2 <= 2^(30 - lod)
            let m = pow2i(29 - lod);
            lemma_pow2i_pos(29 - lod);
            lemma_pow2i_add(29 - lod, lod);
            assert(pow2i(29) == 0x2000_0000) by {
                reveal_with_fuel(pow2i, 30);
            }
            assert(pow2i(29 - lod + lod) == pow2i(29));
            assert(m * p == 0x2000_0000);
            assert((2 * m) * p == 2 * (m * p)) by (nonlinear_arith);
            assert((c + 1) * p <= (2 * m) * p);
            assert(c + 1 <= 2 * m) by (nonlinear_arith)
                requires
                    (c + 1) * p <= (2 * m) * p,
                    p >= 1,
            ;
            assert(c + 2 <= 2 * m);
            assert((c + 2) * p <= (2 * m) * p) by (nonlinear_arith)
                requires
                    c + 2 <= 2 * m,
                    p >= 1,
            ;
        }
    } else {
        assert(2 * h == c || 2 * h == c + 1);
        assert((2 * h) * p >= c * p) by (nonlinear_arith)
            requires
                2 * h >= c,
                p >= 1,
        ;
        assert(h <= 0);
        assert((2 * h + 2) * p <= 2 * p) by (nonlinear_arith)
            requires
                h <= 0,
                p >= 1,
        ;
        assert(2 * p <= 0x4000_0000) by {
            lemma_pow2i_add(lod, 29 - lod);
            lemma_pow2i_pos(29 - lod);
            assert(pow2i(29) == 0x2000_0000) by {
                reveal_with_fuel(pow2i, 30);
            }
            assert(p * pow2i(29 - lod) >= p) by (nonlinear_arith)
                requires
                    pow2i(29 - lod) >= 1,
                    p >= 1,
            ;
        }
    }
}

/// Parents of in-range nodes below LOD 30 are in range.
pub proof fn lemma_parent_in_range(n: OctreeNode)
    requires
        node_in_range(n),
        n.lod < 30,
    ensures
        node_in_range(parent_of(n)),
{
    lemma_in_range_bounds(n);
    lemma_axis_parent(n.x as int, n.lod as int);
    lemma_axis_parent(n.y as int, n.lod as int);
    lemma_axis_parent(n.z as int, n.lod as int);
}

fn axis_fits(c: i32, scale: i32) -> (b: bool)
    requires
        1 <= scale <= 0x4000_0000,
    ensures
        b == (-0x4000_0000 <= c * scale && (c + 1) * scale <= 0x4000_0000),
{
    proof {
        assert(-0x8000_0000 * 0x4000_0000 <= (c as int) * (scale as int) <= 0x8000_0000 * 0x4000_0000)
            by (nonlinear_arith)
            requires
                -0x8000_0000 <= c < 0x8000_0000,
                1 <= scale <= 0x4000_0000,
        ;
        assert(-0x8000_0000 * 0x4000_0000 <= (c as int + 1) * (scale as int) <= 0x8000_0001 * 0x4000_0000)
            by (nonlinear_arith)
            requires
                -0x8000_0000 <= c < 0x8000_0000,
                1 <= scale <= 0x4000_0000,
        ;
    }
    let lo = (c as i64) * (scale as i64);
    let hi = (c as i64 + 1) * (scale as i64);
    -0x4000_0000 <= lo && hi <= 0x4000_0000
}

impl OctreeNode {
    /// Whether the node lies in the range the octree logic works in: LOD in
    /// `0..=30` and an extent, in finest-level cells, inside `[-2^30, 2^30]`
    /// on every axis.
    pub fn is_in_range(&self) -> (b: bool)
        ensures
            b == node_in_range(*self),
    {
        if self.lod < 0 || self.lod > 30 {
            return false;
        }
        let k = self.lod as u32;
        proof {
            lemma_shl_is_pow2(k);
            lemma_pow2i_pos(k as int);
            lemma_pow2i_le(k as int);
        }
        let scale: i32 = 1i32 << k;
        axis_fits(self.x, scale) && axis_fits(self.y, scale) && axis_fits(self.z, scale)
    }

    /// Create a new node at the given position and LOD.
    pub fn new(x: i32, y: i32, z: i32, lod: i32) -> (n: Self)
        ensures
            n == (OctreeNode { x, y, z, lod }),
    {
        OctreeNode { x, y, z, lod }
    }

    /// Get the child node (one LOD finer) in octant `octant`, whose bits give the
    /// +X (bit 0), +Y (bit 1) and +Z (bit 2) offsets. `None` at LOD 0 or below.
    pub fn get_child(&self, octant: u8) -> (r: Option<Self>)
        requires
            self.lod > 0 ==> children_fit(*self),
        ensures
            self.lod <= 0 ==> r is None,
            self.lod > 0 ==> r == Some(child_of(*self, octant)),
    {
        if self.lod <= 0 {
            return None;
        }
        proof {
            lemma_octant_offsets(octant);
        }
        let cx = (octant & 1) as i32;
        let cy = ((octant >> 1) & 1) as i32;
        let cz = ((octant >> 2) & 1) as i32;
        Some(OctreeNode { x: self.x * 2 + cx, y: self.y * 2 + cy, z: self.z * 2 + cz, lod: self.lod - 1 })
    }

    /// Get the parent node (one LOD coarser). `None` when already at `max_lod` or above.
    pub fn get_parent(&self, max_lod: i32) -> (r: Option<Self>)
        ensures
            self.lod >= max_lod ==> r is None,
            self.lod < max_lod ==> r == Some(parent_of(*self)),
    {
        if self.lod >= max_lod {
            return None;
        }
        Some(OctreeNode { x: self.x / 2, y: self.y / 2, z: self.z / 2, lod: self.lod + 1 })
    }
}

/// Subdividing and then going back up returns the original node, for nodes with
/// non-negative coordinates below `max_lod` whose doubled coordinates fit in
/// `i32` (as `get_child` requires). (With a negative coordinate the
/// truncating halving does not invert doubling plus an odd offset.)
pub proof fn lemma_child_parent_roundtrip(n: OctreeNode, octant: u8, max_lod: i32)
    requires
        n.lod > 0,
        n.lod <= max_lod,
        children_fit(n),
        n.x >= 0,
        n.y >= 0,
        n.z >= 0,
    ensures
        child_of(n, octant).lod < max_lod,
        parent_of(child_of(n, octant)) == n,
{
    lemma_octant_offsets(octant);
}

} // verus!
