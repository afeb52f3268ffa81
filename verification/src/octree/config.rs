//! `OctreeConfig`: the integer part of the octree configuration that the
//! refinement logic reads: the LOD range and the world bounds expressed in
//! node grid coordinates.
//!
//! World bounds are given per LOD as inclusive ranges of node coordinates: the
//! nodes whose cells overlap the world-space bounds at that LOD. A node at an
//! LOD outside the table overlaps nothing.
use vstd::prelude::*;

use super::node::OctreeNode;

verus! {

/// Inclusive ranges of node grid coordinates, at one LOD, whose cells overlap
/// the world bounds.
#[derive(Clone, Copy, Debug, PartialEq, Eq, Structural)]
pub struct LodRange {
    pub min_x: i32,
    pub max_x: i32,
    pub min_y: i32,
    pub max_y: i32,
    pub min_z: i32,
    pub max_z: i32,
}

impl LodRange {
    /// The node's coordinates lie in the ranges.
    pub open spec fn holds(&self, n: OctreeNode) -> bool {
        &&& self.min_x <= n.x <= self.max_x
        &&& self.min_y <= n.y <= self.max_y
        &&& self.min_z <= n.z <= self.max_z
    }
}

/// World bounds in node grid coordinates, one range per LOD (index = LOD).
#[derive(Clone, Debug)]
pub struct GridBounds {
    pub per_lod: Vec<LodRange>,
}

/// Configuration that octree refinement reads.
#[derive(Clone, Debug)]
pub struct OctreeConfig {
    /// Finest LOD level (highest detail). Typically 0.
    pub min_lod: i32,
    /// Coarsest LOD level allowed.
    pub max_lod: i32,
    /// Optional world bounds; `None` = unbounded.
    pub world_bounds: Option<GridBounds>,
}

/// Whether `n` overlaps the (optional) world bounds.
pub open spec fn overlaps_bounds(bounds: Option<GridBounds>, n: OctreeNode) -> bool {
    match bounds {
        None => true,
        Some(b) => 0 <= n.lod < b.per_lod@.len() && b.per_lod@[n.lod as int].holds(n),
    }
}

impl OctreeConfig {
    /// LOD range usable by refinement without integer overflow.
    pub open spec fn lods_in_range(&self) -> bool {
        0 <= self.min_lod && self.max_lod <= 30
    }

    /// Check if a node overlaps the world bounds (always true when unbounded).
    pub fn node_overlaps_bounds(&self, node: &OctreeNode) -> (b: bool)
        ensures
            b == overlaps_bounds(self.world_bounds, *node),
    {
        match &self.world_bounds {
            None => true,
            Some(bounds) => {
                if node.lod < 0 || node.lod as usize >= bounds.per_lod.len() {
                    false
                } else {
                    let r = &bounds.per_lod[node.lod as usize];
                    r.min_x <= node.x && node.x <= r.max_x && r.min_y <= node.y && node.y <= r.max_y
                        && r.min_z <= node.z && node.z <= r.max_z
                }
            },
        }
    }
}

/// `n` comes before position `(x, y, z)` in x-major, then y, then z order.
pub open spec fn before(n: OctreeNode, x: int, y: int, z: int) -> bool {
    n.x < x || (n.x == x && (n.y < y || (n.y == y && n.z < z)))
}

/// `n` lies at LOD `lod` inside the coordinate ranges `r`.
pub open spec fn in_box(n: OctreeNode, r: LodRange, lod: int) -> bool {
    n.lod == lod && r.holds(n)
}

/// The nodes at `lod` that overlap the bounds (none when unbounded).
pub open spec fn initial_leaf_set(bounds: Option<GridBounds>, lod: int) -> Set<OctreeNode> {
    match bounds {
        None => Set::empty(),
        Some(b) => Set::new(|n: OctreeNode| n.lod == lod && overlaps_bounds(Some(b), n)),
    }
}

impl OctreeConfig {
    /// The initial leaves covering the world bounds at `target_lod`: every
    /// node at that LOD overlapping the bounds, each once, in x-major order;
    /// none when the world is unbounded.
    pub fn compute_initial_leaves(&self, target_lod: i32) -> (r: Vec<OctreeNode>)
        ensures
            r@.to_set() == initial_leaf_set(self.world_bounds, target_lod as int),
            r@.no_duplicates(),
    {
        let mut out: Vec<OctreeNode> = Vec::new();
        let bounds = match &self.world_bounds {
            None => {
                proof {
                    assert(out@.to_set() =~= Set::<OctreeNode>::empty());
                }
                return out;
            },
            Some(b) => b,
        };
        if target_lod < 0 || target_lod as usize >= bounds.per_lod.len() {
            proof {
                assert(out@.to_set() =~= initial_leaf_set(self.world_bounds, target_lod as int));
            }
            return out;
        }
        let r = bounds.per_lod[target_lod as usize];
        let ghost lod = target_lod as int;
        let mut x: i64 = r.min_x as i64;
        while x <= r.max_x as i64
            invariant
                r.min_x <= x <= r.max_x as i64 + 1 || (x == r.min_x && r.min_x > r.max_x),
                lod == target_lod,
                out@.no_duplicates(),
                forall|n: OctreeNode| #[trigger] out@.contains(n) <==> in_box(n, r, lod) && before(n, x as int, r.min_y as int, r.min_z as int),
            decreases r.max_x as i64 + 1 - x,
        {
            let mut y: i64 = r.min_y as i64;
            while y <= r.max_y as i64
                invariant
                    r.min_x <= x <= r.max_x,
                    r.min_y <= y <= r.max_y as i64 + 1 || (y == r.min_y && r.min_y > r.max_y),
                    lod == target_lod,
                    out@.no_duplicates(),
                    forall|n: OctreeNode| #[trigger] out@.contains(n) <==> in_box(n, r, lod) && before(n, x as int, y as int, r.min_z as int),
                decreases r.max_y as i64 + 1 - y,
            {
                let mut z: i64 = r.min_z as i64;
                while z <= r.max_z as i64
                    invariant
                        r.min_x <= x <= r.max_x,
                        r.min_y <= y <= r.max_y,
                        r.min_z <= z <= r.max_z as i64 + 1 || (z == r.min_z && r.min_z > r.max_z),
                        lod == target_lod,
                        out@.no_duplicates(),
                        forall|n: OctreeNode| #[trigger] out@.contains(n) <==> in_box(n, r, lod) && before(n, x as int, y as int, z as int),
                    decreases r.max_z as i64 + 1 - z,
                {
                    let node = OctreeNode::new(x as i32, y as i32, z as i32, target_lod);
                    let ghost old_out = out@;
                    out.push(node);
                    proof {
                        assert forall|n: OctreeNode| #[trigger] out@.contains(n) <==> in_box(n, r, lod) && before(n, x as int, y as int, z + 1) by {
                            if out@.contains(n) && n != node {
                                let k = choose|k: int| 0 <= k < out@.len() && out@[k] == n;
                                assert(k < old_out.len());
                                assert(old_out.contains(n));
                            }
                            if old_out.contains(n) {
                                let k = choose|k: int| 0 <= k < old_out.len() && old_out[k] == n;
                                assert(out@[k] == n);
                            }
                            if n == node {
                                assert(out@[old_out.len() as int] == node);
                            }
                        }
                        assert(out@.no_duplicates()) by {
                            assert(!old_out.contains(node));
                            assert forall|a: int, b: int| 0 <= a < out@.len() && 0 <= b < out@.len() && a != b implies out@[a] != out@[b] by {
                                if a < old_out.len() && b < old_out.len() {
                                    assert(out@[a] == old_out[a] && out@[b] == old_out[b]);
                                } else if a < old_out.len() {
                                    assert(old_out.contains(out@[a]));
                                } else if b < old_out.len() {
                                    assert(old_out.contains(out@[b]));
                                }
                            }
                        }
                    }
                    z = z + 1;
                }
                y = y + 1;
            }
            x = x + 1;
        }
        proof {
            assert forall|n: OctreeNode| out@.to_set().contains(n) <==> initial_leaf_set(self.world_bounds, target_lod as int).contains(n) by {
                assert(out@.to_set().contains(n) <==> out@.contains(n));
            }
            assert(out@.to_set() =~= initial_leaf_set(self.world_bounds, target_lod as int));
        }
        out
    }
}

impl Default for OctreeConfig {
    fn default() -> (c: Self)
        ensures
            c.min_lod == 0,
            c.max_lod == 30,
            c.world_bounds is None,
    {
        OctreeConfig { min_lod: 0, max_lod: 30, world_bounds: None }
    }
}

} // verus!
