//! Refinement algorithm for LOD-based octree updates.
//!
//! Decides which leaves to subdivide (close to the viewer) and which groups of
//! 8 sibling leaves to merge (far from the viewer), applying collapses first
//! (farthest first) and subdivisions second (closest first), both within a
//! per-frame budget, then enforcing a maximum LOD difference between face
//! neighbors to avoid T-junctions.
//!
//! The viewer-distance tests are made by the caller: each leaf comes with its
//! [`LeafPriority`], which says whether the viewer is within the leaf's LOD
//! threshold, whether the viewer is beyond the parent's threshold, and ordering
//! keys for the viewer's distance to the leaf's and the parent's centers.
use vstd::prelude::*;

use super::budget::{RefinementBudget, RefinementStats};
use super::config::{OctreeConfig, overlaps_bounds};
use super::leaves::OctreeLeaves;
use super::node::{
    OctreeNode, child_of, children_fit, lemma_child_in_range, lemma_parent_in_range, parent_of, lemma_in_range_bounds, lemma_pow2i_pos, lemma_shl_is_pow2,
    node_in_range, pow2i,
};
use super::transition::{NodeBatch, TransitionGroup, TransitionType, batch_nodes, children_seq};

verus! {

// =============================================================================
// Face neighbors
// =============================================================================

/// Offset of the face neighbor in direction `dir` (-X, +X, -Y, +Y, -Z, +Z).
pub open spec fn face_offset(dir: int) -> (int, int, int) {
    if dir == 0 {
        (-1, 0, 0)
    } else if dir == 1 {
        (1, 0, 0)
    } else if dir == 2 {
        (0, -1, 0)
    } else if dir == 3 {
        (0, 1, 0)
    } else if dir == 4 {
        (0, 0, -1)
    } else {
        (0, 0, 1)
    }
}

fn face_offset_of(dir: usize) -> (d: (i32, i32, i32))
    requires
        dir < 6,
    ensures
        d.0 == face_offset(dir as int).0,
        d.1 == face_offset(dir as int).1,
        d.2 == face_offset(dir as int).2,
{
    if dir == 0 {
        (-1, 0, 0)
    } else if dir == 1 {
        (1, 0, 0)
    } else if dir == 2 {
        (0, -1, 0)
    } else if dir == 3 {
        (0, 1, 0)
    } else if dir == 4 {
        (0, 0, -1)
    } else {
        (0, 0, 1)
    }
}

/// The node at LOD `lod` that contains the cell next to `n` in direction `dir`
/// (the same-LOD neighbor position, floor-divided by `2^(lod - n.lod)`).
pub open spec fn neighbor_at(n: OctreeNode, dir: int, lod: int) -> OctreeNode {
    let s = pow2i(lod - n.lod);
    OctreeNode {
        x: ((n.x + face_offset(dir).0) / s) as i32,
        y: ((n.y + face_offset(dir).1) / s) as i32,
        z: ((n.z + face_offset(dir).2) / s) as i32,
        lod: lod as i32,
    }
}

/// The first leaf among the coarser candidates at LODs `lod..=max_lod`.
pub open spec fn coarser_neighbor_from(
    leaves: Set<OctreeNode>,
    n: OctreeNode,
    dir: int,
    lod: int,
    max_lod: int,
) -> Option<OctreeNode>
    decreases max_lod + 1 - lod,
{
    if lod > max_lod {
        None
    } else if leaves.contains(neighbor_at(n, dir, lod)) {
        Some(neighbor_at(n, dir, lod))
    } else {
        coarser_neighbor_from(leaves, n, dir, lod + 1, max_lod)
    }
}

/// The face neighbor of `n` in direction `dir`: the same-LOD neighbor if it is
/// a leaf, else the first leaf containing that position at LODs
/// `n.lod + 1 ..= max_lod`, else none.
pub open spec fn face_neighbor(leaves: Set<OctreeNode>, n: OctreeNode, dir: int, max_lod: int) -> Option<
    OctreeNode,
> {
    if leaves.contains(neighbor_at(n, dir, n.lod as int)) {
        Some(neighbor_at(n, dir, n.lod as int))
    } else {
        coarser_neighbor_from(leaves, n, dir, n.lod + 1, max_lod)
    }
}

/// A face neighbor, when found, is a leaf.
pub proof fn lemma_face_neighbor_is_leaf(leaves: Set<OctreeNode>, n: OctreeNode, dir: int, max_lod: int)
    ensures
        face_neighbor(leaves, n, dir, max_lod) matches Some(m) ==> leaves.contains(m),
{
    if !leaves.contains(neighbor_at(n, dir, n.lod as int)) {
        lemma_coarser_is_leaf(leaves, n, dir, n.lod + 1, max_lod);
    }
}

proof fn lemma_coarser_is_leaf(leaves: Set<OctreeNode>, n: OctreeNode, dir: int, lod: int, max_lod: int)
    ensures
        coarser_neighbor_from(leaves, n, dir, lod, max_lod) matches Some(m) ==> leaves.contains(m),
    decreases max_lod + 1 - lod,
{
    if lod <= max_lod && !leaves.contains(neighbor_at(n, dir, lod)) {
        lemma_coarser_is_leaf(leaves, n, dir, lod + 1, max_lod);
    }
}

/// Find the face neighbor of a node in the given direction: the same-LOD
/// neighbor if it is a leaf, otherwise the nearest coarser leaf containing the
/// neighboring position, up to `max_lod`.
///
/// The LOD range `0..=30` and leaves within `±2^30` finest-level cells of the
/// origin are what keep the coordinate arithmetic in `i32`: children double a
/// coordinate, neighbors step it by one, and ancestors shift it by up to 30
/// LODs.
pub fn find_face_neighbor(node: &OctreeNode, direction: usize, leaves: &OctreeLeaves, max_lod: i32) -> (r:
    Option<OctreeNode>)
    requires
        direction < 6,
        node_in_range(*node),
        max_lod <= 30,
    ensures
        r == face_neighbor(leaves@, *node, direction as int, max_lod as int),
{
    proof {
        lemma_in_range_bounds(*node);
    }
    let (dx, dy, dz) = face_offset_of(direction);
    let nx = node.x + dx;
    let ny = node.y + dy;
    let nz = node.z + dz;
    let same = OctreeNode::new(nx, ny, nz, node.lod);
    proof {
        assert(pow2i(0) == 1);
        assert(neighbor_at(*node, direction as int, node.lod as int) == same);
    }
    if leaves.contains(&same) {
        return Some(same);
    }
    coarser_face_neighbor(node, direction, leaves, max_lod)
}

/// The nearest leaf coarser than `node` that contains the position next to it
/// in direction `direction`, at LODs `node.lod + 1 ..= max_lod`.
///
/// The LOD range `0..=30` and leaves within `±2^30` finest-level cells of the
/// origin are what keep the coordinate arithmetic in `i32`: children double a
/// coordinate, neighbors step it by one, and ancestors shift it by up to 30
/// LODs.
pub fn coarser_face_neighbor(node: &OctreeNode, direction: usize, leaves: &OctreeLeaves, max_lod: i32) -> (r:
    Option<OctreeNode>)
    requires
        direction < 6,
        node_in_range(*node),
        max_lod <= 30,
    ensures
        r == coarser_neighbor_from(leaves@, *node, direction as int, node.lod + 1, max_lod as int),
{
    proof {
        lemma_in_range_bounds(*node);
    }
    let (dx, dy, dz) = face_offset_of(direction);
    let nx = node.x + dx;
    let ny = node.y + dy;
    let nz = node.z + dz;
    let mut lod = node.lod + 1;
    while lod <= max_lod
        invariant
            node_in_range(*node),
            max_lod <= 30,
            direction < 6,
            node.lod + 1 <= lod,
            lod <= max_lod + 1 || lod == node.lod + 1,
            nx == node.x + face_offset(direction as int).0,
            ny == node.y + face_offset(direction as int).1,
            nz == node.z + face_offset(direction as int).2,
            -0x4000_0001 <= nx <= 0x4000_0001,
            -0x4000_0001 <= ny <= 0x4000_0001,
            -0x4000_0001 <= nz <= 0x4000_0001,
            coarser_neighbor_from(leaves@, *node, direction as int, node.lod + 1, max_lod as int)
                == coarser_neighbor_from(leaves@, *node, direction as int, lod as int, max_lod as int),
        decreases max_lod + 1 - lod,
    {
        let k = (lod - node.lod) as u32;
        proof {
            lemma_shl_is_pow2(k);
            lemma_pow2i_pos(k as int);
            lemma_div_bounds(nx as int, pow2i(k as int));
            lemma_div_bounds(ny as int, pow2i(k as int));
            lemma_div_bounds(nz as int, pow2i(k as int));
        }
        let scale: i32 = 1i32 << k;
        let cx = nx.checked_div_euclid(scale).unwrap();
        let cy = ny.checked_div_euclid(scale).unwrap();
        let cz = nz.checked_div_euclid(scale).unwrap();
        let coarser = OctreeNode::new(cx, cy, cz, lod);
        proof {
            assert(coarser == neighbor_at(*node, direction as int, lod as int));
        }
        if leaves.contains(&coarser) {
            return Some(coarser);
        }
        lod = lod + 1;
    }
    None
}

proof fn lemma_div_bounds(a: int, s: int)
    requires
        s >= 1,
        -0x4000_0001 <= a <= 0x4000_0001,
    ensures
        -0x4000_0001 <= a / s <= 0x4000_0001,
{
    if a >= 0 {
        assert(0 <= a / s <= a) by (nonlinear_arith)
            requires
                a >= 0,
                s >= 1,
        ;
    } else {
        assert(a <= a / s < 0) by (nonlinear_arith)
            requires
                a < 0,
                s >= 1,
        ;
    }
}

/// Check if all 8 children of `parent` are present in the leaves.
/// (A node at LOD 0 or below has no children, so the answer is then `false`.)
pub fn all_children_are_leaves(parent: &OctreeNode, leaves: &OctreeLeaves) -> (b: bool)
    requires
        parent.lod > 0 ==> children_fit(*parent),
    ensures
        b == (parent.lod > 0 && forall|o: int|
            0 <= o < 8 ==> leaves@.contains(#[trigger] children_seq(*parent)[o])),
{
    let mut octant: u8 = 0;
    while octant < 8
        invariant
            octant <= 8,
            parent.lod > 0 ==> children_fit(*parent),
            octant > 0 ==> parent.lod > 0,
            forall|o: int| 0 <= o < octant ==> leaves@.contains(#[trigger] children_seq(*parent)[o]),
        decreases 8 - octant,
    {
        match parent.get_child(octant) {
            None => {
                return false;
            },
            Some(child) => {
                if !leaves.contains(&child) {
                    assert(children_seq(*parent)[octant as int] == child);
                    return false;
                }
            },
        }
        octant = octant + 1;
    }
    true
}

// =============================================================================
// Applying transitions
// =============================================================================

/// Whether `n` passes the optional bounds filter (no config = keep all).
pub open spec fn keeps(config: Option<OctreeConfig>, n: OctreeNode) -> bool {
    match config {
        None => true,
        Some(c) => overlaps_bounds(c.world_bounds, n),
    }
}

/// The configuration behind an optional reference.
pub open spec fn config_of(c: Option<&OctreeConfig>) -> Option<OctreeConfig> {
    match c {
        Some(r) => Some(*r),
        None => None,
    }
}

/// The children of `p` among octants `0..k` that pass the bounds filter, in order.
pub open spec fn kept_children_prefix(p: OctreeNode, config: Option<OctreeConfig>, k: int) -> Seq<
    OctreeNode,
>
    decreases k,
{
    if k <= 0 {
        Seq::empty()
    } else {
        let prev = kept_children_prefix(p, config, k - 1);
        if keeps(config, child_of(p, (k - 1) as u8)) {
            prev.push(child_of(p, (k - 1) as u8))
        } else {
            prev
        }
    }
}

/// The children of `p` that pass the bounds filter, in octant order.
pub open spec fn kept_children(p: OctreeNode, config: Option<OctreeConfig>) -> Seq<OctreeNode> {
    kept_children_prefix(p, config, 8)
}

/// Every child of `p` lies inside the world bounds.
pub open spec fn all_children_in_bounds(p: OctreeNode, config: OctreeConfig) -> bool {
    forall|o: int| 0 <= o < 8 ==> overlaps_bounds(config.world_bounds, #[trigger] children_seq(p)[o])
}

/// With every child in bounds, the kept children are all 8 children.
pub proof fn lemma_all_kept(p: OctreeNode, config: OctreeConfig)
    requires
        all_children_in_bounds(p, config),
    ensures
        kept_children(p, Some(config)) == children_seq(p),
{
    assert forall|k: int| 0 <= k <= 8 implies #[trigger] kept_children_prefix(p, Some(config), k)
        == children_seq(p).take(k) by {
        lemma_all_kept_prefix(p, config, k);
    }
    assert(children_seq(p).take(8) =~= children_seq(p));
}

proof fn lemma_all_kept_prefix(p: OctreeNode, config: OctreeConfig, k: int)
    requires
        all_children_in_bounds(p, config),
        0 <= k <= 8,
    ensures
        kept_children_prefix(p, Some(config), k) == children_seq(p).take(k),
    decreases k,
{
    if k > 0 {
        lemma_all_kept_prefix(p, config, k - 1);
        assert(children_seq(p)[k - 1] == child_of(p, (k - 1) as u8));
        assert(children_seq(p).take(k) =~= children_seq(p).take(k - 1).push(child_of(p, (k - 1) as u8)));
    }
}

/// The kept children of an in-range node are in range, and there are at most `k`.
pub proof fn lemma_kept_are_children(p: OctreeNode, config: Option<OctreeConfig>, k: int)
    requires
        0 <= k <= 8,
    ensures
        kept_children_prefix(p, config, k).len() <= k,
        node_in_range(p) && p.lod > 0 ==> forall|i: int|
            0 <= i < kept_children_prefix(p, config, k).len() ==> node_in_range(
                #[trigger] kept_children_prefix(p, config, k)[i],
            ),
    decreases k,
{
    if k > 0 {
        lemma_kept_are_children(p, config, k - 1);
        let prev = kept_children_prefix(p, config, k - 1);
        let cur = kept_children_prefix(p, config, k);
        if node_in_range(p) && p.lod > 0 {
            assert forall|i: int| 0 <= i < cur.len() implies node_in_range(#[trigger] cur[i]) by {
                if i < prev.len() {
                    assert(cur[i] == prev[i]);
                } else {
                    assert(cur[i] == child_of(p, (k - 1) as u8));
                    lemma_child_in_range(p, (k - 1) as u8);
                }
            }
        }
    }
}

/// A subdivide group of `parent` adding the nodes `kids`.
pub open spec fn is_subdivide_of(g: TransitionGroup, parent: OctreeNode, kids: Seq<OctreeNode>) -> bool {
    &&& g.transition_type == TransitionType::Subdivide
    &&& g.group_key == parent
    &&& g.adds() == kids
    &&& g.removes() == seq![parent]
}

/// A merge group of `parent`, removing its 8 children.
pub open spec fn is_merge_of(g: TransitionGroup, parent: OctreeNode) -> bool {
    &&& g.transition_type == TransitionType::Merge
    &&& g.group_key == parent
    &&& g.adds() == seq![parent]
    &&& g.removes() == children_seq(parent)
}

/// The leaves after applying one group: its removed nodes taken out, its added
/// nodes put in.
pub open spec fn apply_group(s: Set<OctreeNode>, g: TransitionGroup) -> Set<OctreeNode> {
    s.difference(g.removes().to_set()).union(g.adds().to_set())
}

/// The leaves after applying a sequence of groups in order.
pub open spec fn apply_groups(s: Set<OctreeNode>, gs: Seq<TransitionGroup>) -> Set<OctreeNode>
    decreases gs.len(),
{
    if gs.len() == 0 {
        s
    } else {
        apply_group(apply_groups(s, gs.drop_last()), gs.last())
    }
}

/// Applying `gs` then `hs` is applying `gs + hs`.
pub proof fn lemma_apply_groups_concat(s: Set<OctreeNode>, gs: Seq<TransitionGroup>, hs: Seq<TransitionGroup>)
    ensures
        apply_groups(apply_groups(s, gs), hs) == apply_groups(s, gs + hs),
    decreases hs.len(),
{
    if hs.len() == 0 {
        assert(gs + hs =~= gs);
    } else {
        lemma_apply_groups_concat(s, gs, hs.drop_last());
        assert((gs + hs).drop_last() =~= gs + hs.drop_last());
        assert((gs + hs).last() == hs.last());
    }
}

proof fn lemma_apply_groups_push(s: Set<OctreeNode>, gs: Seq<TransitionGroup>, g: TransitionGroup)
    ensures
        apply_groups(s, gs.push(g)) == apply_group(apply_groups(s, gs), g),
{
    assert(gs.push(g).drop_last() =~= gs);
}

proof fn lemma_to_set_push(s: Seq<OctreeNode>, n: OctreeNode)
    ensures
        s.push(n).to_set() == s.to_set().insert(n),
{
    assert(s.push(n).to_set() =~= s.to_set().insert(n)) by {
        assert forall|x: OctreeNode| #[trigger] s.push(n).to_set().contains(x) <==> s.to_set().insert(n).contains(x) by {
            if s.push(n).contains(x) {
                let i = choose|i: int| 0 <= i < s.push(n).len() && s.push(n)[i] == x;
                if i < s.len() {
                    assert(s.contains(x));
                }
            }
            if s.contains(x) {
                let i = choose|i: int| 0 <= i < s.len() && s[i] == x;
                assert(s.push(n)[i] == x);
            }
            if x == n {
                assert(s.push(n)[s.len() as int] == n);
            }
        }
    }
}

/// Subdivide `parent`: remove it from the leaves and add its children that
/// pass the optional bounds filter. Nothing happens at LOD 0 or below, or when
/// no child passes the filter.
pub fn apply_subdivide(
    parent: &OctreeNode,
    leaves: &mut OctreeLeaves,
    groups: &mut Vec<TransitionGroup>,
    config: Option<&OctreeConfig>,
)
    requires
        parent.lod > 0 ==> children_fit(*parent),
    ensures
        ({
            let kids = kept_children(*parent, config_of(config));
            &&& (parent.lod <= 0 || kids.len() == 0) ==> final(leaves)@ == old(leaves)@
                && final(groups)@ == old(groups)@
            &&& (parent.lod > 0 && kids.len() > 0) ==> {
                &&& final(groups)@.len() == old(groups)@.len() + 1
                &&& final(groups)@.drop_last() == old(groups)@
                &&& is_subdivide_of(final(groups)@.last(), *parent, kids)
                &&& final(leaves)@ == apply_group(old(leaves)@, final(groups)@.last())
            }
        }),
{
    let ghost cfg = config_of(config);
    if parent.lod <= 0 {
        return;
    }
    let mut children = NodeBatch::new();
    let mut octant: u8 = 0;
    while octant < 8
        invariant
            octant <= 8,
            parent.lod > 0,
            children_fit(*parent),
            cfg == config_of(config),
            batch_nodes(children) == kept_children_prefix(*parent, cfg, octant as int),
        decreases 8 - octant,
    {
        proof {
            lemma_kept_are_children(*parent, cfg, octant as int);
        }
        let child = parent.get_child(octant).unwrap();
        let keep = match config {
            None => true,
            Some(c) => c.node_overlaps_bounds(&child),
        };
        if keep {
            children.push(child);
        }
        octant = octant + 1;
    }
    if children.is_empty() {
        return;
    }
    let ghost old_leaves = leaves@;
    let group = TransitionGroup::new_subdivide_filtered(*parent, children).unwrap();
    leaves.remove(parent);
    let mut i: usize = 0;
    let kids = group.nodes_to_add.as_slice();
    while i < kids.len()
        invariant
            i <= kids.len(),
            kids@ == group.adds(),
            leaves@ == old_leaves.remove(*parent).union(kids@.take(i as int).to_set()),
        decreases kids.len() - i,
    {
        proof {
            lemma_to_set_push(kids@.take(i as int), kids@[i as int]);
            assert(kids@.take(i as int + 1) =~= kids@.take(i as int).push(kids@[i as int]));
        }
        leaves.insert(kids[i]);
        i = i + 1;
    }
    proof {
        assert(kids@.take(kids@.len() as int) =~= kids@);
        assert(group.removes().to_set() =~= Set::empty().insert(*parent)) by {
            lemma_to_set_push(Seq::empty(), *parent);
            assert(seq![*parent] =~= Seq::<OctreeNode>::empty().push(*parent));
            assert(Seq::<OctreeNode>::empty().to_set() =~= Set::<OctreeNode>::empty());
        }
        assert(old_leaves.remove(*parent) =~= old_leaves.difference(group.removes().to_set()));
    }
    groups.push(group);
    proof {
        assert(groups@.drop_last() =~= old(groups)@);
    }
}

/// Merge the 8 children of `parent`: remove them from the leaves and add the
/// parent. Nothing happens at LOD 0 or below (no children).
pub fn apply_merge(parent: &OctreeNode, leaves: &mut OctreeLeaves, groups: &mut Vec<TransitionGroup>)
    requires
        parent.lod > 0 ==> children_fit(*parent),
    ensures
        parent.lod <= 0 ==> final(leaves)@ == old(leaves)@ && final(groups)@ == old(groups)@,
        parent.lod > 0 ==> {
            &&& final(groups)@.len() == old(groups)@.len() + 1
            &&& final(groups)@.drop_last() == old(groups)@
            &&& is_merge_of(final(groups)@.last(), *parent)
            &&& final(leaves)@ == apply_group(old(leaves)@, final(groups)@.last())
        },
{
    if parent.lod <= 0 {
        return;
    }
    let mut children = NodeBatch::new();
    let mut octant: u8 = 0;
    while octant < 8
        invariant
            octant <= 8,
            parent.lod > 0,
            children_fit(*parent),
            batch_nodes(children) == children_seq(*parent).take(octant as int),
        decreases 8 - octant,
    {
        let child = parent.get_child(octant).unwrap();
        proof {
            assert(children_seq(*parent).take(octant as int + 1) =~= children_seq(*parent).take(
                octant as int,
            ).push(child));
        }
        children.push(child);
        octant = octant + 1;
    }
    proof {
        assert(children_seq(*parent).take(8) =~= children_seq(*parent));
    }
    let ghost old_leaves = leaves@;
    let group = TransitionGroup::new_merge(*parent, children).unwrap();
    let kids = group.nodes_to_remove.as_slice();
    let mut i: usize = 0;
    while i < kids.len()
        invariant
            i <= kids.len(),
            kids@ == group.removes(),
            leaves@ == old_leaves.difference(kids@.take(i as int).to_set()),
        decreases kids.len() - i,
    {
        proof {
            lemma_to_set_push(kids@.take(i as int), kids@[i as int]);
            assert(kids@.take(i as int + 1) =~= kids@.take(i as int).push(kids@[i as int]));
        }
        leaves.remove(&kids[i]);
        i = i + 1;
        proof {
            assert(leaves@ =~= old_leaves.difference(kids@.take(i as int).to_set()));
        }
    }
    leaves.insert(*parent);
    proof {
        assert(kids@.take(kids@.len() as int) =~= kids@);
        lemma_to_set_push(Seq::empty(), *parent);
        assert(seq![*parent] =~= Seq::<OctreeNode>::empty().push(*parent));
        assert(Seq::<OctreeNode>::empty().to_set() =~= Set::<OctreeNode>::empty());
        assert(leaves@ =~= apply_group(old_leaves, group));
    }
    groups.push(group);
    proof {
        assert(groups@.drop_last() =~= old(groups)@);
    }
}

/// Apply one group to the leaves: remove its removed nodes, then add its
/// added nodes.
pub fn apply_transition(leaves: &mut OctreeLeaves, group: &TransitionGroup)
    ensures
        final(leaves)@ == apply_group(old(leaves)@, *group),
{
    let ghost s0 = leaves@;
    let rem = group.nodes_to_remove.as_slice();
    let mut i: usize = 0;
    proof {
        assert(Seq::<OctreeNode>::empty().to_set() =~= Set::<OctreeNode>::empty());
        assert(rem@.take(0) =~= Seq::<OctreeNode>::empty());
        assert(s0.difference(Set::<OctreeNode>::empty()) =~= s0);
    }
    while i < rem.len()
        invariant
            i <= rem@.len(),
            rem@ == group.removes(),
            leaves@ == s0.difference(rem@.take(i as int).to_set()),
        decreases rem@.len() - i,
    {
        proof {
            lemma_to_set_push(rem@.take(i as int), rem@[i as int]);
            assert(rem@.take(i as int + 1) =~= rem@.take(i as int).push(rem@[i as int]));
            assert(s0.difference(rem@.take(i as int).to_set()).remove(rem@[i as int]) =~= s0.difference(
                rem@.take(i as int).to_set().insert(rem@[i as int]),
            ));
        }
        leaves.remove(&rem[i]);
        i = i + 1;
    }
    proof {
        assert(rem@.take(rem@.len() as int) =~= rem@);
    }
    let ghost s1 = leaves@;
    let add = group.nodes_to_add.as_slice();
    let mut j: usize = 0;
    proof {
        assert(add@.take(0) =~= Seq::<OctreeNode>::empty());
        assert(s1.union(Set::<OctreeNode>::empty()) =~= s1);
    }
    while j < add.len()
        invariant
            j <= add@.len(),
            add@ == group.adds(),
            leaves@ == s1.union(add@.take(j as int).to_set()),
        decreases add@.len() - j,
    {
        proof {
            lemma_to_set_push(add@.take(j as int), add@[j as int]);
            assert(add@.take(j as int + 1) =~= add@.take(j as int).push(add@[j as int]));
            assert(s1.union(add@.take(j as int).to_set()).insert(add@[j as int]) =~= s1.union(
                add@.take(j as int).to_set().insert(add@[j as int]),
            ));
        }
        leaves.insert(add[j]);
        j = j + 1;
    }
    proof {
        assert(add@.take(add@.len() as int) =~= add@);
    }
}

/// Apply groups to the leaves in order (each removes its removed nodes, then
/// adds its added nodes).
pub fn apply_transitions(leaves: &mut OctreeLeaves, groups: &[TransitionGroup])
    ensures
        final(leaves)@ == apply_groups(old(leaves)@, groups@),
{
    let ghost s0 = leaves@;
    let mut gi: usize = 0;
    proof {
        assert(groups@.take(0) =~= Seq::<TransitionGroup>::empty());
    }
    while gi < groups.len()
        invariant
            gi <= groups@.len(),
            leaves@ == apply_groups(s0, groups@.take(gi as int)),
        decreases groups@.len() - gi,
    {
        apply_transition(leaves, &groups[gi]);
        proof {
            assert(groups@.take(gi as int + 1) =~= groups@.take(gi as int).push(groups@[gi as int]));
            lemma_apply_groups_push(s0, groups@.take(gi as int), groups@[gi as int]);
        }
        gi = gi + 1;
    }
    proof {
        assert(groups@.take(groups@.len() as int) =~= groups@);
    }
}

proof fn lemma_single_to_set(p: OctreeNode)
    ensures
        seq![p].to_set() == Set::<OctreeNode>::empty().insert(p),
{
    assert forall|x: OctreeNode| seq![p].to_set().contains(x) <==> x == p by {
        if x == p {
            assert(seq![p][0] == p);
        }
    }
    assert(seq![p].to_set() =~= Set::<OctreeNode>::empty().insert(p));
}

proof fn lemma_children_to_set(p: OctreeNode, x: OctreeNode)
    ensures
        children_seq(p).to_set().contains(x) <==> exists|o: int| 0 <= o < 8 && #[trigger] children_seq(p)[o] == x,
{
}

/// Merging a parent right after subdividing it gives back the leaves, when
/// the parent was a leaf and none of its children were.
pub proof fn lemma_merge_undoes_subdivide(
    s: Set<OctreeNode>,
    p: OctreeNode,
    subdivide: TransitionGroup,
    merge: TransitionGroup,
)
    requires
        p.lod > 0,
        s.contains(p),
        forall|o: int| 0 <= o < 8 ==> !s.contains(#[trigger] children_seq(p)[o]),
        is_subdivide_of(subdivide, p, children_seq(p)),
        is_merge_of(merge, p),
    ensures
        apply_group(apply_group(s, subdivide), merge) == s,
{
    lemma_single_to_set(p);
    let t = apply_group(apply_group(s, subdivide), merge);
    assert forall|x: OctreeNode| t.contains(x) <==> s.contains(x) by {
        lemma_children_to_set(p, x);
        if exists|o: int| 0 <= o < 8 && #[trigger] children_seq(p)[o] == x {
            let o = choose|o: int| 0 <= o < 8 && #[trigger] children_seq(p)[o] == x;
            assert(x.lod == p.lod - 1);
        }
    }
    assert(t =~= s);
}

/// Subdividing a parent right after merging it gives back the leaves, when
/// all 8 children were leaves and the parent was not.
pub proof fn lemma_subdivide_undoes_merge(
    s: Set<OctreeNode>,
    p: OctreeNode,
    merge: TransitionGroup,
    subdivide: TransitionGroup,
)
    requires
        p.lod > 0,
        !s.contains(p),
        forall|o: int| 0 <= o < 8 ==> s.contains(#[trigger] children_seq(p)[o]),
        is_merge_of(merge, p),
        is_subdivide_of(subdivide, p, children_seq(p)),
    ensures
        apply_group(apply_group(s, merge), subdivide) == s,
{
    lemma_single_to_set(p);
    let t = apply_group(apply_group(s, merge), subdivide);
    assert forall|x: OctreeNode| t.contains(x) <==> s.contains(x) by {
        lemma_children_to_set(p, x);
        if exists|o: int| 0 <= o < 8 && #[trigger] children_seq(p)[o] == x {
            let o = choose|o: int| 0 <= o < 8 && #[trigger] children_seq(p)[o] == x;
            assert(x.lod == p.lod - 1);
        }
    }
    assert(t =~= s);
}

// =============================================================================
// Neighbor enforcement
// =============================================================================

/// Every leaf is in range (see [`node_in_range`]).
pub open spec fn leaves_in_range(s: Set<OctreeNode>) -> bool {
    forall|n: OctreeNode| #[trigger] s.contains(n) ==> node_in_range(n)
}

/// `g` is a neighbor-enforcement subdivision applied to the leaves `before`:
/// some in-range node `m` has `g`'s key as face neighbor in `before`, more than
/// `max_relative_lod` LODs coarser; the key is a leaf above the finest LOD whose
/// 8 children all lie in bounds, and `g` replaces it by those 8 children.
/// (That `m` is a leaf of the step's round is stated by [`enforcement_rounds`].)
pub open spec fn is_neighbor_step(
    g: TransitionGroup,
    before: Set<OctreeNode>,
    config: OctreeConfig,
    budget: RefinementBudget,
) -> bool {
    &&& exists|m: OctreeNode, d: int|
        0 <= d < 6 && node_in_range(m) && #[trigger] face_neighbor(before, m, d, config.max_lod as int)
            == Some(g.group_key) && g.group_key.lod - m.lod > budget.max_relative_lod
    &&& before.contains(g.group_key)
    &&& g.group_key.lod > config.min_lod
    &&& all_children_in_bounds(g.group_key, config)
    &&& is_subdivide_of(g, g.group_key, children_seq(g.group_key))
}

/// Leaf `m` has, in face direction `d`, a face neighbor leaf that neighbor
/// enforcement would subdivide: more than `max_relative_lod` LODs coarser,
/// above `min_lod`, with all 8 children inside the world bounds.
pub open spec fn gradation_violation(
    leaves: Set<OctreeNode>,
    m: OctreeNode,
    d: int,
    config: OctreeConfig,
    budget: RefinementBudget,
) -> bool {
    match face_neighbor(leaves, m, d, config.max_lod as int) {
        Some(nb) => {
            &&& nb.lod - m.lod > budget.max_relative_lod
            &&& nb.lod > config.min_lod
            &&& leaves.contains(nb)
            &&& all_children_in_bounds(nb, config)
        },
        None => false,
    }
}

/// No leaf of `leaves` has a face neighbor that neighbor enforcement would
/// subdivide.
pub open spec fn gradation_settled(leaves: Set<OctreeNode>, config: OctreeConfig, budget: RefinementBudget) -> bool {
    forall|m: OctreeNode, d: int|
        leaves.contains(m) && 0 <= d < 6 ==> !#[trigger] gradation_violation(leaves, m, d, config, budget)
}

/// The number of enforcement rounds: `max_neighbor_iterations`, or 4 when that is 0.
pub open spec fn neighbor_rounds(budget: RefinementBudget) -> int {
    if budget.max_neighbor_iterations > 0 {
        budget.max_neighbor_iterations as int
    } else {
        4
    }
}

/// Step `s` of neighbor enforcement (group `base + s`) belongs to round `t`:
/// it lies within the round, and it subdivides the face neighbor, in
/// direction `w.1`, of `w.0`, a leaf when the round began, that neighbor
/// being more than `max_relative_lod` LODs coarser than `w.0`.
pub open spec fn round_step(
    groups: Seq<TransitionGroup>,
    base: int,
    s0: Set<OctreeNode>,
    starts: Seq<int>,
    t: int,
    w: (OctreeNode, int),
    s: int,
    config: OctreeConfig,
    budget: RefinementBudget,
) -> bool {
    &&& 0 <= t < starts.len()
    &&& starts[t] <= base + s
    &&& t + 1 < starts.len() ==> base + s < starts[t + 1]
    &&& 0 <= w.1 < 6
    &&& apply_groups(s0, groups.subrange(base, starts[t])).contains(w.0)
    &&& face_neighbor(apply_groups(s0, groups.subrange(base, base + s)), w.0, w.1, config.max_lod as int) == Some(
        groups[base + s].group_key,
    )
    &&& groups[base + s].group_key.lod - w.0.lod > budget.max_relative_lod
}

/// The groups from `base` on are neighbor enforcement steps made in at most
/// `neighbor_rounds` rounds starting at the group positions `starts`: step
/// `s` lies in round `rnd[s]` and is justified by the leaf and direction
/// `wits[s]` (see [`round_step`]), and no leaf and direction justifies two
/// steps of one round.
pub open spec fn enforcement_rounds(
    groups: Seq<TransitionGroup>,
    base: int,
    s0: Set<OctreeNode>,
    starts: Seq<int>,
    rnd: Seq<int>,
    wits: Seq<(OctreeNode, int)>,
    config: OctreeConfig,
    budget: RefinementBudget,
) -> bool {
    &&& rnd.len() == groups.len() - base
    &&& wits.len() == rnd.len()
    &&& starts.len() <= neighbor_rounds(budget)
    &&& forall|t: int| 0 <= t < starts.len() ==> base <= #[trigger] starts[t] <= groups.len()
    &&& forall|t1: int, t2: int| 0 <= t1 < t2 < starts.len() ==> #[trigger] starts[t1] <= #[trigger] starts[t2]
    &&& forall|s: int|
        0 <= s < rnd.len() ==> #[trigger] round_step(groups, base, s0, starts, rnd[s], wits[s], s, config, budget)
    &&& forall|s1: int, s2: int|
        0 <= s1 < s2 < rnd.len() && rnd[s1] == rnd[s2] ==> #[trigger] wits[s1] != #[trigger] wits[s2]
}

/// Steps of round `t` so far come from positions of `nodes` (leaf `jj`,
/// direction `dd`) before `bound` in node-then-direction order.
pub open spec fn round_positions(
    rnd: Seq<int>,
    wits: Seq<(OctreeNode, int)>,
    jj: Seq<int>,
    dd: Seq<int>,
    nodes: Seq<OctreeNode>,
    t: int,
    bound: int,
) -> bool {
    &&& jj.len() == rnd.len()
    &&& dd.len() == rnd.len()
    &&& forall|s: int|
        0 <= s < rnd.len() && #[trigger] rnd[s] == t ==> {
            &&& 0 <= jj[s] < nodes.len()
            &&& 0 <= dd[s] < 6
            &&& wits[s] == (nodes[jj[s]], dd[s])
            &&& jj[s] * 6 + dd[s] < bound
        }
}

/// Beginning a new round keeps the rounds well formed.
proof fn lemma_round_begin(
    groups: Seq<TransitionGroup>,
    base: int,
    s0: Set<OctreeNode>,
    starts: Seq<int>,
    rnd: Seq<int>,
    wits: Seq<(OctreeNode, int)>,
    config: OctreeConfig,
    budget: RefinementBudget,
)
    requires
        enforcement_rounds(groups, base, s0, starts, rnd, wits, config, budget),
        starts.len() < neighbor_rounds(budget),
        groups.len() >= base,
    ensures
        enforcement_rounds(groups, base, s0, starts.push(groups.len() as int), rnd, wits, config, budget),
        forall|s: int| 0 <= s < rnd.len() ==> #[trigger] rnd[s] < starts.len(),
{
    let st = starts.push(groups.len() as int);
    assert forall|s: int| 0 <= s < rnd.len() implies #[trigger] round_step(
        groups,
        base,
        s0,
        st,
        rnd[s],
        wits[s],
        s,
        config,
        budget,
    ) by {
        assert(round_step(groups, base, s0, starts, rnd[s], wits[s], s, config, budget));
        let t = rnd[s];
        assert(st[t] == starts[t]);
        if t + 1 < starts.len() {
            assert(st[t + 1] == starts[t + 1]);
        }
    }
    assert forall|t1: int, t2: int| 0 <= t1 < t2 < st.len() implies #[trigger] st[t1] <= #[trigger] st[t2] by {
        if t2 < starts.len() {
            assert(st[t1] == starts[t1] && st[t2] == starts[t2]);
        } else {
            assert(st[t1] == starts[t1]);
        }
    }
    assert forall|s: int| 0 <= s < rnd.len() implies #[trigger] rnd[s] < starts.len() by {
        assert(round_step(groups, base, s0, starts, rnd[s], wits[s], s, config, budget));
    }
}

/// A step of the current round, by the leaf at position `si` of the round's
/// snapshot and direction `dir`, keeps the rounds well formed.
proof fn lemma_round_step(
    gr: Seq<TransitionGroup>,
    gs_prev: Seq<TransitionGroup>,
    gs: Seq<TransitionGroup>,
    base: int,
    s0: Set<OctreeNode>,
    starts: Seq<int>,
    rnd: Seq<int>,
    wits: Seq<(OctreeNode, int)>,
    jj: Seq<int>,
    dd: Seq<int>,
    nodes: Seq<OctreeNode>,
    si: int,
    dir: int,
    config: OctreeConfig,
    budget: RefinementBudget,
)
    requires
        enforcement_rounds(gs_prev, base, s0, starts, rnd, wits, config, budget),
        0 <= base <= gs_prev.len(),
        starts.len() >= 1,
        nodes.no_duplicates(),
        gr.len() == starts[starts.len() - 1],
        gs_prev.len() >= gr.len(),
        gs_prev.subrange(0, gr.len() as int) == gr,
        nodes.to_set() == apply_groups(s0, gr.subrange(base, gr.len() as int)),
        0 <= si < nodes.len(),
        0 <= dir < 6,
        round_positions(rnd, wits, jj, dd, nodes, starts.len() - 1, si * 6 + dir),
        gs.len() == gs_prev.len() + 1,
        gs.subrange(0, gs_prev.len() as int) == gs_prev,
        face_neighbor(apply_groups(s0, gs_prev.subrange(base, gs_prev.len() as int)), nodes[si], dir, config.max_lod as int)
            == Some(gs.last().group_key),
        gs.last().group_key.lod - nodes[si].lod > budget.max_relative_lod,
    ensures
        enforcement_rounds(
            gs,
            base,
            s0,
            starts,
            rnd.push(starts.len() - 1),
            wits.push((nodes[si], dir)),
            config,
            budget,
        ),
        round_positions(
            rnd.push(starts.len() - 1),
            wits.push((nodes[si], dir)),
            jj.push(si),
            dd.push(dir),
            nodes,
            starts.len() - 1,
            si * 6 + dir + 1,
        ),
{
    let t = starts.len() - 1;
    let lp = gs_prev.len() as int;
    let r2 = rnd.push(t);
    let w2 = wits.push((nodes[si], dir));
    let j2 = jj.push(si);
    let d2 = dd.push(dir);
    assert forall|i: int| 0 <= i < lp implies #[trigger] gs[i] == gs_prev[i] by {
        assert(gs.subrange(0, lp)[i] == gs[i]);
    }
    assert forall|k: int| base <= k <= lp implies #[trigger] gs.subrange(base, k) == gs_prev.subrange(base, k) by {
        assert(gs.subrange(base, k) =~= gs_prev.subrange(base, k));
    }
    assert forall|x: int| 0 <= x < starts.len() implies base <= #[trigger] starts[x] <= gs.len() by {}
    assert(starts[t] <= lp);
    assert(gr.subrange(base, starts[t]) =~= gs_prev.subrange(base, starts[t])) by {
        assert forall|i: int| 0 <= i < starts[t] - base implies gr.subrange(base, starts[t])[i] == gs_prev.subrange(
            base,
            starts[t],
        )[i] by {
            assert(gs_prev.subrange(0, gr.len() as int)[base + i] == gs_prev[base + i]);
        }
    }
    assert forall|s: int| 0 <= s < r2.len() implies #[trigger] round_step(gs, base, s0, starts, r2[s], w2[s], s, config, budget) by {
        if s < rnd.len() {
            assert(r2[s] == rnd[s] && w2[s] == wits[s]);
            assert(round_step(gs_prev, base, s0, starts, rnd[s], wits[s], s, config, budget));
            assert(gs.subrange(base, starts[rnd[s]]) == gs_prev.subrange(base, starts[rnd[s]]));
            assert(gs.subrange(base, base + s) == gs_prev.subrange(base, base + s));
        } else {
            assert(base + s == lp);
            assert(gs.subrange(base, starts[t]) == gs_prev.subrange(base, starts[t]));
            assert(gs.subrange(base, base + s) == gs_prev.subrange(base, lp));
            assert(nodes.to_set().contains(nodes[si]));
            assert(gs[lp] == gs.last());
        }
    }
    assert forall|s1: int, s2: int| 0 <= s1 < s2 < r2.len() && r2[s1] == r2[s2] implies #[trigger] w2[s1]
        != #[trigger] w2[s2] by {
        if s2 < rnd.len() {
            assert(w2[s1] == wits[s1] && w2[s2] == wits[s2]);
        } else {
            assert(r2[s1] == rnd[s1]);
            assert(w2[s1] == wits[s1]);
            if wits[s1] == (nodes[si], dir) {
                assert(nodes[jj[s1]] == nodes[si]);
                assert(jj[s1] == si);
            }
        }
    }
    assert forall|s: int| 0 <= s < r2.len() && #[trigger] r2[s] == t implies {
        &&& 0 <= j2[s] < nodes.len()
        &&& 0 <= d2[s] < 6
        &&& w2[s] == (nodes[j2[s]], d2[s])
        &&& j2[s] * 6 + d2[s] < si * 6 + dir + 1
    } by {
        if s < rnd.len() {
            assert(r2[s] == rnd[s] && w2[s] == wits[s] && j2[s] == jj[s] && d2[s] == dd[s]);
        }
    }
}

/// State kept while enforcing neighbors: the groups after `base` are neighbor
/// steps, `count` of them, and the leaves are `s0` with them applied.
#[verifier::opaque]
pub open spec fn enforce_inv(
    leaves: Set<OctreeNode>,
    groups: Seq<TransitionGroup>,
    base: int,
    count: int,
    s0: Set<OctreeNode>,
    config: OctreeConfig,
    budget: RefinementBudget,
) -> bool {
    &&& 0 <= base <= groups.len()
    &&& count == groups.len() - base
    &&& leaves == apply_groups(s0, groups.subrange(base, groups.len() as int))
    &&& leaves_in_range(leaves)
    &&& forall|i: int|
        base <= i < groups.len() ==> is_neighbor_step(
            #[trigger] groups[i],
            apply_groups(s0, groups.subrange(base, i)),
            config,
            budget,
        )
}

/// Subdividing an in-range leaf keeps every leaf in range.
proof fn lemma_subdivide_keeps_range(
    s: Set<OctreeNode>,
    g: TransitionGroup,
    p: OctreeNode,
    config: Option<OctreeConfig>,
)
    requires
        leaves_in_range(s),
        node_in_range(p),
        p.lod > 0,
        is_subdivide_of(g, p, kept_children(p, config)),
    ensures
        leaves_in_range(apply_group(s, g)),
{
    lemma_kept_are_children(p, config, 8);
    assert forall|n: OctreeNode| #[trigger] apply_group(s, g).contains(n) implies node_in_range(n) by {
        if g.adds().to_set().contains(n) {
            let i = choose|i: int| 0 <= i < g.adds().len() && g.adds()[i] == n;
        }
    }
}

/// Copy the current leaves.
fn snapshot(leaves: &OctreeLeaves) -> (v: Vec<OctreeNode>)
    ensures
        v@.to_set() == leaves@,
        v@.no_duplicates(),
{
    let s = leaves.as_set();
    let mut v: Vec<OctreeNode> = Vec::new();
    let mut i: usize = 0;
    while i < s.len()
        invariant
            i <= s.len(),
            v@ == s@.take(i as int),
        decreases s.len() - i,
    {
        v.push(s[i]);
        i = i + 1;
        proof {
            assert(v@ =~= s@.take(i as int));
        }
    }
    proof {
        assert(s@.take(s@.len() as int) =~= s@);
    }
    v
}

/// Whether all 8 children of `node` (LOD above 0) lie in the world bounds.
fn all_children_within_bounds(node: &OctreeNode, config: &OctreeConfig) -> (b: bool)
    requires
        node.lod > 0,
        children_fit(*node),
    ensures
        b == all_children_in_bounds(*node, *config),
{
    let mut octant: u8 = 0;
    while octant < 8
        invariant
            octant <= 8,
            node.lod > 0,
            children_fit(*node),
            forall|o: int|
                0 <= o < octant ==> overlaps_bounds(config.world_bounds, #[trigger] children_seq(*node)[o]),
        decreases 8 - octant,
    {
        let child = node.get_child(octant).unwrap();
        assert(children_seq(*node)[octant as int] == child);
        if !config.node_overlaps_bounds(&child) {
            return false;
        }
        octant = octant + 1;
    }
    true
}

#[verifier::spinoff_prover]
#[verifier::rlimit(30)]
proof fn lemma_enforce_step(
    s0: Set<OctreeNode>,
    base: int,
    gs_before: Seq<TransitionGroup>,
    gs_after: Seq<TransitionGroup>,
    before: Set<OctreeNode>,
    after: Set<OctreeNode>,
    node: OctreeNode,
    dir: int,
    neighbor: OctreeNode,
    config: OctreeConfig,
    budget: RefinementBudget,
    count: int,
)
    requires
        enforce_inv(before, gs_before, base, count, s0, config, budget),
        gs_after.len() == gs_before.len() + 1,
        gs_after.drop_last() == gs_before,
        is_subdivide_of(gs_after.last(), neighbor, children_seq(neighbor)),
        after == apply_group(before, gs_after.last()),
        0 <= dir < 6,
        node_in_range(node),
        node_in_range(neighbor),
        face_neighbor(before, node, dir, config.max_lod as int) == Some(neighbor),
        neighbor.lod - node.lod > budget.max_relative_lod,
        before.contains(neighbor),
        neighbor.lod > config.min_lod,
        config.min_lod >= 0,
        all_children_in_bounds(neighbor, config),
        kept_children(neighbor, Some(config)) == children_seq(neighbor),
    ensures
        enforce_inv(after, gs_after, base, count + 1, s0, config, budget),
        gs_after.subrange(0, gs_before.len() as int) == gs_before,
        count + 1 <= gs_after.len(),
{
    reveal(enforce_inv);
    let g = gs_after.last();
    let n_old = gs_before.len() as int;
    assert(gs_after =~= gs_before.push(g));
    assert(gs_after.subrange(base, gs_after.len() as int) =~= gs_before.subrange(base, n_old).push(g));
    lemma_apply_groups_push(s0, gs_before.subrange(base, n_old), g);
    lemma_subdivide_keeps_range(before, g, neighbor, Some(config));
    assert(gs_after.subrange(0, n_old) =~= gs_before);
    assert forall|i: int| base <= i < gs_after.len() implies is_neighbor_step(
        #[trigger] gs_after[i],
        apply_groups(s0, gs_after.subrange(base, i)),
        config,
        budget,
    ) by {
        assert(gs_after.subrange(base, i) =~= gs_before.subrange(base, i));
        if i < n_old {
            assert(gs_after[i] == gs_before[i]);
        } else {
            assert(gs_after.subrange(base, i) =~= gs_before.subrange(base, n_old));
            assert(face_neighbor(before, node, dir, config.max_lod as int) == Some(g.group_key));
        }
    }
}

proof fn lemma_enforce_inv_facts(
    leaves: Set<OctreeNode>,
    groups: Seq<TransitionGroup>,
    base: int,
    count: int,
    s0: Set<OctreeNode>,
    config: OctreeConfig,
    budget: RefinementBudget,
)
    requires
        enforce_inv(leaves, groups, base, count, s0, config, budget),
    ensures
        leaves_in_range(leaves),
        0 <= count <= groups.len(),
        0 <= base <= groups.len(),
        count == groups.len() - base,
{
    reveal(enforce_inv);
}

/// One neighbor check of [`enforce_neighbor_gradation`]: look at the face
/// neighbor of `node` in direction `dir` and subdivide it when it is too coarse.
/// Returns the updated count and whether a subdivision happened.
fn enforce_at(
    node: &OctreeNode,
    dir: usize,
    leaves: &mut OctreeLeaves,
    groups: &mut Vec<TransitionGroup>,
    config: &OctreeConfig,
    budget: &RefinementBudget,
    count: usize,
    Ghost(base): Ghost<int>,
    Ghost(s0): Ghost<Set<OctreeNode>>,
) -> (r: (usize, bool))
    requires
        dir < 6,
        node_in_range(*node),
        config.lods_in_range(),
        enforce_inv(old(leaves)@, old(groups)@, base, count as int, s0, *config, *budget),
    ensures
        final(groups)@.len() >= old(groups)@.len(),
        final(groups)@.subrange(0, old(groups)@.len() as int) == old(groups)@,
        enforce_inv(final(leaves)@, final(groups)@, base, r.0 as int, s0, *config, *budget),
        r.1 ==> r.0 == count + 1,
        r.1 ==> final(groups)@.len() == old(groups)@.len() + 1 && face_neighbor(
            old(leaves)@,
            *node,
            dir as int,
            config.max_lod as int,
        ) == Some(final(groups)@.last().group_key) && final(groups)@.last().group_key.lod - node.lod
            > budget.max_relative_lod,
        !r.1 ==> r.0 == count && final(leaves)@ == old(leaves)@ && !gradation_violation(
            old(leaves)@,
            *node,
            dir as int,
            *config,
            *budget,
        ),
{
    let mut neighbor_subdivisions = count;
    let mut changed = false;
    proof {
        assert(groups@.subrange(0, groups@.len() as int) =~= groups@);
        lemma_enforce_inv_facts(leaves@, groups@, base, count as int, s0, *config, *budget);
    }
    let found = find_face_neighbor(node, dir, leaves, config.max_lod);
    proof {
        lemma_face_neighbor_is_leaf(leaves@, *node, dir as int, config.max_lod as int);
    }
    match found {
        Some(neighbor) => {
            proof {
                assert(node_in_range(neighbor));
                lemma_in_range_bounds(neighbor);
            }
            let lod_diff = neighbor.lod - node.lod;
            if lod_diff > budget.max_relative_lod {
                if neighbor.lod > config.min_lod && leaves.contains(&neighbor)
                    && all_children_within_bounds(&neighbor, config) {
                    let ghost before = leaves@;
                    let ghost gs_before = groups@;
                    proof {
                        lemma_all_kept(neighbor, *config);
                    }
                    apply_subdivide(&neighbor, leaves, groups, Some(config));
                    proof {
                        lemma_kept_are_children(neighbor, Some(*config), 8);
                        lemma_enforce_step(
                            s0,
                            base,
                            gs_before,
                            groups@,
                            before,
                            leaves@,
                            *node,
                            dir as int,
                            neighbor,
                            *config,
                            *budget,
                            count as int,
                        );
                        assert(count + 1 <= groups.len());
                    }
                    neighbor_subdivisions = neighbor_subdivisions + 1;
                    changed = true;
                }
            }
        },
        None => {},
    }
    (neighbor_subdivisions, changed)
}

/// Enforce neighbor LOD gradation: repeatedly (up to `max_neighbor_iterations`
/// rounds, 4 when that is 0, stopping early once a round changes nothing),
/// for every leaf and face direction, subdivide a face neighbor that is more
/// than `max_relative_lod` LODs coarser, is still a leaf above `min_lod`, and
/// whose 8 children all lie inside the world bounds (boundary nodes that would
/// only get part of their children are left coarse).
///
/// Returns the number of subdivisions performed; 0 when enforcement is disabled.
fn enforce_neighbor_gradation(
    leaves: &mut OctreeLeaves,
    groups: &mut Vec<TransitionGroup>,
    config: &OctreeConfig,
    budget: &RefinementBudget,
) -> (count: usize)
    requires
        leaves_in_range(old(leaves)@),
        config.lods_in_range(),
    ensures
        final(groups)@.len() >= old(groups)@.len(),
        final(groups)@.subrange(0, old(groups)@.len() as int) == old(groups)@,
        enforce_inv(
            final(leaves)@,
            final(groups)@,
            old(groups)@.len() as int,
            count as int,
            old(leaves)@,
            *config,
            *budget,
        ),
        budget.max_relative_lod <= 0 ==> count == 0,
        budget.max_relative_lod > 0 && count < neighbor_rounds(*budget) ==> gradation_settled(
            final(leaves)@,
            *config,
            *budget,
        ),
        exists|starts: Seq<int>, rnd: Seq<int>, wits: Seq<(OctreeNode, int)>|
            #[trigger] enforcement_rounds(
                final(groups)@,
                old(groups)@.len() as int,
                old(leaves)@,
                starts,
                rnd,
                wits,
                *config,
                *budget,
            ),
{
    let ghost base = groups@.len() as int;
    let ghost s0 = leaves@;
    let ghost g0 = groups@;
    let ghost mut starts: Seq<int> = Seq::empty();
    let ghost mut rnd: Seq<int> = Seq::empty();
    let ghost mut wits: Seq<(OctreeNode, int)> = Seq::empty();
    let ghost mut jj: Seq<int> = Seq::empty();
    let ghost mut dd: Seq<int> = Seq::empty();
    proof {
        reveal(enforce_inv);
        assert(groups@.subrange(base, base) =~= Seq::<TransitionGroup>::empty());
        assert(groups@.subrange(0, base) =~= g0);
        assert(enforce_inv(leaves@, groups@, base, 0, s0, *config, *budget));
        assert(enforcement_rounds(groups@, base, s0, starts, rnd, wits, *config, *budget));
    }
    if !budget.neighbor_enforcement_enabled() {
        return 0;
    }
    let mut neighbor_subdivisions: usize = 0;
    let max_iterations = if budget.max_neighbor_iterations > 0 {
        budget.max_neighbor_iterations
    } else {
        4
    };
    let mut iteration: usize = 0;
    while iteration < max_iterations
        invariant_except_break
            starts.len() == iteration,
        invariant
            config.lods_in_range(),
            groups@.len() >= base,
            groups@.subrange(0, base) == g0,
            base == g0.len(),
            enforce_inv(leaves@, groups@, base, neighbor_subdivisions as int, s0, *config, *budget),
            max_iterations as int == neighbor_rounds(*budget),
            iteration <= neighbor_subdivisions,
            enforcement_rounds(groups@, base, s0, starts, rnd, wits, *config, *budget),
            jj.len() == rnd.len(),
            dd.len() == rnd.len(),
        ensures
            config.lods_in_range(),
            groups@.len() >= base,
            groups@.subrange(0, base) == g0,
            enforce_inv(leaves@, groups@, base, neighbor_subdivisions as int, s0, *config, *budget),
            neighbor_subdivisions < max_iterations ==> gradation_settled(leaves@, *config, *budget),
            enforcement_rounds(groups@, base, s0, starts, rnd, wits, *config, *budget),
        decreases max_iterations - iteration,
    {
        let mut changed = false;
        let nodes = snapshot(leaves);
        let ghost round_leaves = leaves@;
        let ghost round_count = neighbor_subdivisions as int;
        let ghost gr = groups@;
        proof {
            lemma_round_begin(groups@, base, s0, starts, rnd, wits, *config, *budget);
            starts = starts.push(groups@.len() as int);
            reveal(enforce_inv);
            assert(groups@.subrange(0, gr.len() as int) =~= gr);
        }
        proof {
            lemma_enforce_inv_facts(leaves@, groups@, base, neighbor_subdivisions as int, s0, *config, *budget);
            assert forall|j: int| 0 <= j < nodes@.len() implies node_in_range(#[trigger] nodes@[j]) by {
                assert(nodes@.contains(nodes@[j]));
                assert(leaves@.contains(nodes@[j]));
            }
        }
        let mut si: usize = 0;
        while si < nodes.len()
            invariant
                config.lods_in_range(),
                groups@.len() >= base,
                groups@.subrange(0, base) == g0,
                base == g0.len(),
                enforce_inv(leaves@, groups@, base, neighbor_subdivisions as int, s0, *config, *budget),
                forall|j: int| 0 <= j < nodes@.len() ==> node_in_range(#[trigger] nodes@[j]),
                neighbor_subdivisions >= round_count,
                changed ==> neighbor_subdivisions > round_count,
                !changed ==> neighbor_subdivisions == round_count && leaves@ == round_leaves,
                !changed ==> forall|j: int, d: int|
                    0 <= j < si && 0 <= d < 6 ==> !#[trigger] gradation_violation(
                        round_leaves,
                        nodes@[j],
                        d,
                        *config,
                        *budget,
                    ),
                starts.len() == iteration + 1,
                starts.len() >= 1,
                enforcement_rounds(groups@, base, s0, starts, rnd, wits, *config, *budget),
                round_positions(rnd, wits, jj, dd, nodes@, starts.len() - 1, si * 6),
                nodes@.no_duplicates(),
                gr.len() == starts[starts.len() - 1],
                groups@.len() >= gr.len(),
                groups@.subrange(0, gr.len() as int) == gr,
                nodes@.to_set() == apply_groups(s0, gr.subrange(base, gr.len() as int)),
                base <= gr.len(),
            decreases nodes.len() - si,
        {
            let node = nodes[si];
            let mut dir: usize = 0;
            while dir < 6
                invariant
                    config.lods_in_range(),
                    groups@.len() >= base,
                    groups@.subrange(0, base) == g0,
                    base == g0.len(),
                    enforce_inv(leaves@, groups@, base, neighbor_subdivisions as int, s0, *config, *budget),
                    node_in_range(node),
                    node == nodes@[si as int],
                    si < nodes@.len(),
                    neighbor_subdivisions >= round_count,
                    changed ==> neighbor_subdivisions > round_count,
                    !changed ==> neighbor_subdivisions == round_count && leaves@ == round_leaves,
                    !changed ==> forall|j: int, d: int|
                        0 <= j < si && 0 <= d < 6 ==> !#[trigger] gradation_violation(
                            round_leaves,
                            nodes@[j],
                            d,
                            *config,
                            *budget,
                        ),
                    !changed ==> forall|d: int|
                        0 <= d < dir ==> !#[trigger] gradation_violation(round_leaves, node, d, *config, *budget),
                    dir <= 6,
                    starts.len() == iteration + 1,
                    starts.len() >= 1,
                    enforcement_rounds(groups@, base, s0, starts, rnd, wits, *config, *budget),
                    round_positions(rnd, wits, jj, dd, nodes@, starts.len() - 1, si * 6 + dir),
                    nodes@.no_duplicates(),
                    gr.len() == starts[starts.len() - 1],
                    groups@.len() >= gr.len(),
                    groups@.subrange(0, gr.len() as int) == gr,
                    nodes@.to_set() == apply_groups(s0, gr.subrange(base, gr.len() as int)),
                    base <= gr.len(),
                decreases 6 - dir,
            {
                let ghost gs_prev = groups@;
                let ghost l_prev = leaves@;
                let (c, stepped) = enforce_at(&node, dir, leaves, groups, config, budget, neighbor_subdivisions, Ghost(base), Ghost(s0));
                neighbor_subdivisions = c;
                proof {
                    assert(groups@.subrange(0, base) =~= groups@.subrange(0, gs_prev.len() as int).subrange(0, base));
                    assert(groups@.subrange(0, gr.len() as int) =~= groups@.subrange(0, gs_prev.len() as int).subrange(0, gr.len() as int));
                    reveal(enforce_inv);
                    if stepped {
                        lemma_round_step(
                            gr,
                            gs_prev,
                            groups@,
                            base,
                            s0,
                            starts,
                            rnd,
                            wits,
                            jj,
                            dd,
                            nodes@,
                            si as int,
                            dir as int,
                            *config,
                            *budget,
                        );
                        rnd = rnd.push(starts.len() - 1);
                        wits = wits.push((node, dir as int));
                        jj = jj.push(si as int);
                        dd = dd.push(dir as int);
                    } else {
                        assert(groups@ =~= gs_prev);
                    }
                }
                if stepped {
                    changed = true;
                }
                dir = dir + 1;
            }
            si = si + 1;
        }
        if !changed {
            proof {
                assert forall|m: OctreeNode, d: int| leaves@.contains(m) && 0 <= d < 6 implies !#[trigger] gradation_violation(
                    leaves@,
                    m,
                    d,
                    *config,
                    *budget,
                ) by {
                    assert(nodes@.to_set().contains(m));
                    let j = choose|j: int| 0 <= j < nodes@.len() && nodes@[j] == m;
                    assert(!gradation_violation(round_leaves, nodes@[j], d, *config, *budget));
                }
            }
            break;
        }
        iteration = iteration + 1;
    }
    neighbor_subdivisions
}

// =============================================================================
// Refinement
// =============================================================================

/// What the viewer position says about one leaf. The distance tests are
/// floating-point work done by the caller.
#[derive(Clone, Copy, Debug, PartialEq, Eq, Structural)]
pub struct LeafPriority {
    /// The leaf.
    pub node: OctreeNode,
    /// The viewer is closer to the leaf's center than the leaf's LOD threshold.
    pub within_threshold: bool,
    /// The viewer is at least the parent's LOD threshold away from the parent's center.
    pub parent_beyond_threshold: bool,
    /// Ordering key of the viewer's squared distance to the leaf's center
    /// (smaller = closer).
    pub distance_key: u64,
    /// Ordering key of the viewer's squared distance to the parent's center.
    pub parent_distance_key: u64,
}

/// Input for refinement calculation.
pub struct RefinementInput {
    /// Current leaves, each once, with the viewer's assessment of each.
    pub leaves: Vec<LeafPriority>,
    /// Octree configuration (LOD range and world bounds).
    pub config: OctreeConfig,
    /// Budget configuration for rate limiting.
    pub budget: RefinementBudget,
}

/// Output from refinement calculation.
pub struct RefinementOutput {
    /// Updated set of leaf nodes.
    pub next_leaves: OctreeLeaves,
    /// Transition groups, in the order they were applied: collapses, then
    /// subdivisions, then neighbor enforcement subdivisions.
    pub transition_groups: Vec<TransitionGroup>,
    /// Statistics from refinement execution.
    pub stats: RefinementStats,
}

/// The leaf, inside the bounds and above `min_lod`, is close enough to subdivide.
pub open spec fn wants_subdivide(l: LeafPriority, config: OctreeConfig) -> bool {
    &&& overlaps_bounds(config.world_bounds, l.node)
    &&& l.node.lod > config.min_lod
    &&& l.within_threshold
}

/// The leaf, inside the bounds, not subdividing and below `max_lod`, has a
/// parent far enough away to collapse into.
pub open spec fn wants_coarsen(l: LeafPriority, config: OctreeConfig) -> bool {
    &&& overlaps_bounds(config.world_bounds, l.node)
    &&& !(l.node.lod > config.min_lod && l.within_threshold)
    &&& l.node.lod < config.max_lod
    &&& l.parent_beyond_threshold
}

/// Whether some entry of `cands` names node `n`.
pub open spec fn names_node(cands: Seq<(OctreeNode, u64)>, n: OctreeNode) -> bool {
    exists|i: int| 0 <= i < cands.len() && (#[trigger] cands[i]).0 == n
}

/// Leaves to subdivide with their distance keys, in input order.
pub open spec fn subdivide_candidates(ls: Seq<LeafPriority>, config: OctreeConfig) -> Seq<(OctreeNode, u64)>
    decreases ls.len(),
{
    if ls.len() == 0 {
        Seq::empty()
    } else {
        let prev = subdivide_candidates(ls.drop_last(), config);
        let l = ls.last();
        if wants_subdivide(l, config) {
            prev.push((l.node, l.distance_key))
        } else {
            prev
        }
    }
}

/// Parents to collapse into with their distance keys, each once, in order of
/// the first leaf that asks for them (and with that leaf's key).
pub open spec fn coarsen_candidates(ls: Seq<LeafPriority>, config: OctreeConfig) -> Seq<(OctreeNode, u64)>
    decreases ls.len(),
{
    if ls.len() == 0 {
        Seq::empty()
    } else {
        let prev = coarsen_candidates(ls.drop_last(), config);
        let l = ls.last();
        if wants_coarsen(l, config) && !names_node(prev, parent_of(l.node)) {
            prev.push((parent_of(l.node), l.parent_distance_key))
        } else {
            prev
        }
    }
}

/// The entries of `cands` name pairwise different nodes.
pub open spec fn distinct_nodes(cands: Seq<(OctreeNode, u64)>) -> bool {
    forall|i: int, j: int| 0 <= i < cands.len() && 0 <= j < cands.len() && i != j ==> (#[trigger] cands[i]).0
        != (#[trigger] cands[j]).0
}

/// The key that `cands` gives node `n`.
pub open spec fn key_in(cands: Seq<(OctreeNode, u64)>, n: OctreeNode) -> u64 {
    cands[choose|i: int| 0 <= i < cands.len() && (#[trigger] cands[i]).0 == n].1
}

/// With distinct nodes, an entry's key is the key `cands` gives its node.
pub proof fn lemma_key_in(cands: Seq<(OctreeNode, u64)>, i: int)
    requires
        distinct_nodes(cands),
        0 <= i < cands.len(),
    ensures
        key_in(cands, cands[i].0) == cands[i].1,
{
    let j = choose|j: int| 0 <= j < cands.len() && (#[trigger] cands[j]).0 == cands[i].0;
    assert(cands[j].0 == cands[i].0);
}

/// The leaves' nodes are pairwise different.
pub open spec fn distinct_leaves(ls: Seq<LeafPriority>) -> bool {
    forall|i: int, j: int| 0 <= i < ls.len() && 0 <= j < ls.len() && i != j ==> (#[trigger] ls[i]).node
        != (#[trigger] ls[j]).node
}

/// The set of leaf nodes.
pub open spec fn leaf_set(ls: Seq<LeafPriority>) -> Set<OctreeNode> {
    Set::new(|n: OctreeNode| exists|i: int| 0 <= i < ls.len() && (#[trigger] ls[i]).node == n)
}

/// Index of the leaf whose node is `n`.
pub open spec fn leaf_index(ls: Seq<LeafPriority>, n: OctreeNode) -> int {
    choose|i: int| 0 <= i < ls.len() && (#[trigger] ls[i]).node == n
}

/// The distance key of the leaf whose node is `n`.
pub open spec fn leaf_key(ls: Seq<LeafPriority>, n: OctreeNode) -> u64 {
    ls[leaf_index(ls, n)].distance_key
}

proof fn lemma_leaf_index(ls: Seq<LeafPriority>, i: int)
    requires
        distinct_leaves(ls),
        0 <= i < ls.len(),
    ensures
        leaf_index(ls, ls[i].node) == i,
{
    let j = leaf_index(ls, ls[i].node);
    assert(0 <= j < ls.len() && ls[j].node == ls[i].node);
}

/// Subdivision candidates of distinct leaves name distinct nodes.
proof fn lemma_subdivide_candidates_distinct(ls: Seq<LeafPriority>, config: OctreeConfig)
    requires
        distinct_leaves(ls),
    ensures
        distinct_nodes(subdivide_candidates(ls, config)),
    decreases ls.len(),
{
    if ls.len() > 0 {
        let d = ls.drop_last();
        assert forall|i: int, j: int| 0 <= i < d.len() && 0 <= j < d.len() && i != j implies (
        #[trigger] d[i]).node != (#[trigger] d[j]).node by {
            assert(d[i] == ls[i]);
            assert(d[j] == ls[j]);
        }
        lemma_subdivide_candidates_distinct(d, config);
        lemma_subdivide_candidates(d, config);
        let prev = subdivide_candidates(d, config);
        let cur = subdivide_candidates(ls, config);
        if wants_subdivide(ls.last(), config) {
            assert forall|i: int, j: int| 0 <= i < cur.len() && 0 <= j < cur.len() && i != j implies (
            #[trigger] cur[i]).0 != (#[trigger] cur[j]).0 by {
                if i < prev.len() && j < prev.len() {
                    assert(cur[i] == prev[i] && cur[j] == prev[j]);
                } else {
                    let k = if i < prev.len() { i } else { j };
                    assert(cur[k] == prev[k]);
                    let li = leaf_index(d, prev[k].0);
                    assert(d[li] == ls[li]);
                    assert(ls[li].node != ls[ls.len() - 1].node);
                }
            }
        }
    }
}

/// A reordering of entries with distinct nodes has distinct nodes.
proof fn lemma_permutation_distinct(r: Seq<(OctreeNode, u64)>, v: Seq<(OctreeNode, u64)>)
    requires
        r.to_multiset() == v.to_multiset(),
        distinct_nodes(v),
    ensures
        distinct_nodes(r),
{
    broadcast use vstd::seq_lib::group_to_multiset_ensures;

    assert(v.no_duplicates()) by {
        assert forall|a: int, b: int| 0 <= a < v.len() && 0 <= b < v.len() && a != b implies v[a] != v[b] by {
            assert(v[a].0 != v[b].0);
        }
    }
    v.lemma_multiset_has_no_duplicates();
    r.lemma_multiset_has_no_duplicates_conv();
    assert forall|a: int, b: int| 0 <= a < r.len() && 0 <= b < r.len() && a != b implies (#[trigger] r[a]).0 != (
    #[trigger] r[b]).0 by {
        lemma_sorted_member(r, v, a);
        lemma_sorted_member(r, v, b);
        let p = choose|p: int| 0 <= p < v.len() && v[p] == r[a];
        let q = choose|q: int| 0 <= q < v.len() && v[q] == r[b];
        if r[a].0 == r[b].0 {
            assert(p == q);
            assert(r[a] == r[b]);
        }
    }
}

/// Each subdivision candidate is a leaf that wants to subdivide, with its key.
#[verifier::spinoff_prover]
proof fn lemma_subdivide_candidates(ls: Seq<LeafPriority>, config: OctreeConfig)
    requires
        distinct_leaves(ls),
    ensures
        forall|j: int|
            0 <= j < subdivide_candidates(ls, config).len() ==> {
                let c = #[trigger] subdivide_candidates(ls, config)[j];
                &&& 0 <= leaf_index(ls, c.0) < ls.len()
                &&& ls[leaf_index(ls, c.0)].node == c.0
                &&& c.1 == leaf_key(ls, c.0)
                &&& wants_subdivide(ls[leaf_index(ls, c.0)], config)
            },
    decreases ls.len(),
{
    if ls.len() > 0 {
        let d = ls.drop_last();
        assert forall|i: int, j: int| 0 <= i < d.len() && 0 <= j < d.len() && i != j implies (
        #[trigger] d[i]).node != (#[trigger] d[j]).node by {
            assert(d[i] == ls[i]);
            assert(d[j] == ls[j]);
        }
        lemma_subdivide_candidates(d, config);
        let prev = subdivide_candidates(d, config);
        let cur = subdivide_candidates(ls, config);
        let last = ls.len() - 1;
        assert forall|j: int| 0 <= j < cur.len() implies {
            let c = #[trigger] cur[j];
            &&& 0 <= leaf_index(ls, c.0) < ls.len()
            &&& ls[leaf_index(ls, c.0)].node == c.0
            &&& c.1 == leaf_key(ls, c.0)
            &&& wants_subdivide(ls[leaf_index(ls, c.0)], config)
        } by {
            if j < prev.len() {
                let c = prev[j];
                assert(cur[j] == c);
                let k = leaf_index(d, c.0);
                assert(d[k] == ls[k]);
                lemma_leaf_index(ls, k);
            } else {
                assert(cur[j] == (ls[last].node, ls[last].distance_key));
                lemma_leaf_index(ls, last);
            }
        }
    }
}

#[verifier::spinoff_prover]
proof fn lemma_coarsen_candidates(ls: Seq<LeafPriority>, config: OctreeConfig)
    ensures
        distinct_nodes(coarsen_candidates(ls, config)),
        forall|j: int| 0 <= j < coarsen_candidates(ls, config).len() ==> exists|i: int|
            0 <= i < ls.len() && wants_coarsen(#[trigger] ls[i], config)
                && (#[trigger] coarsen_candidates(ls, config)[j]).0 == parent_of(ls[i].node),
    decreases ls.len(),
{
    if ls.len() > 0 {
        lemma_coarsen_candidates(ls.drop_last(), config);
        let prev = coarsen_candidates(ls.drop_last(), config);
        let cur = coarsen_candidates(ls, config);
        let l = ls.last();
        assert forall|j: int| 0 <= j < cur.len() implies exists|i: int|
            0 <= i < ls.len() && wants_coarsen(#[trigger] ls[i], config) && (#[trigger] cur[j]).0 == parent_of(
                ls[i].node,
            ) by {
            if j < prev.len() {
                let i = choose|i: int|
                    0 <= i < ls.drop_last().len() && wants_coarsen(#[trigger] ls.drop_last()[i], config)
                        && (#[trigger] prev[j]).0 == parent_of(ls.drop_last()[i].node);
                assert(ls.drop_last()[i] == ls[i]);
                assert(cur[j] == prev[j]);
            } else {
                assert(ls[ls.len() - 1] == l);
                assert(cur[j].0 == parent_of(ls[ls.len() - 1].node));
            }
        }
        if wants_coarsen(l, config) && !names_node(prev, parent_of(l.node)) {
            assert forall|a: int, b: int| 0 <= a < cur.len() && 0 <= b < cur.len() && a != b implies (
            #[trigger] cur[a]).0 != (#[trigger] cur[b]).0 by {
                if a < prev.len() && b < prev.len() {
                    assert(cur[a] == prev[a]);
                    assert(cur[b] == prev[b]);
                } else if a < prev.len() {
                    assert(cur[a] == prev[a]);
                } else if b < prev.len() {
                    assert(cur[b] == prev[b]);
                }
            }
        }
    }
}

/// Phase 1: collect the leaves to subdivide and the parents to collapse into.
fn collect_candidates(leaves: &Vec<LeafPriority>, config: &OctreeConfig) -> (r: (
    Vec<(OctreeNode, u64)>,
    Vec<(OctreeNode, u64)>,
))
    ensures
        r.0@ == subdivide_candidates(leaves@, *config),
        r.1@ == coarsen_candidates(leaves@, *config),
{
    let mut to_subdivide: Vec<(OctreeNode, u64)> = Vec::new();
    let mut coarsen: Vec<(OctreeNode, u64)> = Vec::new();
    let mut i: usize = 0;
    while i < leaves.len()
        invariant
            i <= leaves.len(),
            to_subdivide@ == subdivide_candidates(leaves@.take(i as int), *config),
            coarsen@ == coarsen_candidates(leaves@.take(i as int), *config),
        decreases leaves.len() - i,
    {
        let l = leaves[i];
        proof {
            assert(leaves@.take(i as int + 1).drop_last() =~= leaves@.take(i as int));
            assert(leaves@.take(i as int + 1).last() == l);
        }
        let node = l.node;
        if config.node_overlaps_bounds(&node) {
            if node.lod > config.min_lod && l.within_threshold {
                to_subdivide.push((node, l.distance_key));
            } else if node.lod < config.max_lod && l.parent_beyond_threshold {
                let parent = node.get_parent(config.max_lod).unwrap();
                let mut found = false;
                let mut j: usize = 0;
                while j < coarsen.len()
                    invariant
                        j <= coarsen.len(),
                        found == exists|k: int| 0 <= k < j && (#[trigger] coarsen@[k]).0 == parent,
                    decreases coarsen.len() - j,
                {
                    if coarsen[j].0 == parent {
                        found = true;
                    }
                    j = j + 1;
                }
                if !found {
                    coarsen.push((parent, l.parent_distance_key));
                }
            }
        }
        i = i + 1;
    }
    proof {
        assert(leaves@.take(leaves@.len() as int) =~= leaves@);
    }
    (to_subdivide, coarsen)
}

/// `p` is above LOD 0 and all 8 of its children are in `s`.
pub open spec fn mergeable(p: OctreeNode, s: Set<OctreeNode>) -> bool {
    p.lod > 0 && forall|o: int| 0 <= o < 8 ==> s.contains(#[trigger] children_seq(p)[o])
}

/// The entries of `cands` whose node is mergeable in `s`, in order.
pub open spec fn mergeable_candidates(cands: Seq<(OctreeNode, u64)>, s: Set<OctreeNode>) -> Seq<
    (OctreeNode, u64),
>
    decreases cands.len(),
{
    if cands.len() == 0 {
        Seq::empty()
    } else {
        let prev = mergeable_candidates(cands.drop_last(), s);
        if mergeable(cands.last().0, s) {
            prev.push(cands.last())
        } else {
            prev
        }
    }
}

proof fn lemma_mergeable_candidates(cands: Seq<(OctreeNode, u64)>, s: Set<OctreeNode>)
    ensures
        forall|j: int| 0 <= j < mergeable_candidates(cands, s).len() ==> mergeable((#[trigger] mergeable_candidates(cands, s)[j]).0, s)
            && cands.contains(mergeable_candidates(cands, s)[j]),
    decreases cands.len(),
{
    if cands.len() > 0 {
        lemma_mergeable_candidates(cands.drop_last(), s);
        let prev = mergeable_candidates(cands.drop_last(), s);
        let cur = mergeable_candidates(cands, s);
        assert forall|j: int| 0 <= j < cur.len() implies mergeable((#[trigger] cur[j]).0, s) && cands.contains(cur[j]) by {
            if j < prev.len() {
                assert(cur[j] == prev[j]);
                let k = choose|k: int| 0 <= k < cands.drop_last().len() && cands.drop_last()[k] == prev[j];
                assert(cands[k] == prev[j]);
            } else {
                assert(cands[cands.len() - 1] == cur[j]);
            }
        }
    }
}

/// Phase 2: keep the collapse candidates whose 8 children are all leaves.
fn filter_mergeable(cands: &Vec<(OctreeNode, u64)>, leaves: &OctreeLeaves) -> (r: Vec<(OctreeNode, u64)>)
    requires
        forall|j: int| 0 <= j < cands@.len() ==> node_in_range((#[trigger] cands@[j]).0),
    ensures
        r@ == mergeable_candidates(cands@, leaves@),
{
    let mut r: Vec<(OctreeNode, u64)> = Vec::new();
    let mut i: usize = 0;
    while i < cands.len()
        invariant
            i <= cands.len(),
            forall|j: int| 0 <= j < cands@.len() ==> node_in_range((#[trigger] cands@[j]).0),
            r@ == mergeable_candidates(cands@.take(i as int), leaves@),
        decreases cands.len() - i,
    {
        let c = cands[i];
        proof {
            assert(cands@.take(i as int + 1).drop_last() =~= cands@.take(i as int));
            assert(cands@.take(i as int + 1).last() == c);
            assert(node_in_range(cands@[i as int].0));
            lemma_in_range_bounds(c.0);
        }
        if all_children_are_leaves(&c.0, leaves) {
            r.push(c);
        }
        i = i + 1;
    }
    proof {
        assert(cands@.take(cands@.len() as int) =~= cands@);
    }
    r
}

/// Keys in order: non-decreasing, or non-increasing when `descending`.
pub open spec fn keys_ordered(v: Seq<(OctreeNode, u64)>, descending: bool) -> bool {
    forall|i: int, j: int|
        0 <= i < j < v.len() ==> if descending {
            (#[trigger] v[i]).1 >= (#[trigger] v[j]).1
        } else {
            v[i].1 <= v[j].1
        }
}

/// Whether key `a` may stand before key `b` in the given order.
fn key_no_later(a: u64, b: u64, descending: bool) -> (r: bool)
    ensures
        r == if descending {
            a >= b
        } else {
            a <= b
        },
{
    if descending {
        a >= b
    } else {
        a <= b
    }
}

/// Phase 3: stable insertion sort of candidates by key.
fn sort_by_key(v: &Vec<(OctreeNode, u64)>, descending: bool) -> (r: Vec<(OctreeNode, u64)>)
    ensures
        r@.to_multiset() == v@.to_multiset(),
        r@.len() == v@.len(),
        keys_ordered(r@, descending),
{
    broadcast use vstd::seq_lib::group_to_multiset_ensures;

    let mut r: Vec<(OctreeNode, u64)> = Vec::new();
    let mut i: usize = 0;
    while i < v.len()
        invariant
            i <= v.len(),
            r@.to_multiset() == v@.take(i as int).to_multiset(),
            r@.len() == i,
            keys_ordered(r@, descending),
        decreases v.len() - i,
    {
        let e = v[i];
        let mut pos: usize = 0;
        while pos < r.len() && key_no_later(r[pos].1, e.1, descending)
            invariant
                pos <= r.len(),
                forall|k: int| 0 <= k < pos ==> if descending {
                    (#[trigger] r@[k]).1 >= e.1
                } else {
                    r@[k].1 <= e.1
                },
            decreases r.len() - pos,
        {
            pos = pos + 1;
        }
        let ghost before = r@;
        r.insert(pos, e);
        proof {
            vstd::seq_lib::to_multiset_insert(before, pos as int, e);
            assert(v@.take(i as int + 1) =~= v@.take(i as int).push(e));
            vstd::seq_lib::to_multiset_build(v@.take(i as int), e);
            assert(r@ =~= before.insert(pos as int, e));
            assert forall|a: int, b: int| 0 <= a < b < r@.len() implies if descending {
                (#[trigger] r@[a]).1 >= (#[trigger] r@[b]).1
            } else {
                r@[a].1 <= r@[b].1
            } by {
                if pos < before.len() {
                    // before[pos] is past e in the ordering, and so is everything after it
                    assert(if descending { before[pos as int].1 < e.1 } else { before[pos as int].1 > e.1 });
                }
                if a < pos && b == pos {
                } else if a < pos && b > pos {
                    assert(r@[b] == before[b - 1]);
                } else if a == pos && b > pos {
                    assert(r@[b] == before[b - 1]);
                    if b - 1 > pos {
                        assert(keys_ordered(before, descending));
                        assert(if descending { before[pos as int].1 >= before[b - 1].1 } else { before[pos as int].1 <= before[b - 1].1 });
                    }
                } else if a > pos {
                    assert(r@[a] == before[a - 1]);
                    assert(r@[b] == before[b - 1]);
                }
            }
        }
        i = i + 1;
    }
    proof {
        assert(v@.take(v@.len() as int) =~= v@);
    }
    r
}

/// Merging an in-range parent keeps every leaf in range.
proof fn lemma_merge_keeps_range(s: Set<OctreeNode>, g: TransitionGroup, p: OctreeNode)
    requires
        leaves_in_range(s),
        node_in_range(p),
        is_merge_of(g, p),
    ensures
        leaves_in_range(apply_group(s, g)),
{
    assert forall|n: OctreeNode| #[trigger] apply_group(s, g).contains(n) implies node_in_range(n) by {
        if g.adds().to_set().contains(n) {
            let i = choose|i: int| 0 <= i < g.adds().len() && g.adds()[i] == n;
            assert(g.adds()[i] == p);
        }
    }
}

/// Phase 4: collapse the parents in `order`, first to last, while the collapse
/// budget allows.
fn apply_collapses(
    order: &Vec<(OctreeNode, u64)>,
    leaves: &mut OctreeLeaves,
    groups: &mut Vec<TransitionGroup>,
    budget: &RefinementBudget,
) -> (collapses: usize)
    requires
        old(groups)@.len() == 0,
        leaves_in_range(old(leaves)@),
        forall|j: int| 0 <= j < order@.len() ==> node_in_range((#[trigger] order@[j]).0) && order@[j].0.lod > 0,
    ensures
        collapses == final(groups)@.len(),
        collapses <= order@.len(),
        forall|i: int| 0 <= i < collapses ==> is_merge_of(#[trigger] final(groups)@[i], order@[i].0),
        final(leaves)@ == apply_groups(old(leaves)@, final(groups)@),
        leaves_in_range(final(leaves)@),
        budget.max_collapses != 0 ==> collapses <= budget.max_collapses,
        collapses < order@.len() ==> !budget.allows_collapse(collapses as int),
{
    let ghost s0 = leaves@;
    let mut collapses: usize = 0;
    while collapses < order.len()
        invariant
            collapses <= order@.len(),
            collapses == groups@.len(),
            forall|j: int| 0 <= j < order@.len() ==> node_in_range((#[trigger] order@[j]).0) && order@[j].0.lod > 0,
            forall|i: int| 0 <= i < collapses ==> is_merge_of(#[trigger] groups@[i], order@[i].0),
            leaves@ == apply_groups(s0, groups@),
            leaves_in_range(leaves@),
            budget.max_collapses != 0 ==> collapses <= budget.max_collapses,
        ensures
            collapses == groups@.len(),
            collapses <= order@.len(),
            forall|i: int| 0 <= i < collapses ==> is_merge_of(#[trigger] groups@[i], order@[i].0),
            leaves@ == apply_groups(s0, groups@),
            leaves_in_range(leaves@),
            budget.max_collapses != 0 ==> collapses <= budget.max_collapses,
            collapses < order@.len() ==> !budget.allows_collapse(collapses as int),
        decreases order@.len() - collapses,
    {
        if !budget.can_collapse(collapses) {
            break;
        }
        let parent = order[collapses].0;
        proof {
            assert(node_in_range(order@[collapses as int].0));
            lemma_in_range_bounds(parent);
        }
        let ghost before = leaves@;
        let ghost gs_before = groups@;
        apply_merge(&parent, leaves, groups);
        proof {
            assert(groups@ =~= gs_before.push(groups@.last()));
            lemma_apply_groups_push(s0, gs_before, groups@.last());
            lemma_merge_keeps_range(before, groups@.last(), parent);
            assert forall|i: int| 0 <= i < collapses + 1 implies is_merge_of(#[trigger] groups@[i], order@[i].0) by {
                if i < collapses {
                    assert(groups@[i] == gs_before[i]);
                }
            }
        }
        collapses = collapses + 1;
    }
    collapses
}

/// The phase-5 shape: the groups after `base` subdivide, in order, nodes of
/// `order` at increasing positions `idx`, each a leaf when subdivided, each
/// keeping the children inside the bounds.
pub open spec fn subdivisions_follow(
    groups: Seq<TransitionGroup>,
    base: int,
    order: Seq<(OctreeNode, u64)>,
    idx: Seq<int>,
    s0: Set<OctreeNode>,
    config: OctreeConfig,
) -> bool {
    &&& idx.len() == groups.len() - base
    &&& forall|t: int| 0 <= t < idx.len() ==> 0 <= #[trigger] idx[t] < order.len()
    &&& forall|a: int, b: int| 0 <= a < b < idx.len() ==> #[trigger] idx[a] < #[trigger] idx[b]
    &&& forall|t: int|
        0 <= t < idx.len() ==> {
            let g = #[trigger] groups[base + t];
            &&& g.group_key == order[idx[t]].0
            &&& is_subdivide_of(g, g.group_key, kept_children(g.group_key, Some(config)))
            &&& apply_groups(s0, groups.subrange(base, base + t)).contains(g.group_key)
        }
}

/// Some group from position `base` on has key `x`.
pub open spec fn has_group_for(gs: Seq<TransitionGroup>, base: int, x: OctreeNode) -> bool {
    exists|t: int| base <= t < gs.len() && (#[trigger] gs[t]).group_key == x
}

/// The first `e` entries of `order` were processed: each one whose node was a
/// leaf of `s0` got a subdivision group (or could not be subdivided: LOD 0
/// or no child in bounds), and every group from `base` on subdivides one of
/// them.
pub open spec fn subdivided_through(
    groups: Seq<TransitionGroup>,
    base: int,
    order: Seq<(OctreeNode, u64)>,
    s0: Set<OctreeNode>,
    config: OctreeConfig,
    e: int,
) -> bool {
    &&& 0 <= e <= order.len()
    &&& forall|j: int|
        0 <= j < e && s0.contains(#[trigger] order[j].0) ==> has_group_for(groups, base, order[j].0) || order[j].0.lod
            <= 0 || kept_children(order[j].0, Some(config)).len() == 0
    &&& forall|t: int| base <= t < groups.len() ==> exists|j: int| 0 <= j < e && order[j].0 == (#[trigger] groups[t]).group_key
}

/// `att` lists the entries among the first `e` of `order` whose nodes were
/// leaves when their turn came (the subdivision attempts): each names a
/// node of `order` before `e`, each node of `s0` there is among them, each
/// group from `base` on subdivides one of them, each was a leaf of `s0` or
/// was added by such a group, and each one that can be subdivided got its
/// group.
pub open spec fn attempts_through(
    groups: Seq<TransitionGroup>,
    base: int,
    order: Seq<(OctreeNode, u64)>,
    s0: Set<OctreeNode>,
    config: OctreeConfig,
    e: int,
    att: Seq<OctreeNode>,
) -> bool {
    &&& 0 <= e <= order.len()
    &&& att.no_duplicates()
    &&& forall|k: int| 0 <= k < att.len() ==> exists|j: int| 0 <= j < e && (#[trigger] order[j]).0 == #[trigger] att[k]
    &&& forall|j: int| 0 <= j < e && s0.contains(#[trigger] order[j].0) ==> att.contains(order[j].0)
    &&& forall|t: int| base <= t < groups.len() ==> att.contains((#[trigger] groups[t]).group_key)
    &&& forall|k: int|
        0 <= k < att.len() ==> s0.contains(#[trigger] att[k]) || exists|t: int|
            base <= t < groups.len() && (#[trigger] groups[t]).adds().contains(att[k])
    &&& forall|k: int|
        0 <= k < att.len() && (#[trigger] att[k]).lod > 0 && kept_children(att[k], Some(config)).len() > 0
            ==> has_group_for(groups, base, att[k])
}

/// A leaf after some groups was a leaf before them or was added by one of them.
proof fn lemma_apply_groups_member(s: Set<OctreeNode>, gs: Seq<TransitionGroup>, x: OctreeNode)
    requires
        apply_groups(s, gs).contains(x),
    ensures
        s.contains(x) || exists|t: int| 0 <= t < gs.len() && (#[trigger] gs[t]).adds().contains(x),
    decreases gs.len(),
{
    if gs.len() > 0 {
        let d = gs.drop_last();
        if gs.last().adds().to_set().contains(x) {
            assert(gs[gs.len() - 1].adds().contains(x));
        } else {
            lemma_apply_groups_member(s, d, x);
            if !s.contains(x) {
                let t = choose|t: int| 0 <= t < d.len() && (#[trigger] d[t]).adds().contains(x);
                assert(gs[t] == d[t]);
            }
        }
    }
}

/// An attempt at entry `i`, a leaf, extends the attempts by its node.
proof fn lemma_attempt_push(
    gs_prev: Seq<TransitionGroup>,
    gs: Seq<TransitionGroup>,
    base: int,
    order: Seq<(OctreeNode, u64)>,
    s0: Set<OctreeNode>,
    config: OctreeConfig,
    i: int,
    att: Seq<OctreeNode>,
)
    requires
        attempts_through(gs_prev, base, order, s0, config, i, att),
        distinct_nodes(order),
        0 <= i < order.len(),
        0 <= base <= gs_prev.len(),
        apply_groups(s0, gs_prev.subrange(base, gs_prev.len() as int)).contains(order[i].0),
        gs.len() >= gs_prev.len(),
        gs.subrange(0, gs_prev.len() as int) == gs_prev,
        gs.len() > gs_prev.len() ==> gs.len() == gs_prev.len() + 1 && gs.last().group_key == order[i].0,
        gs.len() == gs_prev.len() ==> order[i].0.lod <= 0 || kept_children(order[i].0, Some(config)).len() == 0,
    ensures
        attempts_through(gs, base, order, s0, config, i + 1, att.push(order[i].0)),
{
    let n = order[i].0;
    let a2 = att.push(n);
    let lp = gs_prev.len() as int;
    assert forall|t: int| 0 <= t < lp implies #[trigger] gs[t] == gs_prev[t] by {
        assert(gs.subrange(0, lp)[t] == gs[t]);
    }
    assert(!att.contains(n)) by {
        if att.contains(n) {
            let k = choose|k: int| 0 <= k < att.len() && att[k] == n;
            let j = choose|j: int| 0 <= j < i && (#[trigger] order[j]).0 == att[k];
        }
    }
    assert(a2.no_duplicates()) by {
        assert forall|a: int, b: int| 0 <= a < b < a2.len() implies a2[a] != a2[b] by {
            if b == att.len() {
                assert(att.contains(a2[a]));
            } else {
                assert(a2[a] == att[a] && a2[b] == att[b]);
            }
        }
    }
    assert forall|k: int| 0 <= k < a2.len() implies exists|j: int| 0 <= j < i + 1 && (#[trigger] order[j]).0 == #[trigger] a2[k] by {
        if k < att.len() {
            assert(a2[k] == att[k]);
            let j = choose|j: int| 0 <= j < i && (#[trigger] order[j]).0 == att[k];
        } else {
            assert(order[i].0 == a2[k]);
        }
    }
    assert forall|j: int| 0 <= j < i + 1 && s0.contains(#[trigger] order[j].0) implies a2.contains(order[j].0) by {
        if j < i {
            let k = choose|k: int| 0 <= k < att.len() && att[k] == order[j].0;
            assert(a2[k] == att[k]);
        } else {
            assert(a2[att.len() as int] == n);
        }
    }
    assert forall|t: int| base <= t < gs.len() implies a2.contains((#[trigger] gs[t]).group_key) by {
        if t < lp {
            assert(gs[t] == gs_prev[t]);
            let k = choose|k: int| 0 <= k < att.len() && att[k] == gs_prev[t].group_key;
            assert(a2[k] == att[k]);
        } else {
            assert(a2[att.len() as int] == n);
        }
    }
    assert forall|k: int| 0 <= k < a2.len() implies s0.contains(#[trigger] a2[k]) || exists|t: int|
        base <= t < gs.len() && (#[trigger] gs[t]).adds().contains(a2[k]) by {
        if k < att.len() {
            assert(a2[k] == att[k]);
            if !s0.contains(att[k]) {
                let t = choose|t: int| base <= t < gs_prev.len() && (#[trigger] gs_prev[t]).adds().contains(att[k]);
                assert(gs[t] == gs_prev[t]);
            }
        } else {
            let sub = gs_prev.subrange(base, lp);
            lemma_apply_groups_member(s0, sub, n);
            if !s0.contains(n) {
                let u = choose|u: int| 0 <= u < sub.len() && (#[trigger] sub[u]).adds().contains(n);
                assert(sub[u] == gs_prev[base + u]);
                assert(gs[base + u] == gs_prev[base + u]);
            }
        }
    }
    assert forall|k: int|
        0 <= k < a2.len() && (#[trigger] a2[k]).lod > 0 && kept_children(a2[k], Some(config)).len() > 0 implies has_group_for(
        gs,
        base,
        a2[k],
    ) by {
        if k < att.len() {
            assert(a2[k] == att[k]);
            let t = choose|t: int| base <= t < gs_prev.len() && (#[trigger] gs_prev[t]).group_key == att[k];
            assert(gs[t] == gs_prev[t]);
        } else {
            assert(gs[gs.len() - 1].group_key == n);
        }
    }
}

/// Passing over entry `i` keeps the attempts, when its node, if a leaf of
/// `s0`, already got a group.
proof fn lemma_attempt_skip(
    gs: Seq<TransitionGroup>,
    base: int,
    order: Seq<(OctreeNode, u64)>,
    s0: Set<OctreeNode>,
    config: OctreeConfig,
    i: int,
    att: Seq<OctreeNode>,
)
    requires
        attempts_through(gs, base, order, s0, config, i, att),
        0 <= i < order.len(),
        s0.contains(order[i].0) ==> has_group_for(gs, base, order[i].0),
    ensures
        attempts_through(gs, base, order, s0, config, i + 1, att),
{
    assert forall|k: int| 0 <= k < att.len() implies exists|j: int| 0 <= j < i + 1 && (#[trigger] order[j]).0 == #[trigger] att[k] by {
        let j = choose|j: int| 0 <= j < i && (#[trigger] order[j]).0 == att[k];
    }
    if s0.contains(order[i].0) {
        let t = choose|t: int| base <= t < gs.len() && (#[trigger] gs[t]).group_key == order[i].0;
        assert(att.contains(gs[t].group_key));
    }
}

/// Phase 5: subdivide the leaves in `order`, first to last, while the
/// subdivision budget allows, skipping nodes that are no longer leaves.
fn apply_subdivisions(
    order: &Vec<(OctreeNode, u64)>,
    leaves: &mut OctreeLeaves,
    groups: &mut Vec<TransitionGroup>,
    config: &OctreeConfig,
    budget: &RefinementBudget,
) -> (subs: usize)
    requires
        leaves_in_range(old(leaves)@),
        forall|j: int| 0 <= j < order@.len() ==> node_in_range((#[trigger] order@[j]).0),
        distinct_nodes(order@),
    ensures
        final(groups)@.len() >= old(groups)@.len(),
        final(groups)@.subrange(0, old(groups)@.len() as int) == old(groups)@,
        final(groups)@.len() - old(groups)@.len() <= subs <= order@.len(),
        budget.max_subdivisions != 0 ==> subs <= budget.max_subdivisions,
        final(leaves)@ == apply_groups(
            old(leaves)@,
            final(groups)@.subrange(old(groups)@.len() as int, final(groups)@.len() as int),
        ),
        leaves_in_range(final(leaves)@),
        exists|idx: Seq<int>|
            subdivisions_follow(final(groups)@, old(groups)@.len() as int, order@, idx, old(leaves)@, *config),
        budget.allows_subdivision(subs as int) ==> forall|j: int|
            0 <= j < order@.len() && old(leaves)@.contains(#[trigger] order@[j].0) ==> has_group_for(
                final(groups)@,
                old(groups)@.len() as int,
                order@[j].0,
            ) || order@[j].0.lod <= 0 || kept_children(order@[j].0, Some(*config)).len() == 0,
        exists|e: int|
            #[trigger] subdivided_through(final(groups)@, old(groups)@.len() as int, order@, old(leaves)@, *config, e)
                && (e < order@.len() ==> !budget.allows_subdivision(subs as int)),
        exists|e: int, att: Seq<OctreeNode>|
            #[trigger] attempts_through(final(groups)@, old(groups)@.len() as int, order@, old(leaves)@, *config, e, att)
                && att.len() == subs,
{
    let ghost s0 = leaves@;
    let ghost mut att: Seq<OctreeNode> = Seq::empty();
    let ghost g0 = groups@;
    let ghost base = groups@.len() as int;
    let ghost mut idx: Seq<int> = Seq::empty();
    let mut subs: usize = 0;
    let mut i: usize = 0;
    proof {
        assert(groups@.subrange(base, base) =~= Seq::<TransitionGroup>::empty());
        assert(groups@.subrange(0, base) =~= g0);
    }
    while i < order.len() && budget.can_subdivide(subs)
        invariant
            i <= order@.len(),
            groups@.len() >= base,
            base == g0.len(),
            groups@.subrange(0, base) == g0,
            groups@.len() - base <= subs <= i,
            forall|j: int|
                0 <= j < i && s0.contains(#[trigger] order@[j].0) ==> has_group_for(groups@, base, order@[j].0)
                    || order@[j].0.lod <= 0 || kept_children(order@[j].0, Some(*config)).len() == 0,
            forall|j: int|
                i <= j < order@.len() && s0.contains(#[trigger] order@[j].0) ==> leaves@.contains(order@[j].0)
                    || has_group_for(groups@, base, order@[j].0),
            budget.max_subdivisions != 0 ==> subs <= budget.max_subdivisions,
            forall|j: int| 0 <= j < order@.len() ==> node_in_range((#[trigger] order@[j]).0),
            leaves@ == apply_groups(s0, groups@.subrange(base, groups@.len() as int)),
            leaves_in_range(leaves@),
            subdivisions_follow(groups@, base, order@, idx, s0, *config),
            forall|t: int| 0 <= t < idx.len() ==> idx[t] < i,
            distinct_nodes(order@),
            attempts_through(groups@, base, order@, s0, *config, i as int, att),
            att.len() == subs,
        decreases order@.len() - i,
    {
        let node = order[i].0;
        let ghost gs_prev = groups@;
        let ghost l_prev = leaves@;
        if leaves.contains(&node) {
            proof {
                assert(node_in_range(order@[i as int].0));
                lemma_in_range_bounds(node);
            }
            let ghost before = leaves@;
            let ghost gs_before = groups@;
            apply_subdivide(&node, leaves, groups, Some(config));
            proof {
                if groups@.len() > gs_before.len() {
                    let g = groups@.last();
                    let n_old = gs_before.len() as int;
                    assert(groups@ =~= gs_before.push(g));
                    assert(groups@.subrange(base, groups@.len() as int) =~= gs_before.subrange(base, n_old).push(g));
                    lemma_apply_groups_push(s0, gs_before.subrange(base, n_old), g);
                    lemma_subdivide_keeps_range(before, g, node, Some(*config));
                    assert(groups@.subrange(0, base) =~= gs_before.subrange(0, base));
                    let old_idx = idx;
                    idx = idx.push(i as int);
                    assert forall|t: int| 0 <= t < idx.len() implies {
                        let gt = #[trigger] groups@[base + t];
                        &&& gt.group_key == order@[idx[t]].0
                        &&& is_subdivide_of(gt, gt.group_key, kept_children(gt.group_key, Some(*config)))
                        &&& apply_groups(s0, groups@.subrange(base, base + t)).contains(gt.group_key)
                    } by {
                        assert(groups@.subrange(base, base + t) =~= gs_before.subrange(base, base + t));
                        if t < old_idx.len() {
                            assert(groups@[base + t] == gs_before[base + t]);
                            assert(idx[t] == old_idx[t]);
                        } else {
                            assert(base + t == n_old);
                            assert(gs_before.subrange(base, n_old) =~= gs_before.subrange(base, base + t));
                        }
                    }
                    assert forall|a: int, b: int| 0 <= a < b < idx.len() implies #[trigger] idx[a] < #[trigger] idx[b] by {
                        if b < old_idx.len() {
                            assert(idx[a] == old_idx[a] && idx[b] == old_idx[b]);
                        } else {
                            assert(idx[a] == old_idx[a]);
                        }
                    }
                } else {
                    assert(groups@ =~= gs_before);
                }
            }
            proof {
                assert(groups@.subrange(0, gs_prev.len() as int) =~= gs_prev);
                lemma_attempt_push(gs_prev, groups@, base, order@, s0, *config, i as int, att);
                att = att.push(node);
            }
            subs = subs + 1;
        } else {
            proof {
                lemma_attempt_skip(groups@, base, order@, s0, *config, i as int, att);
            }
        }
        proof {
            lemma_single_to_set(node);
            assert forall|j: int|
                0 <= j < i + 1 && s0.contains(#[trigger] order@[j].0) implies has_group_for(groups@, base, order@[j].0)
                    || order@[j].0.lod <= 0 || kept_children(order@[j].0, Some(*config)).len() == 0 by {
                if j < i {
                    if has_group_for(gs_prev, base, order@[j].0) {
                        let t = choose|t: int| base <= t < gs_prev.len() && (#[trigger] gs_prev[t]).group_key == order@[j].0;
                        assert(groups@[t] == gs_prev[t]);
                    }
                } else {
                    if has_group_for(gs_prev, base, order@[j].0) {
                        let t = choose|t: int| base <= t < gs_prev.len() && (#[trigger] gs_prev[t]).group_key == order@[j].0;
                        assert(groups@[t] == gs_prev[t]);
                    } else if groups@.len() > gs_prev.len() {
                        assert(groups@[gs_prev.len() as int].group_key == node);
                    }
                }
            }
            assert forall|j: int|
                i + 1 <= j < order@.len() && s0.contains(#[trigger] order@[j].0) implies leaves@.contains(order@[j].0)
                    || has_group_for(groups@, base, order@[j].0) by {
                if has_group_for(gs_prev, base, order@[j].0) {
                    let t = choose|t: int| base <= t < gs_prev.len() && (#[trigger] gs_prev[t]).group_key == order@[j].0;
                    assert(groups@[t] == gs_prev[t]);
                } else if groups@.len() > gs_prev.len() {
                    if order@[j].0 == node {
                        assert(groups@[gs_prev.len() as int].group_key == node);
                    } else {
                        assert(l_prev.contains(order@[j].0));
                        assert(!groups@.last().removes().to_set().contains(order@[j].0));
                    }
                }
            }
        }
        i = i + 1;
    }
    proof {
        assert(groups@.subrange(0, g0.len() as int) == g0);
        assert forall|t: int| base <= t < groups@.len() implies exists|j: int|
            0 <= j < i && order@[j].0 == (#[trigger] groups@[t]).group_key by {
            let u = t - base;
            assert(groups@[base + u].group_key == order@[idx[u]].0);
            assert(0 <= idx[u] < i);
        }
        assert(subdivided_through(groups@, base, order@, s0, *config, i as int));
    }
    subs
}

/// Build the leaf set from the input leaves.
fn leaves_from(ls: &Vec<LeafPriority>) -> (r: OctreeLeaves)
    ensures
        r@ == leaf_set(ls@),
{
    let mut r = OctreeLeaves::new();
    let mut i: usize = 0;
    while i < ls.len()
        invariant
            i <= ls.len(),
            r@ == leaf_set(ls@.take(i as int)),
        decreases ls.len() - i,
    {
        r.insert(ls[i].node);
        proof {
            let t = ls@.take(i as int + 1);
            assert(leaf_set(t) =~= leaf_set(ls@.take(i as int)).insert(ls@[i as int].node)) by {
                assert forall|n: OctreeNode| leaf_set(t).contains(n) <==> leaf_set(ls@.take(i as int)).insert(
                    ls@[i as int].node,
                ).contains(n) by {
                    if leaf_set(t).contains(n) {
                        let j = choose|j: int| 0 <= j < t.len() && (#[trigger] t[j]).node == n;
                        if j < i {
                            assert(ls@.take(i as int)[j] == t[j]);
                        }
                    }
                    if leaf_set(ls@.take(i as int)).contains(n) {
                        let j = choose|j: int| 0 <= j < i && (#[trigger] ls@.take(i as int)[j]).node == n;
                        assert(t[j] == ls@.take(i as int)[j]);
                    }
                    if n == ls@[i as int].node {
                        assert(t[i as int] == ls@[i as int]);
                    }
                }
            }
        }
        i = i + 1;
    }
    proof {
        assert(ls@.take(ls@.len() as int) =~= ls@);
    }
    r
}

/// Entries of a sorted copy are entries of the original.
proof fn lemma_sorted_member(r: Seq<(OctreeNode, u64)>, v: Seq<(OctreeNode, u64)>, j: int)
    requires
        r.to_multiset() == v.to_multiset(),
        0 <= j < r.len(),
    ensures
        v.contains(r[j]),
{
    broadcast use vstd::seq_lib::group_to_multiset_ensures;

    assert(r.contains(r[j]));
    assert(r.to_multiset().count(r[j]) > 0);
    assert(v.to_multiset().count(r[j]) > 0);
}

/// Collapses of a refinement outcome: the first `m` groups each merge a parent
/// named by a collapse candidate whose 8 children were all input leaves,
/// farthest first; a mergeable candidate is left out only when every collapse
/// is at least as far, and fewer collapses than mergeable candidates happen
/// only when the collapse budget is spent.
pub open spec fn outcome_collapses(
    ls: Seq<LeafPriority>,
    cfg: OctreeConfig,
    b: RefinementBudget,
    gs: Seq<TransitionGroup>,
    m: int,
) -> bool {
    let s0 = leaf_set(ls);
    let cc = coarsen_candidates(ls, cfg);
    &&& b.max_collapses != 0 ==> m <= b.max_collapses
    &&& m < mergeable_candidates(cc, s0).len() ==> !b.allows_collapse(m)
    &&& forall|c: (OctreeNode, u64)|
        #[trigger] mergeable_candidates(cc, s0).contains(c) ==> (exists|i: int|
            0 <= i < m && (#[trigger] gs[i]).group_key == c.0) || (forall|i: int|
            0 <= i < m ==> c.1 <= key_in(cc, (#[trigger] gs[i]).group_key))
    &&& forall|i: int|
        0 <= i < m ==> {
            let g = #[trigger] gs[i];
            &&& is_merge_of(g, g.group_key)
            &&& names_node(cc, g.group_key)
            &&& mergeable(g.group_key, s0)
        }
    &&& forall|i: int, j: int|
        0 <= i < j < m ==> key_in(cc, (#[trigger] gs[i]).group_key) >= key_in(cc, (#[trigger] gs[j]).group_key)
}

/// `att` is the set of subdivision attempts of a refinement outcome whose
/// subdivisions are the groups from `m` to `e`: candidates that were leaves
/// when their turn came (leaves after the collapses, or added by an earlier
/// subdivision). Each group subdivides one of them, each of them that keeps a
/// child inside the bounds got its group, and every candidate still a leaf
/// after the collapses that is closer than an attempted one was attempted
/// too.
#[verifier::opaque]
pub open spec fn subdivision_attempts(
    ls: Seq<LeafPriority>,
    cfg: OctreeConfig,
    gs: Seq<TransitionGroup>,
    m: int,
    e: int,
    att: Set<OctreeNode>,
) -> bool {
    let s4 = apply_groups(leaf_set(ls), gs.take(m));
    &&& att.finite()
    &&& forall|n: OctreeNode|
        #[trigger] att.contains(n) ==> {
            &&& names_node(subdivide_candidates(ls, cfg), n)
            &&& s4.contains(n) || exists|i: int| m <= i < e && (#[trigger] gs[i]).adds().contains(n)
            &&& kept_children(n, Some(cfg)).len() > 0 ==> exists|i: int|
                m <= i < e && (#[trigger] gs[i]).group_key == n
        }
    &&& forall|i: int| m <= i < e ==> att.contains((#[trigger] gs[i]).group_key)
    &&& forall|n: OctreeNode, c: (OctreeNode, u64)|
        #[trigger] att.contains(n) && #[trigger] subdivide_candidates(ls, cfg).contains(c) && s4.contains(c.0) && c.1
            < leaf_key(ls, n) ==> att.contains(c.0)
}

/// Viewer-driven subdivisions of a refinement outcome: the groups from `m`
/// to `e` each subdivide a leaf that wants it, still a leaf when its turn
/// comes, into its children inside the bounds, closest first, `subs` attempts
/// within the budget (see [`subdivision_attempts`]: every attempt subdivides
/// its candidate unless no child of it lies in bounds); a candidate that was
/// a leaf after the collapses is passed over only when it is farther than
/// every attempted one and the budget ran out, or when none of its children
/// lies in bounds.
pub open spec fn outcome_subdivisions(
    ls: Seq<LeafPriority>,
    cfg: OctreeConfig,
    b: RefinementBudget,
    gs: Seq<TransitionGroup>,
    m: int,
    subs: int,
    e: int,
) -> bool {
    let s0 = leaf_set(ls);
    &&& e - m <= subs
    &&& exists|att: Set<OctreeNode>| #[trigger] subdivision_attempts(ls, cfg, gs, m, e, att) && att.len() == subs
    &&& b.max_subdivisions != 0 ==> subs <= b.max_subdivisions
    &&& forall|i: int|
        m <= i < e ==> {
            let g = #[trigger] gs[i];
            &&& is_subdivide_of(g, g.group_key, kept_children(g.group_key, Some(cfg)))
            &&& ls[leaf_index(ls, g.group_key)].node == g.group_key
            &&& wants_subdivide(ls[leaf_index(ls, g.group_key)], cfg)
            &&& apply_groups(s0, gs.take(i)).contains(g.group_key)
        }
    &&& forall|i: int, j: int|
        m <= i < j < e ==> leaf_key(ls, (#[trigger] gs[i]).group_key) <= leaf_key(ls, (#[trigger] gs[j]).group_key)
    &&& b.allows_subdivision(subs) ==> forall|c: (OctreeNode, u64)|
        #[trigger] subdivide_candidates(ls, cfg).contains(c) && apply_groups(s0, gs.take(m)).contains(c.0) ==> (exists|i: int|
            m <= i < e && (#[trigger] gs[i]).group_key == c.0) || kept_children(c.0, Some(cfg)).len() == 0
    &&& forall|c: (OctreeNode, u64), i: int|
        #[trigger] subdivide_candidates(ls, cfg).contains(c) && apply_groups(s0, gs.take(m)).contains(c.0) && m <= i
            < e && c.1 < leaf_key(ls, (#[trigger] gs[i]).group_key) ==> (exists|i2: int|
            m <= i2 < e && (#[trigger] gs[i2]).group_key == c.0) || kept_children(c.0, Some(cfg)).len() == 0
}

/// What refinement of the leaves `ls` produces: the leaves `next` and the
/// groups `gs`, of which the first `m` collapse (see [`outcome_collapses`]),
/// the last `n` are neighbor enforcement steps and those between are the
/// viewer-driven subdivisions (see [`outcome_subdivisions`]); `next` is the
/// input leaves with the groups applied in order, all in range. Each
/// enforcement step subdivides a leaf, above `min_lod` with all children in
/// bounds, that is more than `max_relative_lod` LODs coarser than the leaf it
/// is the face neighbor of; the steps fall into at most `neighbor_rounds`
/// rounds, each justified by a leaf of its round's starting leaves and a
/// direction, no pair justifying two steps of a round (see
/// [`enforcement_rounds`]); there are none when enforcement is disabled.
pub open spec fn refinement_outcome(
    ls: Seq<LeafPriority>,
    cfg: OctreeConfig,
    b: RefinementBudget,
    next: Set<OctreeNode>,
    gs: Seq<TransitionGroup>,
    m: int,
    subs: int,
    n: int,
) -> bool {
    let s0 = leaf_set(ls);
    let k = gs.len() as int;
    &&& next == apply_groups(s0, gs)
    &&& leaves_in_range(next)
    &&& 0 <= m && 0 <= n && m + n <= k
    &&& b.max_relative_lod <= 0 ==> n == 0
    &&& outcome_collapses(ls, cfg, b, gs, m)
    &&& outcome_subdivisions(ls, cfg, b, gs, m, subs, k - n)
    &&& forall|i: int| k - n <= i < k ==> is_neighbor_step(#[trigger] gs[i], apply_groups(s0, gs.take(i)), cfg, b)
    &&& exists|starts: Seq<int>, rnd: Seq<int>, wits: Seq<(OctreeNode, int)>|
        #[trigger] enforcement_rounds(gs, k - n, apply_groups(s0, gs.take(k - n)), starts, rnd, wits, cfg, b)
}

/// Applying the first `t` groups is applying the first `a`, then those from `a` to `t`.
proof fn lemma_apply_split(s: Set<OctreeNode>, gs: Seq<TransitionGroup>, a: int, t: int)
    requires
        0 <= a <= t <= gs.len(),
    ensures
        apply_groups(s, gs.take(t)) == apply_groups(apply_groups(s, gs.take(a)), gs.subrange(a, t)),
{
    lemma_apply_groups_concat(s, gs.take(a), gs.subrange(a, t));
    assert(gs.take(a) + gs.subrange(a, t) =~= gs.take(t));
}

/// Phase 4 of [`refine`] gives the collapses of its outcome.
#[verifier::spinoff_prover]
proof fn lemma_refine_collapses(
    ls: Seq<LeafPriority>,
    cfg: OctreeConfig,
    b: RefinementBudget,
    sc: Seq<(OctreeNode, u64)>,
    g4: Seq<TransitionGroup>,
    gs: Seq<TransitionGroup>,
    m: int,
)
    requires
        distinct_nodes(coarsen_candidates(ls, cfg)),
        sc.len() == mergeable_candidates(coarsen_candidates(ls, cfg), leaf_set(ls)).len(),
        sc.to_multiset() == mergeable_candidates(coarsen_candidates(ls, cfg), leaf_set(ls)).to_multiset(),
        keys_ordered(sc, true),
        forall|j: int|
            0 <= j < sc.len() ==> mergeable((#[trigger] sc[j]).0, leaf_set(ls)) && coarsen_candidates(
                ls,
                cfg,
            ).contains(sc[j]),
        m == g4.len(),
        m <= sc.len(),
        forall|i: int| 0 <= i < m ==> is_merge_of(#[trigger] g4[i], sc[i].0),
        b.max_collapses != 0 ==> m <= b.max_collapses,
        m < sc.len() ==> !b.allows_collapse(m),
        gs.len() >= m,
        gs.subrange(0, m) == g4,
    ensures
        outcome_collapses(ls, cfg, b, gs, m),
{
    let s0 = leaf_set(ls);
    let cc = coarsen_candidates(ls, cfg);
    assert forall|i: int| 0 <= i < m implies #[trigger] gs[i] == g4[i] by {
        assert(gs.subrange(0, m)[i] == gs[i]);
    }
    assert forall|i: int| 0 <= i < m implies {
        let g = #[trigger] gs[i];
        &&& is_merge_of(g, g.group_key)
        &&& names_node(cc, g.group_key)
        &&& mergeable(g.group_key, s0)
    } by {
        assert(gs[i] == g4[i]);
        assert(is_merge_of(g4[i], sc[i].0));
        let c = choose|c: int| 0 <= c < cc.len() && cc[c] == sc[i];
        assert(cc[c].0 == gs[i].group_key);
    }
    assert forall|i: int, j: int| 0 <= i < j < m implies key_in(cc, (#[trigger] gs[i]).group_key) >= key_in(
        cc,
        (#[trigger] gs[j]).group_key,
    ) by {
        assert(gs[i] == g4[i] && gs[j] == g4[j]);
        assert(is_merge_of(g4[i], sc[i].0));
        assert(is_merge_of(g4[j], sc[j].0));
        assert(mergeable(sc[i].0, s0) && cc.contains(sc[i]));
        assert(mergeable(sc[j].0, s0) && cc.contains(sc[j]));
        let ci = choose|c: int| 0 <= c < cc.len() && cc[c] == sc[i];
        let cj = choose|c: int| 0 <= c < cc.len() && cc[c] == sc[j];
        lemma_key_in(cc, ci);
        lemma_key_in(cc, cj);
    }
    assert forall|c: (OctreeNode, u64)| #[trigger] mergeable_candidates(cc, s0).contains(c) implies (exists|i: int|
        0 <= i < m && (#[trigger] gs[i]).group_key == c.0) || (forall|i: int|
        0 <= i < m ==> c.1 <= key_in(cc, (#[trigger] gs[i]).group_key)) by {
        broadcast use vstd::seq_lib::group_to_multiset_ensures;

        let valid = mergeable_candidates(cc, s0);
        assert(valid.to_multiset().count(c) > 0);
        assert(sc.to_multiset().count(c) > 0);
        assert(sc.contains(c));
        let p = choose|p: int| 0 <= p < sc.len() && sc[p] == c;
        if p < m {
            assert(gs[p] == g4[p]);
            assert(is_merge_of(g4[p], sc[p].0));
            assert(gs[p].group_key == c.0);
        } else {
            assert forall|i: int| 0 <= i < m implies c.1 <= key_in(cc, (#[trigger] gs[i]).group_key) by {
                assert(gs[i] == g4[i]);
                assert(is_merge_of(g4[i], sc[i].0));
                assert(mergeable(sc[i].0, s0) && cc.contains(sc[i]));
                let ci = choose|ci: int| 0 <= ci < cc.len() && cc[ci] == sc[i];
                lemma_key_in(cc, ci);
                assert(sc[i].1 >= sc[p].1);
            }
        }
    }
}

/// The attempts of phase 5, as a set, are the subdivision attempts of the outcome.
#[verifier::spinoff_prover]
proof fn lemma_refine_attempts(
    ls: Seq<LeafPriority>,
    cfg: OctreeConfig,
    ss: Seq<(OctreeNode, u64)>,
    g5: Seq<TransitionGroup>,
    gs: Seq<TransitionGroup>,
    m: int,
    s4: Set<OctreeNode>,
    e: int,
    att: Seq<OctreeNode>,
)
    requires
        cfg.lods_in_range(),
        keys_ordered(ss, false),
        ss.to_multiset() == subdivide_candidates(ls, cfg).to_multiset(),
        attempts_through(g5, m, ss, s4, cfg, e, att),
        forall|j: int|
            0 <= j < ss.len() ==> (#[trigger] ss[j]).1 == leaf_key(ls, ss[j].0) && ls[leaf_index(
                ls,
                ss[j].0,
            )].node == ss[j].0 && wants_subdivide(ls[leaf_index(ls, ss[j].0)], cfg),
        0 <= m <= g5.len(),
        s4 == apply_groups(leaf_set(ls), gs.take(m)),
        gs.len() >= g5.len(),
        gs.subrange(0, g5.len() as int) == g5,
    ensures
        subdivision_attempts(ls, cfg, gs, m, g5.len() as int, att.to_set()),
        att.to_set().len() == att.len(),
{
    broadcast use vstd::seq_lib::seq_to_set_is_finite;

    reveal(subdivision_attempts);
    let l5 = g5.len() as int;
    let a = att.to_set();
    att.unique_seq_to_set();
    assert forall|i: int| 0 <= i < l5 implies #[trigger] gs[i] == g5[i] by {
        assert(gs.subrange(0, l5)[i] == gs[i]);
    }
    assert forall|n: OctreeNode| #[trigger] a.contains(n) implies {
        &&& names_node(subdivide_candidates(ls, cfg), n)
        &&& s4.contains(n) || exists|i: int| m <= i < l5 && (#[trigger] gs[i]).adds().contains(n)
        &&& kept_children(n, Some(cfg)).len() > 0 ==> exists|i: int| m <= i < l5 && (#[trigger] gs[i]).group_key == n
    } by {
        let k = choose|k: int| 0 <= k < att.len() && att[k] == n;
        let j = choose|j: int| 0 <= j < e && (#[trigger] ss[j]).0 == att[k];
        lemma_sorted_member(ss, subdivide_candidates(ls, cfg), j);
        let p = choose|p: int| 0 <= p < subdivide_candidates(ls, cfg).len() && subdivide_candidates(ls, cfg)[p] == ss[j];
        assert(subdivide_candidates(ls, cfg)[p].0 == n);
        if !s4.contains(att[k]) {
            let t = choose|t: int| m <= t < g5.len() && (#[trigger] g5[t]).adds().contains(att[k]);
            assert(gs[t] == g5[t]);
        }
        if kept_children(n, Some(cfg)).len() > 0 {
            assert(wants_subdivide(ls[leaf_index(ls, ss[j].0)], cfg));
            assert(att[k].lod > 0);
            let t = choose|t: int| m <= t < g5.len() && (#[trigger] g5[t]).group_key == att[k];
            assert(gs[t] == g5[t]);
        }
    }
    assert forall|i: int| m <= i < l5 implies a.contains((#[trigger] gs[i]).group_key) by {
        assert(gs[i] == g5[i]);
        assert(att.contains(g5[i].group_key));
    }
    assert forall|n: OctreeNode, c: (OctreeNode, u64)|
        #[trigger] a.contains(n) && #[trigger] subdivide_candidates(ls, cfg).contains(c) && s4.contains(c.0) && c.1
            < leaf_key(ls, n) implies a.contains(c.0) by {
        broadcast use vstd::seq_lib::group_to_multiset_ensures;

        let k = choose|k: int| 0 <= k < att.len() && att[k] == n;
        let q = choose|q: int| 0 <= q < e && (#[trigger] ss[q]).0 == att[k];
        assert(subdivide_candidates(ls, cfg).to_multiset().count(c) > 0);
        assert(ss.to_multiset().count(c) > 0);
        assert(ss.contains(c));
        let p = choose|p: int| 0 <= p < ss.len() && ss[p] == c;
        assert(ss[q].1 == leaf_key(ls, ss[q].0));
        if p >= q {
            assert(ss[q].1 <= ss[p].1);
        }
        assert(s4.contains(ss[p].0));
        assert(att.contains(ss[p].0));
    }
}

/// Phase 5's attempts give the subdivision attempts of the outcome.
#[verifier::spinoff_prover]
proof fn lemma_refine_attempts_exist(
    ls: Seq<LeafPriority>,
    cfg: OctreeConfig,
    ss: Seq<(OctreeNode, u64)>,
    g4: Seq<TransitionGroup>,
    g5: Seq<TransitionGroup>,
    gs: Seq<TransitionGroup>,
    m: int,
    s4: Set<OctreeNode>,
    subs: int,
)
    requires
        cfg.lods_in_range(),
        keys_ordered(ss, false),
        ss.to_multiset() == subdivide_candidates(ls, cfg).to_multiset(),
        exists|e: int, att: Seq<OctreeNode>| #[trigger] attempts_through(g5, m, ss, s4, cfg, e, att) && att.len() == subs,
        forall|j: int|
            0 <= j < ss.len() ==> (#[trigger] ss[j]).1 == leaf_key(ls, ss[j].0) && ls[leaf_index(
                ls,
                ss[j].0,
            )].node == ss[j].0 && wants_subdivide(ls[leaf_index(ls, ss[j].0)], cfg),
        m == g4.len(),
        s4 == apply_groups(leaf_set(ls), g4),
        g5.len() >= m,
        g5.subrange(0, m) == g4,
        gs.len() >= g5.len(),
        gs.subrange(0, g5.len() as int) == g5,
    ensures
        exists|a: Set<OctreeNode>| #[trigger] subdivision_attempts(ls, cfg, gs, m, g5.len() as int, a) && a.len() == subs,
{
    let l5 = g5.len() as int;
    let (ea, att) = choose|e: int, att: Seq<OctreeNode>| #[trigger] attempts_through(g5, m, ss, s4, cfg, e, att) && att.len() == subs;
    assert(gs.take(m) =~= g4) by {
        assert forall|i: int| 0 <= i < m implies gs.take(m)[i] == g4[i] by {
            assert(g5.subrange(0, m)[i] == g5[i]);
            assert(gs.subrange(0, l5)[i] == gs[i]);
        }
    }
    lemma_refine_attempts(ls, cfg, ss, g5, gs, m, s4, ea, att);
    assert(subdivision_attempts(ls, cfg, gs, m, l5, att.to_set()));
}

/// Phase 5 of [`refine`] gives the subdivisions of its outcome.
#[verifier::spinoff_prover]
#[verifier::rlimit(30)]
proof fn lemma_refine_subdivisions(
    ls: Seq<LeafPriority>,
    cfg: OctreeConfig,
    b: RefinementBudget,
    ss: Seq<(OctreeNode, u64)>,
    g4: Seq<TransitionGroup>,
    s4: Set<OctreeNode>,
    g5: Seq<TransitionGroup>,
    gs: Seq<TransitionGroup>,
    m: int,
    subs: int,
)
    requires
        cfg.lods_in_range(),
        keys_ordered(ss, false),
        ss.to_multiset() == subdivide_candidates(ls, cfg).to_multiset(),
        exists|e: int| #[trigger] subdivided_through(g5, m, ss, s4, cfg, e),
        b.allows_subdivision(subs) ==> forall|j: int|
            0 <= j < ss.len() && s4.contains(#[trigger] ss[j].0) ==> has_group_for(g5, m, ss[j].0) || ss[j].0.lod <= 0
                || kept_children(ss[j].0, Some(cfg)).len() == 0,
        forall|j: int|
            0 <= j < ss.len() ==> (#[trigger] ss[j]).1 == leaf_key(ls, ss[j].0) && ls[leaf_index(
                ls,
                ss[j].0,
            )].node == ss[j].0 && wants_subdivide(ls[leaf_index(ls, ss[j].0)], cfg),
        m == g4.len(),
        s4 == apply_groups(leaf_set(ls), g4),
        g5.len() >= m,
        g5.subrange(0, m) == g4,
        g5.len() - m <= subs,
        b.max_subdivisions != 0 ==> subs <= b.max_subdivisions,
        exists|idx: Seq<int>| subdivisions_follow(g5, m, ss, idx, s4, cfg),
        exists|a: Set<OctreeNode>| #[trigger] subdivision_attempts(ls, cfg, gs, m, g5.len() as int, a) && a.len() == subs,
        gs.len() >= g5.len(),
        gs.subrange(0, g5.len() as int) == g5,
    ensures
        outcome_subdivisions(ls, cfg, b, gs, m, subs, g5.len() as int),
{
    let s0 = leaf_set(ls);
    let l5 = g5.len() as int;
    let idx = choose|idx: Seq<int>| subdivisions_follow(g5, m, ss, idx, s4, cfg);
    assert forall|i: int| 0 <= i < l5 implies #[trigger] gs[i] == g5[i] by {
        assert(gs.subrange(0, l5)[i] == gs[i]);
    }
    assert(gs.take(m) =~= g4) by {
        assert forall|i: int| 0 <= i < m implies gs.take(m)[i] == g4[i] by {
            assert(g5.subrange(0, m)[i] == g5[i]);
        }
    }
    if b.allows_subdivision(subs) {
        assert forall|c: (OctreeNode, u64)|
            #[trigger] subdivide_candidates(ls, cfg).contains(c) && apply_groups(s0, gs.take(m)).contains(c.0) implies (exists|i: int|
                m <= i < l5 && (#[trigger] gs[i]).group_key == c.0) || kept_children(c.0, Some(cfg)).len() == 0 by {
            broadcast use vstd::seq_lib::group_to_multiset_ensures;

            assert(subdivide_candidates(ls, cfg).to_multiset().count(c) > 0);
            assert(ss.to_multiset().count(c) > 0);
            assert(ss.contains(c));
            let j = choose|j: int| 0 <= j < ss.len() && ss[j] == c;
            assert(s4.contains(ss[j].0));
            assert(wants_subdivide(ls[leaf_index(ls, ss[j].0)], cfg));
            if has_group_for(g5, m, c.0) {
                let t = choose|t: int| m <= t < g5.len() && (#[trigger] g5[t]).group_key == c.0;
                assert(gs[t] == g5[t]);
            }
        }
    }
    let e = choose|e: int| #[trigger] subdivided_through(g5, m, ss, s4, cfg, e);
    assert forall|c: (OctreeNode, u64), i: int|
        #[trigger] subdivide_candidates(ls, cfg).contains(c) && apply_groups(s0, gs.take(m)).contains(c.0) && m <= i
            < l5 && c.1 < leaf_key(ls, (#[trigger] gs[i]).group_key) implies (exists|i2: int|
            m <= i2 < l5 && (#[trigger] gs[i2]).group_key == c.0) || kept_children(c.0, Some(cfg)).len() == 0 by {
        broadcast use vstd::seq_lib::group_to_multiset_ensures;

        assert(subdivide_candidates(ls, cfg).to_multiset().count(c) > 0);
        assert(ss.to_multiset().count(c) > 0);
        assert(ss.contains(c));
        let p = choose|p: int| 0 <= p < ss.len() && ss[p] == c;
        assert(gs[i] == g5[i]);
        let q = choose|q: int| 0 <= q < e && ss[q].0 == g5[i].group_key;
        assert(ss[q].1 == leaf_key(ls, ss[q].0));
        if p >= q {
            assert(ss[q].1 <= ss[p].1);
        }
        assert(p < e);
        assert(s4.contains(ss[p].0));
        assert(wants_subdivide(ls[leaf_index(ls, ss[p].0)], cfg));
        if has_group_for(g5, m, c.0) {
            let t = choose|t: int| m <= t < g5.len() && (#[trigger] g5[t]).group_key == c.0;
            assert(gs[t] == g5[t]);
        }
    }
    assert forall|i: int| m <= i < l5 implies {
        let g = #[trigger] gs[i];
        &&& is_subdivide_of(g, g.group_key, kept_children(g.group_key, Some(cfg)))
        &&& ls[leaf_index(ls, g.group_key)].node == g.group_key
        &&& wants_subdivide(ls[leaf_index(ls, g.group_key)], cfg)
        &&& apply_groups(s0, gs.take(i)).contains(g.group_key)
    } by {
        let t = i - m;
        assert(gs[i] == g5[m + t]);
        assert(0 <= idx[t] < ss.len());
        assert(g5[m + t].group_key == ss[idx[t]].0);
        lemma_apply_split(s0, gs, m, i);
        assert(gs.subrange(m, i) =~= g5.subrange(m, m + t));
    }
    assert forall|i: int, j: int| m <= i < j < l5 implies leaf_key(ls, (#[trigger] gs[i]).group_key)
        <= leaf_key(ls, (#[trigger] gs[j]).group_key) by {
        let a = i - m;
        let c = j - m;
        assert(gs[i] == g5[m + a]);
        assert(gs[j] == g5[m + c]);
        assert(idx[a] < idx[c]);
        assert(0 <= idx[a] < ss.len() && 0 <= idx[c] < ss.len());
        assert(ss[idx[a]].1 <= ss[idx[c]].1);
        assert(g5[m + a].group_key == ss[idx[a]].0);
        assert(g5[m + c].group_key == ss[idx[c]].0);
    }
}

/// The phases of [`refine`] together give its outcome.
#[verifier::spinoff_prover]
proof fn lemma_refine_result(
    ls: Seq<LeafPriority>,
    cfg: OctreeConfig,
    b: RefinementBudget,
    s0: Set<OctreeNode>,
    g4: Seq<TransitionGroup>,
    s4: Set<OctreeNode>,
    g5: Seq<TransitionGroup>,
    s5: Set<OctreeNode>,
    gs: Seq<TransitionGroup>,
    fin: Set<OctreeNode>,
    m: int,
    subs: int,
    n: int,
)
    requires
        s0 == leaf_set(ls),
        m == g4.len(),
        s4 == apply_groups(s0, g4),
        g5.len() >= m,
        g5.subrange(0, m) == g4,
        s5 == apply_groups(s4, g5.subrange(m, g5.len() as int)),
        gs.len() >= g5.len(),
        gs.subrange(0, g5.len() as int) == g5,
        enforce_inv(fin, gs, g5.len() as int, n, s5, cfg, b),
        exists|starts: Seq<int>, rnd: Seq<int>, wits: Seq<(OctreeNode, int)>|
            #[trigger] enforcement_rounds(gs, g5.len() as int, s5, starts, rnd, wits, cfg, b),
        b.max_relative_lod <= 0 ==> n == 0,
        outcome_collapses(ls, cfg, b, gs, m),
        outcome_subdivisions(ls, cfg, b, gs, m, subs, g5.len() as int),
    ensures
        refinement_outcome(ls, cfg, b, fin, gs, m, subs, n),
{
    reveal(enforce_inv);
    let l5 = g5.len() as int;
    let k = gs.len() as int;
    assert(gs.take(l5) =~= g5);
    assert(g5.take(m) =~= g4);
    assert(gs.take(k) =~= gs);
    lemma_apply_split(s0, g5, m, l5);
    assert(g5.take(l5) =~= g5);
    assert(apply_groups(s0, g5) == s5);
    lemma_apply_split(s0, gs, l5, k);
    assert(fin == apply_groups(s0, gs));
    assert forall|i: int| k - n <= i < k implies is_neighbor_step(
        #[trigger] gs[i],
        apply_groups(s0, gs.take(i)),
        cfg,
        b,
    ) by {
        lemma_apply_split(s0, gs, l5, i);
    }
}

/// Main refinement function.
///
/// Phases: (1) collect subdivision candidates (in-bounds leaves above
/// `min_lod` within their threshold) and collapse candidates (parents of the
/// other in-bounds leaves below `max_lod` whose parent is beyond its
/// threshold); (2) keep the collapse candidates whose 8 children are all
/// leaves; (3) order subdivisions closest first and collapses farthest first;
/// (4) apply collapses within the budget; (5) apply subdivisions within the
/// budget, skipping nodes that are no longer leaves; (6) enforce neighbor LOD
/// gradation. When enforcement performs fewer subdivisions than it has rounds,
/// it has run to a fixed point: no leaf is left with a face neighbor that it
/// would subdivide.
///
/// The LOD range `0..=30` and leaves within `±2^30` finest-level cells of the
/// origin are what keep the coordinate arithmetic in `i32`: children double a
/// coordinate, neighbors step it by one, and ancestors shift it by up to 30
/// LODs.
pub fn refine(input: RefinementInput) -> (out: RefinementOutput)
    requires
        distinct_leaves(input.leaves@),
        forall|i: int| 0 <= i < input.leaves@.len() ==> node_in_range(#[trigger] input.leaves@[i].node),
        input.config.lods_in_range(),
    ensures
        refinement_outcome(
            input.leaves@,
            input.config,
            input.budget,
            out.next_leaves@,
            out.transition_groups@,
            out.stats.collapses_performed as int,
            out.stats.subdivisions_performed as int,
            out.stats.neighbor_subdivisions_performed as int,
        ),
        input.budget.max_relative_lod > 0 && out.stats.neighbor_subdivisions_performed < neighbor_rounds(input.budget)
            ==> gradation_settled(out.next_leaves@, input.config, input.budget),
{
    let ghost ls = input.leaves@;
    let ghost cfg = input.config;
    let mut next_leaves = leaves_from(&input.leaves);
    let ghost s0 = next_leaves@;
    proof {
        assert forall|nd: OctreeNode| #[trigger] s0.contains(nd) implies node_in_range(nd) by {
            let i = choose|i: int| 0 <= i < ls.len() && (#[trigger] ls[i]).node == nd;
        }
    }
    // Phase 1
    let (to_subdivide, coarsen) = collect_candidates(&input.leaves, &input.config);
    proof {
        lemma_subdivide_candidates(ls, cfg);
        lemma_coarsen_candidates(ls, cfg);
        assert forall|j: int| 0 <= j < coarsen@.len() implies node_in_range((#[trigger] coarsen@[j]).0)
            && coarsen@[j].0.lod > 0 by {
            let i = choose|i: int|
                0 <= i < ls.len() && wants_coarsen(#[trigger] ls[i], cfg) && (#[trigger] coarsen@[j]).0
                    == parent_of(ls[i].node);
            lemma_parent_in_range(ls[i].node);
        }
    }
    // Phase 2
    let valid = filter_mergeable(&coarsen, &next_leaves);
    proof {
        lemma_mergeable_candidates(coarsen@, s0);
    }
    // Phase 3
    let sorted_sub = sort_by_key(&to_subdivide, false);
    let sorted_coarsen = sort_by_key(&valid, true);
    proof {
        assert forall|j: int| 0 <= j < sorted_coarsen@.len() implies node_in_range(
            (#[trigger] sorted_coarsen@[j]).0,
        ) && sorted_coarsen@[j].0.lod > 0 && mergeable(sorted_coarsen@[j].0, s0) && coarsen@.contains(
            sorted_coarsen@[j],
        ) by {
            lemma_sorted_member(sorted_coarsen@, valid@, j);
            let a = choose|a: int| 0 <= a < valid@.len() && valid@[a] == sorted_coarsen@[j];
            let c = choose|c: int| 0 <= c < coarsen@.len() && coarsen@[c] == valid@[a];
            assert(node_in_range(coarsen@[c].0));
        }
        assert forall|j: int| 0 <= j < sorted_sub@.len() implies node_in_range((#[trigger] sorted_sub@[j]).0)
            && sorted_sub@[j].1 == leaf_key(ls, sorted_sub@[j].0) && ls[leaf_index(ls, sorted_sub@[j].0)].node
            == sorted_sub@[j].0 && wants_subdivide(ls[leaf_index(ls, sorted_sub@[j].0)], cfg) by {
            lemma_sorted_member(sorted_sub@, to_subdivide@, j);
            let c = choose|c: int| 0 <= c < to_subdivide@.len() && to_subdivide@[c] == sorted_sub@[j];
            assert(to_subdivide@[c] == subdivide_candidates(ls, cfg)[c]);
            let li = leaf_index(ls, sorted_sub@[j].0);
            assert(node_in_range(ls[li].node));
        }
        lemma_subdivide_candidates_distinct(ls, cfg);
        lemma_permutation_distinct(sorted_sub@, to_subdivide@);
    }
    let mut groups: Vec<TransitionGroup> = Vec::new();
    // Phase 4
    let collapses = apply_collapses(&sorted_coarsen, &mut next_leaves, &mut groups, &input.budget);
    let ghost s4 = next_leaves@;
    let ghost g4 = groups@;
    // Phase 5
    let subdivisions = apply_subdivisions(&sorted_sub, &mut next_leaves, &mut groups, &input.config, &input.budget);
    let ghost s5 = next_leaves@;
    let ghost g5 = groups@;
    // Phase 6
    let neighbor = enforce_neighbor_gradation(&mut next_leaves, &mut groups, &input.config, &input.budget);
    proof {
        assert(groups@.subrange(0, g4.len() as int) == g4) by {
            assert(groups@.subrange(0, g5.len() as int).subrange(0, g4.len() as int) =~= groups@.subrange(
                0,
                g4.len() as int,
            ));
        }
        lemma_refine_collapses(ls, cfg, input.budget, sorted_coarsen@, g4, groups@, collapses as int);
        lemma_refine_attempts_exist(ls, cfg, sorted_sub@, g4, g5, groups@, collapses as int, s4, subdivisions as int);
        lemma_refine_subdivisions(
            ls,
            cfg,
            input.budget,
            sorted_sub@,
            g4,
            s4,
            g5,
            groups@,
            collapses as int,
            subdivisions as int,
        );
        lemma_refine_result(
            ls,
            cfg,
            input.budget,
            s0,
            g4,
            s4,
            g5,
            s5,
            groups@,
            next_leaves@,
            collapses as int,
            subdivisions as int,
            neighbor as int,
        );
    }
    RefinementOutput {
        next_leaves,
        transition_groups: groups,
        stats: RefinementStats {
            subdivisions_performed: subdivisions,
            collapses_performed: collapses,
            neighbor_subdivisions_performed: neighbor,
        },
    }
}

/// `p` lists the indices of `keys` in a stable ascending order: a
/// permutation of `0..keys.len()` with non-decreasing keys, equal keys kept
/// in index order.
pub open spec fn stable_sorted_by(keys: Seq<u64>, p: Seq<int>) -> bool {
    &&& p.len() == keys.len()
    &&& forall|i: int| 0 <= i < p.len() ==> 0 <= #[trigger] p[i] < keys.len()
    &&& forall|i: int, j: int| 0 <= i < p.len() && 0 <= j < p.len() && i != j ==> #[trigger] p[i] != #[trigger] p[j]
    &&& forall|i: int, j: int| 0 <= i < j < p.len() ==> keys[#[trigger] p[i]] <= keys[#[trigger] p[j]]
    &&& forall|i: int, j: int|
        0 <= i < j < p.len() && keys[#[trigger] p[i]] == keys[#[trigger] p[j]] ==> p[i] < p[j]
}

/// Order transition groups by their keys (the viewer's distance to each group
/// key's center, smaller first), keeping groups with equal keys in their
/// original order.
pub fn sort_groups_by_distance(groups: Vec<TransitionGroup>, keys: &Vec<u64>) -> (r: Vec<TransitionGroup>)
    requires
        keys@.len() == groups@.len(),
    ensures
        exists|p: Seq<int>|
            stable_sorted_by(keys@, p) && r@.len() == groups@.len() && forall|i: int|
                0 <= i < r@.len() ==> #[trigger] r@[i] == groups@[p[i]],
{
    let ghost gs = groups@;
    let ghost ks = keys@;
    let mut r: Vec<TransitionGroup> = Vec::new();
    let mut rkeys: Vec<u64> = Vec::new();
    let ghost mut p: Seq<int> = Seq::empty();
    for g in it: groups
        invariant
            it.seq() == gs,
            ks == keys@,
            ks.len() == gs.len(),
            p.len() == it.index(),
            r@.len() == p.len(),
            rkeys@.len() == p.len(),
            forall|a: int| 0 <= a < p.len() ==> 0 <= #[trigger] p[a] < it.index(),
            forall|a: int, b: int| 0 <= a < p.len() && 0 <= b < p.len() && a != b ==> #[trigger] p[a] != #[trigger] p[b],
            forall|a: int| 0 <= a < p.len() ==> #[trigger] r@[a] == gs[p[a]] && rkeys@[a] == ks[p[a]],
            forall|a: int, b: int| 0 <= a < b < p.len() ==> rkeys@[a] <= rkeys@[b],
            forall|a: int, b: int| 0 <= a < b < p.len() && rkeys@[a] == rkeys@[b] ==> p[a] < p[b],
    {
        let ghost n = it.index();
        let i = r.len();
        let k = keys[i];
        let mut pos: usize = 0;
        while pos < rkeys.len() && rkeys[pos] <= k
            invariant
                pos <= rkeys@.len(),
                forall|a: int| 0 <= a < pos ==> rkeys@[a] <= k,
            decreases rkeys@.len() - pos,
        {
            pos = pos + 1;
        }
        let ghost old_r = r@;
        let ghost old_k = rkeys@;
        let ghost old_p = p;
        r.insert(pos, g);
        rkeys.insert(pos, k);
        proof {
            p = p.insert(pos as int, n);
            assert forall|a: int| 0 <= a < p.len() implies #[trigger] r@[a] == gs[p[a]] && rkeys@[a] == ks[p[a]] by {
                if a < pos {
                    assert(r@[a] == old_r[a] && p[a] == old_p[a] && rkeys@[a] == old_k[a]);
                } else if a > pos {
                    assert(r@[a] == old_r[a - 1] && p[a] == old_p[a - 1] && rkeys@[a] == old_k[a - 1]);
                }
            }
            assert forall|a: int| 0 <= a < p.len() implies 0 <= #[trigger] p[a] < n + 1 by {
                if a < pos {
                    assert(p[a] == old_p[a]);
                } else if a > pos {
                    assert(p[a] == old_p[a - 1]);
                }
            }
            assert forall|a: int, b: int| 0 <= a < p.len() && 0 <= b < p.len() && a != b implies #[trigger] p[a]
                != #[trigger] p[b] by {
                if a != pos && b != pos {
                    let a2 = if a < pos { a } else { a - 1 };
                    let b2 = if b < pos { b } else { b - 1 };
                    assert(p[a] == old_p[a2] && p[b] == old_p[b2]);
                } else if a == pos {
                    let b2 = if b < pos { b } else { b - 1 };
                    assert(p[b] == old_p[b2]);
                } else {
                    let a2 = if a < pos { a } else { a - 1 };
                    assert(p[a] == old_p[a2]);
                }
            }
            if pos < old_k.len() {
                assert(old_k[pos as int] > k);
            }
            assert forall|a: int, b: int| 0 <= a < b < p.len() implies rkeys@[a] <= rkeys@[b] by {
                if b < pos {
                    assert(rkeys@[a] == old_k[a] && rkeys@[b] == old_k[b]);
                } else if b == pos {
                    assert(rkeys@[a] == old_k[a]);
                } else if a < pos {
                    assert(rkeys@[a] == old_k[a] && rkeys@[b] == old_k[b - 1]);
                } else if a == pos {
                    assert(rkeys@[b] == old_k[b - 1]);
                    assert(old_k[pos as int] <= old_k[b - 1]);
                } else {
                    assert(rkeys@[a] == old_k[a - 1] && rkeys@[b] == old_k[b - 1]);
                }
            }
            assert forall|a: int, b: int| 0 <= a < b < p.len() && rkeys@[a] == rkeys@[b] implies p[a] < p[b] by {
                if b < pos {
                    assert(rkeys@[a] == old_k[a] && rkeys@[b] == old_k[b]);
                    assert(p[a] == old_p[a] && p[b] == old_p[b]);
                } else if b == pos {
                    assert(p[a] == old_p[a]);
                } else if a < pos {
                    assert(rkeys@[a] == old_k[a] && rkeys@[b] == old_k[b - 1]);
                    assert(old_k[a] <= k);
                    assert(old_k[b - 1] >= old_k[pos as int]);
                } else if a == pos {
                    assert(rkeys@[b] == old_k[b - 1]);
                    assert(old_k[b - 1] >= old_k[pos as int]);
                } else {
                    assert(rkeys@[a] == old_k[a - 1] && rkeys@[b] == old_k[b - 1]);
                    assert(p[a] == old_p[a - 1] && p[b] == old_p[b - 1]);
                }
            }
        }
    }
    proof {
        assert(stable_sorted_by(ks, p)) by {
            assert forall|a: int, b: int| 0 <= a < b < p.len() implies ks[#[trigger] p[a]] <= ks[#[trigger] p[b]] by {
                assert(r@[a] == gs[p[a]] && r@[b] == gs[p[b]]);
                assert(rkeys@[a] == ks[p[a]] && rkeys@[b] == ks[p[b]]);
            }
            assert forall|a: int, b: int| 0 <= a < b < p.len() && ks[#[trigger] p[a]] == ks[#[trigger] p[b]] implies p[a] < p[b] by {
                assert(r@[a] == gs[p[a]] && r@[b] == gs[p[b]]);
                assert(rkeys@[a] == ks[p[a]] && rkeys@[b] == ks[p[b]]);
            }
        }
    }
    r
}

} // verus!
