//! Stage 4: composition of meshes into transition groups.
//!
//! Invalidation meshes bypass grouping. Refinement meshes are pooled by node
//! (a later mesh of the same node replaces an earlier one), then each
//! transition group, in order, takes the meshes of its members out of the
//! pool: the children for a subdivide, the parent for a merge. Groups that
//! get no mesh are left out.
use vstd::prelude::*;

use super::types::{GroupedMesh, MeshResult, NodeMesh, WorkSource};
use crate::octree::{OctreeNode, TransitionGroup, TransitionType};

verus! {

/// Output from the composition stage.
pub struct CompositionOutput<M> {
    /// Grouped meshes (from refinement work).
    pub grouped: Vec<GroupedMesh<M>>,
    /// Ungrouped meshes (from invalidation work, which bypasses grouping).
    pub ungrouped: Vec<MeshResult<M>>,
}

/// The refinement meshes by node; a later mesh of a node replaces an earlier one.
pub open spec fn refinement_pool<M>(rs: Seq<MeshResult<M>>) -> Map<OctreeNode, MeshResult<M>>
    decreases rs.len(),
{
    if rs.len() == 0 {
        Map::empty()
    } else {
        let p = refinement_pool(rs.drop_last());
        if rs.last().work_source == WorkSource::Refinement {
            p.insert(rs.last().node, rs.last())
        } else {
            p
        }
    }
}

/// The invalidation meshes, in order.
pub open spec fn invalidations<M>(rs: Seq<MeshResult<M>>) -> Seq<MeshResult<M>>
    decreases rs.len(),
{
    if rs.len() == 0 {
        Seq::empty()
    } else {
        let p = invalidations(rs.drop_last());
        if rs.last().work_source == WorkSource::Invalidation {
            p.push(rs.last())
        } else {
            p
        }
    }
}

/// Take the meshes of `keys`, in order, out of `pool`: the meshes found and
/// what is left of the pool.
pub open spec fn take_meshes<M>(pool: Map<OctreeNode, MeshResult<M>>, keys: Seq<OctreeNode>) -> (
    Seq<NodeMesh<M>>,
    Map<OctreeNode, MeshResult<M>>,
)
    decreases keys.len(),
{
    if keys.len() == 0 {
        (Seq::empty(), pool)
    } else {
        let (ms, p) = take_meshes(pool, keys.drop_last());
        let k = keys.last();
        if p.contains_key(k) {
            (ms.push(NodeMesh { node: p[k].node, output: p[k].output }), p.remove(k))
        } else {
            (ms, p)
        }
    }
}

/// The nodes whose meshes a group collects: the children it adds for a
/// subdivide, the parent for a merge.
pub open spec fn group_members(g: TransitionGroup) -> Seq<OctreeNode> {
    match g.transition_type {
        TransitionType::Subdivide => g.adds(),
        TransitionType::Merge => seq![g.group_key],
    }
}

/// Compose the groups `gs` in order from `pool`: for each group that gets at
/// least one mesh, its key, type and meshes; and what is left of the pool.
pub open spec fn composed<M>(pool: Map<OctreeNode, MeshResult<M>>, gs: Seq<TransitionGroup>) -> (
    Seq<(OctreeNode, TransitionType, Seq<NodeMesh<M>>)>,
    Map<OctreeNode, MeshResult<M>>,
)
    decreases gs.len(),
{
    if gs.len() == 0 {
        (Seq::empty(), pool)
    } else {
        let (prev, p) = composed(pool, gs.drop_last());
        let g = gs.last();
        let (ms, p2) = take_meshes(p, group_members(g));
        if ms.len() > 0 {
            (prev.push((g.group_key, g.transition_type, ms)), p2)
        } else {
            (prev, p2)
        }
    }
}

/// The entries of `v` name pairwise different nodes.
pub open spec fn distinct_results<M>(v: Seq<MeshResult<M>>) -> bool {
    forall|i: int, j: int| 0 <= i < v.len() && 0 <= j < v.len() && i != j ==> (#[trigger] v[i]).node != (
    #[trigger] v[j]).node
}

/// The results of `v` by node.
pub open spec fn pool_of<M>(v: Seq<MeshResult<M>>) -> Map<OctreeNode, MeshResult<M>> {
    Map::new(
        |n: OctreeNode| exists|j: int| 0 <= j < v.len() && (#[trigger] v[j]).node == n,
        |n: OctreeNode| v[choose|j: int| 0 <= j < v.len() && (#[trigger] v[j]).node == n],
    )
}

proof fn lemma_pool_of_index<M>(v: Seq<MeshResult<M>>, j: int)
    requires
        distinct_results(v),
        0 <= j < v.len(),
    ensures
        pool_of(v).contains_key(v[j].node),
        pool_of(v)[v[j].node] == v[j],
{
    let n = v[j].node;
    assert(pool_of(v).contains_key(n));
    let k = choose|k: int| 0 <= k < v.len() && (#[trigger] v[k]).node == n;
    assert(v[k].node == n);
}

proof fn lemma_pool_of_remove<M>(v: Seq<MeshResult<M>>, j: int)
    requires
        distinct_results(v),
        0 <= j < v.len(),
    ensures
        distinct_results(v.remove(j)),
        pool_of(v.remove(j)) == pool_of(v).remove(v[j].node),
{
    let w = v.remove(j);
    assert forall|a: int, b: int| 0 <= a < w.len() && 0 <= b < w.len() && a != b implies (#[trigger] w[a]).node
        != (#[trigger] w[b]).node by {
        let a2 = if a < j { a } else { a + 1 };
        let b2 = if b < j { b } else { b + 1 };
        assert(w[a] == v[a2] && w[b] == v[b2]);
    }
    let n = v[j].node;
    assert forall|m: OctreeNode| pool_of(w).contains_key(m) <==> pool_of(v).remove(n).contains_key(m) by {
        if pool_of(w).contains_key(m) {
            let a = choose|a: int| 0 <= a < w.len() && (#[trigger] w[a]).node == m;
            let a2 = if a < j { a } else { a + 1 };
            assert(w[a] == v[a2]);
        }
        if pool_of(v).remove(n).contains_key(m) {
            let a = choose|a: int| 0 <= a < v.len() && (#[trigger] v[a]).node == m;
            assert(a != j);
            let a2 = if a < j { a } else { a - 1 };
            assert(w[a2] == v[a]);
        }
    }
    assert forall|m: OctreeNode| #[trigger] pool_of(w).contains_key(m) implies pool_of(w)[m] == pool_of(v).remove(
        n,
    )[m] by {
        let a = choose|a: int| 0 <= a < w.len() && (#[trigger] w[a]).node == m;
        let a2 = if a < j { a } else { a + 1 };
        assert(w[a] == v[a2]);
        lemma_pool_of_index(w, a);
        lemma_pool_of_index(v, a2);
    }
    assert(pool_of(w) =~= pool_of(v).remove(n));
}

proof fn lemma_pool_of_push<M>(v: Seq<MeshResult<M>>, r: MeshResult<M>)
    requires
        distinct_results(v),
        !pool_of(v).contains_key(r.node),
    ensures
        distinct_results(v.push(r)),
        pool_of(v.push(r)) == pool_of(v).insert(r.node, r),
{
    let w = v.push(r);
    assert forall|a: int, b: int| 0 <= a < w.len() && 0 <= b < w.len() && a != b implies (#[trigger] w[a]).node
        != (#[trigger] w[b]).node by {
        if a < v.len() && b < v.len() {
            assert(w[a] == v[a] && w[b] == v[b]);
        } else if a < v.len() {
            assert(w[a] == v[a]);
            assert(pool_of(v).contains_key(v[a].node));
        } else if b < v.len() {
            assert(w[b] == v[b]);
            assert(pool_of(v).contains_key(v[b].node));
        }
    }
    assert forall|m: OctreeNode| pool_of(w).contains_key(m) <==> pool_of(v).insert(r.node, r).contains_key(m) by {
        if pool_of(w).contains_key(m) {
            let a = choose|a: int| 0 <= a < w.len() && (#[trigger] w[a]).node == m;
            if a < v.len() {
                assert(w[a] == v[a]);
            }
        }
        if pool_of(v).contains_key(m) {
            let a = choose|a: int| 0 <= a < v.len() && (#[trigger] v[a]).node == m;
            assert(w[a] == v[a]);
        }
        if m == r.node {
            assert(w[v.len() as int] == r);
        }
    }
    assert forall|m: OctreeNode| #[trigger] pool_of(w).contains_key(m) implies pool_of(w)[m] == pool_of(v).insert(
        r.node,
        r,
    )[m] by {
        let a = choose|a: int| 0 <= a < w.len() && (#[trigger] w[a]).node == m;
        lemma_pool_of_index(w, a);
        if a < v.len() {
            assert(w[a] == v[a]);
            lemma_pool_of_index(v, a);
        }
    }
    assert(pool_of(w) =~= pool_of(v).insert(r.node, r));
}

/// Index of the pooled result for `node`, if any.
fn pool_find<M>(pool: &Vec<MeshResult<M>>, node: &OctreeNode) -> (r: Option<usize>)
    requires
        distinct_results(pool@),
    ensures
        match r {
            Some(j) => j < pool@.len() && pool@[j as int].node == *node,
            None => !pool_of(pool@).contains_key(*node),
        },
{
    let mut j: usize = 0;
    while j < pool.len()
        invariant
            j <= pool@.len(),
            forall|k: int| 0 <= k < j ==> (#[trigger] pool@[k]).node != *node,
        decreases pool@.len() - j,
    {
        if pool[j].node == *node {
            return Some(j);
        }
        j = j + 1;
    }
    None
}

/// Put `r` into the pool, replacing the result of the same node.
fn pool_insert<M>(pool: &mut Vec<MeshResult<M>>, r: MeshResult<M>)
    requires
        distinct_results(old(pool)@),
    ensures
        distinct_results(final(pool)@),
        pool_of(final(pool)@) == pool_of(old(pool)@).insert(r.node, r),
{
    let ghost p0 = pool_of(pool@);
    match pool_find(pool, &r.node) {
        Some(j) => {
            proof {
                lemma_pool_of_remove(pool@, j as int);
            }
            let _ = pool.remove(j);
            proof {
                lemma_pool_of_push(pool@, r);
                assert(p0.remove(r.node).insert(r.node, r) =~= p0.insert(r.node, r));
            }
            pool.push(r);
        },
        None => {
            proof {
                lemma_pool_of_push(pool@, r);
            }
            pool.push(r);
        },
    }
}

/// Take the result of `node` out of the pool.
fn pool_take<M>(pool: &mut Vec<MeshResult<M>>, node: &OctreeNode) -> (r: Option<MeshResult<M>>)
    requires
        distinct_results(old(pool)@),
    ensures
        distinct_results(final(pool)@),
        pool_of(old(pool)@).contains_key(*node) ==> r == Some(pool_of(old(pool)@)[*node]) && pool_of(
            final(pool)@,
        ) == pool_of(old(pool)@).remove(*node),
        !pool_of(old(pool)@).contains_key(*node) ==> r is None && final(pool)@ == old(pool)@,
{
    match pool_find(pool, node) {
        Some(j) => {
            proof {
                lemma_pool_of_index(pool@, j as int);
                lemma_pool_of_remove(pool@, j as int);
            }
            Some(pool.remove(j))
        },
        None => None,
    }
}

/// Compose mesh results into groups following the transition groups:
/// invalidation results bypass grouping, in order; refinement results are
/// pooled by node (a later one replaces an earlier one of the same node) and
/// each group, in order, takes out the meshes of its members (children of a
/// subdivide in the order it adds them, the parent of a merge). A group that
/// gets no mesh produces no grouped mesh.
pub fn compose<M>(mesh_results: Vec<MeshResult<M>>, transition_groups: &[TransitionGroup]) -> (out:
    CompositionOutput<M>)
    ensures
        out.ungrouped@ == invalidations(mesh_results@),
        ({
            let gr = composed(refinement_pool(mesh_results@), transition_groups@).0;
            &&& out.grouped@.len() == gr.len()
            &&& forall|i: int|
                0 <= i < gr.len() ==> {
                    let g = #[trigger] out.grouped@[i];
                    &&& g.group_key == gr[i].0
                    &&& g.transition_type == gr[i].1
                    &&& g.meshes@ == gr[i].2
                }
        }),
{
    let mut ungrouped: Vec<MeshResult<M>> = Vec::new();
    let mut pool: Vec<MeshResult<M>> = Vec::new();
    let ghost rs = mesh_results@;
    for result in it: mesh_results
        invariant
            it.seq() == rs,
            distinct_results(pool@),
            ungrouped@ == invalidations(rs.take(it.index() as int)),
            pool_of(pool@) == refinement_pool(rs.take(it.index() as int)),
    {
        let ghost i = it.index();
        proof {
            assert(rs.take(i + 1).drop_last() =~= rs.take(i));
            assert(rs.take(i + 1).last() == result);
        }
        match result.work_source {
            WorkSource::Invalidation => {
                ungrouped.push(result);
            },
            WorkSource::Refinement => {
                pool_insert(&mut pool, result);
            },
        }
    }
    proof {
        assert(rs.take(rs.len() as int) =~= rs);
    }
    let ghost pool0 = pool_of(pool@);
    let mut grouped: Vec<GroupedMesh<M>> = Vec::new();
    let ghost gs = transition_groups@;
    let mut gi: usize = 0;
    while gi < transition_groups.len()
        invariant
            gi <= gs.len(),
            gs == transition_groups@,
            distinct_results(pool@),
            pool_of(pool@) == composed(pool0, gs.take(gi as int)).1,
            grouped@.len() == composed(pool0, gs.take(gi as int)).0.len(),
            forall|i: int|
                0 <= i < grouped@.len() ==> {
                    let g = #[trigger] grouped@[i];
                    let c = composed(pool0, gs.take(gi as int)).0[i];
                    &&& g.group_key == c.0
                    &&& g.transition_type == c.1
                    &&& g.meshes@ == c.2
                },
        decreases gs.len() - gi,
    {
        let group = &transition_groups[gi];
        let ghost p_before = pool_of(pool@);
        let ghost members = group_members(*group);
        let mut meshes: Vec<NodeMesh<M>> = Vec::new();
        match group.transition_type {
            TransitionType::Subdivide => {
                let kids = group.nodes_to_add.as_slice();
                let mut k: usize = 0;
                while k < kids.len()
                    invariant
                        k <= kids@.len(),
                        kids@ == members,
                        distinct_results(pool@),
                        meshes@ == take_meshes(p_before, members.take(k as int)).0,
                        pool_of(pool@) == take_meshes(p_before, members.take(k as int)).1,
                    decreases kids@.len() - k,
                {
                    proof {
                        assert(members.take(k as int + 1).drop_last() =~= members.take(k as int));
                    }
                    match pool_take(&mut pool, &kids[k]) {
                        Some(r) => {
                            meshes.push(NodeMesh { node: r.node, output: r.output });
                        },
                        None => {},
                    }
                    k = k + 1;
                }
                proof {
                    assert(members.take(kids@.len() as int) =~= members);
                }
            },
            TransitionType::Merge => {
                proof {
                    assert(members.drop_last() =~= Seq::<OctreeNode>::empty());
                    assert(take_meshes(p_before, members.drop_last()) == (Seq::<NodeMesh<M>>::empty(), p_before));
                }
                match pool_take(&mut pool, &group.group_key) {
                    Some(r) => {
                        meshes.push(NodeMesh { node: r.node, output: r.output });
                        proof {
                            assert(meshes@ =~= Seq::<NodeMesh<M>>::empty().push(NodeMesh { node: r.node, output: r.output }));
                        }
                    },
                    None => {},
                }
            },
        }
        proof {
            assert(meshes@ == take_meshes(p_before, members).0);
            assert(pool_of(pool@) == take_meshes(p_before, members).1);
        }
        proof {
            assert(gs.take(gi as int + 1).drop_last() =~= gs.take(gi as int));
            assert(gs.take(gi as int + 1).last() == *group);
        }
        if meshes.len() > 0 {
            grouped.push(
                GroupedMesh { group_key: group.group_key, meshes, transition_type: group.transition_type },
            );
        }
        gi = gi + 1;
    }
    proof {
        assert(gs.take(gs.len() as int) =~= gs);
    }
    CompositionOutput { grouped, ungrouped }
}

/// The number of meshes over all composed groups.
pub open spec fn grouped_mesh_count<M>(c: Seq<(OctreeNode, TransitionType, Seq<NodeMesh<M>>)>) -> nat
    decreases c.len(),
{
    if c.len() == 0 {
        0
    } else {
        grouped_mesh_count(c.drop_last()) + c.last().2.len()
    }
}

proof fn lemma_take_meshes_conserves<M>(pool: Map<OctreeNode, MeshResult<M>>, keys: Seq<OctreeNode>)
    requires
        pool.dom().finite(),
    ensures
        take_meshes(pool, keys).1.dom().finite(),
        take_meshes(pool, keys).0.len() + take_meshes(pool, keys).1.dom().len() == pool.dom().len(),
    decreases keys.len(),
{
    if keys.len() > 0 {
        lemma_take_meshes_conserves(pool, keys.drop_last());
        let p = take_meshes(pool, keys.drop_last()).1;
        let k = keys.last();
        if p.contains_key(k) {
            assert(p.remove(k).dom() =~= p.dom().remove(k));
        }
    }
}

/// Composition neither duplicates nor invents refinement meshes: the meshes
/// handed to the groups together with those left over are exactly as many as
/// the pooled meshes.
pub proof fn lemma_compose_conserves_meshes<M>(pool: Map<OctreeNode, MeshResult<M>>, gs: Seq<TransitionGroup>)
    requires
        pool.dom().finite(),
    ensures
        composed(pool, gs).1.dom().finite(),
        grouped_mesh_count(composed(pool, gs).0) + composed(pool, gs).1.dom().len() == pool.dom().len(),
    decreases gs.len(),
{
    if gs.len() > 0 {
        lemma_compose_conserves_meshes(pool, gs.drop_last());
        let (prev, p) = composed(pool, gs.drop_last());
        let g = gs.last();
        lemma_take_meshes_conserves(p, group_members(g));
        let (ms, p2) = take_meshes(p, group_members(g));
        if ms.len() > 0 {
            assert(prev.push((g.group_key, g.transition_type, ms)).drop_last() =~= prev);
        }
    }
}

/// The refinement pool holds at most one mesh per refinement result.
pub proof fn lemma_refinement_pool_size<M>(rs: Seq<MeshResult<M>>)
    ensures
        refinement_pool(rs).dom().finite(),
        refinement_pool(rs).dom().len() <= rs.len(),
    decreases rs.len(),
{
    if rs.len() > 0 {
        lemma_refinement_pool_size(rs.drop_last());
        let p = refinement_pool(rs.drop_last());
        if rs.last().work_source == WorkSource::Refinement {
            assert(p.insert(rs.last().node, rs.last()).dom() =~= p.dom().insert(rs.last().node));
        }
    }
}

/// Composition never groups more meshes than it was given.
pub proof fn lemma_compose_mesh_bound<M>(rs: Seq<MeshResult<M>>, gs: Seq<TransitionGroup>)
    ensures
        grouped_mesh_count(composed(refinement_pool(rs), gs).0) <= rs.len(),
{
    lemma_refinement_pool_size(rs);
    lemma_compose_conserves_meshes(refinement_pool(rs), gs);
}

} // verus!
