//! Assembling the result of a refinement + meshing run: the transitions,
//! each with the ready chunks it presents, collapses first.
use vstd::prelude::*;

use super::types::{PresentationHint, ReadyChunk};
use crate::octree::{OctreeNode, TransitionGroup, TransitionType};
use crate::world::WorldId;

verus! {

/// A completed transition, to be applied atomically: despawn
/// `nodes_to_remove` and spawn `ready_chunks` in the same frame.
#[derive(Debug)]
pub struct CompletedTransition<M> {
    /// The group key identifying this transition (the parent node).
    pub group_key: OctreeNode,
    /// Whether this is a collapse (merge) rather than a subdivide.
    pub is_collapse: bool,
    /// Nodes to despawn (parent for subdivide, children for merge).
    pub nodes_to_remove: Vec<OctreeNode>,
    /// Nodes to add to the leaves.
    pub nodes_to_add: Vec<OctreeNode>,
    /// Ready chunks to spawn (children for subdivide, parent for merge).
    pub ready_chunks: Vec<ReadyChunk<M>>,
}

/// Statistics of one refinement + meshing run.
#[derive(Debug, Clone, Copy, Default)]
pub struct RefinementStats {
    /// Number of subdivisions performed.
    pub subdivisions: usize,
    /// Number of collapses performed.
    pub collapses: usize,
    /// Number of neighbor enforcement subdivisions.
    pub neighbor_subdivisions: usize,
    /// Refinement time in microseconds.
    pub refine_us: u64,
    /// Mesh generation time in microseconds.
    pub mesh_us: u64,
}

/// Result of one refinement + meshing run.
pub struct RefinementResult<M> {
    /// World ID.
    pub world_id: WorldId,
    /// Completed transitions, each to be applied atomically.
    pub transitions: Vec<CompletedTransition<M>>,
    /// Statistics.
    pub stats: RefinementStats,
}

/// The transition a ready chunk belongs to: the group key of its fade hint,
/// or its own node for an immediate chunk.
pub open spec fn chunk_group<M>(c: ReadyChunk<M>) -> OctreeNode {
    match c.hint {
        PresentationHint::FadeIn { group_key } => group_key,
        PresentationHint::FadeOut { group_key } => group_key,
        PresentationHint::Immediate => c.node,
    }
}

/// The chunks of `cs` belonging to `key` (when `keep`) or to other keys, in order.
pub open spec fn chunks_split<M>(cs: Seq<ReadyChunk<M>>, key: OctreeNode, keep: bool) -> Seq<ReadyChunk<M>>
    decreases cs.len(),
{
    if cs.len() == 0 {
        Seq::empty()
    } else {
        let prev = chunks_split(cs.drop_last(), key, keep);
        if (chunk_group(cs.last()) == key) == keep {
            prev.push(cs.last())
        } else {
            prev
        }
    }
}

/// The chunks left after the groups `gs` took theirs.
pub open spec fn chunks_left<M>(cs: Seq<ReadyChunk<M>>, gs: Seq<TransitionGroup>) -> Seq<ReadyChunk<M>>
    decreases gs.len(),
{
    if gs.len() == 0 {
        cs
    } else {
        chunks_split(chunks_left(cs, gs.drop_last()), gs.last().group_key, false)
    }
}

/// The chunks group `i` of `gs` takes: those of its key not taken by an
/// earlier group (so a key's chunks all go to its first group).
pub open spec fn chunks_taken<M>(cs: Seq<ReadyChunk<M>>, gs: Seq<TransitionGroup>, i: int) -> Seq<
    ReadyChunk<M>,
> {
    chunks_split(chunks_left(cs, gs.take(i)), gs[i].group_key, true)
}

/// Transition `t` was built from group `i` of `gs` and the chunks `cs`.
pub open spec fn built_from<M>(t: CompletedTransition<M>, cs: Seq<ReadyChunk<M>>, gs: Seq<TransitionGroup>, i: int) -> bool {
    &&& t.group_key == gs[i].group_key
    &&& t.is_collapse == (gs[i].transition_type == TransitionType::Merge)
    &&& t.nodes_to_remove@ == gs[i].removes()
    &&& t.nodes_to_add@ == gs[i].adds()
    &&& t.ready_chunks@ == chunks_taken(cs, gs, i)
}

/// The group indices of `gs` of collapses (when `collapse`) or of
/// subdivides, in order.
pub open spec fn indices_of(gs: Seq<TransitionGroup>, collapse: bool) -> Seq<int>
    decreases gs.len(),
{
    if gs.len() == 0 {
        Seq::empty()
    } else {
        let prev = indices_of(gs.drop_last(), collapse);
        if (gs.last().transition_type == TransitionType::Merge) == collapse {
            prev.push(gs.len() - 1)
        } else {
            prev
        }
    }
}

/// Collapses first, then subdivides, each in group order.
pub open spec fn collapse_first_order(gs: Seq<TransitionGroup>) -> Seq<int> {
    indices_of(gs, true) + indices_of(gs, false)
}

proof fn lemma_chunks_split_push<M>(cs: Seq<ReadyChunk<M>>, c: ReadyChunk<M>, key: OctreeNode, keep: bool)
    ensures
        chunks_split(cs.push(c), key, keep) == if (chunk_group(c) == key) == keep {
            chunks_split(cs, key, keep).push(c)
        } else {
            chunks_split(cs, key, keep)
        },
{
    assert(cs.push(c).drop_last() =~= cs);
}

proof fn lemma_indices_bounded(gs: Seq<TransitionGroup>, collapse: bool)
    ensures
        forall|t: int| 0 <= t < indices_of(gs, collapse).len() ==> 0 <= #[trigger] indices_of(gs, collapse)[t] < gs.len()
            && ((gs[indices_of(gs, collapse)[t]].transition_type == TransitionType::Merge) == collapse),
    decreases gs.len(),
{
    if gs.len() > 0 {
        lemma_indices_bounded(gs.drop_last(), collapse);
        let prev = indices_of(gs.drop_last(), collapse);
        assert forall|t: int| 0 <= t < indices_of(gs, collapse).len() implies 0 <= #[trigger] indices_of(
            gs,
            collapse,
        )[t] < gs.len() && ((gs[indices_of(gs, collapse)[t]].transition_type == TransitionType::Merge)
            == collapse) by {
            if t < prev.len() {
                assert(indices_of(gs, collapse)[t] == prev[t]);
                assert(gs.drop_last()[prev[t]] == gs[prev[t]]);
            }
        }
    }
}

/// Split `cs` into the chunks of `key` and the others, keeping order.
fn split_chunks<M>(cs: Vec<ReadyChunk<M>>, key: &OctreeNode) -> (r: (Vec<ReadyChunk<M>>, Vec<ReadyChunk<M>>))
    ensures
        r.0@ == chunks_split(cs@, *key, true),
        r.1@ == chunks_split(cs@, *key, false),
{
    let ghost all = cs@;
    let mut taken: Vec<ReadyChunk<M>> = Vec::new();
    let mut rest: Vec<ReadyChunk<M>> = Vec::new();
    for c in it: cs
        invariant
            it.seq() == all,
            taken@ == chunks_split(all.take(it.index() as int), *key, true),
            rest@ == chunks_split(all.take(it.index() as int), *key, false),
    {
        let ghost i = it.index();
        proof {
            assert(all.take(i + 1) =~= all.take(i).push(c));
            lemma_chunks_split_push(all.take(i), c, *key, true);
            lemma_chunks_split_push(all.take(i), c, *key, false);
        }
        let group = match c.hint {
            PresentationHint::FadeIn { group_key } => group_key,
            PresentationHint::FadeOut { group_key } => group_key,
            PresentationHint::Immediate => c.node,
        };
        if group == *key {
            taken.push(c);
        } else {
            rest.push(c);
        }
    }
    proof {
        assert(all.take(all.len() as int) =~= all);
    }
    (taken, rest)
}

/// Build the completed transitions of `groups` in group order, each taking
/// the ready chunks of its key that no earlier transition took.
fn build_transitions<M>(groups: &Vec<TransitionGroup>, ready_chunks: Vec<ReadyChunk<M>>) -> (ts: Vec<
    CompletedTransition<M>,
>)
    ensures
        ts@.len() == groups@.len(),
        forall|i: int| 0 <= i < ts@.len() ==> built_from(#[trigger] ts@[i], ready_chunks@, groups@, i),
{
    let ghost cs = ready_chunks@;
    let ghost gs = groups@;
    let mut left = ready_chunks;
    let mut ts: Vec<CompletedTransition<M>> = Vec::new();
    let mut gi: usize = 0;
    proof {
        assert(gs.take(0) =~= Seq::<TransitionGroup>::empty());
    }
    while gi < groups.len()
        invariant
            gi <= gs.len(),
            gs == groups@,
            left@ == chunks_left(cs, gs.take(gi as int)),
            ts@.len() == gi,
            forall|i: int| 0 <= i < gi ==> built_from(#[trigger] ts@[i], cs, gs, i),
        decreases gs.len() - gi,
    {
        let group = &groups[gi];
        let (taken, rest) = split_chunks(left, &group.group_key);
        left = rest;
        proof {
            assert(gs.take(gi as int + 1).drop_last() =~= gs.take(gi as int));
            assert(gs.take(gi as int + 1).last() == gs[gi as int]);
        }
        let mut nodes_to_remove: Vec<OctreeNode> = Vec::new();
        let rem = group.nodes_to_remove.as_slice();
        let mut k: usize = 0;
        while k < rem.len()
            invariant
                k <= rem@.len(),
                nodes_to_remove@ == rem@.take(k as int),
            decreases rem@.len() - k,
        {
            nodes_to_remove.push(rem[k]);
            proof {
                assert(rem@.take(k as int + 1) =~= rem@.take(k as int).push(rem@[k as int]));
            }
            k = k + 1;
        }
        let mut nodes_to_add: Vec<OctreeNode> = Vec::new();
        let add = group.nodes_to_add.as_slice();
        let mut k: usize = 0;
        while k < add.len()
            invariant
                k <= add@.len(),
                nodes_to_add@ == add@.take(k as int),
            decreases add@.len() - k,
        {
            nodes_to_add.push(add[k]);
            proof {
                assert(add@.take(k as int + 1) =~= add@.take(k as int).push(add@[k as int]));
            }
            k = k + 1;
        }
        proof {
            assert(rem@.take(rem@.len() as int) =~= rem@);
            assert(add@.take(add@.len() as int) =~= add@);
        }
        let is_collapse = match group.transition_type {
            TransitionType::Merge => true,
            TransitionType::Subdivide => false,
        };
        ts.push(
            CompletedTransition {
                group_key: group.group_key,
                is_collapse,
                nodes_to_remove,
                nodes_to_add,
                ready_chunks: taken,
            },
        );
        gi = gi + 1;
    }
    ts
}

/// Assemble the result of a refinement + meshing run: one completed
/// transition per group, each with the ready chunks of its group key (all of
/// them going to the first group with that key; an immediate chunk counts
/// under its own node), ordered collapses first, then subdivides, each kind
/// in group order.
pub fn assemble_result<M>(
    world_id: WorldId,
    groups: Vec<TransitionGroup>,
    ready_chunks: Vec<ReadyChunk<M>>,
    stats: RefinementStats,
) -> (r: RefinementResult<M>)
    ensures
        r.world_id == world_id,
        r.stats == stats,
        r.transitions@.len() == groups@.len(),
        forall|t: int|
            0 <= t < r.transitions@.len() ==> built_from(
                #[trigger] r.transitions@[t],
                ready_chunks@,
                groups@,
                collapse_first_order(groups@)[t],
            ),
{
    let ghost cs = ready_chunks@;
    let ghost gs = groups@;
    let ts = build_transitions(&groups, ready_chunks);
    let ghost all = ts@;
    let mut collapses: Vec<CompletedTransition<M>> = Vec::new();
    let mut subdivides: Vec<CompletedTransition<M>> = Vec::new();
    for t in it: ts
        invariant
            it.seq() == all,
            all.len() == gs.len(),
            forall|i: int| 0 <= i < all.len() ==> built_from(#[trigger] all[i], cs, gs, i),
            collapses@.len() == indices_of(gs.take(it.index() as int), true).len(),
            subdivides@.len() == indices_of(gs.take(it.index() as int), false).len(),
            forall|k: int|
                0 <= k < collapses@.len() ==> #[trigger] collapses@[k] == all[indices_of(
                    gs.take(it.index() as int),
                    true,
                )[k]],
            forall|k: int|
                0 <= k < subdivides@.len() ==> #[trigger] subdivides@[k] == all[indices_of(
                    gs.take(it.index() as int),
                    false,
                )[k]],
    {
        let ghost i = it.index();
        proof {
            assert(gs.take(i + 1).drop_last() =~= gs.take(i));
            assert(gs.take(i + 1).last() == gs[i]);
            assert(t == all[i]);
            assert(built_from(all[i], cs, gs, i));
        }
        if t.is_collapse {
            collapses.push(t);
        } else {
            subdivides.push(t);
        }
    }
    proof {
        assert(gs.take(gs.len() as int) =~= gs);
        lemma_indices_bounded(gs, true);
        lemma_indices_bounded(gs, false);
    }
    let ghost c_len = collapses@.len();
    collapses.append(&mut subdivides);
    proof {
        assert forall|t: int| 0 <= t < collapses@.len() implies built_from(
            #[trigger] collapses@[t],
            cs,
            gs,
            collapse_first_order(gs)[t],
        ) by {
            if t < c_len {
                assert(collapse_first_order(gs)[t] == indices_of(gs, true)[t]);
            } else {
                assert(collapse_first_order(gs)[t] == indices_of(gs, false)[t - c_len]);
            }
        }
        assert(indices_of(gs, true).len() + indices_of(gs, false).len() == gs.len()) by {
            lemma_indices_partition(gs);
        }
    }
    RefinementResult { world_id, transitions: collapses, stats }
}

proof fn lemma_indices_partition(gs: Seq<TransitionGroup>)
    ensures
        indices_of(gs, true).len() + indices_of(gs, false).len() == gs.len(),
    decreases gs.len(),
{
    if gs.len() > 0 {
        lemma_indices_partition(gs.drop_last());
    }
}

/// No chunk of `cs` belongs to `key`.
pub open spec fn no_chunk_of<M>(cs: Seq<ReadyChunk<M>>, key: OctreeNode) -> bool {
    forall|t: int| 0 <= t < cs.len() ==> chunk_group(#[trigger] cs[t]) != key
}

proof fn lemma_split_subseq<M>(cs: Seq<ReadyChunk<M>>, k: OctreeNode, keep: bool)
    ensures
        forall|t: int|
            0 <= t < chunks_split(cs, k, keep).len() ==> (chunk_group(#[trigger] chunks_split(cs, k, keep)[t]) == k)
                == keep && cs.contains(chunks_split(cs, k, keep)[t]),
    decreases cs.len(),
{
    if cs.len() > 0 {
        lemma_split_subseq(cs.drop_last(), k, keep);
        let prev = chunks_split(cs.drop_last(), k, keep);
        let cur = chunks_split(cs, k, keep);
        assert forall|t: int| 0 <= t < cur.len() implies (chunk_group(#[trigger] cur[t]) == k) == keep && cs.contains(
            cur[t],
        ) by {
            if t < prev.len() {
                assert(cur[t] == prev[t]);
                let a = choose|a: int| 0 <= a < cs.drop_last().len() && cs.drop_last()[a] == prev[t];
                assert(cs[a] == prev[t]);
            } else {
                assert(cur[t] == cs.last());
                assert(cs[cs.len() - 1] == cs.last());
            }
        }
    }
}

proof fn lemma_split_none<M>(cs: Seq<ReadyChunk<M>>, k: OctreeNode, k2: OctreeNode, keep: bool)
    requires
        no_chunk_of(cs, k) || (k2 == k && !keep),
    ensures
        no_chunk_of(chunks_split(cs, k2, keep), k),
{
    lemma_split_subseq(cs, k2, keep);
    let r = chunks_split(cs, k2, keep);
    assert forall|t: int| 0 <= t < r.len() implies chunk_group(#[trigger] r[t]) != k by {
        assert(cs.contains(r[t]));
    }
}

proof fn lemma_left_none<M>(cs: Seq<ReadyChunk<M>>, gs: Seq<TransitionGroup>, j: int, i: int)
    requires
        0 <= j < i <= gs.len(),
    ensures
        no_chunk_of(chunks_left(cs, gs.take(i)), gs[j].group_key),
    decreases i,
{
    let k = gs[j].group_key;
    assert(gs.take(i).drop_last() =~= gs.take(i - 1));
    assert(gs.take(i).last() == gs[i - 1]);
    if i == j + 1 {
        lemma_split_none(chunks_left(cs, gs.take(i - 1)), k, k, false);
    } else {
        lemma_left_none(cs, gs, j, i - 1);
        lemma_split_none(chunks_left(cs, gs.take(i - 1)), k, gs[i - 1].group_key, false);
    }
}

/// The chunks of a group key all go to the first transition with that key:
/// a later transition with the same key gets none.
pub proof fn lemma_chunks_go_to_first_group<M>(cs: Seq<ReadyChunk<M>>, gs: Seq<TransitionGroup>, j: int, i: int)
    requires
        0 <= j < i < gs.len(),
        gs[j].group_key == gs[i].group_key,
    ensures
        chunks_taken(cs, gs, i) == Seq::<ReadyChunk<M>>::empty(),
{
    lemma_left_none(cs, gs, j, i);
    let left = chunks_left(cs, gs.take(i));
    lemma_split_subseq(left, gs[i].group_key, true);
    let r = chunks_taken(cs, gs, i);
    if r.len() > 0 {
        assert(left.contains(r[0]));
        let a = choose|a: int| 0 <= a < left.len() && left[a] == r[0];
        assert(chunk_group(left[a]) != gs[i].group_key);
    }
    assert(r =~= Seq::<ReadyChunk<M>>::empty());
}


proof fn lemma_indices_increasing(gs: Seq<TransitionGroup>, collapse: bool)
    ensures
        forall|a: int, b: int|
            0 <= a < b < indices_of(gs, collapse).len() ==> #[trigger] indices_of(gs, collapse)[a] < #[trigger] indices_of(
                gs,
                collapse,
            )[b],
    decreases gs.len(),
{
    if gs.len() > 0 {
        lemma_indices_increasing(gs.drop_last(), collapse);
        lemma_indices_bounded(gs.drop_last(), collapse);
        let prev = indices_of(gs.drop_last(), collapse);
        let cur = indices_of(gs, collapse);
        assert forall|a: int, b: int| 0 <= a < b < cur.len() implies #[trigger] cur[a] < #[trigger] cur[b] by {
            if b < prev.len() {
                assert(cur[a] == prev[a] && cur[b] == prev[b]);
            } else {
                assert(cur[a] == prev[a]);
            }
        }
    }
}

/// The assembled transitions in explicit form: all collapses come before all
/// subdivides; within each kind the transitions follow the order of their
/// groups; each group gives exactly one transition; and every ready chunk of
/// a transition belongs to that transition's group key.
pub proof fn lemma_assembled_order<M>(ts: Seq<CompletedTransition<M>>, cs: Seq<ReadyChunk<M>>, gs: Seq<TransitionGroup>)
    requires
        ts.len() == gs.len(),
        forall|t: int| 0 <= t < ts.len() ==> built_from(#[trigger] ts[t], cs, gs, collapse_first_order(gs)[t]),
    ensures
        forall|a: int, b: int| 0 <= a < b < ts.len() && (#[trigger] ts[b]).is_collapse ==> (#[trigger] ts[a]).is_collapse,
        forall|a: int, b: int|
            0 <= a < b < ts.len() && (#[trigger] ts[a]).is_collapse == (#[trigger] ts[b]).is_collapse ==> collapse_first_order(
                gs,
            )[a] < collapse_first_order(gs)[b],
        forall|t: int| 0 <= t < ts.len() ==> 0 <= #[trigger] collapse_first_order(gs)[t] < gs.len(),
        forall|t: int, u: int|
            0 <= t < ts.len() && 0 <= u < ts.len() && t != u ==> #[trigger] collapse_first_order(gs)[t]
                != #[trigger] collapse_first_order(gs)[u],
        forall|t: int, k: int|
            0 <= t < ts.len() && 0 <= k < (#[trigger] ts[t]).ready_chunks@.len() ==> chunk_group(
                #[trigger] ts[t].ready_chunks@[k],
            ) == ts[t].group_key,
{
    let ic = indices_of(gs, true);
    let isub = indices_of(gs, false);
    let o = collapse_first_order(gs);
    lemma_indices_bounded(gs, true);
    lemma_indices_bounded(gs, false);
    lemma_indices_increasing(gs, true);
    lemma_indices_increasing(gs, false);
    lemma_indices_partition(gs);
    assert forall|t: int| 0 <= t < ts.len() implies 0 <= #[trigger] o[t] < gs.len() && ((gs[o[t]].transition_type
        == TransitionType::Merge) == (t < ic.len())) by {
        if t < ic.len() {
            assert(o[t] == ic[t]);
        } else {
            assert(o[t] == isub[t - ic.len()]);
        }
    }
    assert forall|a: int, b: int| 0 <= a < b < ts.len() && (#[trigger] ts[b]).is_collapse implies (
    #[trigger] ts[a]).is_collapse by {
        assert(built_from(ts[a], cs, gs, o[a]));
        assert(built_from(ts[b], cs, gs, o[b]));
        assert(0 <= o[b] < gs.len());
        assert(0 <= o[a] < gs.len());
    }
    assert forall|a: int, b: int|
        0 <= a < b < ts.len() && (#[trigger] ts[a]).is_collapse == (#[trigger] ts[b]).is_collapse implies o[a] < o[b] by {
        assert(built_from(ts[a], cs, gs, o[a]));
        assert(built_from(ts[b], cs, gs, o[b]));
        assert(0 <= o[b] < gs.len());
        assert(0 <= o[a] < gs.len());
        if b < ic.len() {
            assert(o[a] == ic[a] && o[b] == ic[b]);
        } else if a >= ic.len() {
            assert(o[a] == isub[a - ic.len()] && o[b] == isub[b - ic.len()]);
        }
    }
    assert forall|t: int, u: int| 0 <= t < ts.len() && 0 <= u < ts.len() && t != u implies #[trigger] o[t]
        != #[trigger] o[u] by {
        assert(0 <= o[t] < gs.len() && 0 <= o[u] < gs.len());
        if t < ic.len() && u < ic.len() {
            assert(o[t] == ic[t] && o[u] == ic[u]);
        } else if t >= ic.len() && u >= ic.len() {
            assert(o[t] == isub[t - ic.len()] && o[u] == isub[u - ic.len()]);
        }
    }
    assert forall|t: int, k: int|
        0 <= t < ts.len() && 0 <= k < (#[trigger] ts[t]).ready_chunks@.len() implies chunk_group(
        #[trigger] ts[t].ready_chunks@[k],
    ) == ts[t].group_key by {
        assert(built_from(ts[t], cs, gs, o[t]));
        assert(0 <= o[t] < gs.len());
        lemma_split_subseq(chunks_left(cs, gs.take(o[t])), gs[o[t]].group_key, true);
    }
}

} // verus!
