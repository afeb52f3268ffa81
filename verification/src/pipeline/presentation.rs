//! Stage 5: presentation hints for ready chunks.
use vstd::prelude::*;

use super::composition::CompositionOutput;
use super::types::{GroupedMesh, MeshResult, NodeMesh, PresentationHint, ReadyChunk};
use crate::octree::{OctreeNode, TransitionType};
use crate::world::WorldId;

verus! {

/// The hint for the chunks of a group: fade in the children of a subdivide,
/// fade out into the parent of a merge.
pub open spec fn group_hint<M>(g: GroupedMesh<M>) -> PresentationHint {
    match g.transition_type {
        TransitionType::Subdivide => PresentationHint::FadeIn { group_key: g.group_key },
        TransitionType::Merge => PresentationHint::FadeOut { group_key: g.group_key },
    }
}

/// The ready chunk of one node mesh with the given hint.
pub open spec fn chunk_of<M>(world_id: WorldId, nm: NodeMesh<M>, hint: PresentationHint) -> ReadyChunk<M> {
    ReadyChunk { world_id, node: nm.node, output: nm.output, hint }
}

/// The ready chunks of a group's meshes, in order.
pub open spec fn group_chunks<M>(world_id: WorldId, g: GroupedMesh<M>) -> Seq<ReadyChunk<M>> {
    g.meshes@.map_values(|nm: NodeMesh<M>| chunk_of(world_id, nm, group_hint(g)))
}

/// The ready chunks of all groups, group after group.
pub open spec fn grouped_chunks<M>(world_id: WorldId, gs: Seq<GroupedMesh<M>>) -> Seq<ReadyChunk<M>>
    decreases gs.len(),
{
    if gs.len() == 0 {
        Seq::empty()
    } else {
        grouped_chunks(world_id, gs.drop_last()) + group_chunks(world_id, gs.last())
    }
}

/// The ready chunk of an ungrouped (invalidation) mesh: presented immediately.
pub open spec fn immediate_chunk<M>(world_id: WorldId, r: MeshResult<M>) -> ReadyChunk<M> {
    ReadyChunk { world_id, node: r.node, output: r.output, hint: PresentationHint::Immediate }
}

/// Present grouped meshes as ready chunks: the children of a subdivide fade
/// in, the parent of a merge fades out; the group key rides in the hint.
pub fn present_grouped<M>(world_id: WorldId, grouped: Vec<GroupedMesh<M>>) -> (chunks: Vec<ReadyChunk<M>>)
    ensures
        chunks@ == grouped_chunks(world_id, grouped@),
        chunk_nodes(chunks@) == mesh_nodes(grouped@).flatten(),
        chunk_payloads(chunks@) == mesh_payloads(world_id, grouped@).flatten(),
        chunk_hints(chunks@) == mesh_hints(grouped@).flatten(),
{
    proof {
        lemma_grouped_chunks_follow_meshes(world_id, grouped@);
    }
    let mut chunks: Vec<ReadyChunk<M>> = Vec::new();
    let ghost all = grouped@;
    for group in it: grouped
        invariant
            it.seq() == all,
            chunks@ == grouped_chunks(world_id, all.take(it.index() as int)),
    {
        let ghost g = group;
        let ghost done = it.index();
        let hint = match group.transition_type {
            TransitionType::Subdivide => PresentationHint::FadeIn { group_key: group.group_key },
            TransitionType::Merge => PresentationHint::FadeOut { group_key: group.group_key },
        };
        let ghost before = chunks@;
        for node_mesh in mit: group.meshes
            invariant
                mit.seq() == g.meshes@,
                hint == group_hint(g),
                chunks@ == before + group_chunks(world_id, g).take(mit.index() as int),
        {
            chunks.push(ReadyChunk { world_id, node: node_mesh.node, output: node_mesh.output, hint });
            proof {
                assert(before + group_chunks(world_id, g).take(mit.index() as int + 1) =~= (before + group_chunks(world_id, g).take(mit.index() as int)).push(chunk_of(world_id, node_mesh, hint)));
            }
        }
        proof {
            assert(all.take(done as int + 1).drop_last() =~= all.take(done as int));
            assert(group_chunks(world_id, g).take(g.meshes@.len() as int) =~= group_chunks(world_id, g));
        }
    }
    proof {
        assert(all.take(all.len() as int) =~= all);
    }
    chunks
}

/// Present ungrouped (invalidation) meshes as ready chunks, all immediate.
pub fn present_ungrouped<M>(world_id: WorldId, ungrouped: Vec<MeshResult<M>>) -> (chunks: Vec<ReadyChunk<M>>)
    ensures
        chunks@ == ungrouped@.map_values(|r: MeshResult<M>| immediate_chunk(world_id, r)),
{
    let mut chunks: Vec<ReadyChunk<M>> = Vec::new();
    let ghost all = ungrouped@;
    for result in it: ungrouped
        invariant
            it.seq() == all,
            chunks@ == all.take(it.index() as int).map_values(|r: MeshResult<M>| immediate_chunk(world_id, r)),
    {
        chunks.push(ReadyChunk { world_id, node: result.node, output: result.output, hint: PresentationHint::Immediate });
        proof {
            assert(all.take(it.index() as int + 1).map_values(|r: MeshResult<M>| immediate_chunk(world_id, r)) =~= all.take(it.index() as int).map_values(|r: MeshResult<M>| immediate_chunk(world_id, r)).push(immediate_chunk(world_id, result)));
        }
    }
    proof {
        assert(all.take(all.len() as int) =~= all);
    }
    chunks
}

/// Present all composition output: the grouped chunks first, then the
/// ungrouped ones.
pub fn present<M>(world_id: WorldId, output: CompositionOutput<M>) -> (chunks: Vec<ReadyChunk<M>>)
    ensures
        chunks@ == grouped_chunks(world_id, output.grouped@) + output.ungrouped@.map_values(
            |r: MeshResult<M>| immediate_chunk(world_id, r),
        ),
{
    let CompositionOutput { grouped, ungrouped } = output;
    let mut chunks = present_grouped(world_id, grouped);
    let mut rest = present_ungrouped(world_id, ungrouped);
    chunks.append(&mut rest);
    chunks
}


/// The nodes of chunks, in order.
pub open spec fn chunk_nodes<M>(cs: Seq<ReadyChunk<M>>) -> Seq<OctreeNode> {
    cs.map_values(|c: ReadyChunk<M>| c.node)
}

/// The world and payload of chunks, in order.
pub open spec fn chunk_payloads<M>(cs: Seq<ReadyChunk<M>>) -> Seq<(WorldId, M)> {
    cs.map_values(|c: ReadyChunk<M>| (c.world_id, c.output))
}

/// The hints of chunks, in order.
pub open spec fn chunk_hints<M>(cs: Seq<ReadyChunk<M>>) -> Seq<PresentationHint> {
    cs.map_values(|c: ReadyChunk<M>| c.hint)
}

/// Per group, the nodes of its meshes.
pub open spec fn mesh_nodes<M>(gs: Seq<GroupedMesh<M>>) -> Seq<Seq<OctreeNode>> {
    gs.map_values(|g: GroupedMesh<M>| g.meshes@.map_values(|m: NodeMesh<M>| m.node))
}

/// Per group, the world `w` with each mesh's payload.
pub open spec fn mesh_payloads<M>(w: WorldId, gs: Seq<GroupedMesh<M>>) -> Seq<Seq<(WorldId, M)>> {
    gs.map_values(|g: GroupedMesh<M>| g.meshes@.map_values(|m: NodeMesh<M>| (w, m.output)))
}

/// Per group, one hint per mesh: fade in under the group key for a
/// subdivide, fade out under it for a merge.
pub open spec fn mesh_hints<M>(gs: Seq<GroupedMesh<M>>) -> Seq<Seq<PresentationHint>> {
    gs.map_values(
        |g: GroupedMesh<M>|
            Seq::new(
                g.meshes@.len(),
                |k: int|
                    match g.transition_type {
                        TransitionType::Subdivide => PresentationHint::FadeIn { group_key: g.group_key },
                        TransitionType::Merge => PresentationHint::FadeOut { group_key: g.group_key },
                    },
            ),
    )
}

/// Presenting groups turns each mesh, in order over all groups, into one
/// chunk at that mesh's own node (never the group key), with its payload and
/// the world, and with the fade hint of its group: fade in under the group
/// key for a subdivide, fade out under it for a merge.
pub proof fn lemma_grouped_chunks_follow_meshes<M>(w: WorldId, gs: Seq<GroupedMesh<M>>)
    ensures
        chunk_nodes(grouped_chunks(w, gs)) == mesh_nodes(gs).flatten(),
        chunk_payloads(grouped_chunks(w, gs)) == mesh_payloads(w, gs).flatten(),
        chunk_hints(grouped_chunks(w, gs)) == mesh_hints(gs).flatten(),
    decreases gs.len(),
{
    if gs.len() == 0 {
        assert(chunk_nodes(grouped_chunks(w, gs)) =~= Seq::<OctreeNode>::empty());
        assert(chunk_payloads(grouped_chunks(w, gs)) =~= Seq::<(WorldId, M)>::empty());
        assert(chunk_hints(grouped_chunks(w, gs)) =~= Seq::<PresentationHint>::empty());
        assert(mesh_nodes(gs) =~= Seq::<Seq<OctreeNode>>::empty());
        assert(mesh_payloads(w, gs) =~= Seq::<Seq<(WorldId, M)>>::empty());
        assert(mesh_hints(gs) =~= Seq::<Seq<PresentationHint>>::empty());
    } else {
        let d = gs.drop_last();
        let g = gs.last();
        lemma_grouped_chunks_follow_meshes(w, d);
        let prev = grouped_chunks(w, d);
        let cur = group_chunks(w, g);
        assert(grouped_chunks(w, gs) == prev + cur);
        assert(mesh_nodes(gs) =~= mesh_nodes(d).push(g.meshes@.map_values(|m: NodeMesh<M>| m.node)));
        assert(mesh_payloads(w, gs) =~= mesh_payloads(w, d).push(
            g.meshes@.map_values(|m: NodeMesh<M>| (w, m.output)),
        ));
        assert(mesh_hints(gs) =~= mesh_hints(d).push(mesh_hints(seq![g])[0]));
        mesh_nodes(d).lemma_flatten_push(g.meshes@.map_values(|m: NodeMesh<M>| m.node));
        mesh_payloads(w, d).lemma_flatten_push(g.meshes@.map_values(|m: NodeMesh<M>| (w, m.output)));
        mesh_hints(d).lemma_flatten_push(mesh_hints(seq![g])[0]);
        assert(chunk_nodes(prev + cur) =~= chunk_nodes(prev) + g.meshes@.map_values(|m: NodeMesh<M>| m.node));
        assert(chunk_payloads(prev + cur) =~= chunk_payloads(prev) + g.meshes@.map_values(
            |m: NodeMesh<M>| (w, m.output),
        ));
        assert(chunk_hints(prev + cur) =~= chunk_hints(prev) + mesh_hints(seq![g])[0]);
    }
}

} // verus!
