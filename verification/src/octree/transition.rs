//! `TransitionGroup`: an atomic octree state change, either a subdivide
//! (parent → children) or a merge (8 children → parent).
use vstd::prelude::*;

use super::node::{OctreeNode, child_of, children_fit};

verus! {

/// A small inline list of nodes (up to 8 without allocation), held in a
/// `smallvec::SmallVec`.
#[verifier::external_body]
pub struct NodeBatch {
    inner: smallvec::SmallVec<[OctreeNode; 8]>,
}

/// The nodes held by a batch, in order.
pub uninterp spec fn batch_nodes(b: NodeBatch) -> Seq<OctreeNode>;

/// `SmallVec::new`: an empty list.
#[verifier::external_body]
fn smallvec_new() -> (b: NodeBatch)
    ensures
        batch_nodes(b) == Seq::<OctreeNode>::empty(),
{
    NodeBatch { inner: smallvec::SmallVec::new() }
}

/// `SmallVec::push`: appends one item at the end. It panics only when the
/// grown capacity would overflow, which the length bound excludes.
#[verifier::external_body]
fn smallvec_push(b: &mut NodeBatch, n: OctreeNode)
    requires
        batch_nodes(*old(b)).len() < usize::MAX / 2,
    ensures
        batch_nodes(*final(b)) == batch_nodes(*old(b)).push(n),
{
    b.inner.push(n)
}

/// `SmallVec::as_slice`: the items, in order.
#[verifier::external_body]
fn smallvec_as_slice(b: &NodeBatch) -> (s: &[OctreeNode])
    ensures
        s@ == batch_nodes(*b),
{
    b.inner.as_slice()
}

impl Clone for NodeBatch {
    /// `SmallVec::clone`: a new list built from a slice of the same nodes,
    /// in order (the nodes are `Copy`, so each copy equals its original).
    #[verifier::external_body]
    fn clone(&self) -> (r: Self)
        ensures
            batch_nodes(r) == batch_nodes(*self),
    {
        NodeBatch { inner: self.inner.clone() }
    }
}

impl NodeBatch {
    /// An empty batch.
    pub fn new() -> (b: Self)
        ensures
            batch_nodes(b) == Seq::<OctreeNode>::empty(),
    {
        smallvec_new()
    }

    /// Append a node.
    pub fn push(&mut self, n: OctreeNode)
        requires
            batch_nodes(*old(self)).len() < usize::MAX / 2,
        ensures
            batch_nodes(*final(self)) == batch_nodes(*old(self)).push(n),
    {
        smallvec_push(self, n)
    }

    /// The nodes, in order.
    pub fn as_slice(&self) -> (s: &[OctreeNode])
        ensures
            s@ == batch_nodes(*self),
    {
        smallvec_as_slice(self)
    }

    /// Number of nodes.
    pub fn len(&self) -> (n: usize)
        ensures
            n == batch_nodes(*self).len(),
    {
        self.as_slice().len()
    }

    /// Whether the batch holds no node.
    pub fn is_empty(&self) -> (b: bool)
        ensures
            b == (batch_nodes(*self).len() == 0),
    {
        self.len() == 0
    }
}

/// Type of octree transition.
#[derive(Clone, Copy, PartialEq, Eq, Debug, Structural)]
pub enum TransitionType {
    /// 1 parent → 8 children (finer detail)
    Subdivide,
    /// 8 children → 1 parent (coarser detail)
    Merge,
}

/// The 8 children of `p`, in octant order 0..8.
pub open spec fn children_seq(p: OctreeNode) -> Seq<OctreeNode> {
    Seq::new(8, |o: int| child_of(p, o as u8))
}

/// Atomic octree state change. The group key is always the parent node.
#[derive(Clone)]
pub struct TransitionGroup {
    /// Type of transition.
    pub transition_type: TransitionType,
    /// Key: the parent node (for both subdivide and merge).
    pub group_key: OctreeNode,
    /// Nodes to add to the leaves (children for subdivide, parent for merge).
    pub nodes_to_add: NodeBatch,
    /// Nodes to remove from the leaves (parent for subdivide, 8 children for merge).
    pub nodes_to_remove: NodeBatch,
}

impl TransitionGroup {
    /// Nodes this group adds to the leaves.
    pub open spec fn adds(&self) -> Seq<OctreeNode> {
        batch_nodes(self.nodes_to_add)
    }

    /// Nodes this group removes from the leaves.
    pub open spec fn removes(&self) -> Seq<OctreeNode> {
        batch_nodes(self.nodes_to_remove)
    }

    /// Create a subdivide transition: parent → its 8 children.
    /// `None` at LOD 0 or below.
    pub fn new_subdivide(parent: OctreeNode) -> (r: Option<Self>)
        requires
            parent.lod > 0 ==> children_fit(parent),
        ensures
            parent.lod <= 0 ==> r is None,
            parent.lod > 0 ==> (r matches Some(g) && g.transition_type == TransitionType::Subdivide
                && g.group_key == parent && g.adds() == children_seq(parent) && g.removes()
                == seq![parent]),
    {
        if parent.lod <= 0 {
            return None;
        }
        let mut nodes_to_add = NodeBatch::new();
        let mut octant: u8 = 0;
        while octant < 8
            invariant
                octant <= 8,
                parent.lod > 0,
                children_fit(parent),
                batch_nodes(nodes_to_add) == children_seq(parent).take(octant as int),
            decreases 8 - octant,
        {
            let child = parent.get_child(octant);
            match child {
                Some(c) => {
                    nodes_to_add.push(c);
                },
                None => {},
            }
            proof {
                assert(children_seq(parent).take(octant as int + 1) =~= children_seq(parent).take(
                    octant as int,
                ).push(child_of(parent, octant)));
            }
            octant = octant + 1;
        }
        let mut nodes_to_remove = NodeBatch::new();
        nodes_to_remove.push(parent);
        proof {
            assert(children_seq(parent).take(8) =~= children_seq(parent));
            assert(batch_nodes(nodes_to_remove) =~= seq![parent]);
        }
        Some(TransitionGroup {
            transition_type: TransitionType::Subdivide,
            group_key: parent,
            nodes_to_add,
            nodes_to_remove,
        })
    }

    /// Create a subdivide transition with pre-filtered children (used when
    /// world bounds leave fewer than 8 children). `None` at LOD 0 or below, or
    /// when no child is given.
    pub fn new_subdivide_filtered(parent: OctreeNode, children: NodeBatch) -> (r: Option<Self>)
        ensures
            (parent.lod <= 0 || batch_nodes(children).len() == 0) ==> r is None,
            (parent.lod > 0 && batch_nodes(children).len() > 0) ==> (r matches Some(g)
                && g.transition_type == TransitionType::Subdivide && g.group_key == parent
                && g.adds() == batch_nodes(children) && g.removes() == seq![parent]),
    {
        if parent.lod <= 0 {
            return None;
        }
        if children.is_empty() {
            return None;
        }
        let mut nodes_to_remove = NodeBatch::new();
        nodes_to_remove.push(parent);
        proof {
            assert(batch_nodes(nodes_to_remove) =~= seq![parent]);
        }
        Some(TransitionGroup {
            transition_type: TransitionType::Subdivide,
            group_key: parent,
            nodes_to_add: children,
            nodes_to_remove,
        })
    }

    /// Create a merge transition: 8 children → parent. `None` unless exactly 8
    /// children are given.
    pub fn new_merge(parent: OctreeNode, children: NodeBatch) -> (r: Option<Self>)
        ensures
            batch_nodes(children).len() != 8 ==> r is None,
            batch_nodes(children).len() == 8 ==> (r matches Some(g) && g.transition_type
                == TransitionType::Merge && g.group_key == parent && g.adds() == seq![parent]
                && g.removes() == batch_nodes(children)),
    {
        if children.len() != 8 {
            return None;
        }
        let mut nodes_to_add = NodeBatch::new();
        nodes_to_add.push(parent);
        proof {
            assert(batch_nodes(nodes_to_add) =~= seq![parent]);
        }
        Some(TransitionGroup {
            transition_type: TransitionType::Merge,
            group_key: parent,
            nodes_to_add,
            nodes_to_remove: children,
        })
    }
}

} // verus!
