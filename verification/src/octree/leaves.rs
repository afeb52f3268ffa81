//! `OctreeLeaves`: the implicit octree, represented by its set of leaf nodes.
//!
//! Only leaves are stored; parent/child relationships are computed on demand.
//! The leaves are kept in insertion order, without duplicates.
use vstd::prelude::*;

use super::node::OctreeNode;
use vstd::std_specs::iter::IteratorSpec;

verus! {

/// Implicit octree: the leaves are the whole state.
pub struct OctreeLeaves {
    leaves: Vec<OctreeNode>,
}

impl View for OctreeLeaves {
    type V = Set<OctreeNode>;

    closed spec fn view(&self) -> Set<OctreeNode> {
        self.leaves@.to_set()
    }
}

proof fn lemma_push_to_set(s: Seq<OctreeNode>, n: OctreeNode)
    requires
        s.no_duplicates(),
        !s.contains(n),
    ensures
        s.push(n).no_duplicates(),
        s.push(n).to_set() == s.to_set().insert(n),
{
    assert(s.push(n).to_set() =~= s.to_set().insert(n)) by {
        assert forall|x: OctreeNode| #[trigger] s.push(n).to_set().contains(x) <==> s.to_set().insert(n).contains(x) by {
            if s.push(n).contains(x) {
                let i = choose|i: int| 0 <= i < s.push(n).len() && s.push(n)[i] == x;
                if i < s.len() {
                    assert(s.contains(x));
                }
            }
            if s.contains(x) {
                let i = choose|i: int| 0 <= i < s.len() && s[i] == x;
                assert(s.push(n)[i] == x);
            }
            if x == n {
                assert(s.push(n)[s.len() as int] == n);
            }
        }
    }
}

proof fn lemma_remove_to_set(s: Seq<OctreeNode>, i: int)
    requires
        s.no_duplicates(),
        0 <= i < s.len(),
    ensures
        s.remove(i).no_duplicates(),
        s.remove(i).to_set() == s.to_set().remove(s[i]),
{
    let r = s.remove(i);
    assert forall|a: int, b: int| 0 <= a < r.len() && 0 <= b < r.len() && a != b implies r[a] != r[b] by {
        let sa = if a < i { a } else { a + 1 };
        let sb = if b < i { b } else { b + 1 };
        assert(r[a] == s[sa]);
        assert(r[b] == s[sb]);
    }
    assert(r.to_set() =~= s.to_set().remove(s[i])) by {
        assert forall|x: OctreeNode| #[trigger] r.to_set().contains(x) <==> s.to_set().remove(s[i]).contains(x) by {
            if r.contains(x) {
                let a = choose|a: int| 0 <= a < r.len() && r[a] == x;
                let sa = if a < i { a } else { a + 1 };
                assert(s[sa] == x);
                assert(sa != i);
            }
            if s.contains(x) && x != s[i] {
                let a = choose|a: int| 0 <= a < s.len() && s[a] == x;
                assert(a != i);
                let ra = if a < i { a } else { a - 1 };
                assert(r[ra] == x);
            }
        }
    }
}

impl OctreeLeaves {
    #[verifier::type_invariant]
    closed spec fn inv(self) -> bool {
        self.leaves@.no_duplicates()
    }

    /// Create an empty set of leaves.
    pub fn new() -> (l: Self)
        ensures
            l@ == Set::<OctreeNode>::empty(),
    {
        let l = OctreeLeaves { leaves: Vec::new() };
        assert(l.leaves@.to_set() =~= Set::<OctreeNode>::empty());
        l
    }

    /// Initialize with a single node at the origin at the given LOD.
    pub fn new_with_initial(lod: i32) -> (l: Self)
        ensures
            l@ == Set::<OctreeNode>::empty().insert(OctreeNode { x: 0, y: 0, z: 0, lod }),
    {
        let mut v: Vec<OctreeNode> = Vec::new();
        v.push(OctreeNode::new(0, 0, 0, lod));
        proof {
            lemma_push_to_set(Seq::<OctreeNode>::empty(), OctreeNode { x: 0, y: 0, z: 0, lod });
            assert(v@ =~= Seq::<OctreeNode>::empty().push(OctreeNode { x: 0, y: 0, z: 0, lod }));
            assert(Seq::<OctreeNode>::empty().to_set() =~= Set::<OctreeNode>::empty());
        }
        OctreeLeaves { leaves: v }
    }

    /// Number of leaves.
    pub fn len(&self) -> (n: usize)
        ensures
            n == self@.len(),
    {
        proof {
            use_type_invariant(self);
            self.leaves@.unique_seq_to_set();
        }
        self.leaves.len()
    }

    /// Whether there are no leaves.
    pub fn is_empty(&self) -> (b: bool)
        ensures
            b == (self@.len() == 0),
    {
        self.len() == 0
    }

    /// Whether `node` is a leaf.
    pub fn contains(&self, node: &OctreeNode) -> (b: bool)
        ensures
            b == self@.contains(*node),
    {
        let mut i: usize = 0;
        while i < self.leaves.len()
            invariant
                i <= self.leaves.len(),
                forall|j: int| 0 <= j < i ==> self.leaves@[j] != *node,
            decreases self.leaves.len() - i,
        {
            if self.leaves[i] == *node {
                assert(self.leaves@.contains(*node));
                return true;
            }
            i = i + 1;
        }
        false
    }

    /// Insert a leaf; returns whether it was newly added.
    pub fn insert(&mut self, node: OctreeNode) -> (added: bool)
        ensures
            final(self)@ == old(self)@.insert(node),
            added == !old(self)@.contains(node),
    {
        proof {
            use_type_invariant(&*self);
        }
        if self.contains(&node) {
            proof {
                assert(self@.insert(node) =~= self@);
            }
            return false;
        }
        proof {
            lemma_push_to_set(self.leaves@, node);
        }
        let mut v: Vec<OctreeNode> = Vec::new();
        std::mem::swap(&mut v, &mut self.leaves);
        v.push(node);
        self.leaves = v;
        true
    }

    /// Remove a leaf; returns whether it was present.
    pub fn remove(&mut self, node: &OctreeNode) -> (removed: bool)
        ensures
            final(self)@ == old(self)@.remove(*node),
            removed == old(self)@.contains(*node),
    {
        proof {
            use_type_invariant(&*self);
        }
        let mut i: usize = 0;
        while i < self.leaves.len()
            invariant
                i <= self.leaves.len(),
                self.leaves@.no_duplicates(),
                self.leaves@ == old(self).leaves@,
                forall|j: int| 0 <= j < i ==> self.leaves@[j] != *node,
            decreases self.leaves.len() - i,
        {
            if self.leaves[i] == *node {
                proof {
                    lemma_remove_to_set(self.leaves@, i as int);
                }
                let mut v: Vec<OctreeNode> = Vec::new();
                std::mem::swap(&mut v, &mut self.leaves);
                v.remove(i);
                self.leaves = v;
                return true;
            }
            i = i + 1;
        }
        proof {
            assert(!self.leaves@.contains(*node));
            assert(self@.remove(*node) =~= self@);
        }
        false
    }

    /// The leaf set, as a slice holding each leaf once (in insertion order).
    pub fn as_set(&self) -> (s: &[OctreeNode])
        ensures
            s@.to_set() == self@,
            s@.no_duplicates(),
            s@.len() == self@.len(),
    {
        proof {
            use_type_invariant(self);
            self.leaves@.unique_seq_to_set();
        }
        self.leaves.as_slice()
    }

    /// Iterate over the leaves.
    pub fn iter(&self) -> (it: std::slice::Iter<'_, OctreeNode>)
        ensures
            it.remaining().unref().to_set() == self@,
            it.remaining().unref().no_duplicates(),
    {
        let s = self.as_set();
        let it = s.iter();
        proof {
            broadcast use vstd::std_specs::slice::axiom_spec_slice_iter;
            assert(it.remaining().unref() =~= s@);
        }
        it
    }

    /// The coarsest LOD among the leaves, or 0 when there are none.
    pub fn effective_max_lod(&self) -> (m: i32)
        ensures
            self@.len() == 0 ==> m == 0,
            self@.len() > 0 ==> exists|n: OctreeNode| #[trigger] self@.contains(n) && n.lod == m,
            forall|n: OctreeNode| #[trigger] self@.contains(n) ==> n.lod <= m,
    {
        proof {
            use_type_invariant(self);
        }
        let s = self.as_set();
        if s.len() == 0 {
            return 0;
        }
        let mut m = s[0].lod;
        let mut i: usize = 1;
        while i < s.len()
            invariant
                1 <= i <= s.len(),
                exists|j: int| 0 <= j < i && s@[j].lod == m,
                forall|j: int| 0 <= j < i ==> s@[j].lod <= m,
            decreases s.len() - i,
        {
            if s[i].lod > m {
                m = s[i].lod;
            }
            i = i + 1;
        }
        proof {
            let j = choose|j: int| 0 <= j < s.len() && s@[j].lod == m;
            assert(s@.contains(s@[j]));
            assert(self@.contains(s@[j]));
            assert forall|n: OctreeNode| #[trigger] self@.contains(n) implies n.lod <= m by {
                let k = choose|k: int| 0 <= k < s@.len() && s@[k] == n;
            }
        }
        m
    }
}

impl Default for OctreeLeaves {
    fn default() -> (l: Self)
        ensures
            l@ == Set::<OctreeNode>::empty(),
    {
        OctreeLeaves::new()
    }
}

} // verus!
