use vstd::prelude::*;

use crate::bitmap::Bitmap;

verus! {

/// One node of the trie: the set of bytes that have an edge, the children in
/// ascending byte order (the child for byte `b` sits at `presence.rank(b)`), and
/// the slot of the value whose key ends here, if any.
pub struct TrieNode {
    pub presence: Bitmap,
    pub children: Vec<TrieNode>,
    pub value_slot: Option<usize>,
}

impl TrieNode {
    /// The child under byte `b`, if that edge exists.
    pub open spec fn child(self, b: int) -> Option<TrieNode> {
        if self.presence.has(b) && self.presence.rank(b) < self.children@.len() {
            Some(self.children@[self.presence.rank(b) as int])
        } else {
            None
        }
    }

    /// The node reached from this one by following the bytes of `k`.
    pub open spec fn find(self, k: Seq<u8>) -> Option<TrieNode>
        decreases k.len(),
    {
        if k.len() == 0 {
            Some(self)
        } else {
            match self.child(k[0] as int) {
                Some(c) => c.find(k.drop_first()),
                None => None,
            }
        }
    }

    /// The value slot stored under the key suffix `k`, if any.
    pub open spec fn slot_at(self, k: Seq<u8>) -> Option<usize> {
        match self.find(k) {
            Some(n) => n.value_slot,
            None => None,
        }
    }

    /// Every node of the subtree has exactly one child per member of its bitmap.
    pub open spec fn wf(self) -> bool
        decreases self,
    {
        &&& self.children@.len() == self.presence.count()
        &&& forall|i: int| 0 <= i < self.children@.len() ==> (#[trigger] self.children@[i]).wf()
    }

    /// A node with no edge and no value.
    pub open spec fn is_blank(self) -> bool {
        &&& self.children@.len() == 0
        &&& self.value_slot is None
        &&& forall|b: int| !self.presence.has(b)
    }

    /// A node that holds no value and has no children (and so no edges).
    pub open spec fn is_dead(self) -> bool {
        self.value_slot is None && self.children@.len() == 0
    }

    /// The number of nodes in this subtree, this one included.
    pub open spec fn node_count(self) -> nat
        decreases self,
    {
        1 + forest_count(self.children@)
    }

    /// The two subtrees have the same edges and value slots at every node.
    pub open spec fn same_shape(self, other: TrieNode) -> bool
        decreases self,
    {
        &&& self.presence == other.presence
        &&& self.value_slot == other.value_slot
        &&& self.children@.len() == other.children@.len()
        &&& forall|i: int|
            0 <= i < self.children@.len() ==> (#[trigger] self.children@[i]).same_shape(
                other.children@[i],
            )
    }

    /// No node below this one (this one excluded) is dead.
    pub open spec fn trimmed(self) -> bool
        decreases self,
    {
        forall|i: int|
            0 <= i < self.children@.len() ==> !(#[trigger] self.children@[i]).is_dead()
                && self.children@[i].trimmed()
    }

    /// Whether some key below this node holds a value.
    pub open spec fn holds_value(self) -> bool {
        exists|k: Seq<u8>| (#[trigger] self.slot_at(k)) is Some
    }

    /// A fresh node with no edge and no value.
    pub fn new() -> (r: TrieNode)
        ensures
            r.is_blank(),
            r.wf(),
    {
        TrieNode { presence: Bitmap::new(), children: Vec::new(), value_slot: None }
    }

    /// In a well-formed node the edges are exactly the bitmap's members.
    pub proof fn lemma_child_exists(self, b: int)
        requires
            self.wf(),
        ensures
            self.child(b) is Some <==> self.presence.has(b),
            self.presence.has(b) ==> self.child(b)->0.wf(),
    {
        if self.presence.has(b) {
            self.presence.lemma_rank_below_count(b);
            let r = self.presence.rank(b) as int;
            assert(0 <= r < self.children@.len());
            assert(self.children@[r].wf());
        }
    }

    /// A well-formed node without children has no edges.
    pub proof fn lemma_no_children(self)
        requires
            self.wf(),
            self.children@.len() == 0,
        ensures
            forall|b: int| !self.presence.has(b),
    {
        assert forall|b: int| !self.presence.has(b) by {
            if self.presence.has(b) {
                self.presence.lemma_rank_below_count(b);
            }
        }
    }

    /// Nothing but the empty suffix reaches anything in a blank node.
    pub proof fn lemma_blank_find(self, k: Seq<u8>)
        requires
            self.is_blank(),
        ensures
            k.len() > 0 ==> self.find(k) is None,
            self.slot_at(k) is None,
    {
    }

    /// The slot under a non-empty suffix is the slot under its tail in the child
    /// of its first byte.
    pub proof fn lemma_slot_step(self, s: Seq<u8>)
        requires
            s.len() > 0,
        ensures
            self.slot_at(s) == match self.child(s[0] as int) {
                Some(c) => c.slot_at(s.drop_first()),
                None => None::<usize>,
            },
    {
    }

    /// Following a non-empty suffix is following its tail from the child of its
    /// first byte.
    pub proof fn lemma_find_step(self, s: Seq<u8>)
        requires
            s.len() > 0,
        ensures
            self.find(s) == match self.child(s[0] as int) {
                Some(c) => c.find(s.drop_first()),
                None => None::<TrieNode>,
            },
    {
    }

    /// Replacing the child under member `b` leaves every other edge as it was.
    pub proof fn lemma_replace_child(self, n: TrieNode, b: int)
        requires
            self.wf(),
            self.presence.has(b),
            n.presence == self.presence,
            n.children@.len() == self.children@.len(),
            forall|k: int|
                0 <= k < n.children@.len() && k != self.presence.rank(b) ==> n.children@[k]
                    == self.children@[k],
        ensures
            forall|c: int| c != b ==> #[trigger] n.child(c) == self.child(c),
            n.child(b) == Some(n.children@[self.presence.rank(b) as int]),
    {
        self.presence.lemma_rank_below_count(b);
        assert forall|c: int| c != b implies #[trigger] n.child(c) == self.child(c) by {
            if self.presence.has(c) {
                self.presence.lemma_rank_injective(b, c);
            }
        }
    }

    /// Following `a` then `b` is following `a + b`.
    pub proof fn lemma_find_concat(self, a: Seq<u8>, b: Seq<u8>)
        ensures
            self.find(a + b) == match self.find(a) {
                Some(n) => n.find(b),
                None => None::<TrieNode>,
            },
        decreases a.len(),
    {
        if a.len() == 0 {
            assert(a + b =~= b);
        } else {
            assert((a + b).drop_first() =~= a.drop_first() + b);
            match self.child(a[0] as int) {
                Some(c) => c.lemma_find_concat(a.drop_first(), b),
                None => {},
            }
        }
    }
}

/// The number of nodes in all the subtrees of `s`.
pub open spec fn forest_count(s: Seq<TrieNode>) -> nat
    decreases s,
{
    if s.len() == 0 {
        0
    } else {
        forest_count(s.subrange(0, s.len() - 1)) + s[s.len() - 1].node_count()
    }
}

/// Replacing one subtree of `s` by one of the same size keeps the count.
pub proof fn lemma_forest_update(s: Seq<TrieNode>, i: int, x: TrieNode)
    requires
        0 <= i < s.len(),
        x.node_count() == s[i].node_count(),
    ensures
        forest_count(s.update(i, x)) == forest_count(s),
    decreases s.len(),
{
    let t = s.update(i, x);
    let n = s.len() - 1;
    if i < n {
        lemma_forest_update(s.subrange(0, n), i, x);
        assert(t.subrange(0, n) =~= s.subrange(0, n).update(i, x));
    } else {
        assert(t.subrange(0, n) =~= s.subrange(0, n));
    }
}

/// A prefix of `s` counts no more nodes than `s`.
pub proof fn lemma_forest_prefix_le(s: Seq<TrieNode>, i: int)
    requires
        0 <= i <= s.len(),
    ensures
        forest_count(s.subrange(0, i)) <= forest_count(s),
    decreases s.len() - i,
{
    if i < s.len() {
        lemma_forest_prefix_step(s, i);
        lemma_forest_prefix_le(s, i + 1);
    } else {
        assert(s.subrange(0, i) =~= s);
    }
}

/// Extending a prefix of `s` by one element adds that element's count.
pub proof fn lemma_forest_prefix_step(s: Seq<TrieNode>, i: int)
    requires
        0 <= i < s.len(),
    ensures
        forest_count(s.subrange(0, i + 1)) == forest_count(s.subrange(0, i)) + s[i].node_count(),
{
    let t = s.subrange(0, i + 1);
    assert(t.subrange(0, t.len() - 1) =~= s.subrange(0, i));
}

} // verus!
