use vstd::prelude::*;
use vstd::set_lib::lemma_map_size;

use crate::bitmap::{lemma_rank_diff_mono, Bitmap};
use crate::key_order::{
    lemma_prefix_cons,
    has_prefix, lemma_lex_asymmetric, lemma_lex_branch, lemma_lex_prefix, lex_lt, strictly_ascending,
};
use crate::node::{
    forest_count, lemma_forest_prefix_le, lemma_forest_prefix_step, lemma_forest_update, TrieNode,
};
use crate::slice_pool::{
    all_blank, held_below, lemma_take_give_total, lemma_take_then_give, taken_and_given, SlicePool,
};

verus! {

/// A map from byte strings to values, stored as a trie of bitmap nodes. Values
/// live in a slot store with a free list; each node with a value holds the
/// index of its slot.
pub struct TrieMap<T> {
    pub(crate) data: Vec<Option<T>>,
    pub(crate) free_indices: Vec<usize>,
    pub(crate) root: TrieNode,
    pub(crate) size: usize,
    pub(crate) pool: SlicePool,
    pub(crate) keys: Ghost<Set<Seq<u8>>>,
}

impl<T> View for TrieMap<T> {
    type V = Map<Seq<u8>, T>;

    closed spec fn view(&self) -> Map<Seq<u8>, T> {
        Map::new(
            |k: Seq<u8>| self.keys@.contains(k),
            |k: Seq<u8>| self.data@[self.root.slot_at(k)->0 as int]->0,
        )
    }
}

impl<T> TrieMap<T> {
    /// The invariant that ties the tree, the slot store and the free list together.
    pub closed spec fn wf(self) -> bool {
        &&& self.root.wf()
        &&& self.pool.wf()
        &&& self.keys@.finite()
        &&& self.size == self.keys@.len()
        &&& forall|k: Seq<u8>| #[trigger]
            self.keys@.contains(k) <==> self.root.slot_at(k) is Some
        &&& forall|k: Seq<u8>| #[trigger]
            self.root.slot_at(k) is Some ==> self.root.slot_at(k)->0 < self.data@.len()
                && self.data@[self.root.slot_at(k)->0 as int] is Some
        &&& forall|k1: Seq<u8>, k2: Seq<u8>|
            #[trigger] self.root.slot_at(k1) is Some && #[trigger] self.root.slot_at(k2)
                == self.root.slot_at(k1) ==> k1 == k2
        &&& forall|j: int| #![trigger self.free_indices@[j]]
            0 <= j < self.free_indices@.len() ==> self.free_indices@[j] < self.data@.len()
                && self.data@[self.free_indices@[j] as int] is None
        &&& self.free_indices@.no_duplicates()
        &&& self.size + self.free_indices@.len() == self.data@.len()
        &&& forall|i: int|
            0 <= i < self.data@.len() && (#[trigger] self.data@[i]) is Some ==> exists|k: Seq<u8>|
                #[trigger] self.root.slot_at(k) == Some(i as usize)
    }

    /// The number of slots in the value store, live or free.
    pub closed spec fn slot_count(self) -> nat {
        self.data@.len()
    }

    /// The number of free slots waiting for reuse.
    pub closed spec fn free_count(self) -> nat {
        self.free_indices@.len()
    }

    /// The root node.
    pub closed spec fn root_node(self) -> TrieNode {
        self.root
    }

    /// The slot of the value stored under `k`, if any.
    pub closed spec fn slot_of(self, k: Seq<u8>) -> Option<usize> {
        self.root.slot_at(k)
    }

    /// The free slot indices, the most recently freed last.
    pub closed spec fn free_list(self) -> Seq<usize> {
        self.free_indices@
    }

    /// The slots of the value store.
    pub closed spec fn slots(self) -> Seq<Option<T>> {
        self.data@
    }

    /// The pool of child arrays.
    pub closed spec fn array_pool(self) -> SlicePool {
        self.pool
    }

    /// The indices of the slots that hold a value.
    pub closed spec fn live_slots(self) -> Set<int> {
        Set::new(|i: int| 0 <= i < self.data@.len() && self.data@[i] is Some)
    }

    /// The root node of the tree.
    pub fn root(&self) -> (r: &TrieNode)
        ensures
            *r == self.root_node(),
    {
        &self.root
    }

    /// The number of slots in the value store, live or free.
    pub fn value_store_len(&self) -> (r: usize)
        ensures
            r == self.slot_count(),
    {
        self.data.len()
    }

    /// Creates a new empty `TrieMap`.
    pub fn new() -> (r: TrieMap<T>)
        ensures
            r.wf(),
            r@ == Map::<Seq<u8>, T>::empty(),
            r.slot_count() == 0,
            r.free_count() == 0,
            r.free_list().len() == 0,
            r.root_node().trimmed(),
    {
        let r = TrieMap {
            data: Vec::new(),
            free_indices: Vec::new(),
            root: TrieNode::new(),
            size: 0,
            pool: SlicePool::new(),
            keys: Ghost(Set::empty()),
        };
        proof {
            assert forall|k: Seq<u8>| #[trigger] r.root.slot_at(k) is None by {
                r.root.lemma_blank_find(k);
            }
            assert(r@ =~= Map::<Seq<u8>, T>::empty());
        }
        r
    }

    /// Creates a new empty `TrieMap` whose value store has room for `capacity`
    /// values before it reallocates.
    pub fn with_capacity(capacity: usize) -> (r: TrieMap<T>)
        ensures
            r.wf(),
            r@ == Map::<Seq<u8>, T>::empty(),
            r.slot_count() == 0,
            r.free_count() == 0,
            r.free_list().len() == 0,
            r.root_node().trimmed(),
    {
        let r = TrieMap {
            data: Vec::with_capacity(capacity),
            free_indices: Vec::new(),
            root: TrieNode::new(),
            size: 0,
            pool: SlicePool::new(),
            keys: Ghost(Set::empty()),
        };
        proof {
            assert forall|k: Seq<u8>| #[trigger] r.root.slot_at(k) is None by {
                r.root.lemma_blank_find(k);
            }
            assert(r@ =~= Map::<Seq<u8>, T>::empty());
        }
        r
    }

    /// Returns the number of elements in the map.
    pub fn len(&self) -> (r: usize)
        requires
            self.wf(),
        ensures
            r == self@.len(),
    {
        proof {
            assert(self@.dom() =~= self.keys@);
        }
        self.size
    }

    /// Returns `true` if the map contains no elements.
    pub fn is_empty(&self) -> (r: bool)
        requires
            self.wf(),
        ensures
            r == (self@.len() == 0),
    {
        proof {
            assert(self@.dom() =~= self.keys@);
        }
        self.size == 0
    }

    /// The node reached by following `key` from the root, if any.
    fn find_node<'a>(&'a self, key: &[u8]) -> (r: Option<&'a TrieNode>)
        requires
            self.root.wf(),
        ensures
            match r {
                Some(n) => self.root.find(key@) == Some(*n) && n.wf(),
                None => self.root.find(key@) is None,
            },
    {
        let mut cur: &TrieNode = &self.root;
        let mut i: usize = 0;
        proof {
            assert(key@.skip(0) =~= key@);
        }
        while i < key.len()
            invariant
                i <= key.len(),
                cur.wf(),
                self.root.find(key@) == cur.find(key@.skip(i as int)),
            decreases key.len() - i,
        {
            let b = key[i];
            proof {
                assert(key@.skip(i as int).drop_first() =~= key@.skip(i as int + 1));
                cur.lemma_child_exists(b as int);
            }
            if !cur.presence.test(b) {
                return None;
            }
            let idx = cur.presence.rank_of(b);
            cur = &cur.children[idx];
            i = i + 1;
        }
        proof {
            assert(key@.skip(i as int) =~= Seq::<u8>::empty());
        }
        Some(cur)
    }

    /// The slot of the value stored under `key`, if any.
    fn find_slot(&self, key: &[u8]) -> (r: Option<usize>)
        requires
            self.root.wf(),
        ensures
            r == self.root.slot_at(key@),
    {
        match self.find_node(key) {
            Some(n) => n.value_slot,
            None => None,
        }
    }

    /// Returns a reference to the value stored under `key`.
    pub fn get(&self, key: &[u8]) -> (r: Option<&T>)
        requires
            self.wf(),
        ensures
            match r {
                Some(v) => self@.contains_key(key@) && *v == self@[key@],
                None => !self@.contains_key(key@),
            },
    {
        match self.find_slot(key) {
            Some(i) => self.data[i].as_ref(),
            None => None,
        }
    }

    /// Returns `true` if the map holds a value under `key`.
    pub fn contains_key(&self, key: &[u8]) -> (r: bool)
        requires
            self.wf(),
        ensures
            r == self@.contains_key(key@),
    {
        self.get(key).is_some()
    }

    /// Grows `node` by an edge under `b` to a blank child: the child array is
    /// rebuilt one longer from the pool, the old one goes back to the pool.
    fn add_edge(node: &mut TrieNode, b: u8, pool: &mut SlicePool)
        requires
            old(node).wf(),
            old(pool).wf(),
            !old(node).presence.has(b as int),
        ensures
            final(node).wf(),
            final(pool).wf(),
            final(node).value_slot == old(node).value_slot,
            final(node).child(b as int) is Some,
            final(node).child(b as int)->0.is_blank(),
            forall|c: int| c != b ==> #[trigger] final(node).child(c) == old(node).child(c),
            taken_and_given(
                *old(pool),
                *final(pool),
                old(node).children@.len() + 1int,
                old(node).children@.len() as int,
            ),
            old(node).trimmed() ==> forall|k: int|
                0 <= k < final(node).children@.len() && k != final(node).presence.rank(b as int)
                    ==> !(#[trigger] final(node).children@[k]).is_dead()
                    && final(node).children@[k].trimmed(),
    {
        let ghost oc = node.children@;
        let ghost op = node.presence;
        let len = node.children.len();
        proof {
            node.presence.lemma_rank_le(256);
            if len == 256 {
                lemma_full_rank(node.presence, b as int);
            }
        }
        let r = node.presence.rank_of(b);
        proof {
            node.presence.lemma_rank_mono(b as int, 256);
        }
        let ghost p0 = *pool;
        let mut fresh = pool.get(len + 1);
        let ghost p1 = *pool;
        let mut i: usize = 0;
        while i < r
            invariant
                i <= r <= len,
                len == oc.len(),
                fresh@.len() == len + 1,
                node.children@.len() == len,
                forall|k: int| 0 <= k < i ==> fresh@[k] == oc[k],
                forall|k: int| i <= k < len + 1 ==> (#[trigger] fresh@[k]).is_blank(),
                forall|k: int| 0 <= k < i ==> (#[trigger] node.children@[k]).is_blank(),
                forall|k: int| i <= k < len ==> node.children@[k] == oc[k],
                node.presence == op,
                node.value_slot == old(node).value_slot,
            decreases r - i,
        {
            std::mem::swap(&mut fresh[i], &mut node.children[i]);
            i = i + 1;
        }
        fresh[r] = TrieNode::new();
        let mut i: usize = r;
        while i < len
            invariant
                r <= i <= len,
                len == oc.len(),
                fresh@.len() == len + 1,
                node.children@.len() == len,
                forall|k: int| 0 <= k < r ==> fresh@[k] == oc[k],
                fresh@[r as int].is_blank(),
                forall|k: int| r < k <= i ==> fresh@[k] == oc[k - 1],
                forall|k: int| i < k < len + 1 ==> (#[trigger] fresh@[k]).is_blank(),
                forall|k: int| 0 <= k < i ==> (#[trigger] node.children@[k]).is_blank(),
                forall|k: int| i <= k < len ==> node.children@[k] == oc[k],
                node.presence == op,
                node.value_slot == old(node).value_slot,
            decreases len - i,
        {
            std::mem::swap(&mut fresh[i + 1], &mut node.children[i]);
            i = i + 1;
        }
        std::mem::swap(&mut node.children, &mut fresh);
        proof {
            assert(all_blank(fresh@));
        }
        pool.put(fresh);
        proof {
            lemma_take_then_give(p0, p1, *pool, len + 1, len as int);
        }
        node.presence.set(b);
        proof {
            let n = *node;
            assert(n.presence.rank(b as int) == r);
            assert forall|c: int| c != b implies #[trigger] n.child(c) == old(node).child(c) by {
                if op.has(c) {
                    op.lemma_rank_below_count(c);
                    if c < b {
                        op.lemma_rank_mono(c, b as int);
                    } else {
                        op.lemma_rank_mono(b as int, c);
                    }
                }
            }
            assert forall|k: int| 0 <= k < n.children@.len() implies (
            #[trigger] n.children@[k]).wf() by {
                if k < r {
                    assert(oc[k].wf());
                } else if k > r {
                    assert(oc[k - 1].wf());
                } else {
                    n.children@[k].presence.lemma_rank_empty(256);
                }
            }
            if old(node).trimmed() {
                assert forall|k: int|
                    0 <= k < n.children@.len() && k != r implies !(#[trigger] n.children@[k]).is_dead()
                    && n.children@[k].trimmed() by {
                    if k < r {
                        assert(oc[k] == old(node).children@[k]);
                    } else {
                        assert(oc[k - 1] == old(node).children@[k - 1]);
                    }
                }
            }
        }
    }

    /// Sets the value slot of the node under `key[pos..]` to `j`, creating the
    /// missing nodes on the way.
    fn insert_path(node: &mut TrieNode, key: &[u8], pos: usize, j: usize, pool: &mut SlicePool)
        requires
            old(node).wf(),
            old(pool).wf(),
            pos <= key@.len(),
        ensures
            final(node).wf(),
            final(pool).wf(),
            forall|s: Seq<u8>| #[trigger]
                final(node).slot_at(s) == if s == key@.skip(pos as int) {
                    Some(j)
                } else {
                    old(node).slot_at(s)
                },
            !final(node).is_dead(),
            old(node).trimmed() ==> final(node).trimmed(),
        decreases key@.len() - pos,
    {
        if pos == key.len() {
            node.value_slot = Some(j);
            proof {
                assert forall|s: Seq<u8>| #[trigger]
                    node.slot_at(s) == if s == key@.skip(pos as int) {
                        Some(j)
                    } else {
                        old(node).slot_at(s)
                    } by {
                    if s.len() == 0 {
                        assert(s =~= key@.skip(pos as int));
                    }
                }
            }
            return ;
        }
        let b = key[pos];
        if !node.presence.test(b) {
            Self::add_edge(node, b, pool);
        }
        let ghost mid = *node;
        proof {
            mid.lemma_child_exists(b as int);
            mid.presence.lemma_rank_below_count(b as int);
            if old(node).trimmed() && old(node).presence.has(b as int) {
                old(node).presence.lemma_rank_below_count(b as int);
                assert(old(node).children@[old(node).presence.rank(b as int) as int].trimmed());
            }
        }
        let r = node.presence.rank_of(b);
        Self::insert_path(&mut node.children[r], key, pos + 1, j, pool);
        proof {
            let n = *node;
            let tail = key@.skip(pos as int);
            assert(tail.drop_first() =~= key@.skip(pos as int + 1));
            assert forall|k: int| 0 <= k < n.children@.len() implies (
            #[trigger] n.children@[k]).wf() by {
                if k != r {
                    assert(n.children@[k] == mid.children@[k]);
                    assert(mid.children@[k].wf());
                }
            }
            assert forall|c: int| c != b implies #[trigger] n.child(c) == mid.child(c) by {
                if mid.presence.has(c) {
                    mid.presence.lemma_rank_injective(b as int, c);
                }
            }
            if old(node).trimmed() {
                assert forall|k: int|
                    0 <= k < n.children@.len() implies !(#[trigger] n.children@[k]).is_dead()
                    && n.children@[k].trimmed() by {
                    if k != r {
                        assert(n.children@[k] == mid.children@[k]);
                        if old(node).presence.has(b as int) {
                            assert(mid.children@[k] == old(node).children@[k]);
                        }
                    }
                }
            }
            assert forall|s: Seq<u8>| #[trigger]
                n.slot_at(s) == if s == tail {
                    Some(j)
                } else {
                    old(node).slot_at(s)
                } by {
                if s.len() > 0 {
                    n.lemma_slot_step(s);
                    mid.lemma_slot_step(s);
                    old(node).lemma_slot_step(s);
                    if s[0] == b {
                        if s != tail {
                            lemma_head_tail(s, tail);
                            if !old(node).presence.has(b as int) {
                                mid.child(b as int)->0.lemma_blank_find(s.drop_first());
                            }
                        }
                    } else {
                        assert(s != tail);
                    }
                } else {
                    assert(s != tail);
                }
            }
        }
    }

    /// Inserts `value` under `key`, overwriting the value in place when the key
    /// is already present.
    pub fn insert(&mut self, key: &[u8], value: T)
        requires
            old(self).wf(),
        ensures
            final(self).wf(),
            final(self)@ == old(self)@.insert(key@, value),
            final(self)@.len() == old(self)@.len() + if old(self)@.contains_key(key@) {
                0int
            } else {
                1int
            },
            (final(self).slot_count(), final(self).free_count()) == store_after_insert(
                old(self).slot_count(),
                old(self).free_count(),
                old(self)@.contains_key(key@),
            ),
            old(self).root_node().trimmed() ==> final(self).root_node().trimmed(),
            forall|k: Seq<u8>| k != key@ ==> #[trigger] final(self).slot_of(k) == old(self).slot_of(k),
            old(self)@.contains_key(key@) ==> final(self).slot_of(key@) == old(self).slot_of(key@)
                && final(self).free_list() == old(self).free_list(),
            !old(self)@.contains_key(key@) && old(self).free_list().len() > 0 ==> final(self).slot_of(
                key@,
            ) == Some(old(self).free_list().last()) && final(self).free_list() == old(
                self).free_list().drop_last(),
            !old(self)@.contains_key(key@) && old(self).free_list().len() == 0 ==> final(self).slot_of(
                key@,
            ) == Some(old(self).slot_count() as usize) && final(self).free_list() == old(
                self).free_list(),
    {
        let ghost k0 = key@;
        proof {
            assert(old(self)@.dom() =~= old(self).keys@);
        }
        match self.find_slot(key) {
            Some(i) => {
                self.data.set(i, Some(value));
                proof {
                    assert forall|k: Seq<u8>| #[trigger]
                        self.root.slot_at(k) is Some implies self.root.slot_at(k)->0
                        < self.data@.len() && self.data@[self.root.slot_at(k)->0 as int] is Some by {
                    }
                    assert forall|j: int| #![trigger self.free_indices@[j]]
                        0 <= j < self.free_indices@.len() implies self.free_indices@[j]
                        < self.data@.len() && self.data@[self.free_indices@[j] as int] is None by {
                        let f = self.free_indices@[j];
                        assert(old(self).data@[f as int] is None);
                    }
                    assert forall|x: int|
                        0 <= x < self.data@.len() && (#[trigger] self.data@[x]) is Some implies exists|
                        k: Seq<u8>,
                    | #[trigger] self.root.slot_at(k) == Some(x as usize) by {
                        if x == i {
                            assert(self.root.slot_at(k0) == Some(x as usize));
                        } else {
                            assert(old(self).data@[x] is Some);
                        }
                    }
                    assert(self@ =~= old(self)@.insert(k0, value)) by {
                        assert forall|k: Seq<u8>| self@.contains_key(k) && k != k0 implies self@[k]
                            == old(self)@[k] by {
                            assert(self.root.slot_at(k) is Some);
                        }
                    }
                }
            },
            None => {
                let j = match self.free_indices.pop() {
                    Some(f) => {
                        proof {
                            let ofl = old(self).free_indices@;
                            assert(f == ofl[ofl.len() - 1]);
                        }
                        self.data.set(f, Some(value));
                        f
                    },
                    None => {
                        self.data.push(Some(value));
                        self.data.len() - 1
                    },
                };
                proof {
                    let ofl = old(self).free_indices@;
                    assert(self.size + 1 + self.free_indices@.len() == self.data@.len());
                    assert forall|k: Seq<u8>| #[trigger] old(self).root.slot_at(k) is Some implies old(self).root.slot_at(k)->0 != j by {}
                    assert forall|x: int| 0 <= x < self.free_indices@.len() implies #[trigger] self.free_indices@[x] != j by {
                        if ofl.len() > 0 && j == ofl[ofl.len() - 1] {
                            assert(ofl[x] == self.free_indices@[x]);
                        }
                    }
                }
                Self::insert_path(&mut self.root, key, 0, j, &mut self.pool);
                proof {
                    assert(key@.skip(0) =~= key@);
                    assert(self.size + 1 + self.free_indices@.len() == self.data@.len());
                    assert(self.data.len() == self.data@.len());
                }
                self.keys = Ghost(self.keys@.insert(k0));
                self.size = self.size + 1;
                proof {
                    let o = old(self);
                    assert forall|k: Seq<u8>| #[trigger] self.keys@.contains(k) <==> self.root.slot_at(k) is Some by {}
                    assert forall|k: Seq<u8>| #[trigger]
                        self.root.slot_at(k) is Some implies self.root.slot_at(k)->0
                        < self.data@.len() && self.data@[self.root.slot_at(k)->0 as int] is Some by {
                        if k != k0 {
                            assert(o.root.slot_at(k) is Some);
                        }
                    }
                    assert forall|k1: Seq<u8>, k2: Seq<u8>|
                        #[trigger] self.root.slot_at(k1) is Some && #[trigger] self.root.slot_at(k2)
                            == self.root.slot_at(k1) implies k1 == k2 by {
                        if k1 != k0 && k2 != k0 {
                            assert(o.root.slot_at(k1) is Some);
                        } else if k1 != k0 {
                            assert(o.root.slot_at(k1) is Some);
                        } else if k2 != k0 {
                            assert(o.root.slot_at(k2) is Some);
                        }
                    }
                    assert forall|x: int| #![trigger self.free_indices@[x]]
                        0 <= x < self.free_indices@.len() implies self.free_indices@[x]
                        < self.data@.len() && self.data@[self.free_indices@[x] as int] is None by {
                        let ofl = o.free_indices@;
                        assert(self.free_indices@[x] == ofl[x]);
                    }
                    assert(self.free_indices@.no_duplicates()) by {
                        let ofl = o.free_indices@;
                        assert forall|x: int, y: int| 0 <= x < y < self.free_indices@.len() implies
                            self.free_indices@[x] != self.free_indices@[y] by {
                            assert(self.free_indices@[x] == ofl[x]);
                            assert(self.free_indices@[y] == ofl[y]);
                        }
                    }
                    assert forall|x: int|
                        0 <= x < self.data@.len() && (#[trigger] self.data@[x]) is Some implies exists|
                        k: Seq<u8>,
                    | #[trigger] self.root.slot_at(k) == Some(x as usize) by {
                        if x == j {
                            assert(self.root.slot_at(k0) == Some(x as usize));
                        } else {
                            assert(o.data@[x] is Some);
                            let k = choose|k: Seq<u8>| #[trigger] o.root.slot_at(k) == Some(x as usize);
                            assert(k != k0);
                            assert(self.root.slot_at(k) == Some(x as usize));
                        }
                    }
                    assert(self@ =~= o@.insert(k0, value)) by {
                        assert forall|k: Seq<u8>| self@.contains_key(k) && k != k0 implies self@[k]
                            == o@[k] by {
                            assert(o.root.slot_at(k) is Some);
                        }
                    }
                    assert(self@.dom() =~= self.keys@);
                }
            },
        }
    }

    /// Clears the value slot of the node under `key[pos..]`, leaving the nodes
    /// in place.
    fn clear_path(node: &mut TrieNode, key: &[u8], pos: usize)
        requires
            old(node).wf(),
            pos <= key@.len(),
            old(node).find(key@.skip(pos as int)) is Some,
        ensures
            final(node).wf(),
            forall|s: Seq<u8>| #[trigger]
                final(node).slot_at(s) == if s == key@.skip(pos as int) {
                    None
                } else {
                    old(node).slot_at(s)
                },
            forall|s: Seq<u8>| #[trigger] final(node).find(s) is Some == old(node).find(s) is Some,
            final(node).node_count() == old(node).node_count(),
        decreases key@.len() - pos,
    {
        let ghost tail = key@.skip(pos as int);
        if pos == key.len() {
            node.value_slot = None;
            proof {
                assert forall|s: Seq<u8>| #[trigger]
                    node.slot_at(s) == if s == tail {
                        None
                    } else {
                        old(node).slot_at(s)
                    } by {
                    if s.len() == 0 {
                        assert(s =~= tail);
                    }
                }
                assert forall|s: Seq<u8>| #[trigger] node.find(s) is Some == old(node).find(s) is Some by {
                    if s.len() > 0 {
                        node.lemma_find_step(s);
                        old(node).lemma_find_step(s);
                    }
                }
            }
            return ;
        }
        let b = key[pos];
        proof {
            assert(tail.drop_first() =~= key@.skip(pos as int + 1));
            node.lemma_child_exists(b as int);
            node.presence.lemma_rank_below_count(b as int);
        }
        let r = node.presence.rank_of(b);
        Self::clear_path(&mut node.children[r], key, pos + 1);
        proof {
            let o = *old(node);
            let n = *node;
            o.lemma_replace_child(n, b as int);
            assert forall|k: int| 0 <= k < n.children@.len() implies (
            #[trigger] n.children@[k]).wf() by {
                if k != r {
                    assert(o.children@[k].wf());
                }
            }
            assert forall|s: Seq<u8>| #[trigger]
                n.slot_at(s) == if s == tail {
                    None
                } else {
                    o.slot_at(s)
                } by {
                if s.len() > 0 {
                    n.lemma_slot_step(s);
                    o.lemma_slot_step(s);
                    if s[0] == b && s != tail {
                        lemma_head_tail(s, tail);
                    }
                }
            }
            assert forall|s: Seq<u8>| #[trigger] n.find(s) is Some == o.find(s) is Some by {
                if s.len() > 0 {
                    n.lemma_find_step(s);
                    o.lemma_find_step(s);
                }
            }
            assert(n.children@ == o.children@.update(r as int, n.children@[r as int]));
            lemma_forest_update(o.children@, r as int, n.children@[r as int]);
        }
    }

    /// Removes the edge under `b` from `node`, whose child there is dead: the
    /// child array is rebuilt one shorter from the pool, the old one goes back.
    fn remove_edge(node: &mut TrieNode, b: u8, pool: &mut SlicePool)
        requires
            old(node).wf(),
            old(pool).wf(),
            old(node).presence.has(b as int),
            old(node).child(b as int)->0.is_dead(),
        ensures
            final(node).wf(),
            final(pool).wf(),
            final(node).value_slot == old(node).value_slot,
            final(node).child(b as int) is None,
            forall|c: int| c != b ==> #[trigger] final(node).child(c) == old(node).child(c),
            final(node).children@.len() + 1 == old(node).children@.len(),
            taken_and_given(
                *old(pool),
                *final(pool),
                old(node).children@.len() - 1int,
                old(node).children@.len() as int,
            ),
            (forall|k: int|
                0 <= k < old(node).children@.len() && k != old(node).presence.rank(b as int)
                    ==> !(#[trigger] old(node).children@[k]).is_dead()
                    && old(node).children@[k].trimmed()) ==> final(node).trimmed(),
    {
        let ghost oc = node.children@;
        let ghost op = node.presence;
        let len = node.children.len();
        proof {
            op.lemma_rank_below_count(b as int);
            op.lemma_rank_le(256);
        }
        let r = node.presence.rank_of(b);
        let ghost p0 = *pool;
        let mut fresh = pool.get(len - 1);
        let ghost p1 = *pool;
        let mut i: usize = 0;
        let mut ni: usize = 0;
        while i < len
            invariant
                0 <= r < len <= 256,
                len == oc.len(),
                i <= len,
                ni == if i <= r {
                    i
                } else {
                    (i - 1) as usize
                },
                fresh@.len() == len - 1,
                node.children@.len() == len,
                forall|k: int| 0 <= k < ni && k < r ==> fresh@[k] == oc[k],
                forall|k: int| r <= k < ni ==> fresh@[k] == oc[k + 1],
                forall|k: int| ni <= k < len - 1 ==> (#[trigger] fresh@[k]).is_blank(),
                forall|k: int| 0 <= k < i && k != r ==> (#[trigger] node.children@[k]).is_blank(),
                forall|k: int| i <= k < len ==> node.children@[k] == oc[k],
                node.children@[r as int] == oc[r as int],
                node.presence == op,
                node.value_slot == old(node).value_slot,
            decreases len - i,
        {
            if i != r {
                std::mem::swap(&mut fresh[ni], &mut node.children[i]);
                ni = ni + 1;
            }
            i = i + 1;
        }
        std::mem::swap(&mut node.children, &mut fresh);
        proof {
            let dead = oc[r as int];
            assert(dead.wf());
            dead.lemma_no_children();
            assert(all_blank(fresh@));
        }
        pool.put(fresh);
        proof {
            lemma_take_then_give(p0, p1, *pool, len - 1, len as int);
        }
        node.presence.clear(b);
        proof {
            let n = *node;
            assert forall|c: int| c != b implies #[trigger] n.child(c) == old(node).child(c) by {
                if op.has(c) {
                    op.lemma_rank_below_count(c);
                    if c < b {
                        op.lemma_rank_mono(c, b as int);
                    } else {
                        op.lemma_rank_mono(b as int, c);
                    }
                }
            }
            assert forall|k: int| 0 <= k < n.children@.len() implies (
            #[trigger] n.children@[k]).wf() by {
                if k < r {
                    assert(oc[k].wf());
                } else {
                    assert(oc[k + 1].wf());
                }
            }
            if forall|k: int|
                0 <= k < oc.len() && k != r ==> !(#[trigger] oc[k]).is_dead() && oc[k].trimmed() {
                assert forall|k: int|
                    0 <= k < n.children@.len() implies !(#[trigger] n.children@[k]).is_dead()
                    && n.children@[k].trimmed() by {
                    if k < r {
                        assert(!oc[k].is_dead());
                    } else {
                        assert(!oc[k + 1].is_dead());
                    }
                }
            }
        }
    }

    /// Clears the value slot of the node under `key[pos..]`, then on the way
    /// back removes each edge whose child has become dead.
    fn prune_path(node: &mut TrieNode, key: &[u8], pos: usize, pool: &mut SlicePool)
        requires
            old(node).wf(),
            old(pool).wf(),
            pos <= key@.len(),
            old(node).find(key@.skip(pos as int)) is Some,
        ensures
            final(node).wf(),
            final(pool).wf(),
            forall|s: Seq<u8>| #[trigger]
                final(node).slot_at(s) == if s == key@.skip(pos as int) {
                    None
                } else {
                    old(node).slot_at(s)
                },
            old(node).trimmed() ==> final(node).trimmed(),
            forall|t: Seq<u8>|
                t.len() > 0 && has_prefix(key@.skip(pos as int), t) && (#[trigger] final(node).find(t))
                    is Some ==> !final(node).find(t)->0.is_dead(),
            forall|s: Seq<u8>|
                !has_prefix(key@.skip(pos as int), s) ==> #[trigger] final(node).find(s) == old(
                    node).find(s),
        decreases key@.len() - pos,
    {
        let ghost tail = key@.skip(pos as int);
        if pos == key.len() {
            node.value_slot = None;
            proof {
                assert forall|s: Seq<u8>| #[trigger]
                    node.slot_at(s) == if s == tail {
                        None
                    } else {
                        old(node).slot_at(s)
                    } by {
                    if s.len() == 0 {
                        assert(s =~= tail);
                    }
                }
                assert forall|s: Seq<u8>|
                    !has_prefix(tail, s) implies #[trigger] node.find(s) == old(node).find(s) by {
                    lemma_prefix_cons(tail, s);
                    if s.len() > 0 {
                        node.lemma_find_step(s);
                        old(node).lemma_find_step(s);
                    }
                }
                assert forall|t: Seq<u8>|
                    t.len() > 0 && has_prefix(tail, t) && (#[trigger] node.find(t)) is Some implies !node.find(
                    t,
                )->0.is_dead() by {
                    assert(t.subrange(0, t.len() as int).len() > tail.len());
                }
            }
            return ;
        }
        let b = key[pos];
        proof {
            assert(tail.drop_first() =~= key@.skip(pos as int + 1));
            assert(tail[0] == b);
            node.lemma_child_exists(b as int);
            node.presence.lemma_rank_below_count(b as int);
        }
        let r = node.presence.rank_of(b);
        proof {
            if old(node).trimmed() {
                assert(old(node).children@[r as int].trimmed());
            }
        }
        Self::prune_path(&mut node.children[r], key, pos + 1, pool);
        let ghost mid = *node;
        proof {
            let o = *old(node);
            if o.trimmed() {
                assert forall|k: int|
                    0 <= k < mid.children@.len() && k != r implies !(
                    #[trigger] mid.children@[k]).is_dead() && mid.children@[k].trimmed() by {
                    assert(mid.children@[k] == o.children@[k]);
                }
            }
            o.lemma_replace_child(mid, b as int);
            assert forall|k: int| 0 <= k < mid.children@.len() implies (
            #[trigger] mid.children@[k]).wf() by {
                if k != r {
                    assert(o.children@[k].wf());
                }
            }
            assert forall|s: Seq<u8>| #[trigger]
                mid.slot_at(s) == if s == tail {
                    None
                } else {
                    o.slot_at(s)
                } by {
                if s.len() > 0 {
                    mid.lemma_slot_step(s);
                    o.lemma_slot_step(s);
                    if s[0] == b && s != tail {
                        lemma_head_tail(s, tail);
                    }
                }
            }
        }
        let removed_edge = node.children[r].value_slot.is_none() && node.children[r].children.len()
            == 0;
        if removed_edge {
            Self::remove_edge(node, b, pool);
            proof {
                let n = *node;
                let dead = mid.children@[r as int];
                dead.lemma_no_children();
                assert forall|s: Seq<u8>| #[trigger] n.slot_at(s) == mid.slot_at(s) by {
                    if s.len() > 0 {
                        n.lemma_slot_step(s);
                        mid.lemma_slot_step(s);
                        if s[0] == b {
                            dead.lemma_blank_find(s.drop_first());
                        }
                    }
                }
            }
        }
        proof {
            let n = *node;
            let o = *old(node);
            let tl = tail.drop_first();
            let c1 = mid.children@[r as int];
            let c0 = o.children@[r as int];
            assert(o.child(b as int) == Some(c0));
            assert(mid.child(b as int) == Some(c1));
            assert(removed_edge ==> n.child(b as int) is None);
            assert(!removed_edge ==> n.child(b as int) == Some(c1));
            assert(removed_edge ==> c1.is_blank()) by {
                if removed_edge {
                    c1.lemma_no_children();
                }
            }
            assert forall|c: int| c != b implies #[trigger] n.child(c) == o.child(c) by {
                assert(mid.child(c) == o.child(c));
            }
            assert forall|s: Seq<u8>|
                !has_prefix(tail, s) implies #[trigger] n.find(s) == o.find(s) by {
                lemma_prefix_cons(tail, s);
                if s.len() > 0 {
                    n.lemma_find_step(s);
                    o.lemma_find_step(s);
                    if s[0] == b {
                        let s1 = s.drop_first();
                        assert(!has_prefix(tl, s1));
                        assert(c1.find(s1) == c0.find(s1));
                        if removed_edge {
                            lemma_prefix_cons(tl, s1);
                            c1.lemma_blank_find(s1);
                        }
                    }
                }
            }
            assert forall|t: Seq<u8>|
                t.len() > 0 && has_prefix(tail, t) && (#[trigger] n.find(t)) is Some implies !n.find(
                t,
            )->0.is_dead() by {
                lemma_prefix_cons(tail, t);
                n.lemma_find_step(t);
                let t1 = t.drop_first();
                if t1.len() > 0 {
                    assert(c1.find(t1) is Some);
                } else {
                    assert(c1.find(t1) == Some(c1));
                }
            }
        }
    }

    /// Removes the value under `key` and returns it; the nodes on its path stay.
    pub fn remove(&mut self, key: &[u8]) -> (r: Option<T>)
        requires
            old(self).wf(),
        ensures
            final(self).wf(),
            final(self)@ == old(self)@.remove(key@),
            r == if old(self)@.contains_key(key@) {
                Some(old(self)@[key@])
            } else {
                None::<T>
            },
            (final(self).slot_count(), final(self).free_count()) == store_after_remove(
                old(self).slot_count(),
                old(self).free_count(),
                old(self)@.contains_key(key@),
            ),
            final(self)@.len() == old(self)@.len() - if old(self)@.contains_key(key@) {
                1int
            } else {
                0int
            },
            !old(self)@.contains_key(key@) ==> *final(self) == *old(self),
            old(self)@.contains_key(key@) ==> final(self).free_list() == old(self).free_list().push(
                old(self).slot_of(key@)->0,
            ),
            old(self)@.contains_key(key@) ==> final(self).slot_of(key@) is None && final(
                self).slots() == old(self).slots().update(old(self).slot_of(key@)->0 as int, None),
            forall|s: Seq<u8>| #[trigger]
                final(self).root_node().find(s) is Some == old(self).root_node().find(s) is Some,
            final(self).root_node().node_count() == old(self).root_node().node_count(),
    {
        match self.find_slot(key) {
            None => None,
            Some(i) => {
                proof {
                    assert(key@.skip(0) =~= key@);
                }
                Self::clear_path(&mut self.root, key, 0);
                let v = self.data[i].take();
                proof {
                    self.lemma_after_unlink(*old(self), key@, i);
                }
                self.free_indices.push(i);
                self.keys = Ghost(self.keys@.remove(key@));
                self.size = self.size - 1;
                proof {
                    self.lemma_after_free(*old(self), key@, i);
                }
                v
            },
        }
    }

    /// Removes the value under `key` and returns it; each node on its path that
    /// no longer leads to a value is removed as well.
    pub fn remove_and_prune(&mut self, key: &[u8]) -> (r: Option<T>)
        requires
            old(self).wf(),
        ensures
            final(self).wf(),
            final(self)@ == old(self)@.remove(key@),
            r == if old(self)@.contains_key(key@) {
                Some(old(self)@[key@])
            } else {
                None::<T>
            },
            (final(self).slot_count(), final(self).free_count()) == store_after_remove(
                old(self).slot_count(),
                old(self).free_count(),
                old(self)@.contains_key(key@),
            ),
            old(self).root_node().trimmed() ==> final(self).root_node().trimmed(),
            final(self)@.len() == old(self)@.len() - if old(self)@.contains_key(key@) {
                1int
            } else {
                0int
            },
            !old(self)@.contains_key(key@) ==> *final(self) == *old(self),
            old(self)@.contains_key(key@) ==> final(self).free_list() == old(self).free_list().push(
                old(self).slot_of(key@)->0,
            ),
            old(self)@.contains_key(key@) ==> final(self).slot_of(key@) is None && final(
                self).slots() == old(self).slots().update(old(self).slot_of(key@)->0 as int, None),
            old(self)@.contains_key(key@) ==> forall|t: Seq<u8>|
                t.len() > 0 && has_prefix(key@, t) && (#[trigger] final(self).root_node().find(t))
                    is Some ==> !final(self).root_node().find(t)->0.is_dead(),
            forall|s: Seq<u8>|
                !has_prefix(key@, s) ==> #[trigger] final(self).root_node().find(s) == old(
                    self).root_node().find(s),
    {
        match self.find_slot(key) {
            None => None,
            Some(i) => {
                proof {
                    assert(key@.skip(0) =~= key@);
                }
                Self::prune_path(&mut self.root, key, 0, &mut self.pool);
                let v = self.data[i].take();
                proof {
                    self.lemma_after_unlink(*old(self), key@, i);
                }
                self.free_indices.push(i);
                self.keys = Ghost(self.keys@.remove(key@));
                self.size = self.size - 1;
                proof {
                    self.lemma_after_free(*old(self), key@, i);
                }
                v
            },
        }
    }

    /// After the slot `i` of `k` is unlinked from the tree and emptied, no key
    /// refers to it.
    proof fn lemma_after_unlink(self, o: Self, k: Seq<u8>, i: usize)
        requires
            o.wf(),
            o.root.slot_at(k) == Some(i),
            forall|s: Seq<u8>| #[trigger]
                self.root.slot_at(s) == if s == k {
                    None
                } else {
                    o.root.slot_at(s)
                },
            self.data@ == o.data@.update(i as int, None),
        ensures
            forall|s: Seq<u8>| #[trigger] self.root.slot_at(s) is Some ==> self.root.slot_at(s)->0 != i,
            o.free_indices@.len() < o.data@.len(),
            !o.free_indices@.contains(i),
    {
        assert(o.data@[i as int] is Some);
        assert(o@.dom() =~= o.keys@);
        assert(o.keys@.contains(k));
        assert(o.keys@.remove(k).len() + 1 == o.keys@.len());
        if o.free_indices@.contains(i) {
            let x = choose|x: int| 0 <= x < o.free_indices@.len() && o.free_indices@[x] == i;
            assert(o.data@[o.free_indices@[x] as int] is None);
        }
    }

    /// The invariant and the view after a key's slot was unlinked and pushed on
    /// the free list.
    proof fn lemma_after_free(self, o: Self, k: Seq<u8>, i: usize)
        requires
            o.wf(),
            o.root.slot_at(k) == Some(i),
            forall|s: Seq<u8>| #[trigger]
                self.root.slot_at(s) == if s == k {
                    None
                } else {
                    o.root.slot_at(s)
                },
            forall|s: Seq<u8>| #[trigger] self.root.slot_at(s) is Some ==> self.root.slot_at(s)->0 != i,
            !o.free_indices@.contains(i),
            self.data@ == o.data@.update(i as int, None),
            self.free_indices@ == o.free_indices@.push(i),
            self.keys@ == o.keys@.remove(k),
            self.size + 1 == o.size,
            self.root.wf(),
            self.pool.wf(),
        ensures
            self.wf(),
            self@ == o@.remove(k),
            self@.len() + 1 == o@.len(),
    {
        assert(o@.dom() =~= o.keys@);
        assert(self@.dom() =~= self.keys@);
        assert(o.keys@.contains(k));
        assert forall|s: Seq<u8>| #[trigger]
            self.root.slot_at(s) is Some implies self.root.slot_at(s)->0 < self.data@.len()
                && self.data@[self.root.slot_at(s)->0 as int] is Some by {
            assert(o.root.slot_at(s) is Some);
        }
        assert forall|k1: Seq<u8>, k2: Seq<u8>|
            #[trigger] self.root.slot_at(k1) is Some && #[trigger] self.root.slot_at(k2)
                == self.root.slot_at(k1) implies k1 == k2 by {
            assert(o.root.slot_at(k1) is Some);
        }
        assert forall|x: int| #![trigger self.free_indices@[x]]
            0 <= x < self.free_indices@.len() implies self.free_indices@[x] < self.data@.len()
                && self.data@[self.free_indices@[x] as int] is None by {
            if x < o.free_indices@.len() {
                assert(self.free_indices@[x] == o.free_indices@[x]);
            }
        }
        assert(self.free_indices@.no_duplicates()) by {
            assert forall|x: int, y: int| 0 <= x < y < self.free_indices@.len() implies
                self.free_indices@[x] != self.free_indices@[y] by {
                if y == o.free_indices@.len() {
                    assert(o.free_indices@.contains(o.free_indices@[x]));
                }
            }
        }
        assert forall|x: int|
            0 <= x < self.data@.len() && (#[trigger] self.data@[x]) is Some implies exists|
            kk: Seq<u8>,
        | #[trigger] self.root.slot_at(kk) == Some(x as usize) by {
            assert(x != i);
            assert(self.data.len() == self.data@.len());
            assert((x as usize) != i);
            assert(o.data@[x] is Some);
            let kk = choose|kk: Seq<u8>| #[trigger] o.root.slot_at(kk) == Some(x as usize);
            assert(kk != k);
            assert(self.root.slot_at(kk) == Some(x as usize));
        }
        assert(self@ =~= o@.remove(k)) by {
            assert forall|s: Seq<u8>| self@.contains_key(s) implies self@[s] == o@[s] by {
                assert(o.root.slot_at(s) is Some);
            }
        }
    }

    /// Removes, below `node`, every node that leads to no value: children are
    /// pruned first, then this node's child array is rebuilt once without the
    /// dead ones. Returns how many nodes were removed (saturating).
    fn prune_node(node: &mut TrieNode, pool: &mut SlicePool) -> (removed: usize)
        requires
            old(node).wf(),
            old(pool).wf(),
        ensures
            final(node).wf(),
            final(pool).wf(),
            final(node).trimmed(),
            final(node).value_slot == old(node).value_slot,
            forall|s: Seq<u8>| #[trigger] final(node).slot_at(s) == old(node).slot_at(s),
            final(node).node_count() <= old(node).node_count(),
            removed == saturated(old(node).node_count() - final(node).node_count()),
            old(node).trimmed() ==> final(node).same_shape(*old(node)) && *final(pool) == *old(
                pool) && removed == 0,
            held_below(*final(pool), 257) >= held_below(*old(pool), 257),
        decreases *old(node),
    {
        let ghost oc = node.children@;
        let ghost op = node.presence;
        let len = node.children.len();
        proof {
            op.lemma_rank_le(256);
        }
        let mut removed: usize = 0;
        let mut dead = Bitmap::new();
        let mut ndead: usize = 0;
        let mut c: u32 = 0;
        while c < 256
            invariant
                c <= 256,
                node.presence == op,
                node.value_slot == old(node).value_slot,
                node.children@.len() == len == op.count() == oc.len(),
                len <= 256,
                oc == old(node).children@,
                old(node).wf(),
                pool.wf(),
                forall|k: int|
                    0 <= k < op.rank(c as int) ==> (#[trigger] node.children@[k]).wf()
                        && node.children@[k].trimmed() && forall|s: Seq<u8>|
                        #[trigger] node.children@[k].slot_at(s) == oc[k].slot_at(s),
                forall|k: int| op.rank(c as int) <= k < len ==> node.children@[k] == oc[k],
                forall|d: int| #[trigger]
                    dead.has(d) == (0 <= d < c && op.has(d) && node.children@[op.rank(
                        d,
                    ) as int].is_dead()),
                ndead == dead.rank(c as int),
                ndead <= op.rank(c as int),
                forest_count(node.children@.subrange(0, op.rank(c as int) as int)) <= forest_count(
                    oc.subrange(0, op.rank(c as int) as int),
                ),
                removed == saturated(
                    forest_count(oc.subrange(0, op.rank(c as int) as int)) - forest_count(
                        node.children@.subrange(0, op.rank(c as int) as int),
                    ),
                ),
                held_below(*pool, 257) >= held_below(*old(pool), 257),
                old(node).trimmed() ==> *pool == *old(pool) && ndead == 0 && removed == 0
                    && forall|k: int|
                    0 <= k < op.rank(c as int) ==> (#[trigger] node.children@[k]).same_shape(
                        oc[k],
                    ),
            decreases 256 - c,
        {
            let byte = c as u8;
            proof {
                op.lemma_rank_mono(c as int, c as int + 1);
                dead.lemma_rank_le(c as int);
            }
            if node.presence.test(byte) {
                let r = node.presence.rank_of(byte);
                proof {
                    op.lemma_rank_below_count(c as int);
                    if old(node).trimmed() {
                        assert(oc[r as int].trimmed() && !oc[r as int].is_dead());
                    }
                    assert(oc[r as int].wf());
                    assert(decreases_to!(old(node).children => old(node).children@));
                    assert(decreases_to!(*old(node) => oc[r as int]));
                }
                let ghost before = node.children@;
                let n = Self::prune_node(&mut node.children[r], pool);
                proof {
                    assert(node.children@.subrange(0, r as int) =~= before.subrange(0, r as int));
                    lemma_forest_prefix_step(oc, r as int);
                    lemma_forest_prefix_step(node.children@, r as int);
                    assert(op.rank(c as int + 1) == r + 1);
                }
                removed = removed.saturating_add(n);
                if node.children[r].value_slot.is_none() && node.children[r].children.len() == 0 {
                    dead.set(byte);
                    ndead = ndead + 1;
                }
                proof {
                    assert forall|d: int| #[trigger]
                        dead.has(d) == (0 <= d < c + 1 && op.has(d) && node.children@[op.rank(
                            d,
                        ) as int].is_dead()) by {
                        if op.has(d) && d != c {
                            op.lemma_rank_injective(d, c as int);
                            op.lemma_rank_below_count(d);
                        }
                    }
                    assert forall|k: int| op.rank(c as int + 1) <= k < len implies node.children@[k] == oc[k] by {
                    }
                    if old(node).trimmed() {
                        assert(!node.children@[r as int].is_dead());
                        assert(!dead.has(c as int));
                        assert forall|k: int|
                            0 <= k < op.rank(c as int + 1) implies (
                            #[trigger] node.children@[k]).same_shape(oc[k]) by {
                            if k < r {
                                assert(node.children@[k] == before[k]);
                            }
                        }
                    }
                }
            }
            c = c + 1;
        }
        let ghost mid = *node;
        proof {
            assert forall|d: int| #[trigger] dead.has(d) implies op.has(d) by {}
            lemma_rank_diff_mono(op, dead, 0, 256);
        }
        if ndead > 0 {
            let new_len = len - ndead;
            let ghost p0 = *pool;
            let mut fresh = pool.get(new_len);
            let ghost p1 = *pool;
            let mut newp = Bitmap::new();
            let mut ni: usize = 0;
            let mut c: u32 = 0;
            while c < 256
                invariant
                    c <= 256,
                    node.presence == op,
                    node.value_slot == old(node).value_slot,
                    node.children@.len() == len == op.count(),
                    len <= 256,
                    pool.wf(),
                    fresh@.len() == new_len,
                    new_len == len - ndead,
                    ndead == dead.count(),
                    ni == newp.rank(c as int),
                    ni + dead.rank(c as int) == op.rank(c as int),
                    ni <= new_len,
                    mid.children@.len() == len,
                    forest_count(fresh@.subrange(0, ni as int)) + dead.rank(c as int) == forest_count(
                        mid.children@.subrange(0, op.rank(c as int) as int),
                    ),
                    forall|d: int| #[trigger] dead.has(d) ==> op.has(d),
                    forall|d: int|
                        #[trigger] dead.has(d) ==> mid.children@[op.rank(d) as int].is_dead(),
                    forall|k: int| 0 <= k < len ==> (#[trigger] mid.children@[k]).wf(),
                    forall|d: int| #[trigger]
                        newp.has(d) == (0 <= d < c && op.has(d) && !dead.has(d)),
                    forall|d: int|
                        0 <= d < c && op.has(d) && !dead.has(d) ==> fresh@[newp.rank(d) as int]
                            == mid.children@[op.rank(d) as int],
                    forall|k: int| ni <= k < new_len ==> (#[trigger] fresh@[k]).is_blank(),
                    forall|d: int|
                        0 <= d < c && op.has(d) ==> (#[trigger] node.children@[op.rank(
                            d,
                        ) as int]).is_blank(),
                    forall|d: int|
                        c <= d && op.has(d) ==> #[trigger] node.children@[op.rank(d) as int]
                            == mid.children@[op.rank(d) as int],
                decreases 256 - c,
            {
                let byte = c as u8;
                proof {
                    op.lemma_rank_mono(c as int, c as int + 1);
                    lemma_rank_diff_mono(op, dead, c as int + 1, 256);
                    if op.has(c as int) {
                        op.lemma_rank_below_count(c as int);
                    }
                }
                if node.presence.test(byte) && !dead.test(byte) {
                    let r = node.presence.rank_of(byte);
                    let ghost fb = fresh@;
                    std::mem::swap(&mut fresh[ni], &mut node.children[r]);
                    proof {
                        assert(fresh@.subrange(0, ni as int) =~= fb.subrange(0, ni as int));
                        lemma_forest_prefix_step(fresh@, ni as int);
                        lemma_forest_prefix_step(mid.children@, r as int);
                    }
                    newp.set(byte);
                    ni = ni + 1;
                    proof {
                        assert forall|d: int|
                            c < d && op.has(d) implies #[trigger] node.children@[op.rank(d) as int]
                                == mid.children@[op.rank(d) as int] by {
                            op.lemma_rank_injective(d, c as int);
                            op.lemma_rank_below_count(d);
                        }
                        assert forall|d: int|
                            0 <= d < c && op.has(d) implies (#[trigger] node.children@[op.rank(
                                d,
                            ) as int]).is_blank() by {
                            op.lemma_rank_injective(d, c as int);
                            op.lemma_rank_below_count(d);
                        }
                        assert forall|d: int|
                            0 <= d < c + 1 && op.has(d) && !dead.has(d) implies fresh@[newp.rank(
                                d,
                            ) as int] == mid.children@[op.rank(d) as int] by {
                            if d < c {
                                newp.lemma_rank_mono(d, c as int);
                            }
                        }
                    }
                } else if node.presence.test(byte) {
                    proof {
                        let r = op.rank(c as int) as int;
                        mid.children@[r].lemma_no_children();
                        lemma_forest_prefix_step(mid.children@, r);
                        assert(forest_count(mid.children@[r].children@) == 0);
                    }
                }
                c = c + 1;
            }
            std::mem::swap(&mut node.children, &mut fresh);
            proof {
                assert(all_blank(fresh@)) by {
                    assert forall|k: int| 0 <= k < fresh@.len() implies (#[trigger] fresh@[k]).is_blank() by {
                        op.lemma_rank_onto(k, 256);
                        let d = choose|d: int| 0 <= d < 256 && op.has(d) && op.rank(d) == k;
                    }
                }
            }
            pool.put(fresh);
            proof {
                lemma_take_then_give(p0, p1, *pool, new_len as int, len as int);
            lemma_take_give_total(p0, *pool, new_len as int, len as int, 257);
            }
            node.presence = newp;
            removed = removed.saturating_add(ndead);
            proof {
                assert(node.children@.subrange(0, ni as int) =~= node.children@);
                assert(mid.children@.subrange(0, len as int) =~= mid.children@);
                assert(oc.subrange(0, len as int) =~= oc);
            }
            proof {
                let n = *node;
                let o = *old(node);
                assert forall|k: int| 0 <= k < n.children@.len() implies (#[trigger] n.children@[k]).wf()
                    && !n.children@[k].is_dead() && n.children@[k].trimmed() by {
                    newp.lemma_rank_onto(k, 256);
                    let d = choose|d: int| 0 <= d < 256 && newp.has(d) && newp.rank(d) == k;
                    op.lemma_rank_below_count(d);
                }
                assert forall|s: Seq<u8>| #[trigger] n.slot_at(s) == o.slot_at(s) by {
                    if s.len() > 0 {
                        n.lemma_slot_step(s);
                        o.lemma_slot_step(s);
                        let d = s[0] as int;
                        if op.has(d) {
                            op.lemma_rank_below_count(d);
                            let k = op.rank(d) as int;
                            if newp.has(d) {
                                newp.lemma_rank_below_count(d);
                            } else {
                                mid.children@[k].lemma_no_children();
                                mid.children@[k].lemma_blank_find(s.drop_first());
                            }
                        }
                    }
                }
            }
        } else {
            proof {
                let n = *node;
                let o = *old(node);
                assert forall|d: int| !dead.has(d) by {
                    if dead.has(d) {
                        dead.lemma_rank_below_count(d);
                    }
                }
                assert(n.children@.subrange(0, len as int) =~= n.children@);
                assert(oc.subrange(0, len as int) =~= oc);
                assert forall|k: int| 0 <= k < n.children@.len() implies (#[trigger] n.children@[k]).wf()
                    && !n.children@[k].is_dead() && n.children@[k].trimmed() by {
                    op.lemma_rank_onto(k, 256);
                    let d = choose|d: int| 0 <= d < 256 && op.has(d) && op.rank(d) == k;
                    assert(!dead.has(d));
                }
                assert forall|s: Seq<u8>| #[trigger] n.slot_at(s) == o.slot_at(s) by {
                    if s.len() > 0 {
                        n.lemma_slot_step(s);
                        o.lemma_slot_step(s);
                        let d = s[0] as int;
                        if op.has(d) {
                            op.lemma_rank_below_count(d);
                        }
                    }
                }
            }
        }
        removed
    }

    /// Removes every node that leads to no value, rebuilding each child array at
    /// most once. Returns how many nodes were removed (saturating at the largest
    /// `usize`).
    pub fn prune(&mut self) -> (removed: usize)
        requires
            old(self).wf(),
        ensures
            final(self).wf(),
            final(self)@ == old(self)@,
            final(self).root_node().trimmed(),
            final(self).slot_count() == old(self).slot_count(),
            final(self).free_count() == old(self).free_count(),
            removed == saturated(
                old(self).root_node().node_count() - final(self).root_node().node_count(),
            ),
            final(self).slots() == old(self).slots(),
            final(self).free_list() == old(self).free_list(),
            forall|k: Seq<u8>| #[trigger] final(self).slot_of(k) == old(self).slot_of(k),
            old(self).root_node().trimmed() ==> final(self).root_node().same_shape(
                old(self).root_node(),
            ) && final(self).array_pool() == old(self).array_pool() && removed == 0,
    {
        let removed = Self::prune_node(&mut self.root, &mut self.pool);
        proof {
            assert forall|x: int|
                0 <= x < self.data@.len() && (#[trigger] self.data@[x]) is Some implies exists|
                k: Seq<u8>,
            | #[trigger] self.root.slot_at(k) == Some(x as usize) by {
                let k = choose|k: Seq<u8>| #[trigger] old(self).root.slot_at(k) == Some(x as usize);
                assert(self.root.slot_at(k) == Some(x as usize));
            }
            assert(self@ =~= old(self)@);
        }
        removed
    }

    /// The state of the depth-first walk below `p0`: frame `i` holds the node at
    /// the first `|p0| + i` bytes of `path` and the next byte to try there;
    /// the inner frames have entered the byte just before their cursor. What
    /// was emitted lies under `p0`, is in the map, ascends, comes before every
    /// key the walk has still to reach, and covers every key below a frame up
    /// to the bytes that frame has finished.
    spec fn walk_inv(
        self,
        p0: Seq<u8>,
        path: Seq<u8>,
        stack: Seq<(&TrieNode, u32)>,
        out: Seq<(Vec<u8>, &T)>,
    ) -> bool {
        let n0 = p0.len() as int;
        &&& stack.len() >= 1
        &&& path.len() == n0 + stack.len() - 1
        &&& path.subrange(0, n0) == p0
        &&& forall|i: int|
            0 <= i < stack.len() ==> self.root.find(path.subrange(0, n0 + i)) == Some(
                *(#[trigger] stack[i]).0,
            ) && stack[i].0.wf() && stack[i].1 <= 256
        &&& forall|i: int|
            0 <= i < stack.len() - 1 ==> (#[trigger] stack[i]).1 >= 1 && path[n0 + i] == stack[i].1
                - 1
        &&& forall|j: int, i: int, key: Seq<u8>|
            #![trigger lex_lt(out[j].0@, key), stack[i]]
            0 <= j < out.len() && 0 <= i < stack.len() && has_prefix(key, path.subrange(0, n0 + i))
                && key.len() > n0 + i && key[n0 + i] >= stack[i].1 ==> lex_lt(out[j].0@, key)
        &&& forall|j: int, l: int|
            0 <= j < l < out.len() ==> lex_lt((#[trigger] out[j]).0@, (#[trigger] out[l]).0@)
        &&& forall|j: int|
            0 <= j < out.len() ==> has_prefix((#[trigger] out[j]).0@, p0) && self@.contains_key(
                out[j].0@,
            ) && out[j].1 == self@[out[j].0@]
        &&& forall|i: int, s: Seq<u8>|
            0 <= i < stack.len() && (#[trigger] (*stack[i].0).slot_at(s)) is Some && (s.len() == 0
                || s[0] < stack[i].1 - if i == stack.len() - 1 {
                0int
            } else {
                1int
            }) ==> exists|j: int|
                0 <= j < out.len() && (#[trigger] out[j]).0@ == path.subrange(0, n0 + i) + s
    }

    /// Leaving a finished frame that has a parent.
    proof fn lemma_walk_pop(
        self,
        p0: Seq<u8>,
        path: Seq<u8>,
        stack: Seq<(&TrieNode, u32)>,
        out: Seq<(Vec<u8>, &T)>,
    )
        requires
            self.wf(),
            self.walk_inv(p0, path, stack, out),
            stack.len() >= 2,
            stack.last().1 == 256,
        ensures
            self.walk_inv(p0, path.drop_last(), stack.drop_last(), out),
            stack_work(stack.drop_last()) < stack_work(stack),
    {
        let n0 = p0.len() as int;
        let d = stack.len() - 1;
        let np = path.drop_last();
        let ns = stack.drop_last();
        assert forall|i: int| 0 <= i < ns.len() implies #[trigger] np.subrange(0, n0 + i)
            == path.subrange(0, n0 + i) by {
            assert(np.subrange(0, n0 + i) =~= path.subrange(0, n0 + i));
        }
        assert(np.subrange(0, n0) =~= path.subrange(0, n0));
        assert(forall|i: int| 0 <= i < ns.len() ==> #[trigger] ns[i] == stack[i]);
        let top = *stack[d].0;
        assert(top.wf());
        assert(top.children@.subrange(0, top.children@.len() as int) =~= top.children@);
        let pi = d - 1;
        let pnode = *stack[pi].0;
        let pp = path.subrange(0, n0 + pi);
        let bb = path[n0 + pi];
        assert(path.subrange(0, n0 + d) =~= pp + seq![bb]);
        self.root.lemma_find_concat(pp, seq![bb]);
        assert(seq![bb].drop_first() =~= Seq::<u8>::empty());
        assert(top.find(Seq::<u8>::empty()) == Some(top));
        assert(seq![bb][0] == bb);
        pnode.lemma_find_step(seq![bb]);
        match pnode.child(bb as int) {
            Some(cc) => {
                assert(cc.find(Seq::<u8>::empty()) == Some(cc));
            },
            None => {},
        }
        assert(pnode.child(bb as int) == Some(top));
        assert forall|j: int, i: int, key: Seq<u8>|
            #![trigger lex_lt(out[j].0@, key), ns[i]]
            0 <= j < out.len() && 0 <= i < ns.len() && has_prefix(key, np.subrange(0, n0 + i))
                && key.len() > n0 + i && key[n0 + i] >= ns[i].1 implies lex_lt(out[j].0@, key) by {
            assert(stack[i] == ns[i]);
        }
        assert forall|i: int, s: Seq<u8>|
            0 <= i < ns.len() && (#[trigger] (*ns[i].0).slot_at(s)) is Some && (s.len() == 0 || s[0]
                < ns[i].1 - if i == ns.len() - 1 {
                0int
            } else {
                1int
            }) implies exists|j: int|
            0 <= j < out.len() && (#[trigger] out[j]).0@ == np.subrange(0, n0 + i) + s by {
            assert(stack[i] == ns[i]);
            if i == pi && s.len() > 0 && s[0] == bb {
                pnode.lemma_slot_step(s);
                let t = s.drop_first();
                assert(top.slot_at(t) is Some);
                if t.len() > 0 {
                    assert(t[0] < 256);
                }
                let j = choose|j: int|
                    0 <= j < out.len() && (#[trigger] out[j]).0@ == path.subrange(0, n0 + d) + t;
                assert(pp + seq![bb] + t =~= pp + s);
            }
        }
        assert(stack.drop_last() == ns);
    }

    /// Trying a byte that has no edge at the top frame.
    proof fn lemma_walk_skip(
        self,
        p0: Seq<u8>,
        path: Seq<u8>,
        stack: Seq<(&TrieNode, u32)>,
        out: Seq<(Vec<u8>, &T)>,
    )
        requires
            self.wf(),
            self.walk_inv(p0, path, stack, out),
            stack.last().1 < 256,
            !stack.last().0.presence.has(stack.last().1 as int),
        ensures
            self.walk_inv(
                p0,
                path,
                stack.update(stack.len() - 1, (stack.last().0, (stack.last().1 + 1) as u32)),
                out,
            ),
            stack_work(
                stack.update(stack.len() - 1, (stack.last().0, (stack.last().1 + 1) as u32)),
            ) < stack_work(stack),
    {
        let n0 = p0.len() as int;
        let d = stack.len() - 1;
        let node = *stack[d].0;
        let c = stack[d].1;
        let ns = stack.update(d, (stack[d].0, (c + 1) as u32));
        assert(node.presence.rank(c + 1) == node.presence.rank(c as int));
        assert(ns.drop_last() =~= stack.drop_last());
        assert forall|j: int, i: int, key: Seq<u8>|
            #![trigger lex_lt(out[j].0@, key), ns[i]]
            0 <= j < out.len() && 0 <= i < ns.len() && has_prefix(key, path.subrange(0, n0 + i))
                && key.len() > n0 + i && key[n0 + i] >= ns[i].1 implies lex_lt(out[j].0@, key) by {
            assert(stack[i].1 <= ns[i].1);
        }
        assert forall|i: int, s: Seq<u8>|
            0 <= i < ns.len() && (#[trigger] (*ns[i].0).slot_at(s)) is Some && (s.len() == 0 || s[0]
                < ns[i].1 - if i == ns.len() - 1 {
                0int
            } else {
                1int
            }) implies exists|j: int|
            0 <= j < out.len() && (#[trigger] out[j]).0@ == path.subrange(0, n0 + i) + s by {
            assert(ns[i].0 == stack[i].0);
            if i == d && s.len() > 0 && s[0] == c {
                node.lemma_slot_step(s);
                node.lemma_child_exists(c as int);
            }
        }
    }

    /// Entering the child under the byte at the cursor of the top frame, and
    /// emitting its value, if any.
    proof fn lemma_walk_descend(
        self,
        p0: Seq<u8>,
        path: Seq<u8>,
        stack: Seq<(&TrieNode, u32)>,
        out: Seq<(Vec<u8>, &T)>,
        child: &TrieNode,
        out2: Seq<(Vec<u8>, &T)>,
    )
        requires
            self.wf(),
            self.walk_inv(p0, path, stack, out),
            stack.last().1 < 256,
            stack.last().0.child(stack.last().1 as int) == Some(*child),
            (out2 == out && child.value_slot is None) || (out2.len() == out.len() + 1
                && out2.subrange(0, out.len() as int) == out && out2.last().0@ == path.push(
                stack.last().1 as u8,
            ) && self@.contains_key(out2.last().0@) && out2.last().1 == self@[out2.last().0@]),
        ensures
            self.walk_inv(
                p0,
                path.push(stack.last().1 as u8),
                stack.update(stack.len() - 1, (stack.last().0, (stack.last().1 + 1) as u32)).push(
                    (child, 0u32),
                ),
                out2,
            ),
            stack_work(
                stack.update(stack.len() - 1, (stack.last().0, (stack.last().1 + 1) as u32)).push(
                    (child, 0u32),
                ),
            ) < stack_work(stack),
    {
        let n0 = p0.len() as int;
        let d = stack.len() - 1;
        let node = *stack[d].0;
        let c = stack[d].1;
        let b = c as u8;
        let np = path.push(b);
        let ms = stack.update(d, (stack[d].0, (c + 1) as u32));
        let ns = ms.push((child, 0u32));
        assert(node.wf());
        node.lemma_child_exists(c as int);
        node.presence.lemma_rank_below_count(c as int);
        lemma_forest_prefix_step(node.children@, node.presence.rank(c as int) as int);
        node.presence.lemma_rank_mono(c as int + 1, 256);
        lemma_forest_prefix_le(node.children@, node.presence.rank(c as int + 1) as int);
        lemma_forest_prefix_le(node.children@, node.presence.rank(c as int) as int);
        assert(child.wf());
        assert(child.children@.subrange(0, 0) =~= Seq::<TrieNode>::empty());
        assert(ms.drop_last() =~= stack.drop_last());
        assert(ns.drop_last() =~= ms);
        let kids = node.children@;
        let rk = node.presence.rank(c as int) as int;
        let nc = child.node_count();
        assert(kids[rk] == *child);
        assert(node.presence.rank(c as int + 1) == rk + 1);
        assert(forest_count(kids.subrange(0, rk + 1)) == forest_count(kids.subrange(0, rk)) + nc);
        assert(nc == 1 + forest_count(child.children@));
        assert(forest_count(child.children@.subrange(0, 0)) == 0);
        assert(child.presence.rank(0) == 0);
        assert(frame_work(stack.last()) == 1 + (256 - c) + 258 * (forest_count(kids)
            - forest_count(kids.subrange(0, rk))));
        assert(ms.last() == (stack.last().0, (c + 1) as u32));
        assert(frame_work(ms.last()) == 1 + (256 - (c + 1)) + 258 * (forest_count(kids)
            - forest_count(kids.subrange(0, rk + 1))));
        assert(ns.last() == (child, 0u32));
        assert(frame_work(ns.last()) == 257 + 258 * forest_count(child.children@));
        assert(stack_work(ns) == stack_work(ms) + frame_work(ns.last()));
        assert(stack_work(ms) == stack_work(ms.drop_last()) + frame_work(ms.last()));
        assert(stack_work(stack) == stack_work(stack.drop_last()) + frame_work(stack.last()));
        // paths of the frames
        assert forall|i: int| 0 <= i < stack.len() implies #[trigger] np.subrange(0, n0 + i)
            == path.subrange(0, n0 + i) by {
            assert(np.subrange(0, n0 + i) =~= path.subrange(0, n0 + i));
        }
        assert(np.subrange(0, n0) =~= path.subrange(0, n0));
        assert(np.subrange(0, n0 + d + 1) =~= np);
        assert(path.subrange(0, n0 + d) =~= path);
        self.root.lemma_find_concat(path, seq![b]);
        assert(np =~= path + seq![b]);
        assert(seq![b].drop_first() =~= Seq::<u8>::empty());
        assert(child.find(Seq::<u8>::empty()) == Some(*child));
        assert(node.find(seq![b]) == Some(*child));
        assert(self.root.find(np) == Some(*child));
        assert forall|i: int|
            0 <= i < ns.len() implies self.root.find(np.subrange(0, n0 + i)) == Some(
            *(#[trigger] ns[i]).0,
        ) && ns[i].0.wf() && ns[i].1 <= 256 by {
            if i < d {
                assert(ns[i] == stack[i]);
            }
        }
        assert forall|i: int| 0 <= i < ns.len() - 1 implies (#[trigger] ns[i]).1 >= 1 && np[n0 + i]
            == ns[i].1 - 1 by {
            if i < d {
                assert(ns[i] == stack[i]);
            }
        }
        // the new key comes after everything emitted and before everything left
        let nk = np;
        assert(has_prefix(nk, p0)) by {
            assert(nk.subrange(0, n0) =~= p0);
        }
        assert forall|j: int| 0 <= j < out.len() implies lex_lt(out[j].0@, nk) by {
            assert(has_prefix(nk, path.subrange(0, n0 + d))) by {
                assert(nk.subrange(0, n0 + d) =~= path.subrange(0, n0 + d));
            }
            assert(nk[n0 + d] == b);
            assert(lex_lt(out[j].0@, nk));
        }
        assert forall|j: int, i: int, key: Seq<u8>|
            #![trigger lex_lt(out2[j].0@, key), ns[i]]
            0 <= j < out2.len() && 0 <= i < ns.len() && has_prefix(key, np.subrange(0, n0 + i))
                && key.len() > n0 + i && key[n0 + i] >= ns[i].1 implies lex_lt(out2[j].0@, key) by {
            if j < out.len() {
                assert(out2[j] == out[j]);
                if i <= d {
                    assert(ns[i].0 == stack[i].0 && ns[i].1 >= stack[i].1);
                    assert(lex_lt(out[j].0@, key));
                } else {
                    assert(has_prefix(key, path.subrange(0, n0 + d))) by {
                        assert(key.subrange(0, n0 + d) =~= path.subrange(0, n0 + d)) by {
                            assert forall|x: int| 0 <= x < n0 + d implies #[trigger] key.subrange(0, n0 + d)[x]
                                == path.subrange(0, n0 + d)[x] by {
                                assert(key.subrange(0, n0 + d + 1)[x] == np[x]);
                            }
                        }
                    }
                    assert(key.subrange(0, n0 + d + 1)[n0 + d] == np[n0 + d]);
                    assert(stack[d] == stack.last());
                    assert(lex_lt(out[j].0@, key));
                }
            } else {
                let k2 = out2[j].0@;
                assert(k2 == nk);
                if i == d + 1 {
                    lemma_lex_prefix(nk, key);
                } else {
                    let q = np.subrange(0, n0 + i);
                    assert(has_prefix(nk, q)) by {
                        assert(nk.subrange(0, n0 + i) =~= q);
                    }
                    if i < d {
                        assert(ns[i] == stack[i]);
                        assert(nk[n0 + i] == stack[i].1 - 1);
                    }
                    lemma_lex_branch(q, nk, key);
                }
            }
        }
        assert forall|j: int, l: int|
            0 <= j < l < out2.len() implies lex_lt((#[trigger] out2[j]).0@, (#[trigger] out2[l]).0@) by {
            if l < out.len() {
                assert(out2[j] == out[j] && out2[l] == out[l]);
            } else {
                assert(out2[j] == out[j]);
            }
        }
        assert forall|j: int|
            0 <= j < out2.len() implies has_prefix((#[trigger] out2[j]).0@, p0) && self@.contains_key(
            out2[j].0@,
        ) && out2[j].1 == self@[out2[j].0@] by {
            if j < out.len() {
                assert(out2[j] == out[j]);
            }
        }
        assert forall|i: int, s: Seq<u8>|
            0 <= i < ns.len() && (#[trigger] (*ns[i].0).slot_at(s)) is Some && (s.len() == 0 || s[0]
                < ns[i].1 - if i == ns.len() - 1 {
                0int
            } else {
                1int
            }) implies exists|j: int|
            0 <= j < out2.len() && (#[trigger] out2[j]).0@ == np.subrange(0, n0 + i) + s by {
            if i == d + 1 {
                assert(s.len() == 0);
                assert(child.slot_at(s) == child.value_slot);
                assert(out2.len() == out.len() + 1);
                assert(np + s =~= np);
                assert(out2[out.len() as int].0@ == np.subrange(0, n0 + i) + s);
            } else {
                assert(ns[i].0 == stack[i].0);
                let j = choose|j: int|
                    0 <= j < out.len() && (#[trigger] out[j]).0@ == path.subrange(0, n0 + i) + s;
                assert(out2[j] == out[j]);
            }
        }
    }

    /// The pairs stored below `start` (reached by `start_path` from the root),
    /// in ascending key order, found by a depth-first walk over an explicit
    /// stack of frames. A frame holds a node and the next byte to try there;
    /// a node's own value is emitted when its frame is pushed.
    fn walk<'a>(&'a self, start: &'a TrieNode, start_path: Vec<u8>) -> (out: Vec<(Vec<u8>, &'a T)>)
        requires
            self.wf(),
            start.wf(),
            self.root.find(start_path@) == Some(*start),
        ensures
            forall|j: int|
                0 <= j < out@.len() ==> has_prefix((#[trigger] out@[j]).0@, start_path@)
                    && self@.contains_key(out@[j].0@) && out@[j].1 == self@[out@[j].0@],
            forall|j: int, l: int|
                0 <= j < l < out@.len() ==> lex_lt((#[trigger] out@[j]).0@, (#[trigger] out@[l]).0@),
            forall|s: Seq<u8>| (#[trigger] start.slot_at(s)) is Some ==> exists|j: int|
                0 <= j < out@.len() && (#[trigger] out@[j]).0@ == start_path@ + s,
    {
        let ghost p0 = start_path@;
        let ghost n0: int = p0.len() as int;
        let mut path = start_path;
        let mut out: Vec<(Vec<u8>, &'a T)> = Vec::new();
        match start.value_slot {
            Some(i) => {
                proof {
                    self.root.lemma_find_concat(p0, Seq::<u8>::empty());
                    assert(p0 + Seq::<u8>::empty() =~= p0);
                    assert(self.root.slot_at(p0) == Some(i));
                }
                match self.data[i].as_ref() {
                    Some(v) => {
                        let k = path.clone();
                        proof {
                            assert(k@ =~= p0);
                        }
                        out.push((k, v));
                    },
                    None => {},
                }
            },
            None => {},
        }
        let mut stack: Vec<(&'a TrieNode, u32)> = Vec::new();
        stack.push((start, 0u32));
        proof {
            assert(p0.subrange(0, n0) =~= p0);
            assert(path@.subrange(0, n0 + 0) =~= p0);
            assert(stack@[0] == (start, 0u32));
            assert forall|j: int| 0 <= j < out@.len() implies has_prefix((#[trigger] out@[j]).0@, p0) by {}
            assert forall|j: int, i: int, key: Seq<u8>|
                #![trigger lex_lt(out@[j].0@, key), stack@[i]]
                0 <= j < out@.len() && 0 <= i < stack@.len() && has_prefix(
                    key,
                    path@.subrange(0, n0 + i),
                ) && key.len() > n0 + i && key[n0 + i] >= stack@[i].1 implies lex_lt(
                out@[j].0@,
                key,
            ) by {
                lemma_lex_prefix(p0, key);
            }
            assert forall|i: int, s: Seq<u8>|
                0 <= i < stack@.len() && (#[trigger] (*stack@[i].0).slot_at(s)) is Some && (s.len()
                    == 0 || s[0] < stack@[i].1 - if i == stack@.len() - 1 {
                    0int
                } else {
                    1int
                }) implies exists|j: int|
                0 <= j < out@.len() && (#[trigger] out@[j]).0@ == path@.subrange(0, n0 + i) + s by {
                assert(s =~= Seq::<u8>::empty());
                assert(p0 + s =~= p0);
                assert(out@[0].0@ == p0 + s);
            }
            assert(self.walk_inv(p0, path@, stack@, out@));
            lemma_stack_work_nonneg(stack@);
        }
        loop
            invariant
                self.wf(),
                self.walk_inv(p0, path@, stack@, out@),
                stack@[0].0 == start,
                n0 == p0.len(),
                p0 == start_path@,
                stack_work(stack@) >= 0,
            decreases stack_work(stack@),
        {
            let ghost w0 = stack_work(stack@);
            let d = stack.len() - 1;
            let (node, c) = stack[d];
            proof {
                assert(stack@.last() == stack@[d as int]);
            }
            if c == 256 {
                if d == 0 {
                    proof {
                        assert(p0 == start_path@);
                        assert forall|j: int|
                            0 <= j < out@.len() implies has_prefix((#[trigger] out@[j]).0@, p0)
                            && self@.contains_key(out@[j].0@) && out@[j].1 == self@[out@[j].0@] by {}
                        assert forall|s: Seq<u8>| (#[trigger] start.slot_at(s)) is Some implies exists|
                            j: int,
                        | 0 <= j < out@.len() && (#[trigger] out@[j]).0@ == p0 + s by {
                            assert(path@.subrange(0, n0 + 0) == p0);
                            if s.len() > 0 {
                                assert(s[0] < 256);
                            }
                            assert((*stack@[0].0).slot_at(s) is Some);
                        }
                    }
                    return out;
                }
                proof {
                    self.lemma_walk_pop(p0, path@, stack@, out@);
                }
                let ghost sb = stack@;
                stack.pop();
                path.pop();
                proof {
                    assert(stack@ == sb.drop_last());
                    assert(stack_work(stack@) < w0);
                    lemma_stack_work_nonneg(stack@);
                }
            } else {
                let b = c as u8;
                let ghost st = stack@;
                let ghost pa = path@;
                let ghost o = out@;
                proof {
                    assert((*node).wf());
                    (*node).lemma_child_exists(c as int);
                }
                if node.presence.test(b) {
                    let r = node.presence.rank_of(b);
                    proof {
                        (*node).presence.lemma_rank_below_count(c as int);
                    }
                    let child = &node.children[r];
                    stack.set(d, (node, c + 1));
                    path.push(b);
                    stack.push((child, 0u32));
                    match child.value_slot {
                        Some(i) => {
                            proof {
                                self.root.lemma_find_concat(pa, seq![b]);
                                assert(seq![b].drop_first() =~= Seq::<u8>::empty());
                                assert(child.find(Seq::<u8>::empty()) == Some(*child));
                                assert((*node).find(seq![b]) == Some(*child));
                                assert(pa.subrange(0, n0 + d) =~= pa);
                                assert(path@ =~= pa + seq![b]);
                                assert(self.root.slot_at(path@) == Some(i));
                            }
                            match self.data[i].as_ref() {
                                Some(v) => {
                                    let k = path.clone();
                                    proof {
                                        assert(k@ =~= path@);
                                    }
                                    out.push((k, v));
                                },
                                None => {},
                            }
                        },
                        None => {},
                    }
                    proof {
                        assert(out@.subrange(0, o.len() as int) =~= o);
                        self.lemma_walk_descend(p0, pa, st, o, child, out@);
                        assert(stack@ =~= st.update(d as int, (node, (c + 1) as u32)).push((child, 0u32)));
                        assert(stack_work(stack@) < w0);
                        lemma_stack_work_nonneg(stack@);
                    }
                } else {
                    stack.set(d, (node, c + 1));
                    proof {
                        self.lemma_walk_skip(p0, pa, st, o);
                        assert(stack@ =~= st.update(d as int, (node, (c + 1) as u32)));
                        assert(stack_work(stack@) < w0);
                        lemma_stack_work_nonneg(stack@);
                    }
                }
            }
        }
    }

    /// All pairs of the map, in strictly ascending byte-lexicographic key order.
    pub fn iter(&self) -> (r: Vec<(Vec<u8>, &T)>)
        requires
            self.wf(),
        ensures
            strictly_ascending(r@.map_values(|e: (Vec<u8>, &T)| e.0@)),
            forall|i: int| 0 <= i < r@.len() ==> self@.contains_key((#[trigger] r@[i]).0@)
                && r@[i].1 == self@[r@[i].0@],
            forall|k: Seq<u8>| #[trigger] self@.contains_key(k) ==> exists|i: int|
                0 <= i < r@.len() && (#[trigger] r@[i]).0@ == k,
    {
        let path: Vec<u8> = Vec::new();
        proof {
            assert(path@ =~= Seq::<u8>::empty());
            assert(self.root.find(path@) == Some(self.root));
        }
        let out = self.walk(&self.root, path);
        proof {
            assert forall|k: Seq<u8>| #[trigger] self@.contains_key(k) implies exists|i: int|
                0 <= i < out@.len() && (#[trigger] out@[i]).0@ == k by {
                assert(self.root.slot_at(k) is Some);
                assert(Seq::<u8>::empty() + k =~= k);
            }
        }
        out
    }

    /// Removes all elements, resetting the tree to an empty root and dropping
    /// the slot store and the pooled arrays.
    pub fn clear(&mut self)
        requires
            old(self).wf(),
        ensures
            final(self).wf(),
            final(self)@ == Map::<Seq<u8>, T>::empty(),
            final(self).slot_count() == 0,
            final(self).free_list().len() == 0,
            final(self).root_node().trimmed(),
            final(self).root_node().children@.len() == 0,
            forall|b: int| !final(self).root_node().presence.has(b),
            forall|l: int| 0 <= l < 257 ==> #[trigger] final(self).array_pool().held(l) == 0,
    {
        self.data.clear();
        self.free_indices.clear();
        self.root = TrieNode::new();
        self.size = 0;
        self.pool.clear();
        self.keys = Ghost(Set::empty());
        proof {
            assert forall|k: Seq<u8>| #[trigger] self.root.slot_at(k) is None by {
                self.root.lemma_blank_find(k);
            }
            assert(self@ =~= Map::<Seq<u8>, T>::empty());
        }
    }

    /// Returns a mutable reference to the value stored under `key`.
    pub fn get_mut(&mut self, key: &[u8]) -> (r: Option<&mut T>)
        requires
            old(self).wf(),
        ensures
            match r {
                Some(v) => old(self)@.contains_key(key@) && *v == old(self)@[key@] && final(self).wf()
                    && final(self)@ == old(self)@.insert(key@, *final(v)) && final(self).slot_count()
                    == old(self).slot_count() && final(self).free_count() == old(self).free_count(),
                None => !old(self)@.contains_key(key@) && *final(self) == *old(self),
            },
    {
        match self.find_slot(key) {
            Some(i) => {
                proof {
                    assert(old(self)@.contains_key(key@));
                }
                proof {
                    let o = *self;
                    assert forall|n: Self| #![trigger n.wf()]
                        n.root == o.root && n.free_indices == o.free_indices && n.size == o.size
                            && n.pool == o.pool && n.keys == o.keys && n.data@.len() == o.data@.len()
                            && n.data@[i as int] is Some && (forall|j: int|
                            0 <= j < n.data@.len() && j != i ==> n.data@[j] == o.data@[j])
                            implies n.wf() && n@ == o@.insert(key@, n.data@[i as int]->0) by {
                        assert forall|k: Seq<u8>| #[trigger]
                            n.root.slot_at(k) is Some implies n.root.slot_at(k)->0 < n.data@.len()
                            && n.data@[n.root.slot_at(k)->0 as int] is Some by {}
                        assert forall|j: int| #![trigger n.free_indices@[j]]
                            0 <= j < n.free_indices@.len() implies n.free_indices@[j] < n.data@.len()
                            && n.data@[n.free_indices@[j] as int] is None by {
                            assert(o.data@[o.free_indices@[j] as int] is None);
                        }
                        assert(n@ =~= o@.insert(key@, n.data@[i as int]->0)) by {
                            assert forall|k: Seq<u8>| n@.contains_key(k) && k != key@ implies n@[k]
                                == o@[k] by {
                                assert(o.root.slot_at(k) is Some);
                            }
                        }
                    }
                }
                let r = self.data[i].as_mut();
                r
            },
            None => None,
        }
    }

    /// A copy of `bytes`.
    fn copy_bytes(bytes: &[u8]) -> (r: Vec<u8>)
        ensures
            r@ == bytes@,
    {
        let mut r: Vec<u8> = Vec::with_capacity(bytes.len());
        let mut i: usize = 0;
        while i < bytes.len()
            invariant
                i <= bytes@.len(),
                r@ == bytes@.subrange(0, i as int),
            decreases bytes@.len() - i,
        {
            r.push(bytes[i]);
            i = i + 1;
            proof {
                assert(r@ =~= bytes@.subrange(0, i as int));
            }
        }
        proof {
            assert(bytes@.subrange(0, i as int) =~= bytes@);
        }
        r
    }

    /// Every key with prefix `p` is `p` followed by the rest of it.
    proof fn lemma_split_key(k: Seq<u8>, p: Seq<u8>)
        requires
            has_prefix(k, p),
        ensures
            k == p + k.skip(p.len() as int),
    {
        assert(k =~= p + k.skip(p.len() as int)) by {
            assert forall|i: int| 0 <= i < p.len() implies k[i] == p[i] by {
                assert(k.subrange(0, p.len() as int)[i] == k[i]);
            }
        }
    }

    /// Below `prefix`, the map holds exactly what the node reached by `prefix`
    /// holds.
    proof fn lemma_under_prefix(self, prefix: Seq<u8>, s: Seq<u8>)
        ensures
            self.root.slot_at(prefix + s) == match self.root.find(prefix) {
                Some(n) => n.slot_at(s),
                None => None::<usize>,
            },
            has_prefix(prefix + s, prefix),
    {
        self.root.lemma_find_concat(prefix, s);
        assert((prefix + s).subrange(0, prefix.len() as int) =~= prefix);
    }

    /// The pairs whose key starts with `prefix`, in ascending key order.
    pub fn prefix_iter(&self, prefix: &[u8]) -> (r: Vec<(Vec<u8>, &T)>)
        requires
            self.wf(),
        ensures
            strictly_ascending(r@.map_values(|e: (Vec<u8>, &T)| e.0@)),
            forall|i: int|
                0 <= i < r@.len() ==> has_prefix((#[trigger] r@[i]).0@, prefix@)
                    && self@.contains_key(r@[i].0@) && r@[i].1 == self@[r@[i].0@],
            forall|k: Seq<u8>|
                #[trigger] self@.contains_key(k) && has_prefix(k, prefix@) ==> exists|i: int|
                    0 <= i < r@.len() && (#[trigger] r@[i]).0@ == k,
    {
        let mut out: Vec<(Vec<u8>, &T)> = Vec::new();
        match self.find_node(prefix) {
            Some(n) => {
                let path = Self::copy_bytes(prefix);
                out = self.walk(n, path);
                proof {
                    assert forall|k: Seq<u8>|
                        #[trigger] self@.contains_key(k) && has_prefix(k, prefix@) implies exists|i: int|
                        0 <= i < out@.len() && (#[trigger] out@[i]).0@ == k by {
                        Self::lemma_split_key(k, prefix@);
                        self.lemma_under_prefix(prefix@, k.skip(prefix@.len() as int));
                        assert(self.root.slot_at(k) is Some);
                    }
                }
            },
            None => {
                proof {
                    assert forall|k: Seq<u8>|
                        #[trigger] self@.contains_key(k) && has_prefix(k, prefix@) implies false by {
                        Self::lemma_split_key(k, prefix@);
                        self.lemma_under_prefix(prefix@, k.skip(prefix@.len() as int));
                        assert(self.root.slot_at(k) is Some);
                    }
                }
            },
        }
        out
    }

    /// The pairs whose key starts with `prefix`, in ascending key order.
    pub fn get_prefix_matches(&self, prefix: &[u8]) -> (r: Vec<(Vec<u8>, &T)>)
        requires
            self.wf(),
        ensures
            strictly_ascending(r@.map_values(|e: (Vec<u8>, &T)| e.0@)),
            forall|i: int|
                0 <= i < r@.len() ==> has_prefix((#[trigger] r@[i]).0@, prefix@)
                    && self@.contains_key(r@[i].0@) && r@[i].1 == self@[r@[i].0@],
            forall|k: Seq<u8>|
                #[trigger] self@.contains_key(k) && has_prefix(k, prefix@) ==> exists|i: int|
                    0 <= i < r@.len() && (#[trigger] r@[i]).0@ == k,
    {
        self.prefix_iter(prefix)
    }

    /// Whether some value lies under `node`.
    fn has_any_value(node: &TrieNode) -> (r: bool)
        requires
            node.wf(),
        ensures
            r == node.holds_value(),
        decreases node,
    {
        if node.value_slot.is_some() {
            proof {
                assert(node.slot_at(Seq::<u8>::empty()) is Some);
            }
            return true;
        }
        let len = node.children.len();
        let mut k: usize = 0;
        while k < len
            invariant
                k <= len == node.children@.len(),
                node.wf(),
                node.value_slot is None,
                forall|j: int| 0 <= j < k ==> !(#[trigger] node.children@[j]).holds_value(),
            decreases len - k,
        {
            proof {
                assert(node.children@[k as int].wf());
                assert(decreases_to!(node.children => node.children@));
            }
            if Self::has_any_value(&node.children[k]) {
                proof {
                    let c = node.children@[k as int];
                    let t = choose|t: Seq<u8>| (#[trigger] c.slot_at(t)) is Some;
                    node.presence.lemma_rank_le(256);
                    node.presence.lemma_rank_onto(k as int, 256);
                    let d = choose|d: int| 0 <= d < 256 && node.presence.has(d) && node.presence.rank(d) == k;
                    let s = seq![d as u8] + t;
                    assert(s.drop_first() =~= t);
                    node.lemma_slot_step(s);
                    assert(node.slot_at(s) is Some);
                }
                return true;
            }
            k = k + 1;
        }
        proof {
            assert forall|s: Seq<u8>| !(#[trigger] node.slot_at(s) is Some) by {
                if s.len() > 0 {
                    node.lemma_slot_step(s);
                    node.lemma_child_exists(s[0] as int);
                    if node.presence.has(s[0] as int) {
                        node.presence.lemma_rank_below_count(s[0] as int);
                        let c = node.children@[node.presence.rank(s[0] as int) as int];
                        assert(!c.holds_value());
                        assert(!(c.slot_at(s.drop_first()) is Some));
                    }
                }
            }
        }
        false
    }

    /// Whether some key of the map starts with `prefix`.
    pub fn starts_with(&self, prefix: &[u8]) -> (r: bool)
        requires
            self.wf(),
        ensures
            r == exists|k: Seq<u8>| #[trigger] self@.contains_key(k) && has_prefix(k, prefix@),
    {
        match self.find_node(prefix) {
            Some(n) => {
                let r = Self::has_any_value(n);
                proof {
                    if r {
                        let s = choose|s: Seq<u8>| (#[trigger] n.slot_at(s)) is Some;
                        self.lemma_under_prefix(prefix@, s);
                        assert(self@.contains_key(prefix@ + s));
                    } else {
                        assert forall|k: Seq<u8>|
                            #[trigger] self@.contains_key(k) && has_prefix(k, prefix@) implies false by {
                            Self::lemma_split_key(k, prefix@);
                            self.lemma_under_prefix(prefix@, k.skip(prefix@.len() as int));
                            assert(self.root.slot_at(k) is Some);
                            assert(n.slot_at(k.skip(prefix@.len() as int)) is Some);
                        }
                    }
                }
                r
            },
            None => {
                proof {
                    assert forall|k: Seq<u8>|
                        #[trigger] self@.contains_key(k) && has_prefix(k, prefix@) implies false by {
                        Self::lemma_split_key(k, prefix@);
                        self.lemma_under_prefix(prefix@, k.skip(prefix@.len() as int));
                        assert(self.root.slot_at(k) is Some);
                    }
                }
                false
            },
        }
    }

    /// The keys of `pairs`, in the same order.
    fn keys_of(pairs: &Vec<(Vec<u8>, &T)>) -> (r: Vec<Vec<u8>>)
        ensures
            r@.len() == pairs@.len(),
            forall|j: int| 0 <= j < r@.len() ==> (#[trigger] r@[j])@ == pairs@[j].0@,
    {
        let mut r: Vec<Vec<u8>> = Vec::with_capacity(pairs.len());
        let mut i: usize = 0;
        while i < pairs.len()
            invariant
                i <= pairs@.len(),
                r@.len() == i,
                forall|j: int| 0 <= j < i ==> (#[trigger] r@[j])@ == pairs@[j].0@,
            decreases pairs@.len() - i,
        {
            let k = pairs[i].0.clone();
            proof {
                assert(k@ =~= pairs@[i as int].0@);
            }
            r.push(k);
            i = i + 1;
        }
        r
    }

    /// The values of `pairs`, in the same order.
    fn values_of<'a>(pairs: &Vec<(Vec<u8>, &'a T)>) -> (r: Vec<&'a T>)
        ensures
            r@.len() == pairs@.len(),
            forall|j: int| 0 <= j < r@.len() ==> #[trigger] r@[j] == pairs@[j].1,
    {
        let mut r: Vec<&T> = Vec::with_capacity(pairs.len());
        let mut i: usize = 0;
        while i < pairs.len()
            invariant
                i <= pairs@.len(),
                r@.len() == i,
                forall|j: int| 0 <= j < i ==> #[trigger] r@[j] == pairs@[j].1,
            decreases pairs@.len() - i,
        {
            r.push(pairs[i].1);
            i = i + 1;
        }
        r
    }

    /// The keys whose bytes start with `prefix`, in ascending order.
    pub fn keys_starting_with(&self, prefix: &[u8]) -> (r: Vec<Vec<u8>>)
        requires
            self.wf(),
        ensures
            strictly_ascending(r@.map_values(|k: Vec<u8>| k@)),
            forall|i: int|
                0 <= i < r@.len() ==> has_prefix((#[trigger] r@[i])@, prefix@) && self@.contains_key(
                    r@[i]@,
                ),
            forall|k: Seq<u8>|
                #[trigger] self@.contains_key(k) && has_prefix(k, prefix@) ==> exists|i: int|
                    0 <= i < r@.len() && (#[trigger] r@[i])@ == k,
    {
        let pairs = self.prefix_iter(prefix);
        let r = Self::keys_of(&pairs);
        proof {
            let pk = pairs@.map_values(|e: (Vec<u8>, &T)| e.0@);
            let rk = r@.map_values(|k: Vec<u8>| k@);
            assert(rk =~= pk);
            assert forall|k: Seq<u8>|
                #[trigger] self@.contains_key(k) && has_prefix(k, prefix@) implies exists|i: int|
                0 <= i < r@.len() && (#[trigger] r@[i])@ == k by {
                let i = choose|i: int| 0 <= i < pairs@.len() && (#[trigger] pairs@[i]).0@ == k;
                assert(r@[i]@ == k);
            }
        }
        r
    }

    /// The keys whose bytes start with `prefix`, in ascending order.
    pub fn prefix_keys(&self, prefix: &[u8]) -> (r: Vec<Vec<u8>>)
        requires
            self.wf(),
        ensures
            strictly_ascending(r@.map_values(|k: Vec<u8>| k@)),
            forall|i: int|
                0 <= i < r@.len() ==> has_prefix((#[trigger] r@[i])@, prefix@) && self@.contains_key(
                    r@[i]@,
                ),
            forall|k: Seq<u8>|
                #[trigger] self@.contains_key(k) && has_prefix(k, prefix@) ==> exists|i: int|
                    0 <= i < r@.len() && (#[trigger] r@[i])@ == k,
    {
        self.keys_starting_with(prefix)
    }

    /// All keys, in ascending order.
    pub fn keys(&self) -> (r: Vec<Vec<u8>>)
        requires
            self.wf(),
        ensures
            strictly_ascending(r@.map_values(|k: Vec<u8>| k@)),
            forall|i: int| 0 <= i < r@.len() ==> self@.contains_key((#[trigger] r@[i])@),
            forall|k: Seq<u8>| #[trigger] self@.contains_key(k) ==> exists|i: int|
                0 <= i < r@.len() && (#[trigger] r@[i])@ == k,
    {
        let empty: Vec<u8> = Vec::new();
        let r = self.keys_starting_with(empty.as_slice());
        proof {
            assert forall|k: Seq<u8>| #[trigger] self@.contains_key(k) implies exists|i: int|
                0 <= i < r@.len() && (#[trigger] r@[i])@ == k by {
                assert(k.subrange(0, 0) =~= empty@);
            }
        }
        r
    }

    /// The values whose key starts with `prefix`, in ascending key order.
    pub fn prefix_values(&self, prefix: &[u8]) -> (r: Vec<&T>)
        requires
            self.wf(),
        ensures
            exists|ks: Seq<Seq<u8>>|
                {
                    &&& ks.len() == r@.len()
                    &&& strictly_ascending(ks)
                    &&& forall|i: int|
                        0 <= i < ks.len() ==> has_prefix(#[trigger] ks[i], prefix@)
                            && self@.contains_key(ks[i]) && r@[i] == self@[ks[i]]
                    &&& forall|k: Seq<u8>|
                        #[trigger] self@.contains_key(k) && has_prefix(k, prefix@) ==> exists|i: int|
                            0 <= i < ks.len() && ks[i] == k
                },
    {
        let pairs = self.prefix_iter(prefix);
        let r = Self::values_of(&pairs);
        proof {
            let ks = pairs@.map_values(|e: (Vec<u8>, &T)| e.0@);
            assert forall|k: Seq<u8>|
                #[trigger] self@.contains_key(k) && has_prefix(k, prefix@) implies exists|i: int|
                0 <= i < ks.len() && ks[i] == k by {
                let i = choose|i: int| 0 <= i < pairs@.len() && (#[trigger] pairs@[i]).0@ == k;
                assert(ks[i] == k);
            }
            assert(forall|i: int|
                0 <= i < ks.len() ==> has_prefix(#[trigger] ks[i], prefix@)
                    && self@.contains_key(ks[i]) && r@[i] == self@[ks[i]]);
        }
        r
    }

    /// All values, in ascending key order.
    pub fn values(&self) -> (r: Vec<&T>)
        requires
            self.wf(),
        ensures
            exists|ks: Seq<Seq<u8>>|
                {
                    &&& ks.len() == r@.len()
                    &&& strictly_ascending(ks)
                    &&& forall|i: int|
                        0 <= i < ks.len() ==> self@.contains_key(#[trigger] ks[i]) && r@[i]
                            == self@[ks[i]]
                    &&& forall|k: Seq<u8>| #[trigger]
                        self@.contains_key(k) ==> exists|i: int| 0 <= i < ks.len() && ks[i] == k
                },
    {
        let pairs = self.iter();
        let r = Self::values_of(&pairs);
        proof {
            let ks = pairs@.map_values(|e: (Vec<u8>, &T)| e.0@);
            assert forall|k: Seq<u8>| #[trigger] self@.contains_key(k) implies exists|i: int|
                0 <= i < ks.len() && ks[i] == k by {
                let i = choose|i: int| 0 <= i < pairs@.len() && (#[trigger] pairs@[i]).0@ == k;
                assert(ks[i] == k);
            }
            assert(forall|i: int|
                0 <= i < ks.len() ==> self@.contains_key(#[trigger] ks[i]) && r@[i] == self@[ks[i]]);
        }
        r
    }

    /// The key (as owned bytes) and the value stored under `key`.
    pub fn get_key_value(&self, key: &[u8]) -> (r: Option<(Vec<u8>, &T)>)
        requires
            self.wf(),
        ensures
            match r {
                Some(p) => self@.contains_key(key@) && p.0@ == key@ && p.1 == self@[key@],
                None => !self@.contains_key(key@),
            },
    {
        match self.get(key) {
            Some(v) => Some((Self::copy_bytes(key), v)),
            None => None,
        }
    }

    /// Reserves room in the value store for at least `additional` more values.
    pub fn reserve(&mut self, additional: usize)
        requires
            old(self).wf(),
        ensures
            final(self).wf(),
            final(self)@ == old(self)@,
            final(self).slot_count() == old(self).slot_count(),
            final(self).free_count() == old(self).free_count(),
    {
        self.data.reserve(additional);
        proof {
            assert(self@ =~= old(self)@);
        }
    }

    /// Removes every key that starts with `prefix` and returns the removed pairs
    /// in ascending key order. The nodes on their paths stay.
    pub fn remove_prefix_matches(&mut self, prefix: &[u8]) -> (r: Vec<(Vec<u8>, T)>)
        requires
            old(self).wf(),
        ensures
            final(self).wf(),
            final(self)@ == old(self)@.remove_keys(Set::new(|k: Seq<u8>| has_prefix(k, prefix@))),
            strictly_ascending(r@.map_values(|e: (Vec<u8>, T)| e.0@)),
            forall|i: int|
                0 <= i < r@.len() ==> has_prefix((#[trigger] r@[i]).0@, prefix@) && old(self)@.contains_key(r@[i].0@) && r@[i].1 == old(self)@[r@[i].0@],
            forall|k: Seq<u8>|
                #[trigger] old(self)@.contains_key(k) && has_prefix(k, prefix@) ==> exists|i: int|
                    0 <= i < r@.len() && (#[trigger] r@[i]).0@ == k,
    {
        let ks = self.keys_starting_with(prefix);
        let ghost m0 = self@;
        let ghost kseq = ks@.map_values(|k: Vec<u8>| k@);
        let mut out: Vec<(Vec<u8>, T)> = Vec::new();
        let mut i: usize = 0;
        while i < ks.len()
            invariant
                self.wf(),
                m0 == old(self)@,
                kseq == ks@.map_values(|k: Vec<u8>| k@),
                strictly_ascending(kseq),
                forall|j: int|
                    0 <= j < ks@.len() ==> has_prefix((#[trigger] ks@[j])@, prefix@)
                        && m0.contains_key(ks@[j]@),
                i <= ks@.len(),
                out@.len() == i,
                forall|j: int|
                    0 <= j < i ==> (#[trigger] out@[j]).0@ == ks@[j]@ && out@[j].1 == m0[ks@[j]@],
                forall|k: Seq<u8>| #[trigger]
                    self@.contains_key(k) == (m0.contains_key(k) && !exists|j: int|
                        0 <= j < i && (#[trigger] ks@[j])@ == k),
                forall|k: Seq<u8>| #[trigger] self@.contains_key(k) ==> self@[k] == m0[k],
            decreases ks@.len() - i,
        {
            let ghost ki = ks@[i as int]@;
            proof {
                assert forall|j: int| 0 <= j < i implies (#[trigger] ks@[j])@ != ki by {
                    assert(lex_lt(kseq[j], kseq[i as int]));
                    lemma_lex_asymmetric(ki, ki);
                }
                assert(self@.contains_key(ki));
            }
            let v = self.remove(ks[i].as_slice());
            match v {
                Some(v) => {
                    let k = ks[i].clone();
                    proof {
                        assert(k@ =~= ki);
                    }
                    out.push((k, v));
                },
                None => {},
            }
            i = i + 1;
            proof {
                assert forall|j: int| 0 <= j < i implies (#[trigger] out@[j]).0@ == ks@[j]@
                    && out@[j].1 == m0[ks@[j]@] by {}
                assert forall|k: Seq<u8>| #[trigger]
                    self@.contains_key(k) == (m0.contains_key(k) && !exists|j: int|
                        0 <= j < i && (#[trigger] ks@[j])@ == k) by {
                    if k == ki {
                        assert(ks@[i - 1]@ == k);
                    }
                }
            }
        }
        proof {
            let gone = Set::new(|k: Seq<u8>| has_prefix(k, prefix@));
            assert(self@ =~= m0.remove_keys(gone)) by {
                assert forall|k: Seq<u8>| #[trigger] self@.contains_key(k) == m0.remove_keys(gone).contains_key(k) by {
                    if m0.contains_key(k) && has_prefix(k, prefix@) {
                        let j = choose|j: int| 0 <= j < ks@.len() && (#[trigger] ks@[j])@ == k;
                    }
                }
            }
            let ok = out@.map_values(|e: (Vec<u8>, T)| e.0@);
            assert(ok =~= kseq);
            assert forall|k: Seq<u8>|
                #[trigger] m0.contains_key(k) && has_prefix(k, prefix@) implies exists|i: int|
                0 <= i < out@.len() && (#[trigger] out@[i]).0@ == k by {
                let j = choose|j: int| 0 <= j < ks@.len() && (#[trigger] ks@[j])@ == k;
                assert(out@[j].0@ == k);
            }
        }
        out
    }

    /// Removes every pair and returns them in ascending key order.
    pub fn drain(&mut self) -> (r: Vec<(Vec<u8>, T)>)
        requires
            old(self).wf(),
        ensures
            final(self).wf(),
            final(self)@ == Map::<Seq<u8>, T>::empty(),
            strictly_ascending(r@.map_values(|e: (Vec<u8>, T)| e.0@)),
            forall|i: int|
                0 <= i < r@.len() ==> old(self)@.contains_key((#[trigger] r@[i]).0@) && r@[i].1 == old(self)@[r@[i].0@],
            forall|k: Seq<u8>| #[trigger]
                old(self)@.contains_key(k) ==> exists|i: int|
                    0 <= i < r@.len() && (#[trigger] r@[i]).0@ == k,
    {
        let empty: Vec<u8> = Vec::new();
        let r = self.remove_prefix_matches(empty.as_slice());
        proof {
            assert forall|k: Seq<u8>| has_prefix(k, empty@) by {
                assert(k.subrange(0, 0) =~= empty@);
            }
            assert(self@ =~= Map::<Seq<u8>, T>::empty());
        }
        r
    }

    /// All keys, in ascending order, consuming the map.
    pub fn into_keys(self) -> (r: Vec<Vec<u8>>)
        requires
            self.wf(),
        ensures
            strictly_ascending(r@.map_values(|k: Vec<u8>| k@)),
            forall|i: int| 0 <= i < r@.len() ==> self@.contains_key((#[trigger] r@[i])@),
            forall|k: Seq<u8>| #[trigger] self@.contains_key(k) ==> exists|i: int|
                0 <= i < r@.len() && (#[trigger] r@[i])@ == k,
    {
        self.keys()
    }

    /// All values, in ascending key order, consuming the map.
    pub fn into_values(self) -> (r: Vec<T>)
        requires
            self.wf(),
        ensures
            exists|ks: Seq<Seq<u8>>|
                {
                    &&& ks.len() == r@.len()
                    &&& strictly_ascending(ks)
                    &&& forall|i: int|
                        0 <= i < ks.len() ==> self@.contains_key(#[trigger] ks[i]) && r@[i]
                            == self@[ks[i]]
                    &&& forall|k: Seq<u8>| #[trigger]
                        self@.contains_key(k) ==> exists|i: int| 0 <= i < ks.len() && ks[i] == k
                },
    {
        let ghost m0 = self@;
        let mut m = self;
        let mut pairs = m.drain();
        let ghost ps = pairs@;
        let n = pairs.len();
        let mut rev: Vec<T> = Vec::with_capacity(n);
        while pairs.len() > 0
            invariant
                pairs@.len() + rev@.len() == n == ps.len(),
                forall|j: int| 0 <= j < pairs@.len() ==> #[trigger] pairs@[j] == ps[j],
                forall|j: int| 0 <= j < rev@.len() ==> #[trigger] rev@[j] == ps[n - 1 - j].1,
            decreases pairs@.len(),
        {
            let (_, v) = pairs.pop().unwrap();
            rev.push(v);
        }
        let mut out: Vec<T> = Vec::with_capacity(n);
        while rev.len() > 0
            invariant
                rev@.len() + out@.len() == n == ps.len(),
                forall|j: int| 0 <= j < rev@.len() ==> #[trigger] rev@[j] == ps[n - 1 - j].1,
                forall|j: int| 0 <= j < out@.len() ==> #[trigger] out@[j] == ps[j].1,
            decreases rev@.len(),
        {
            let v = rev.pop().unwrap();
            out.push(v);
        }
        proof {
            let ks = ps.map_values(|e: (Vec<u8>, T)| e.0@);
            assert forall|k: Seq<u8>| #[trigger] m0.contains_key(k) implies exists|i: int|
                0 <= i < ks.len() && ks[i] == k by {
                let i = choose|i: int| 0 <= i < ps.len() && (#[trigger] ps[i]).0@ == k;
                assert(ks[i] == k);
            }
            assert(forall|i: int|
                0 <= i < ks.len() ==> m0.contains_key(#[trigger] ks[i]) && out@[i] == m0[ks[i]]);
        }
        out
    }

    /// Inserts `value` under `key` when the key is absent and returns a reference
    /// to it; hands `value` back when the key is already present.
    pub fn try_insert(&mut self, key: &[u8], value: T) -> (r: Result<&mut T, T>)
        requires
            old(self).wf(),
        ensures
            match r {
                Ok(v) => !old(self)@.contains_key(key@) && *v == value && final(self).wf() && final(self)@ == old(self)@.insert(key@, *final(v)),
                Err(v) => old(self)@.contains_key(key@) && v == value && *final(self) == *old(self),
            },
    {
        if self.contains_key(key) {
            return Err(value);
        }
        self.insert(key, value);
        let r = self.get_mut(key);
        Ok(r.unwrap())
    }

    /// After an insert, the key is present with the new value, and the length
    /// grew by one exactly when the key was absent.
    pub proof fn lemma_insert_then_get(before: Self, after: Self, k: Seq<u8>, v: T)
        requires
            before.wf(),
            after@ == before@.insert(k, v),
        ensures
            after@.contains_key(k),
            after@[k] == v,
            after@.len() == before@.len() + if before@.contains_key(k) {
                0int
            } else {
                1int
            },
    {
        assert(before@.dom() =~= before.keys@);
        if before@.contains_key(k) {
            assert(after@.dom() =~= before@.dom());
        } else {
            assert(after@.dom() =~= before@.dom().insert(k));
        }
    }

    /// A second removal of the same key finds nothing: once removed, the key
    /// is absent.
    pub proof fn lemma_remove_twice(before: Self, after: Self, k: Seq<u8>)
        requires
            after@ == before@.remove(k),
        ensures
            !after@.contains_key(k),
    {
    }

    /// Inserting under a present key keeps the length and the value store as
    /// they were: no second live slot appears.
    pub proof fn lemma_overwrite(first: Self, second: Self, k: Seq<u8>, w: T)
        requires
            first.wf(),
            second.wf(),
            first@.contains_key(k),
            second@ == first@.insert(k, w),
            (second.slot_count(), second.free_count()) == store_after_insert(
                first.slot_count(),
                first.free_count(),
                first@.contains_key(k),
            ),
        ensures
            second@.len() == first@.len(),
            second@[k] == w,
            second.live_slots().len() == first.live_slots().len() == second@.len(),
            second.slot_count() == first.slot_count(),
            second.free_count() == first.free_count(),
    {
        assert(first@.dom() =~= first.keys@);
        assert(second@.dom() =~= first@.dom());
        first.lemma_store_facts();
        second.lemma_store_facts();
    }

    /// How the value store serves the map: the free list holds distinct empty
    /// slots, a key has a slot exactly when it is in the map and that slot holds
    /// a value, and there are exactly as many live slots as keys.
    pub proof fn lemma_store_facts(self)
        requires
            self.wf(),
        ensures
            self.free_count() == self.free_list().len(),
            self.free_list().no_duplicates(),
            forall|j: int|
                0 <= j < self.free_list().len() ==> (#[trigger] self.free_list()[j]) < self.slot_count()
                    && self.slots()[self.free_list()[j] as int] is None,
            forall|k: Seq<u8>| #[trigger] self.slot_of(k) is Some <==> self@.contains_key(k),
            forall|k: Seq<u8>|
                #[trigger] self@.contains_key(k) ==> self.slot_of(k)->0 < self.slot_count()
                    && self.slots()[self.slot_of(k)->0 as int] is Some,
            self.live_slots().finite(),
            self.live_slots().len() == self@.len(),
            self.slot_count() == self@.len() + self.free_count(),
    {
        assert(self@.dom() =~= self.keys@);
        let f = |k: Seq<u8>| self.root.slot_at(k)->0 as int;
        assert forall|a: Seq<u8>, b: Seq<u8>|
            self.keys@.contains(a) && self.keys@.contains(b) && #[trigger] f(a) == #[trigger] f(b)
                implies a == b by {
            assert(self.root.slot_at(a) is Some);
            assert(self.root.slot_at(b) is Some);
        }
        assert(self.keys@.map(f) =~= self.live_slots()) by {
            assert forall|i: int| self.keys@.map(f).contains(i) implies self.live_slots().contains(i) by {
                let k = choose|k: Seq<u8>| self.keys@.contains(k) && f(k) == i;
                assert(self.root.slot_at(k) is Some);
            }
            assert forall|i: int| self.live_slots().contains(i) implies self.keys@.map(f).contains(i) by {
                assert(self.data@[i] is Some);
                assert(self.data.len() == self.data@.len());
                let k = choose|k: Seq<u8>| #[trigger] self.root.slot_at(k) == Some(i as usize);
                assert(self.keys@.contains(k) && f(k) == i);
            }
        }
        lemma_map_size(self.keys@, self.live_slots(), f);
    }

    /// Every key holds its own live slot, no slot serves two keys, and the
    /// value store has exactly one slot per key plus the free ones.
    pub proof fn lemma_one_slot_per_key(self, k1: Seq<u8>, k2: Seq<u8>)
        requires
            self.wf(),
            self@.contains_key(k1),
            self@.contains_key(k2),
            k1 != k2,
        ensures
            self.slot_of(k1) is Some,
            self.slot_of(k1) != self.slot_of(k2),
            self.slots()[self.slot_of(k1)->0 as int] is Some,
            self.slot_count() == self@.len() + self.free_count(),
    {
        assert(self@.dom() =~= self.keys@);
        assert(self.root.slot_at(k1) is Some);
    }

    /// With no dead node below the root and no key left, the root has no
    /// children and no edge.
    pub proof fn lemma_empty_trimmed_root_is_bare(self)
        requires
            self.wf(),
            self.root_node().trimmed(),
            self@.len() == 0,
        ensures
            self.root_node().children@.len() == 0,
            forall|b: int| !self.root_node().presence.has(b),
    {
        assert(self@.dom() =~= self.keys@);
        if self.root.children@.len() > 0 {
            let c = self.root.children@[0];
            assert(c.wf());
            lemma_live_holds_value(c);
            let t = choose|t: Seq<u8>| (#[trigger] c.slot_at(t)) is Some;
            self.root.presence.lemma_rank_onto(0, 256);
            let d = choose|d: int| 0 <= d < 256 && self.root.presence.has(d) && self.root.presence.rank(d) == 0;
            let s = seq![d as u8] + t;
            assert(s.drop_first() =~= t);
            self.root.lemma_slot_step(s);
            assert(self.keys@.contains(s));
            assert(self.keys@.remove(s).len() + 1 == self.keys@.len());
        }
        self.root.lemma_no_children();
    }

    /// Keeps only the pairs for which `f` returns `true`; the others are
    /// removed. Every key is offered to `f` once, with its value. `f` sees the
    /// value by shared reference: Verus does not yet verify closures that
    /// borrow mutably, so values are edited with `keys` and `get_mut` instead.
    pub fn retain<F: Fn(&[u8], &T) -> bool>(&mut self, f: F)
        requires
            old(self).wf(),
            forall|k: &[u8], v: &T| f.requires((k, v)),
        ensures
            final(self).wf(),
            forall|k: Seq<u8>| #[trigger]
                final(self)@.contains_key(k) ==> old(self)@.contains_key(k) && final(self)@[k]
                    == old(self)@[k],
            forall|k: Seq<u8>| #[trigger]
                old(self)@.contains_key(k) ==> exists|s: &[u8]| #![trigger s@]
                    s@ == k && f.ensures((s, &old(self)@[k]), final(self)@.contains_key(k)),
    {
        let ks = self.keys();
        let ghost m0 = self@;
        let ghost kseq = ks@.map_values(|k: Vec<u8>| k@);
        let mut i: usize = 0;
        while i < ks.len()
            invariant
                self.wf(),
                m0 == old(self)@,
                kseq == ks@.map_values(|k: Vec<u8>| k@),
                strictly_ascending(kseq),
                forall|j: int| 0 <= j < ks@.len() ==> m0.contains_key((#[trigger] ks@[j])@),
                forall|k: Seq<u8>| #[trigger] m0.contains_key(k) ==> exists|j: int|
                    0 <= j < ks@.len() && (#[trigger] ks@[j])@ == k,
                forall|x: &[u8], v: &T| f.requires((x, v)),
                i <= ks@.len(),
                forall|k: Seq<u8>| #[trigger]
                    self@.contains_key(k) ==> m0.contains_key(k) && self@[k] == m0[k],
                forall|j: int|
                    i <= j < ks@.len() ==> self@.contains_key((#[trigger] ks@[j])@),
                forall|j: int|
                    0 <= j < i ==> exists|s: &[u8]| #![trigger s@]
                        s@ == (#[trigger] ks@[j])@ && f.ensures(
                            (s, &m0[ks@[j]@]),
                            self@.contains_key(ks@[j]@),
                        ),
            decreases ks@.len() - i,
        {
            let ghost ki = ks@[i as int]@;
            let key = ks[i].as_slice();
            let keep = match self.get(key) {
                Some(v) => {
                    let keep = f(key, v);
                    proof {
                        assert(key@ == ki && v == &m0[ki] && f.ensures((key, v), keep));
                    }
                    keep
                },
                None => true,
            };
            let ghost before = self@;
            let ghost i0 = i as int;
            if !keep {
                self.remove(key);
            }
            i = i + 1;
            proof {
                assert(self@.contains_key(ki) == keep);
                assert(f.ensures((key, &m0[ki]), self@.contains_key(ki)));
                assert forall|j: int| i0 < j < ks@.len() implies self@.contains_key(
                    (#[trigger] ks@[j])@,
                ) by {
                    assert(lex_lt(kseq[i0], kseq[j]));
                    lemma_lex_asymmetric(ki, ki);
                }
                assert forall|j: int|
                    0 <= j < i implies exists|s: &[u8]| #![trigger s@]
                    s@ == (#[trigger] ks@[j])@ && f.ensures(
                        (s, &m0[ks@[j]@]),
                        self@.contains_key(ks@[j]@),
                    ) by {
                    if j < i0 {
                        assert(lex_lt(kseq[j], kseq[i0]));
                        lemma_lex_asymmetric(ki, ki);
                        assert(self@.contains_key(ks@[j]@) == before.contains_key(ks@[j]@));
                    } else {
                        assert(key@ == ks@[j]@);
                    }
                }
            }
        }
        proof {
            assert forall|k: Seq<u8>| #[trigger] m0.contains_key(k) implies exists|s: &[u8]| #![trigger s@]
                s@ == k && f.ensures((s, &m0[k]), self@.contains_key(k)) by {
                let j = choose|j: int| 0 <= j < ks@.len() && (#[trigger] ks@[j])@ == k;
            }
        }
    }

    /// The number of values the slot store can hold before it reallocates.
    pub fn capacity(&self) -> (r: usize)
        requires
            self.wf(),
        ensures
            r >= self.slot_count(),
    {
        vec_capacity(&self.data)
    }

    /// Gives back the spare room of the slot store and of the free list.
    pub fn shrink_to_fit(&mut self)
        requires
            old(self).wf(),
        ensures
            final(self).wf(),
            final(self)@ == old(self)@,
            final(self).slot_count() == old(self).slot_count(),
            final(self).free_count() == old(self).free_count(),
    {
        vec_shrink_to_fit(&mut self.data);
        vec_shrink_to_fit(&mut self.free_indices);
        proof {
            assert(self@ =~= old(self)@);
        }
    }
}

impl<T: Clone> TrieMap<T> {
    /// A new map holding a clone of each value of `pairs` under its key.
    fn copy_pairs(pairs: &Vec<(Vec<u8>, &T)>) -> (r: TrieMap<T>)
        requires
            strictly_ascending(pairs@.map_values(|e: (Vec<u8>, &T)| e.0@)),
        ensures
            r.wf(),
            r.root_node().trimmed(),
            forall|k: Seq<u8>| #[trigger]
                r@.contains_key(k) <==> exists|i: int| 0 <= i < pairs@.len() && (#[trigger] pairs@[i]).0@ == k,
            forall|i: int| 0 <= i < pairs@.len() ==> cloned(*(#[trigger] pairs@[i]).1, r@[pairs@[i].0@]),
    {
        let ghost ks = pairs@.map_values(|e: (Vec<u8>, &T)| e.0@);
        let mut m: TrieMap<T> = TrieMap::new();
        let mut i: usize = 0;
        while i < pairs.len()
            invariant
                m.wf(),
                m.root_node().trimmed(),
                i <= pairs@.len(),
                ks == pairs@.map_values(|e: (Vec<u8>, &T)| e.0@),
                strictly_ascending(ks),
                forall|k: Seq<u8>| #[trigger]
                    m@.contains_key(k) <==> exists|j: int| 0 <= j < i && (#[trigger] pairs@[j]).0@ == k,
                forall|j: int| 0 <= j < i ==> cloned(*(#[trigger] pairs@[j]).1, m@[pairs@[j].0@]),
            decreases pairs@.len() - i,
        {
            let v = pairs[i].1.clone();
            let ghost m1 = m@;
            m.insert(pairs[i].0.as_slice(), v);
            proof {
                let ki = pairs@[i as int].0@;
                assert forall|j: int| 0 <= j < i implies pairs@[j].0@ != ki by {
                    assert(lex_lt(ks[j], ks[i as int]));
                    lemma_lex_asymmetric(ki, ki);
                }
                assert forall|j: int| 0 <= j < i + 1 implies cloned(*(#[trigger] pairs@[j]).1, m@[pairs@[j].0@]) by {
                    if j < i {
                        assert(m@[pairs@[j].0@] == m1[pairs@[j].0@]);
                    }
                }
                assert forall|k: Seq<u8>| #[trigger]
                    m@.contains_key(k) <==> exists|j: int| 0 <= j < i + 1 && (#[trigger] pairs@[j]).0@ == k by {
                    if k == ki {
                        assert(pairs@[i as int].0@ == k);
                    }
                }
            }
            i = i + 1;
        }
        m
    }

    /// A copy of the map: the same keys, each with a clone of its value.
    fn copy_all(&self) -> (r: TrieMap<T>)
        requires
            self.wf(),
        ensures
            r.wf(),
            r.root_node().trimmed(),
            r@.dom() == self@.dom(),
            forall|k: Seq<u8>| #[trigger] self@.contains_key(k) ==> cloned(self@[k], r@[k]),
    {
        let pairs = self.iter();
        let r = Self::copy_pairs(&pairs);
        proof {
            assert forall|k: Seq<u8>| #[trigger] r@.contains_key(k) == self@.contains_key(k) by {
                if self@.contains_key(k) {
                    let i = choose|i: int| 0 <= i < pairs@.len() && (#[trigger] pairs@[i]).0@ == k;
                }
            }
            assert(r@.dom() =~= self@.dom());
            assert forall|k: Seq<u8>| #[trigger] self@.contains_key(k) implies cloned(self@[k], r@[k]) by {
                let i = choose|i: int| 0 <= i < pairs@.len() && (#[trigger] pairs@[i]).0@ == k;
            }
        }
        r
    }

    /// A new map holding the pairs whose key starts with `prefix`, with cloned
    /// values.
    pub fn with_prefix_only(&self, prefix: &[u8]) -> (r: TrieMap<T>)
        requires
            self.wf(),
        ensures
            r.wf(),
            forall|k: Seq<u8>| #[trigger]
                r@.contains_key(k) == (self@.contains_key(k) && has_prefix(k, prefix@)),
            forall|k: Seq<u8>| #[trigger] r@.contains_key(k) ==> cloned(self@[k], r@[k]),
    {
        let pairs = self.prefix_iter(prefix);
        let r = Self::copy_pairs(&pairs);
        proof {
            assert forall|k: Seq<u8>| #[trigger]
                r@.contains_key(k) == (self@.contains_key(k) && has_prefix(k, prefix@)) by {
                if r@.contains_key(k) {
                    let i = choose|i: int| 0 <= i < pairs@.len() && (#[trigger] pairs@[i]).0@ == k;
                }
            }
            assert forall|k: Seq<u8>| #[trigger] r@.contains_key(k) implies cloned(self@[k], r@[k]) by {
                let i = choose|i: int| 0 <= i < pairs@.len() && (#[trigger] pairs@[i]).0@ == k;
            }
        }
        r
    }

    /// A new map holding the pairs whose key does not start with `prefix`, with
    /// cloned values.
    pub fn without_prefix(&self, prefix: &[u8]) -> (r: TrieMap<T>)
        requires
            self.wf(),
        ensures
            r.wf(),
            forall|k: Seq<u8>| #[trigger]
                r@.contains_key(k) == (self@.contains_key(k) && !has_prefix(k, prefix@)),
            forall|k: Seq<u8>| #[trigger] r@.contains_key(k) ==> cloned(self@[k], r@[k]),
    {
        let mut r = self.copy_all();
        let ghost c = r@;
        r.remove_prefix_matches(prefix);
        proof {
            assert forall|k: Seq<u8>| #[trigger] r@.contains_key(k) implies cloned(self@[k], r@[k]) by {
                assert(c.contains_key(k));
            }
        }
        r
    }

    /// A new map: this one with `value` under `key`, the other values cloned.
    pub fn inserted(&self, key: &[u8], value: T) -> (r: TrieMap<T>)
        requires
            self.wf(),
        ensures
            r.wf(),
            r@.dom() == self@.dom().insert(key@),
            r@[key@] == value,
            forall|k: Seq<u8>| #[trigger] r@.contains_key(k) && k != key@ ==> cloned(self@[k], r@[k]),
    {
        let mut r = self.copy_all();
        let ghost c = r@;
        r.insert(key, value);
        proof {
            assert(r@.dom() =~= self@.dom().insert(key@));
            assert forall|k: Seq<u8>| #[trigger] r@.contains_key(k) && k != key@ implies cloned(
                self@[k],
                r@[k],
            ) by {
                assert(c.contains_key(k));
            }
        }
        r
    }

    /// A new map: this one without `key`, the other values cloned.
    pub fn removed(&self, key: &[u8]) -> (r: TrieMap<T>)
        requires
            self.wf(),
        ensures
            r.wf(),
            r@.dom() == self@.dom().remove(key@),
            forall|k: Seq<u8>| #[trigger] r@.contains_key(k) ==> cloned(self@[k], r@[k]),
    {
        let mut r = self.copy_all();
        let ghost c = r@;
        r.remove(key);
        proof {
            assert(r@.dom() =~= self@.dom().remove(key@));
            assert forall|k: Seq<u8>| #[trigger] r@.contains_key(k) implies cloned(self@[k], r@[k]) by {
                assert(c.contains_key(k));
            }
        }
        r
    }
}

/// The steps left for a traversal frame on `f.0` whose next byte to try is
/// `f.1`: one to leave the frame, one per byte still to try, and 258 per node
/// in the children not yet entered.
pub open spec fn frame_work(f: (&TrieNode, u32)) -> int {
    let n = *f.0;
    1 + (256 - f.1) + 258 * (forest_count(n.children@) - forest_count(
        n.children@.subrange(0, n.presence.rank(f.1 as int) as int),
    ))
}

/// The steps left for a stack of traversal frames.
pub open spec fn stack_work(s: Seq<(&TrieNode, u32)>) -> int
    decreases s.len(),
{
    if s.len() == 0 {
        0
    } else {
        stack_work(s.drop_last()) + frame_work(s.last())
    }
}

/// Frames on well-formed nodes leave a non-negative amount of work.
proof fn lemma_stack_work_nonneg(s: Seq<(&TrieNode, u32)>)
    requires
        forall|i: int| 0 <= i < s.len() ==> (#[trigger] s[i]).0.wf() && s[i].1 <= 256,
    ensures
        stack_work(s) >= 0,
    decreases s.len(),
{
    if s.len() > 0 {
        let f = s.last();
        let n = *f.0;
        assert(s[s.len() - 1] == f);
        n.presence.lemma_rank_mono(f.1 as int, 256);
        lemma_forest_prefix_le(n.children@, n.presence.rank(f.1 as int) as int);
        assert forall|i: int| 0 <= i < s.drop_last().len() implies (#[trigger] s.drop_last()[i]).0.wf()
            && s.drop_last()[i].1 <= 256 by {
            assert(s.drop_last()[i] == s[i]);
        }
        lemma_stack_work_nonneg(s.drop_last());
    }
}

/// Relies on `Vec::capacity`: never less than the length.
#[verifier::external_body]
fn vec_capacity<V>(v: &Vec<V>) -> (r: usize)
    ensures
        r >= v@.len(),
{
    v.capacity()
}

/// Relies on `Vec::shrink_to_fit`: the contents stay as they are.
#[verifier::external_body]
fn vec_shrink_to_fit<V>(v: &mut Vec<V>)
    ensures
        final(v)@ == old(v)@,
{
    v.shrink_to_fit()
}

/// `x`, or the largest `usize` where `x` is beyond it.
pub open spec fn saturated(x: int) -> int {
    if x > usize::MAX {
        usize::MAX as int
    } else {
        x
    }
}

/// The slot count and the free count of the value store after an insert,
/// given whether the key was present.
pub open spec fn store_after_insert(slots: nat, free: nat, present: bool) -> (nat, nat) {
    if present {
        (slots, free)
    } else if free > 0 {
        (slots, (free - 1) as nat)
    } else {
        (slots + 1, 0)
    }
}

/// The slot count and the free count of the value store after a removal,
/// given whether the key was present.
pub open spec fn store_after_remove(slots: nat, free: nat, present: bool) -> (nat, nat) {
    if present {
        (slots, free + 1)
    } else {
        (slots, free)
    }
}

/// The value store after `n` rounds of inserting a key and removing it again.
pub open spec fn store_after_cycles(slots: nat, free: nat, present: bool, n: nat) -> (nat, nat)
    decreases n,
{
    if n == 0 {
        (slots, free)
    } else {
        let a = store_after_insert(slots, free, present);
        let b = store_after_remove(a.0, a.1, true);
        store_after_cycles(b.0, b.1, false, (n - 1) as nat)
    }
}

proof fn lemma_cycles_steady(slots: nat, free: nat, n: nat)
    requires
        free > 0,
    ensures
        store_after_cycles(slots, free, false, n) == (slots, free),
    decreases n,
{
    if n > 0 {
        lemma_cycles_steady(slots, free, (n - 1) as nat);
    }
}

/// Inserting and removing the same key any number of times grows the value
/// store by at most one slot.
pub proof fn lemma_cycles_bounded(slots: nat, free: nat, present: bool, n: nat)
    ensures
        store_after_cycles(slots, free, present, n).0 <= slots + 1,
{
    if n > 0 {
        let a = store_after_insert(slots, free, present);
        let b = store_after_remove(a.0, a.1, true);
        lemma_cycles_steady(b.0, b.1, (n - 1) as nat);
    }
}

/// A well-formed node that is not dead and has no dead node below it holds a
/// value somewhere below.
proof fn lemma_live_holds_value(n: TrieNode)
    requires
        n.wf(),
        !n.is_dead(),
        n.trimmed(),
    ensures
        n.holds_value(),
    decreases n,
{
    if n.value_slot is Some {
        assert(n.slot_at(Seq::<u8>::empty()) is Some);
    } else {
        let c = n.children@[0];
        assert(c.wf());
        assert(decreases_to!(n.children => n.children@));
        lemma_live_holds_value(c);
        let t = choose|t: Seq<u8>| (#[trigger] c.slot_at(t)) is Some;
        n.presence.lemma_rank_onto(0, 256);
        let d = choose|d: int| 0 <= d < 256 && n.presence.has(d) && n.presence.rank(d) == 0;
        let s = seq![d as u8] + t;
        assert(s.drop_first() =~= t);
        n.lemma_slot_step(s);
        assert(n.slot_at(s) is Some);
    }
}

/// Two non-empty sequences with the same first element and the same rest are
/// equal.
proof fn lemma_head_tail(s: Seq<u8>, t: Seq<u8>)
    requires
        s.len() > 0,
        t.len() > 0,
        s[0] == t[0],
        s != t,
    ensures
        s.drop_first() != t.drop_first(),
{
    if s.drop_first() == t.drop_first() {
        assert(s.drop_first().len() == s.len() - 1);
        assert(t.drop_first().len() == t.len() - 1);
        assert(s.len() == t.len());
        assert forall|i: int| 0 <= i < s.len() implies s[i] == t[i] by {
            if i > 0 {
                assert(s[i] == s.drop_first()[i - 1]);
                assert(t[i] == t.drop_first()[i - 1]);
            }
        }
        assert(s =~= t);
    }
}

/// A bitmap with `256` members below `256` holds every byte.
proof fn lemma_full_rank(p: Bitmap, c: int)
    requires
        p.rank(256) == 256,
        0 <= c <= 256,
    ensures
        p.rank(c) == c,
        c < 256 ==> p.has(c),
    decreases 256 - c,
{
    p.lemma_rank_le(c);
    p.lemma_rank_mono(c, 256);
    if c < 256 {
        lemma_full_rank(p, c + 1);
        p.lemma_rank_le(c);
    }
}

} // verus!
