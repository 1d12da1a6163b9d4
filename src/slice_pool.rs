use vstd::prelude::*;

use crate::node::TrieNode;

verus! {

/// Whether every node of `a` is blank.
pub open spec fn all_blank(a: Seq<TrieNode>) -> bool {
    forall|i: int| 0 <= i < a.len() ==> (#[trigger] a[i]).is_blank()
}

/// The arrays kept in bucket `l` all have length `l` and hold blank nodes.
pub open spec fn bucket_ok(bucket: Seq<Vec<TrieNode>>, l: int) -> bool {
    forall|j: int| 0 <= j < bucket.len() ==> (#[trigger] bucket[j])@.len() == l && all_blank(
        bucket[j]@,
    )
}

/// The counts of `new` are those of `old` after one array was asked for
/// under length `taken` (and handed out from that free list when it had one)
/// and one array was filed under length `given`; `-1` stands for no such step.
pub open spec fn taken_and_given(old: SlicePool, new: SlicePool, taken: int, given: int) -> bool {
    forall|l: int|
        0 <= l < 257 ==> #[trigger] new.held(l) == old.held(l) - (if l == taken && old.held(l)
            > 0 {
            1int
        } else {
            0int
        }) + (if l == given {
            1int
        } else {
            0int
        })
}

/// The number of arrays held for the lengths below `n`.
pub open spec fn held_below(p: SlicePool, n: int) -> nat
    decreases n,
{
    if n <= 0 {
        0
    } else {
        held_below(p, n - 1) + p.held(n - 1)
    }
}

/// Asking for an array and filing one never lowers the number held: the
/// filed array makes up for the one handed out.
pub proof fn lemma_take_give_total(a: SlicePool, b: SlicePool, taken: int, given: int, n: int)
    requires
        taken_and_given(a, b, taken, given),
        0 <= given < 257,
        0 <= n <= 257,
    ensures
        held_below(b, n) == held_below(a, n) - (if 0 <= taken < n && a.held(taken) > 0 {
            1int
        } else {
            0int
        }) + (if given < n {
            1int
        } else {
            0int
        }),
    decreases n,
{
    if n > 0 {
        lemma_take_give_total(a, b, taken, given, n - 1);
        assert(b.held(n - 1) == a.held(n - 1) - (if n - 1 == taken && a.held(n - 1) > 0 {
            1int
        } else {
            0int
        }) + (if n - 1 == given {
            1int
        } else {
            0int
        }));
    }
}

/// Asking for an array and then filing one gives the combined counts.
pub proof fn lemma_take_then_give(a: SlicePool, b: SlicePool, c: SlicePool, taken: int, given: int)
    requires
        taken_and_given(a, b, taken, -1),
        taken_and_given(b, c, -1, given),
    ensures
        taken_and_given(a, c, taken, given),
{
    assert forall|l: int| 0 <= l < 257 implies #[trigger] c.held(l) == a.held(l) - (if l == taken
        && a.held(l) > 0 {
        1int
    } else {
        0int
    }) + (if l == given {
        1int
    } else {
        0int
    }) by {
        assert(b.held(l) == a.held(l) - (if l == taken && a.held(l) > 0 {
            1int
        } else {
            0int
        }));
    }
}

/// A pool of child arrays for reuse, one free list per exact length from 0 to 256.
pub struct SlicePool {
    pub pools: Vec<Vec<Vec<TrieNode>>>,
}

impl SlicePool {
    pub open spec fn wf(self) -> bool {
        &&& self.pools@.len() == 257
        &&& forall|l: int| 0 <= l < 257 ==> bucket_ok(#[trigger] self.pools@[l]@, l)
    }

    /// The number of arrays held for length `l`.
    pub open spec fn held(self, l: int) -> nat {
        self.pools@[l]@.len()
    }

    /// Creates a new empty slice pool.
    pub fn new() -> (r: SlicePool)
        ensures
            r.wf(),
            forall|l: int| 0 <= l < 257 ==> #[trigger] r.held(l) == 0,
    {
        let mut pools: Vec<Vec<Vec<TrieNode>>> = Vec::new();
        let mut i: usize = 0;
        while i < 257
            invariant
                i <= 257,
                pools@.len() == i,
                forall|l: int| 0 <= l < i ==> #[trigger] pools@[l]@.len() == 0,
            decreases 257 - i,
        {
            pools.push(Vec::new());
            i = i + 1;
        }
        SlicePool { pools }
    }

    /// Hands out an array of exactly `len` blank nodes, taken from the free list
    /// for that length when it is not empty.
    pub fn get(&mut self, len: usize) -> (r: Vec<TrieNode>)
        requires
            old(self).wf(),
            len <= 256,
        ensures
            final(self).wf(),
            r@.len() == len,
            all_blank(r@),
            old(self).held(len as int) > 0 ==> r == old(self).pools@[len as int]@.last()
                && final(self).pools@[len as int]@ == old(self).pools@[len as int]@.drop_last(),
            old(self).held(len as int) == 0 ==> final(self).pools@[len as int]@ == old(
                self).pools@[len as int]@,
            final(self).pools@.len() == 257,
            forall|l: int| 0 <= l < 257 && l != len ==> #[trigger] final(self).pools@[l] == old(
                self).pools@[l],
            taken_and_given(*old(self), *final(self), len as int, -1),
    {
        let popped = self.pools[len].pop();
        proof {
            assert(bucket_ok(self.pools@[len as int]@, len as int)) by {
                assert(bucket_ok(old(self).pools@[len as int]@, len as int));
            }
            assert forall|l: int| 0 <= l < 257 implies bucket_ok(
                #[trigger] self.pools@[l]@,
                l,
            ) by {
                if l != len {
                    assert(self.pools@[l] == old(self).pools@[l]);
                }
            }
        }
        match popped {
            Some(a) => {
                proof {
                    let b = old(self).pools@[len as int]@;
                    assert(a == b[b.len() - 1]);
                }
                a
            },
            None => {
                let mut v: Vec<TrieNode> = Vec::with_capacity(len);
                let mut i: usize = 0;
                while i < len
                    invariant
                        i <= len,
                        v@.len() == i,
                        all_blank(v@),
                    decreases len - i,
                {
                    v.push(TrieNode::new());
                    i = i + 1;
                }
                v
            },
        }
    }

    /// Files an array of blank nodes under its length for reuse.
    pub fn put(&mut self, a: Vec<TrieNode>)
        requires
            old(self).wf(),
            a@.len() <= 256,
            all_blank(a@),
        ensures
            final(self).wf(),
            final(self).pools@[a@.len() as int]@ == old(self).pools@[a@.len() as int]@.push(a),
            final(self).pools@.len() == 257,
            forall|l: int| 0 <= l < 257 && l != a@.len() ==> #[trigger] final(self).pools@[l]
                == old(self).pools@[l],
            taken_and_given(*old(self), *final(self), -1, a@.len() as int),
    {
        let len = a.len();
        self.pools[len].push(a);
        proof {
            assert forall|l: int| 0 <= l < 257 implies bucket_ok(
                #[trigger] self.pools@[l]@,
                l,
            ) by {
                if l != len {
                    assert(self.pools@[l] == old(self).pools@[l]);
                } else {
                    let b = self.pools@[l]@;
                    assert(bucket_ok(old(self).pools@[l]@, l));
                    assert forall|j: int| 0 <= j < b.len() implies (#[trigger] b[j])@.len() == l
                        && all_blank(b[j]@) by {
                        if j < b.len() - 1 {
                            assert(b[j] == old(self).pools@[l]@[j]);
                        }
                    }
                }
            }
        }
    }

    /// Empties every free list, dropping the arrays held.
    pub fn clear(&mut self)
        requires
            old(self).wf(),
        ensures
            final(self).wf(),
            forall|l: int| 0 <= l < 257 ==> #[trigger] final(self).held(l) == 0,
    {
        let mut i: usize = 0;
        while i < 257
            invariant
                i <= 257,
                self.pools@.len() == 257,
                forall|l: int| 0 <= l < i ==> #[trigger] self.pools@[l]@.len() == 0,
                forall|l: int| i <= l < 257 ==> #[trigger] self.pools@[l] == old(self).pools@[l],
                forall|l: int| 0 <= l < 257 ==> bucket_ok(#[trigger] old(self).pools@[l]@, l),
            decreases 257 - i,
        {
            self.pools[i].clear();
            i = i + 1;
        }
    }
}

} // verus!
