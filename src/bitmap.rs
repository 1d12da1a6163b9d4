use vstd::prelude::*;

verus! {

/// Whether bit `i` of the word `w` is set.
pub open spec fn word_bit(w: u64, i: u64) -> bool {
    (w >> i) & 1u64 == 1u64
}

/// The number of set bits of `w` among its lowest `n` bits.
pub open spec fn bits_below(w: u64, n: nat) -> nat
    decreases n,
{
    if n == 0 {
        0
    } else {
        bits_below(w, (n - 1) as nat) + if word_bit(w, (n - 1) as u64) {
            1nat
        } else {
            0nat
        }
    }
}

/// Relies on `u64::count_ones`: the number of set bits of the word.
#[verifier::external_body]
fn count_ones(w: u64) -> (r: u32)
    ensures
        r == bits_below(w, 64),
{
    w.count_ones()
}

proof fn lemma_bits_below_le(w: u64, n: nat)
    ensures
        bits_below(w, n) <= n,
    decreases n,
{
    if n > 0 {
        lemma_bits_below_le(w, (n - 1) as nat);
    }
}

/// Words that agree on their lowest `n` bits count the same there.
proof fn lemma_bits_below_agree(a: u64, b: u64, n: nat)
    requires
        n <= 64,
        forall|i: u64| i < n ==> word_bit(a, i) == word_bit(b, i),
    ensures
        bits_below(a, n) == bits_below(b, n),
    decreases n,
{
    if n > 0 {
        lemma_bits_below_agree(a, b, (n - 1) as nat);
        assert(word_bit(a, (n - 1) as u64) == word_bit(b, (n - 1) as u64));
    }
}

/// Bits from `r` up to `n` that are all clear add nothing.
proof fn lemma_bits_below_clear_above(w: u64, r: nat, n: nat)
    requires
        r <= n <= 64,
        forall|i: u64| r <= i < n ==> !word_bit(w, i),
    ensures
        bits_below(w, n) == bits_below(w, r),
    decreases n,
{
    if n > r {
        lemma_bits_below_clear_above(w, r, (n - 1) as nat);
        assert(!word_bit(w, (n - 1) as u64));
    }
}

/// The word whose lowest `r` bits are set and the others clear.
pub open spec fn low_mask(r: u64) -> u64 {
    ((1u64 << r) - 1u64) as u64
}

/// Masking a word to its lowest `r` bits keeps exactly the count below `r`.
proof fn lemma_masked_count(w: u64, r: u64)
    requires
        r < 64,
    ensures
        bits_below(w & low_mask(r), 64) == bits_below(w, r as nat),
{
    let m = w & low_mask(r);
    assert forall|i: u64| i < 64 implies word_bit(m, i) == (i < r && word_bit(w, i)) by {
        assert(((w & (((1u64 << r) - 1u64) as u64)) >> i) & 1u64 == 1u64 <==> (i < r && (w >> i)
            & 1u64 == 1u64)) by (bit_vector)
            requires
                r < 64,
                i < 64,
        ;
    }
    lemma_bits_below_clear_above(m, r as nat, 64);
    lemma_bits_below_agree(m, w, r as nat);
}

proof fn lemma_or_bit(w: u64, r: u64, i: u64)
    requires
        r < 64,
        i < 64,
    ensures
        word_bit(w | (1u64 << r), i) == (i == r || word_bit(w, i)),
{
    assert(((w | (1u64 << r)) >> i) & 1u64 == 1u64 <==> (i == r || (w >> i) & 1u64 == 1u64))
        by (bit_vector)
        requires
            r < 64,
            i < 64,
    ;
}

proof fn lemma_and_not_bit(w: u64, r: u64, i: u64)
    requires
        r < 64,
        i < 64,
    ensures
        word_bit(w & !(1u64 << r), i) == (i != r && word_bit(w, i)),
{
    assert(((w & !(1u64 << r)) >> i) & 1u64 == 1u64 <==> (i != r && (w >> i) & 1u64 == 1u64))
        by (bit_vector)
        requires
            r < 64,
            i < 64,
    ;
}

proof fn lemma_zero_bit(i: u64)
    requires
        i < 64,
    ensures
        !word_bit(0u64, i),
{
    assert((0u64 >> i) & 1u64 != 1u64) by (bit_vector);
}

/// A set of byte values, stored as four 64-bit words; byte `b` is bit `b % 64`
/// of word `b / 64`.
pub struct Bitmap {
    pub words: [u64; 4],
}

impl Bitmap {
    /// Whether the byte value `b` is in the set.
    pub open spec fn has(self, b: int) -> bool {
        0 <= b < 256 && word_bit(self.words@[b / 64], (b % 64) as u64)
    }

    /// The number of members strictly below `b`.
    pub open spec fn rank(self, b: int) -> nat
        decreases b,
    {
        if b <= 0 {
            0
        } else {
            self.rank(b - 1) + if self.has(b - 1) {
                1nat
            } else {
                0nat
            }
        }
    }

    /// The number of members.
    pub open spec fn count(self) -> nat {
        self.rank(256)
    }

    /// The number of members in the words below word `q`.
    pub open spec fn words_below(self, q: int) -> nat
        decreases q,
    {
        if q <= 0 {
            0
        } else {
            self.words_below(q - 1) + bits_below(self.words@[q - 1], 64)
        }
    }

    /// `rank` counted word by word: whole words below the word of `b`, then
    /// the bits of that word below `b`.
    pub proof fn lemma_rank_by_words(self, b: int)
        requires
            0 <= b < 256,
        ensures
            self.rank(b) == self.words_below(b / 64) + bits_below(self.words@[b / 64], (b % 64) as nat),
        decreases b,
    {
        if b > 0 {
            self.lemma_rank_by_words(b - 1);
            let q = (b - 1) / 64;
            let r = (b - 1) % 64;
            assert(self.has(b - 1) == word_bit(self.words@[q], r as u64));
            if r == 63 {
                assert(b / 64 == q + 1 && b % 64 == 0);
            } else {
                assert(b / 64 == q && b % 64 == r + 1);
            }
        }
    }

    /// The empty set.
    pub fn new() -> (r: Bitmap)
        ensures
            forall|b: int| !r.has(b),
            r.count() == 0,
    {
        let r = Bitmap { words: [0u64; 4] };
        proof {
            assert forall|b: int| !r.has(b) by {
                if 0 <= b < 256 {
                    assert(r.words@[b / 64] == 0u64);
                    lemma_zero_bit((b % 64) as u64);
                }
            }
            r.lemma_rank_empty(256);
        }
        r
    }

    pub proof fn lemma_rank_empty(self, b: int)
        requires
            forall|c: int| !self.has(c),
        ensures
            self.rank(b) == 0,
        decreases b,
    {
        if b > 0 {
            self.lemma_rank_empty(b - 1);
        }
    }

    /// `rank` never decreases, and passing a member adds one.
    pub proof fn lemma_rank_mono(self, b: int, c: int)
        requires
            b <= c,
        ensures
            self.rank(b) <= self.rank(c),
            self.has(b) && b < c ==> self.rank(b) < self.rank(c),
        decreases c - b,
    {
        if b < c {
            self.lemma_rank_mono(b, c - 1);
            if self.has(b) && b < c - 1 {
                self.lemma_rank_mono(b + 1, c - 1);
            }
        }
    }

    /// There are at most `b` members below `b`.
    pub proof fn lemma_rank_le(self, b: int)
        requires
            0 <= b,
        ensures
            self.rank(b) <= b,
        decreases b,
    {
        if b > 0 {
            self.lemma_rank_le(b - 1);
        }
    }

    /// A member's rank is below the count.
    pub proof fn lemma_rank_below_count(self, b: int)
        requires
            self.has(b),
        ensures
            self.rank(b) < self.count(),
    {
        self.lemma_rank_mono(b, 256);
    }

    /// Distinct members have distinct ranks.
    pub proof fn lemma_rank_injective(self, b: int, c: int)
        requires
            self.has(b),
            self.has(c),
            b != c,
        ensures
            self.rank(b) != self.rank(c),
    {
        if b < c {
            self.lemma_rank_mono(b, c);
        } else {
            self.lemma_rank_mono(c, b);
        }
    }

    /// Every rank below the count belongs to some member.
    pub proof fn lemma_rank_onto(self, i: int, c: int)
        requires
            0 <= i < self.rank(c),
            c <= 256,
        ensures
            exists|b: int| 0 <= b < c && self.has(b) && self.rank(b) == i,
        decreases c,
    {
        if i < self.rank(c - 1) {
            self.lemma_rank_onto(i, c - 1);
            let b = choose|b: int| 0 <= b < c - 1 && self.has(b) && self.rank(b) == i;
            assert(0 <= b < c && self.has(b) && self.rank(b) == i);
        } else {
            assert(self.has(c - 1) && self.rank(c - 1) == i);
        }
    }

    /// Whether `b` is a member.
    pub fn test(&self, b: u8) -> (r: bool)
        ensures
            r == self.has(b as int),
    {
        let q = (b / 64) as usize;
        let s = (b % 64) as u64;
        (self.words[q] >> s) & 1u64 == 1u64
    }

    /// The number of members strictly below `b`: the popcounts of the whole
    /// words below the word of `b`, plus the masked popcount of that word.
    pub fn rank_of(&self, b: u8) -> (r: usize)
        ensures
            r == self.rank(b as int),
    {
        let q = (b / 64) as usize;
        let s = (b % 64) as u64;
        let mut n: usize = 0;
        let mut j: usize = 0;
        while j < q
            invariant
                j <= q < 4,
                n == self.words_below(j as int),
                n <= 64 * j,
            decreases q - j,
        {
            proof {
                lemma_bits_below_le(self.words@[j as int], 64);
            }
            n = n + count_ones(self.words[j]) as usize;
            j = j + 1;
        }
        let w = self.words[q];
        assert(1u64 << s >= 1u64) by (bit_vector)
            requires
                s < 64,
        ;
        let mask: u64 = (1u64 << s) - 1u64;
        proof {
            lemma_masked_count(w, s);
            lemma_bits_below_le(w & mask, 64);
            self.lemma_rank_by_words(b as int);
        }
        n + count_ones(w & mask) as usize
    }

    /// Adds `b` to the set.
    pub fn set(&mut self, b: u8)
        ensures
            forall|c: int| #[trigger] final(self).has(c) == (c == b || old(self).has(c)),
            !old(self).has(b as int) ==> forall|c: int|
                0 <= c <= 256 ==> #[trigger] final(self).rank(c) == old(self).rank(c) + if c
                    > b {
                    1int
                } else {
                    0int
                },
            !old(self).has(b as int) ==> final(self).count() == old(self).count() + 1,
    {
        let q = (b / 64) as usize;
        let s = (b % 64) as u64;
        let w = self.words[q];
        self.words[q] = w | (1u64 << s);
        proof {
            let o = *old(self);
            let n = *self;
            assert forall|c: int| #[trigger] n.has(c) == (c == b || o.has(c)) by {
                if 0 <= c < 256 {
                    if c / 64 == q {
                        lemma_or_bit(w, s, (c % 64) as u64);
                    } else {
                        assert(n.words@[c / 64] == o.words@[c / 64]);
                    }
                }
            }
            if !o.has(b as int) {
                assert forall|c: int| 0 <= c <= 256 implies #[trigger] n.rank(c) == o.rank(c)
                    + if c > b {
                    1int
                } else {
                    0int
                } by {
                    lemma_rank_after_insert(o, n, b as int, c);
                }
            }
        }
    }

    /// Removes `b` from the set.
    pub fn clear(&mut self, b: u8)
        ensures
            forall|c: int| #[trigger] final(self).has(c) == (c != b && old(self).has(c)),
            old(self).has(b as int) ==> forall|c: int|
                0 <= c <= 256 ==> #[trigger] final(self).rank(c) + if c > b {
                    1int
                } else {
                    0int
                } == old(self).rank(c),
            old(self).has(b as int) ==> final(self).count() + 1 == old(self).count(),
    {
        let q = (b / 64) as usize;
        let s = (b % 64) as u64;
        let w = self.words[q];
        self.words[q] = w & !(1u64 << s);
        proof {
            let o = *old(self);
            let n = *self;
            assert forall|c: int| #[trigger] n.has(c) == (c != b && o.has(c)) by {
                if 0 <= c < 256 {
                    if c / 64 == q {
                        lemma_and_not_bit(w, s, (c % 64) as u64);
                    } else {
                        assert(n.words@[c / 64] == o.words@[c / 64]);
                    }
                }
            }
            if o.has(b as int) {
                assert forall|c: int| 0 <= c <= 256 implies #[trigger] n.rank(c) + if c > b {
                    1int
                } else {
                    0int
                } == o.rank(c) by {
                    lemma_rank_after_insert(n, o, b as int, c);
                }
            }
        }
    }
}

/// Where `sub` is a subset of `all`, the members of `all` outside `sub` below
/// `c` grow with `c`.
pub proof fn lemma_rank_diff_mono(all: Bitmap, sub: Bitmap, c: int, e: int)
    requires
        forall|d: int| #[trigger] sub.has(d) ==> all.has(d),
        c <= e,
    ensures
        all.rank(c) - sub.rank(c) <= all.rank(e) - sub.rank(e),
    decreases e - c,
{
    if c < e {
        lemma_rank_diff_mono(all, sub, c, e - 1);
        if e - 1 >= 0 {
            assert(sub.has(e - 1) ==> all.has(e - 1));
        }
    }
}

/// Adding a member `b` to `o` (giving `n`) shifts every rank above `b` by one.
proof fn lemma_rank_after_insert(o: Bitmap, n: Bitmap, b: int, c: int)
    requires
        0 <= b < 256,
        !o.has(b),
        forall|d: int| #[trigger] n.has(d) == (d == b || o.has(d)),
        0 <= c,
    ensures
        n.rank(c) == o.rank(c) + if c > b {
            1int
        } else {
            0int
        },
    decreases c,
{
    if c > 0 {
        lemma_rank_after_insert(o, n, b, c - 1);
        assert(n.has(c - 1) == (c - 1 == b || o.has(c - 1)));
    }
}

} // verus!
