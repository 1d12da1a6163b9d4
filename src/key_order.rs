use vstd::prelude::*;

verus! {

/// Byte-lexicographic order: `a` comes strictly before `b`.
pub open spec fn lex_lt(a: Seq<u8>, b: Seq<u8>) -> bool
    decreases a.len(),
{
    if a.len() == 0 {
        b.len() > 0
    } else if b.len() == 0 {
        false
    } else if a[0] != b[0] {
        a[0] < b[0]
    } else {
        lex_lt(a.drop_first(), b.drop_first())
    }
}

/// `k` begins with the bytes of `p`.
pub open spec fn has_prefix(k: Seq<u8>, p: Seq<u8>) -> bool {
    p.len() <= k.len() && k.subrange(0, p.len() as int) == p
}

/// Every key comes strictly before every later key.
pub open spec fn strictly_ascending(keys: Seq<Seq<u8>>) -> bool {
    forall|i: int, j: int| 0 <= i < j < keys.len() ==> lex_lt(#[trigger] keys[i], #[trigger] keys[j])
}

proof fn lemma_prefix_drop(k: Seq<u8>, p: Seq<u8>)
    requires
        has_prefix(k, p),
        p.len() > 0,
    ensures
        has_prefix(k.drop_first(), p.drop_first()),
        k[0] == p[0],
{
    assert(k.subrange(0, p.len() as int)[0] == k[0]);
    assert(k.drop_first().subrange(0, p.len() - 1) =~= p.drop_first()) by {
        assert forall|i: int| 0 <= i < p.len() - 1 implies k.drop_first().subrange(0, p.len() - 1)[i]
            == p.drop_first()[i] by {
            assert(k.subrange(0, p.len() as int)[i + 1] == k[i + 1]);
        }
    }
}

/// A non-empty `p` is a prefix of `k` when their first bytes agree and the
/// rest of `p` is a prefix of the rest of `k`; the empty sequence is a prefix
/// of everything.
pub proof fn lemma_prefix_cons(k: Seq<u8>, p: Seq<u8>)
    ensures
        p.len() == 0 ==> has_prefix(k, p),
        k.len() > 0 && p.len() > 0 ==> (has_prefix(k, p) <==> (k[0] == p[0] && has_prefix(
            k.drop_first(),
            p.drop_first(),
        ))),
{
    if p.len() == 0 {
        assert(k.subrange(0, 0) =~= p);
    }
    if k.len() > 0 && p.len() > 0 {
        if has_prefix(k, p) {
            lemma_prefix_drop(k, p);
        }
        if k[0] == p[0] && has_prefix(k.drop_first(), p.drop_first()) {
            assert(k.subrange(0, p.len() as int) =~= p) by {
                assert forall|i: int| 0 <= i < p.len() implies k.subrange(0, p.len() as int)[i]
                    == p[i] by {
                    if i > 0 {
                        assert(k.drop_first().subrange(0, p.len() - 1)[i - 1] == k[i]);
                    }
                }
            }
        }
    }
}

/// A proper prefix comes first.
pub proof fn lemma_lex_prefix(p: Seq<u8>, k: Seq<u8>)
    requires
        has_prefix(k, p),
        k.len() > p.len(),
    ensures
        lex_lt(p, k),
    decreases p.len(),
{
    if p.len() > 0 {
        lemma_prefix_drop(k, p);
        lemma_lex_prefix(p.drop_first(), k.drop_first());
    }
}

/// Keys that share `p` and differ right after it are ordered by that byte.
pub proof fn lemma_lex_branch(p: Seq<u8>, a: Seq<u8>, b: Seq<u8>)
    requires
        has_prefix(a, p),
        has_prefix(b, p),
        a.len() > p.len(),
        b.len() > p.len(),
        a[p.len() as int] < b[p.len() as int],
    ensures
        lex_lt(a, b),
    decreases p.len(),
{
    if p.len() > 0 {
        lemma_prefix_drop(a, p);
        lemma_prefix_drop(b, p);
        lemma_lex_branch(p.drop_first(), a.drop_first(), b.drop_first());
    }
}

/// `lex_lt` never holds both ways, nor between equal keys.
pub proof fn lemma_lex_asymmetric(a: Seq<u8>, b: Seq<u8>)
    ensures
        !(lex_lt(a, b) && lex_lt(b, a)),
        !lex_lt(a, a),
    decreases a.len(),
{
    if a.len() > 0 && b.len() > 0 && a[0] == b[0] {
        lemma_lex_asymmetric(a.drop_first(), b.drop_first());
    }
    if a.len() > 0 {
        lemma_lex_asymmetric(a.drop_first(), a.drop_first());
    }
}

} // verus!
