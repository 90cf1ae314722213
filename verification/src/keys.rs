//! Byte-wise lexicographic ordering of keys, and the prefix relation used by
//! prefix scans. Keys are byte sequences; the order here is the total order
//! that the memtable keeps its slots in.
use vstd::prelude::*;
use vstd::slice::slice_subrange;

verus! {

/// Strict lexicographic order on byte sequences: the empty sequence comes
/// first, otherwise the first differing byte decides.
pub open spec fn lex_lt(a: Seq<u8>, b: Seq<u8>) -> bool
    decreases a.len(),
{
    if b.len() == 0 {
        false
    } else if a.len() == 0 {
        true
    } else if a[0] < b[0] {
        true
    } else if a[0] > b[0] {
        false
    } else {
        lex_lt(a.drop_first(), b.drop_first())
    }
}

/// `p` is a prefix of `k`: every byte of `p` matches the corresponding byte
/// of `k`. The empty sequence is a prefix of everything.
pub open spec fn is_prefix_of(p: Seq<u8>, k: Seq<u8>) -> bool
    decreases p.len(),
{
    if p.len() == 0 {
        true
    } else if k.len() == 0 {
        false
    } else {
        p[0] == k[0] && is_prefix_of(p.drop_first(), k.drop_first())
    }
}

/// Of two distinct sequences, exactly one is lexicographically below the other.
pub proof fn lemma_lex_trichotomy(a: Seq<u8>, b: Seq<u8>)
    ensures
        lex_lt(a, b) || a == b || lex_lt(b, a),
        lex_lt(a, b) ==> a != b && !lex_lt(b, a),
        a == b ==> !lex_lt(a, b) && !lex_lt(b, a),
    decreases a.len(),
{
    if a.len() == 0 && b.len() == 0 {
        assert(a =~= b);
    } else if a.len() > 0 && b.len() > 0 && a[0] == b[0] {
        lemma_lex_trichotomy(a.drop_first(), b.drop_first());
        if a.drop_first() == b.drop_first() {
            assert forall|i: int| 0 <= i < a.len() implies a[i] == b[i] by {
                if i > 0 {
                    assert(a[i] == a.drop_first()[i - 1]);
                    assert(b[i] == b.drop_first()[i - 1]);
                }
            }
            assert(a =~= b);
        }
        if a == b {
            assert(a.drop_first() =~= b.drop_first());
        }
    } else {
        if a == b && a.len() > 0 {
            assert(a[0] == b[0]);
        }
    }
}

/// Lexicographic order is transitive.
pub proof fn lemma_lex_transitive(a: Seq<u8>, b: Seq<u8>, c: Seq<u8>)
    requires
        lex_lt(a, b),
        lex_lt(b, c),
    ensures
        lex_lt(a, c),
    decreases a.len(),
{
    if a.len() > 0 && b.len() > 0 && c.len() > 0 {
        if a[0] == b[0] && b[0] == c[0] {
            lemma_lex_transitive(a.drop_first(), b.drop_first(), c.drop_first());
        }
    }
}

/// Anything at or above `b` in the order is above everything below `b`.
pub proof fn lemma_lex_lt_le(a: Seq<u8>, b: Seq<u8>, c: Seq<u8>)
    requires
        lex_lt(a, b),
        !lex_lt(c, b),
    ensures
        lex_lt(a, c),
{
    lemma_lex_trichotomy(b, c);
    if b == c {
    } else {
        lemma_lex_transitive(a, b, c);
    }
}

/// A key that carries a prefix is at or above the prefix in the order.
pub proof fn lemma_prefix_ge(p: Seq<u8>, k: Seq<u8>)
    requires
        is_prefix_of(p, k),
    ensures
        !lex_lt(k, p),
    decreases p.len(),
{
    if p.len() > 0 {
        lemma_prefix_ge(p.drop_first(), k.drop_first());
    }
}

/// Keys carrying a given prefix form a contiguous range of the order: once a
/// key at or above `p` fails the prefix test, every later key fails it too.
pub proof fn lemma_prefix_past(p: Seq<u8>, x: Seq<u8>, y: Seq<u8>)
    requires
        !lex_lt(x, p),
        !is_prefix_of(p, x),
        lex_lt(x, y),
    ensures
        !is_prefix_of(p, y),
    decreases p.len(),
{
    if p.len() == 0 {
        // every key carries the empty prefix, so the premises are contradictory
    } else if x.len() == 0 {
        // the empty key is below any nonempty prefix, contradicting the premises
    } else {
        if is_prefix_of(p, y) {
            assert(y.len() > 0 && p[0] == y[0]);
            if x[0] == p[0] {
                if x[0] == y[0] {
                    lemma_prefix_past(p.drop_first(), x.drop_first(), y.drop_first());
                }
            }
        }
    }
}

/// The empty prefix matches every key.
pub proof fn lemma_empty_prefix(k: Seq<u8>)
    ensures
        is_prefix_of(Seq::<u8>::empty(), k),
{
}

/// Outcome of a three-way key comparison.
pub enum KeyOrd {
    Lt,
    Eq,
    Gt,
}

/// Three-way comparison of two keys under the lexicographic order.
pub fn key_cmp(a: &[u8], b: &[u8]) -> (r: KeyOrd)
    ensures
        r is Lt <==> lex_lt(a@, b@),
        r is Eq <==> a@ == b@,
        r is Gt <==> lex_lt(b@, a@),
    decreases a@.len(),
{
    proof {
        lemma_lex_trichotomy(a@, b@);
    }
    if b.len() == 0 {
        if a.len() == 0 {
            assert(a@ =~= b@);
            KeyOrd::Eq
        } else {
            KeyOrd::Gt
        }
    } else if a.len() == 0 {
        KeyOrd::Lt
    } else if a[0] < b[0] {
        KeyOrd::Lt
    } else if a[0] > b[0] {
        KeyOrd::Gt
    } else {
        let r = key_cmp(
            slice_subrange(a, 1, a.len()),
            slice_subrange(b, 1, b.len()),
        );
        proof {
            assert(a@.subrange(1, a@.len() as int) =~= a@.drop_first());
            assert(b@.subrange(1, b@.len() as int) =~= b@.drop_first());
            if a@.drop_first() == b@.drop_first() {
                assert(a@ =~= b@);
            }
            if a@ == b@ {
                assert(a@.drop_first() =~= b@.drop_first());
            }
        }
        r
    }
}

/// Whether `k` begins with the prefix `p`.
pub fn has_prefix(k: &[u8], p: &[u8]) -> (r: bool)
    ensures
        r == is_prefix_of(p@, k@),
    decreases p@.len(),
{
    if p.len() == 0 {
        true
    } else if k.len() == 0 {
        false
    } else if p[0] != k[0] {
        false
    } else {
        let r = has_prefix(
            slice_subrange(k, 1, k.len()),
            slice_subrange(p, 1, p.len()),
        );
        proof {
            assert(k@.subrange(1, k@.len() as int) =~= k@.drop_first());
            assert(p@.subrange(1, p@.len() as int) =~= p@.drop_first());
        }
        r
    }
}

} // verus!
