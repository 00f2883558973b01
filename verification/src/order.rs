//! The byte order of indexes: byte strings compared lexicographically.

use vstd::prelude::*;

verus! {

/// `a` comes strictly before `b`: at the first position where they differ
/// `a` has the smaller byte, or `a` is a proper prefix of `b`.
pub open spec fn lex_lt(a: Seq<u8>, b: Seq<u8>) -> bool
    decreases a.len(),
{
    if b.len() == 0 {
        false
    } else if a.len() == 0 {
        true
    } else if a[0] != b[0] {
        a[0] < b[0]
    } else {
        lex_lt(a.drop_first(), b.drop_first())
    }
}

/// No byte string comes before itself.
pub proof fn lemma_lex_irreflexive(a: Seq<u8>)
    ensures
        !lex_lt(a, a),
    decreases a.len(),
{
    if a.len() > 0 {
        lemma_lex_irreflexive(a.drop_first());
    }
}

/// Of two byte strings, at most one comes before the other.
pub proof fn lemma_lex_asymmetric(a: Seq<u8>, b: Seq<u8>)
    requires
        lex_lt(a, b),
    ensures
        !lex_lt(b, a),
        a != b,
    decreases a.len(),
{
    if a.len() > 0 && b.len() > 0 && a[0] == b[0] {
        lemma_lex_asymmetric(a.drop_first(), b.drop_first());
    }
    lemma_lex_irreflexive(a);
}

/// The order is transitive.
pub proof fn lemma_lex_transitive(a: Seq<u8>, b: Seq<u8>, c: Seq<u8>)
    requires
        lex_lt(a, b),
        lex_lt(b, c),
    ensures
        lex_lt(a, c),
    decreases a.len(),
{
    if a.len() > 0 && b.len() > 0 && c.len() > 0 && a[0] == b[0] && b[0] == c[0] {
        lemma_lex_transitive(a.drop_first(), b.drop_first(), c.drop_first());
    }
}

/// The order is total: two different byte strings are ordered one way or
/// the other.
pub proof fn lemma_lex_total(a: Seq<u8>, b: Seq<u8>)
    ensures
        lex_lt(a, b) || a == b || lex_lt(b, a),
    decreases a.len(),
{
    if a.len() == 0 || b.len() == 0 {
        if a.len() == 0 && b.len() == 0 {
            assert(a =~= b);
        }
    } else if a[0] == b[0] {
        lemma_lex_total(a.drop_first(), b.drop_first());
        if a.drop_first() == b.drop_first() {
            assert(a =~= seq![a[0]] + a.drop_first());
        }
    }
}

/// How one byte string stands to another in the byte order.
#[derive(Clone, Copy, Debug, PartialEq, Eq, Structural)]
pub enum ByteOrder {
    /// The first comes before the second.
    Before,
    /// They are the same byte string.
    Same,
    /// The first comes after the second.
    After,
}

/// Compares two byte strings in the byte order.
pub fn compare_bytes(a: &Vec<u8>, b: &Vec<u8>) -> (order: ByteOrder)
    ensures
        order == ByteOrder::Before <==> lex_lt(a@, b@),
        order == ByteOrder::Same <==> a@ == b@,
        order == ByteOrder::After <==> lex_lt(b@, a@),
{
    let mut i: usize = 0;
    proof {
        assert(a@.skip(0) =~= a@);
        assert(b@.skip(0) =~= b@);
    }
    while i < a.len() && i < b.len()
        invariant
            i <= a.len(),
            i <= b.len(),
            a@.take(i as int) == b@.take(i as int),
            lex_lt(a@, b@) == lex_lt(a@.skip(i as int), b@.skip(i as int)),
            lex_lt(b@, a@) == lex_lt(b@.skip(i as int), a@.skip(i as int)),
        decreases a.len() - i,
    {
        proof {
            assert(a@.skip(i as int).drop_first() =~= a@.skip(i + 1));
            assert(b@.skip(i as int).drop_first() =~= b@.skip(i + 1));
        }
        if a[i] < b[i] {
            proof {
                lemma_lex_asymmetric(a@, b@);
            }
            return ByteOrder::Before;
        }
        if a[i] > b[i] {
            proof {
                lemma_lex_asymmetric(b@, a@);
            }
            return ByteOrder::After;
        }
        proof {
            assert(a@.take(i + 1) =~= a@.take(i as int).push(a@[i as int]));
        }
        i += 1;
    }
    if a.len() < b.len() {
        proof {
            lemma_lex_asymmetric(a@, b@);
        }
        ByteOrder::Before
    } else if a.len() > b.len() {
        proof {
            lemma_lex_asymmetric(b@, a@);
        }
        ByteOrder::After
    } else {
        proof {
            lemma_lex_irreflexive(a@);
        }
        ByteOrder::Same
    }
}

} // verus!
