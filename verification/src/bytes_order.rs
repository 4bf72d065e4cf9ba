//! Lexicographic order on byte strings, the order of the term dictionary.
//! For UTF-8 text it is the order `str` comparisons use.

use vstd::prelude::*;

verus! {

/// The outcome of comparing two byte strings.
#[derive(Debug, Clone, Copy, PartialEq, Eq, Structural)]
pub enum Comparison {
    Less,
    Equal,
    Greater,
}

/// Whether `a` comes before `b`: at the first position where they differ `a`
/// has the smaller byte, or `a` is a proper prefix of `b`.
pub open spec fn lex_less(a: Seq<u8>, b: Seq<u8>) -> bool
    decreases a.len(),
{
    if a.len() == 0 {
        b.len() > 0
    } else if b.len() == 0 {
        false
    } else if a[0] != b[0] {
        a[0] < b[0]
    } else {
        lex_less(a.drop_first(), b.drop_first())
    }
}

/// The comparison of `a` with `b`.
pub open spec fn spec_compare(a: Seq<u8>, b: Seq<u8>) -> Comparison {
    if a == b {
        Comparison::Equal
    } else if lex_less(a, b) {
        Comparison::Less
    } else {
        Comparison::Greater
    }
}

/// The order is irreflexive, antisymmetric, transitive and total.
pub proof fn lemma_lex_order(a: Seq<u8>, b: Seq<u8>, c: Seq<u8>)
    ensures
        !lex_less(a, a),
        lex_less(a, b) ==> !lex_less(b, a),
        lex_less(a, b) && lex_less(b, c) ==> lex_less(a, c),
        a == b || lex_less(a, b) || lex_less(b, a),
    decreases a.len(),
{
    if a.len() > 0 && b.len() > 0 && c.len() > 0 {
        lemma_lex_order(a.drop_first(), b.drop_first(), c.drop_first());
    } else if a.len() > 0 && b.len() > 0 {
        lemma_lex_order(a.drop_first(), b.drop_first(), b.drop_first());
    } else if a.len() > 0 {
        lemma_lex_order(a.drop_first(), a.drop_first(), a.drop_first());
    }
    if a.len() > 0 && b.len() > 0 && a[0] == b[0] && a.drop_first() == b.drop_first() {
        assert(a =~= seq![a[0]] + a.drop_first());
        assert(b =~= seq![b[0]] + b.drop_first());
    }
    if a.len() == 0 && b.len() == 0 {
        assert(a =~= b);
    }
}

/// Compares two byte strings lexicographically.
pub fn compare_bytes(a: &[u8], b: &[u8]) -> (result: Comparison)
    ensures
        result == spec_compare(a@, b@),
{
    let mut i: usize = 0;
    let a_length = a.len();
    let b_length = b.len();
    assert(a@.subrange(0, a_length as int) =~= a@);
    assert(b@.subrange(0, b_length as int) =~= b@);
    while i < a_length && i < b_length
        invariant
            a_length == a@.len(),
            b_length == b@.len(),
            i <= a_length,
            i <= b_length,
            a@.subrange(0, i as int) == b@.subrange(0, i as int),
            lex_less(a@, b@) == lex_less(
                a@.subrange(i as int, a_length as int),
                b@.subrange(i as int, b_length as int),
            ),
            lex_less(b@, a@) == lex_less(
                b@.subrange(i as int, b_length as int),
                a@.subrange(i as int, a_length as int),
            ),
        decreases a_length - i,
    {
        let ghost rest_a = a@.subrange(i as int, a_length as int);
        let ghost rest_b = b@.subrange(i as int, b_length as int);
        assert(rest_a.drop_first() =~= a@.subrange(i + 1, a_length as int));
        assert(rest_b.drop_first() =~= b@.subrange(i + 1, b_length as int));
        if a[i] < b[i] {
            assert(a@ != b@) by {
                assert(a@[i as int] != b@[i as int]);
            }
            return Comparison::Less;
        }
        if a[i] > b[i] {
            proof {
                lemma_lex_order(a@, b@, b@);
            }
            assert(a@ != b@) by {
                assert(a@[i as int] != b@[i as int]);
            }
            return Comparison::Greater;
        }
        assert(a@.subrange(0, i + 1) =~= b@.subrange(0, i + 1)) by {
            assert(a@.subrange(0, i + 1) =~= a@.subrange(0, i as int).push(a@[i as int]));
            assert(b@.subrange(0, i + 1) =~= b@.subrange(0, i as int).push(b@[i as int]));
        }
        i = i + 1;
    }
    if a_length == b_length {
        assert(a@ =~= a@.subrange(0, i as int));
        assert(b@ =~= b@.subrange(0, i as int));
        return Comparison::Equal;
    }
    if a_length < b_length {
        assert(a@.len() != b@.len());
        Comparison::Less
    } else {
        assert(a@.len() != b@.len());
        proof {
            lemma_lex_order(a@, b@, b@);
        }
        Comparison::Greater
    }
}

/// Whether the byte strings `keys` strictly increase.
pub open spec fn strictly_increasing(keys: Seq<Seq<u8>>) -> bool {
    forall|i: int, j: int| 0 <= i < j < keys.len() ==> lex_less(#[trigger] keys[i], #[trigger] keys[j])
}

} // verus!
