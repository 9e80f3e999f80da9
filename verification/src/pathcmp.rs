//! Lexicographic ordering of canonical paths, represented as byte strings.
//!
//! Snapshots iterate their entries in this order, which makes diffing
//! deterministic.
use vstd::prelude::*;

verus! {

/// Outcome of comparing two paths lexicographically.
#[derive(Clone, Copy, PartialEq, Eq, Structural, Debug)]
pub enum PathOrdering {
    Less,
    Equal,
    Greater,
}

/// Strict lexicographic order on byte strings: `a` comes before `b`.
pub open spec fn lex_lt(a: Seq<u8>, b: Seq<u8>) -> bool
    decreases a.len(),
{
    if b.len() == 0 {
        false
    } else if a.len() == 0 {
        true
    } else if a[0] < b[0] {
        true
    } else if a[0] > b[0] {
        false
    } else {
        lex_lt(a.skip(1), b.skip(1))
    }
}

/// No byte string comes before itself.
pub proof fn lemma_lex_lt_irreflexive(a: Seq<u8>)
    ensures
        !lex_lt(a, a),
    decreases a.len(),
{
    if a.len() > 0 {
        lemma_lex_lt_irreflexive(a.skip(1));
    }
}

/// The order is asymmetric: at most one of `a < b`, `b < a` holds.
pub proof fn lemma_lex_lt_asymmetric(a: Seq<u8>, b: Seq<u8>)
    requires
        lex_lt(a, b),
    ensures
        !lex_lt(b, a),
    decreases a.len(),
{
    if a.len() > 0 && b.len() > 0 && a[0] == b[0] {
        lemma_lex_lt_asymmetric(a.skip(1), b.skip(1));
    }
}

/// Strictly ordered byte strings are distinct.
pub proof fn lemma_lex_lt_neq(a: Seq<u8>, b: Seq<u8>)
    requires
        lex_lt(a, b),
    ensures
        a != b,
{
    if a == b {
        lemma_lex_lt_irreflexive(a);
    }
}

/// The order is transitive.
pub proof fn lemma_lex_lt_transitive(a: Seq<u8>, b: Seq<u8>, c: Seq<u8>)
    requires
        lex_lt(a, b),
        lex_lt(b, c),
    ensures
        lex_lt(a, c),
    decreases a.len(),
{
    if b.len() > 0 && c.len() > 0 {
        if a.len() > 0 {
            if a[0] == b[0] && b[0] == c[0] {
                lemma_lex_lt_transitive(a.skip(1), b.skip(1), c.skip(1));
            }
        }
    }
}

/// Non-strict lexicographic order.
pub open spec fn lex_le(a: Seq<u8>, b: Seq<u8>) -> bool {
    lex_lt(a, b) || a == b
}

/// The order is total: two byte strings are equal or one comes first.
pub proof fn lemma_lex_lt_total(a: Seq<u8>, b: Seq<u8>)
    ensures
        a == b || lex_lt(a, b) || lex_lt(b, a),
    decreases a.len(),
{
    if a.len() > 0 && b.len() > 0 && a[0] == b[0] {
        lemma_lex_lt_total(a.skip(1), b.skip(1));
        if a.skip(1) == b.skip(1) {
            assert forall|i: int| 0 <= i < a.len() implies a[i] == b[i] by {
                if i > 0 {
                    assert(a.skip(1)[i - 1] == a[i]);
                    assert(b.skip(1)[i - 1] == b[i]);
                }
            }
            assert(a =~= b);
        }
    }
}

/// Compares two paths byte by byte, reporting their lexicographic order.
pub fn lex_compare(a: &Vec<u8>, b: &Vec<u8>) -> (r: PathOrdering)
    ensures
        (r == PathOrdering::Less) == lex_lt(a@, b@),
        (r == PathOrdering::Equal) == (a@ == b@),
        (r == PathOrdering::Greater) == lex_lt(b@, a@),
{
    let a_len = a.len();
    let b_len = b.len();
    let mut i: usize = 0;
    proof {
        assert(a@.skip(0) =~= a@);
        assert(b@.skip(0) =~= b@);
    }
    while i < a_len && i < b_len
        invariant
            i <= a_len,
            i <= b_len,
            a_len == a@.len(),
            b_len == b@.len(),
            a@.subrange(0, i as int) == b@.subrange(0, i as int),
            lex_lt(a@, b@) == lex_lt(a@.skip(i as int), b@.skip(i as int)),
            lex_lt(b@, a@) == lex_lt(b@.skip(i as int), a@.skip(i as int)),
        decreases a_len - i,
    {
        let x = a[i];
        let y = b[i];
        if x < y {
            proof {
                lemma_lex_lt_asymmetric(a@.skip(i as int), b@.skip(i as int));
                lemma_lex_lt_neq(a@, b@);
            }
            return PathOrdering::Less;
        }
        if x > y {
            proof {
                lemma_lex_lt_asymmetric(b@.skip(i as int), a@.skip(i as int));
                lemma_lex_lt_neq(b@, a@);
            }
            return PathOrdering::Greater;
        }
        proof {
            assert(a@.skip(i as int).skip(1) =~= a@.skip(i + 1));
            assert(b@.skip(i as int).skip(1) =~= b@.skip(i + 1));
            assert(a@.subrange(0, i + 1) =~= a@.subrange(0, i as int).push(a@[i as int]));
            assert(b@.subrange(0, i + 1) =~= b@.subrange(0, i as int).push(b@[i as int]));
        }
        i = i + 1;
    }
    if a_len < b_len {
        proof {
            lemma_lex_lt_asymmetric(a@.skip(i as int), b@.skip(i as int));
            lemma_lex_lt_neq(a@, b@);
        }
        PathOrdering::Less
    } else if a_len > b_len {
        proof {
            lemma_lex_lt_asymmetric(b@.skip(i as int), a@.skip(i as int));
            lemma_lex_lt_neq(b@, a@);
        }
        PathOrdering::Greater
    } else {
        proof {
            assert(a@ =~= b@);
            lemma_lex_lt_irreflexive(a@);
        }
        PathOrdering::Equal
    }
}

} // verus!
