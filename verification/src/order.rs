//! Lexicographic order, as file names and keys are sorted.

use vstd::prelude::*;

verus! {

/// Does `a` come before `b`, or are they equal? The first place where they
/// differ decides; a sequence comes before its extensions.
pub open spec fn lex_le(a: Seq<int>, b: Seq<int>) -> bool
    decreases a.len(),
{
    if a.len() == 0 {
        true
    } else if b.len() == 0 {
        false
    } else if a[0] == b[0] {
        lex_le(a.skip(1), b.skip(1))
    } else {
        a[0] < b[0]
    }
}

/// Does `a` come strictly before `b`?
pub open spec fn lex_lt(a: Seq<int>, b: Seq<int>) -> bool {
    lex_le(a, b) && a != b
}

/// The values of some bytes.
pub open spec fn values(s: Seq<u8>) -> Seq<int> {
    s.map_values(|b: u8| b as int)
}

pub proof fn lemma_lex_reflexive(a: Seq<int>)
    ensures
        lex_le(a, a),
    decreases a.len(),
{
    if a.len() > 0 {
        lemma_lex_reflexive(a.skip(1));
    }
}

pub proof fn lemma_lex_total(a: Seq<int>, b: Seq<int>)
    ensures
        lex_le(a, b) || lex_le(b, a),
    decreases a.len(),
{
    if a.len() > 0 && b.len() > 0 {
        lemma_lex_total(a.skip(1), b.skip(1));
    }
}

pub proof fn lemma_lex_antisymmetric(a: Seq<int>, b: Seq<int>)
    requires
        lex_le(a, b),
        lex_le(b, a),
    ensures
        a == b,
    decreases a.len(),
{
    if a.len() > 0 {
        lemma_lex_antisymmetric(a.skip(1), b.skip(1));
        assert forall|i: int| 0 <= i < a.len() implies a[i] == b[i] by {
            if i > 0 {
                assert(a[i] == a.skip(1)[i - 1]);
                assert(b[i] == b.skip(1)[i - 1]);
            }
        }
        assert(a.skip(1).len() == b.skip(1).len());
    }
    assert(a =~= b);
}

pub proof fn lemma_lex_transitive(a: Seq<int>, b: Seq<int>, c: Seq<int>)
    requires
        lex_le(a, b),
        lex_le(b, c),
    ensures
        lex_le(a, c),
    decreases a.len(),
{
    if a.len() > 0 && a[0] == b[0] && b[0] == c[0] {
        lemma_lex_transitive(a.skip(1), b.skip(1), c.skip(1));
    }
}

/// Strict order chains.
pub proof fn lemma_lex_lt_transitive(a: Seq<int>, b: Seq<int>, c: Seq<int>)
    requires
        lex_le(a, b),
        lex_lt(b, c),
    ensures
        lex_lt(a, c),
{
    lemma_lex_transitive(a, b, c);
    if a == c {
        lemma_lex_antisymmetric(b, c);
    }
}

/// Equal byte sequences are those with equal values.
pub proof fn lemma_values_injective(a: Seq<u8>, b: Seq<u8>)
    requires
        values(a) == values(b),
    ensures
        a == b,
{
    assert(a.len() == values(a).len());
    assert(b.len() == values(b).len());
    assert forall|i: int| 0 <= i < a.len() implies a[i] == b[i] by {
        assert(values(a)[i] == a[i] as int);
        assert(values(b)[i] == b[i] as int);
    }
    assert(a =~= b);
}

/// Do the bytes `a` come before `b`, or are they equal?
pub fn bytes_le(a: &[u8], b: &[u8]) -> (r: bool)
    ensures
        r == lex_le(values(a@), values(b@)),
{
    let mut i: usize = 0;
    let ghost ca = values(a@);
    let ghost cb = values(b@);
    assert(ca.skip(0) =~= ca);
    assert(cb.skip(0) =~= cb);
    loop
        invariant
            i <= a@.len(),
            i <= b@.len(),
            ca == values(a@),
            cb == values(b@),
            lex_le(ca, cb) == lex_le(ca.skip(i as int), cb.skip(i as int)),
        decreases a@.len() - i,
    {
        if i == a.len() {
            return true;
        }
        if i == b.len() {
            return false;
        }
        assert(ca.skip(i as int)[0] == a@[i as int] as int);
        assert(cb.skip(i as int)[0] == b@[i as int] as int);
        if a[i] != b[i] {
            return a[i] < b[i];
        }
        assert(ca.skip(i as int).skip(1) =~= ca.skip(i + 1));
        assert(cb.skip(i as int).skip(1) =~= cb.skip(i + 1));
        i += 1;
    }
}

} // verus!
