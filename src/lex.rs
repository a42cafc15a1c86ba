use vstd::prelude::*;

verus! {

/// `a` and `b` agree on their first `n` bytes.
pub open spec fn agree_upto(a: Seq<u8>, b: Seq<u8>, n: int) -> bool {
    &&& 0 <= n <= a.len()
    &&& n <= b.len()
    &&& forall|k: int| 0 <= k < n ==> a[k] == b[k]
}

/// `a` sorts before `b` when first differing at position `i`, or when `a` is a
/// proper prefix of `b` (`i == a.len()`).
pub open spec fn lex_lt_at(a: Seq<u8>, b: Seq<u8>, i: int) -> bool {
    &&& agree_upto(a, b, i)
    &&& ((i < a.len() && i < b.len() && a[i] < b[i]) || (i == a.len() && i < b.len()))
}

/// Strict lexicographic order on byte strings.
pub open spec fn lex_lt(a: Seq<u8>, b: Seq<u8>) -> bool {
    exists|i: int| lex_lt_at(a, b, i)
}

/// `p` is a prefix of `s`.
pub open spec fn is_prefix(p: Seq<u8>, s: Seq<u8>) -> bool {
    p.len() <= s.len() && s.subrange(0, p.len() as int) == p
}

pub proof fn lemma_lex_irreflexive(a: Seq<u8>)
    ensures
        !lex_lt(a, a),
{
}

pub proof fn lemma_lex_transitive(a: Seq<u8>, b: Seq<u8>, c: Seq<u8>)
    requires
        lex_lt(a, b),
        lex_lt(b, c),
    ensures
        lex_lt(a, c),
{
    let i = choose|i: int| lex_lt_at(a, b, i);
    let j = choose|j: int| lex_lt_at(b, c, j);
    if i < j {
        assert(lex_lt_at(a, c, i));
    } else if j < i {
        assert(lex_lt_at(a, c, j));
    } else {
        assert(lex_lt_at(a, c, i));
    }
}

pub proof fn lemma_lex_asymmetric(a: Seq<u8>, b: Seq<u8>)
    requires
        lex_lt(a, b),
    ensures
        !lex_lt(b, a),
        a != b,
{
    if lex_lt(b, a) {
        lemma_lex_transitive(a, b, a);
    }
}

/// Three-way comparison of byte strings: negative, zero or positive.
pub fn compare_bytes(a: &[u8], b: &[u8]) -> (r: i8)
    ensures
        r < 0 <==> lex_lt(a@, b@),
        r == 0 <==> a@ == b@,
        r > 0 <==> lex_lt(b@, a@),
{
    let mut i: usize = 0;
    while i < a.len() && i < b.len() && a[i] == b[i]
        invariant
            agree_upto(a@, b@, i as int),
        decreases a.len() - i,
    {
        i = i + 1;
    }
    if i < a.len() && i < b.len() {
        if a[i] < b[i] {
            assert(lex_lt_at(a@, b@, i as int));
            proof { lemma_lex_asymmetric(a@, b@); }
            -1
        } else {
            assert(lex_lt_at(b@, a@, i as int));
            proof { lemma_lex_asymmetric(b@, a@); }
            1
        }
    } else if i < b.len() {
        assert(lex_lt_at(a@, b@, i as int));
        proof { lemma_lex_asymmetric(a@, b@); }
        -1
    } else if i < a.len() {
        assert(lex_lt_at(b@, a@, i as int));
        proof { lemma_lex_asymmetric(b@, a@); }
        1
    } else {
        assert(a@ =~= b@);
        proof { lemma_lex_irreflexive(a@); }
        0
    }
}

/// Tells whether `p` is a prefix of `s`.
pub fn starts_with(s: &[u8], p: &[u8]) -> (r: bool)
    ensures
        r == is_prefix(p@, s@),
{
    if p.len() > s.len() {
        return false;
    }
    let mut i: usize = 0;
    while i < p.len()
        invariant
            p@.len() <= s@.len(),
            0 <= i <= p@.len(),
            forall|k: int| 0 <= k < i ==> s@[k] == p@[k],
        decreases p.len() - i,
    {
        if s[i] != p[i] {
            assert(s@.subrange(0, p@.len() as int)[i as int] != p@[i as int]);
            return false;
        }
        i = i + 1;
    }
    assert(s@.subrange(0, p@.len() as int) =~= p@);
    true
}

} // verus!
