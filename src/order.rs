//! Lexicographic order on interval profiles.
use vstd::prelude::*;

verus! {

/// `a` precedes `b` in lexicographic order, looking from position `i` on:
/// the first position where they differ decides, and a proper prefix comes first.
pub open spec fn lex_less_from(a: Seq<i8>, b: Seq<i8>, i: int) -> bool
    decreases a.len() - i,
{
    if b.len() <= i {
        false
    } else if a.len() <= i {
        true
    } else if a[i] != b[i] {
        a[i] < b[i]
    } else {
        lex_less_from(a, b, i + 1)
    }
}

/// `a` comes strictly before `b` in lexicographic order.
pub open spec fn lex_less(a: Seq<i8>, b: Seq<i8>) -> bool {
    lex_less_from(a, b, 0)
}

/// Asymmetry, from position `i` on.
proof fn lemma_lex_from_asymmetric(a: Seq<i8>, b: Seq<i8>, i: int)
    requires
        0 <= i,
        lex_less_from(a, b, i),
    ensures
        !lex_less_from(b, a, i),
    decreases a.len() - i,
{
    if i < a.len() && i < b.len() && a[i] == b[i] {
        lemma_lex_from_asymmetric(a, b, i + 1);
    }
}

/// Transitivity, from position `i` on.
proof fn lemma_lex_from_transitive(a: Seq<i8>, b: Seq<i8>, c: Seq<i8>, i: int)
    requires
        0 <= i,
        lex_less_from(a, b, i),
        lex_less_from(b, c, i),
    ensures
        lex_less_from(a, c, i),
    decreases a.len() - i,
{
    if i < a.len() && a[i] == b[i] && b[i] == c[i] {
        lemma_lex_from_transitive(a, b, c, i + 1);
    }
}

/// Two sequences equal below `i`, neither preceding the other from `i` on, are equal.
proof fn lemma_lex_from_total(a: Seq<i8>, b: Seq<i8>, i: int)
    requires
        0 <= i <= a.len(),
        i <= b.len(),
        forall|k: int| 0 <= k < i ==> a[k] == b[k],
        !lex_less_from(a, b, i),
        !lex_less_from(b, a, i),
    ensures
        a == b,
    decreases a.len() - i,
{
    if i < a.len() {
        lemma_lex_from_total(a, b, i + 1);
    } else {
        assert(a =~= b);
    }
}

/// No sequence precedes itself, and of two sequences at most one precedes the other.
pub proof fn lemma_lex_asymmetric(a: Seq<i8>, b: Seq<i8>)
    requires
        lex_less(a, b),
    ensures
        !lex_less(b, a),
{
    lemma_lex_from_asymmetric(a, b, 0);
}

/// No sequence precedes itself.
pub proof fn lemma_lex_irreflexive(a: Seq<i8>)
    ensures
        !lex_less(a, a),
{
    if lex_less(a, a) {
        lemma_lex_asymmetric(a, a);
    }
}

/// Lexicographic precedence is transitive.
pub proof fn lemma_lex_transitive(a: Seq<i8>, b: Seq<i8>, c: Seq<i8>)
    requires
        lex_less(a, b),
        lex_less(b, c),
    ensures
        lex_less(a, c),
{
    lemma_lex_from_transitive(a, b, c, 0);
}

/// Two sequences neither of which precedes the other are equal.
pub proof fn lemma_lex_total(a: Seq<i8>, b: Seq<i8>)
    requires
        !lex_less(a, b),
        !lex_less(b, a),
    ensures
        a == b,
{
    lemma_lex_from_total(a, b, 0);
}

/// Whether `a` comes strictly before `b` in lexicographic order.
pub fn precedes(a: &Vec<i8>, b: &Vec<i8>) -> (r: bool)
    ensures
        r == lex_less(a@, b@),
{
    let mut i: usize = 0;
    while i < a.len() && i < b.len() && a[i] == b[i]
        invariant
            i <= a@.len(),
            i <= b@.len(),
            lex_less(a@, b@) == lex_less_from(a@, b@, i as int),
        decreases a@.len() - i,
    {
        i += 1;
    }
    if i >= b.len() {
        false
    } else if i >= a.len() {
        true
    } else {
        a[i] < b[i]
    }
}

} // verus!
