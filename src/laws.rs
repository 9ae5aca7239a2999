//! Laws that relate the operations to one another, proved over the model.
use vstd::prelude::*;
use crate::pitch::{pc, in_range, inverted, transposed, rotated, zeroed, intervals_of};
use crate::canon::{distinct_ascending, normal_of, reduced_of, prime_of, lemma_members_from};
use crate::census::{
    class_count, class_pairs_below, class_total, sum_count, sum_pairs_below, sum_total,
    interval_class,
};
use crate::order::{lex_less, lemma_lex_asymmetric, lemma_lex_total};

verus! {

/// Inverting twice gives back a set whose elements lie in `[0, 12)`.
pub proof fn law_invert_involution(s: Seq<i8>)
    requires
        in_range(s),
    ensures
        inverted(inverted(s)) == s,
{
    assert(inverted(inverted(s)) =~= s);
}

/// Transposing by `n` and then by `-n` gives back the set reduced modulo 12,
/// which is the set itself when its elements lie in `[0, 12)`.
pub proof fn law_transpose_round_trip(s: Seq<i8>, n: int)
    ensures
        transposed(transposed(s, n), -n) == transposed(s, 0),
        in_range(s) ==> transposed(transposed(s, n), -n) == s,
{
    assert forall|i: int| 0 <= i < s.len() implies pc(pc(s[i] + n) - n) == pc(s[i] as int) by {
        let x = s[i] as int;
        vstd::arithmetic::div_mod::lemma_add_mod_noop(x + n, -n, 12);
        vstd::arithmetic::div_mod::lemma_add_mod_noop_right((x + n) % 12, -n, 12);
    }
    assert(transposed(transposed(s, n), -n) =~= transposed(s, 0));
    if in_range(s) {
        assert(transposed(s, 0) =~= s);
    }
}

/// A rotation of a sequence has the same members as the sequence.
proof fn lemma_rotation_same_members(s: Seq<i8>, k: int)
    ensures
        rotated(s, k).to_set() == s.to_set(),
{
    let r = rotated(s, k);
    let n = s.len() as int;
    assert forall|x: i8| r.contains(x) <==> s.contains(x) by {
        if r.contains(x) {
            let i = choose|i: int| 0 <= i < r.len() && r[i] == x;
            vstd::arithmetic::div_mod::lemma_mod_bound(i + k, n);
            assert(s[(i + k) % n] == x);
        }
        if s.contains(x) {
            let j = choose|j: int| 0 <= j < n && s[j] == x;
            let i = (j - k) % n;
            vstd::arithmetic::div_mod::lemma_mod_bound(j - k, n);
            vstd::arithmetic::div_mod::lemma_add_mod_noop_right(k, j - k, n);
            vstd::arithmetic::div_mod::lemma_small_mod(j as nat, n as nat);
            assert((i + k) % n == j);
            assert(r[i] == x);
        }
    }
    assert(r.to_set() =~= s.to_set());
}

/// The normal order does not depend on how the set is rotated.
pub proof fn law_normal_rotation_invariant(s: Seq<i8>, k: int)
    ensures
        normal_of(rotated(s, k)) == normal_of(s),
{
    lemma_rotation_same_members(s, k);
}

/// A reduced form lies in `[0, 12)` and starts at 0.
proof fn lemma_zeroed_shape(y: Seq<i8>)
    ensures
        in_range(zeroed(y)),
        zeroed(y).len() == y.len(),
        y.len() > 0 ==> zeroed(y)[0] == 0,
{
}

/// Two reduced forms with the same interval profile are equal.
proof fn lemma_profile_determines_zeroed(a: Seq<i8>, b: Seq<i8>)
    requires
        intervals_of(zeroed(a)) == intervals_of(zeroed(b)),
    ensures
        zeroed(a) == zeroed(b),
{
    let x = zeroed(a);
    let y = zeroed(b);
    lemma_zeroed_shape(a);
    lemma_zeroed_shape(b);
    assert(intervals_of(x).len() == x.len());
    assert(intervals_of(y).len() == y.len());
    if x.len() > 0 {
        let n = x.len() as int;
        assert forall|i: int| 0 <= i < n implies x[i] == y[i] by {
            assert(intervals_of(x)[n - 1 - i] == pc(x[i] - x[0]) as i8);
            assert(intervals_of(y)[n - 1 - i] == pc(y[i] - y[0]) as i8);
        }
    }
    assert(x =~= y);
}

/// The prime form does not change under inversion, for sets whose elements lie in `[0, 12)`.
pub proof fn law_prime_inversion_invariant(s: Seq<i8>)
    requires
        in_range(s),
    ensures
        prime_of(s) == prime_of(inverted(s)),
{
    law_invert_involution(s);
    let a = reduced_of(s);
    let b = reduced_of(inverted(s));
    if lex_less(intervals_of(b), intervals_of(a)) {
        lemma_lex_asymmetric(intervals_of(b), intervals_of(a));
    } else if !lex_less(intervals_of(a), intervals_of(b)) {
        lemma_lex_total(intervals_of(a), intervals_of(b));
        lemma_profile_determines_zeroed(normal_of(s), normal_of(inverted(s)));
    }
}

/// The reduced form of a non-empty set is non-empty and starts at 0.
pub proof fn law_reduced_starts_at_zero(s: Seq<i8>)
    requires
        s.len() > 0,
    ensures
        zeroed(normal_of(s)).len() > 0,
        zeroed(normal_of(s))[0] == 0,
{
    lemma_members_from(s.to_set(), -128);
    assert(s.to_set().contains(s[0]));
    assert(distinct_ascending(s).contains(s[0]));
    lemma_zeroed_shape(normal_of(s));
}

/// The six interval-class counts over `t` against `h`.
spec fn class_row(h: i8, t: Seq<i8>) -> nat {
    class_count(h, t, 1) + class_count(h, t, 2) + class_count(h, t, 3) + class_count(h, t, 4)
        + class_count(h, t, 5) + class_count(h, t, 6)
}

/// Against an element of another residue, every element of `t` falls in one of the six classes.
proof fn lemma_class_row(h: i8, t: Seq<i8>)
    requires
        forall|j: int| 0 <= j < t.len() ==> pc(#[trigger] t[j] as int) != pc(h as int),
    ensures
        class_row(h, t) == t.len(),
    decreases t.len(),
{
    if t.len() > 0 {
        lemma_class_row(h, t.drop_last());
        let x = t.last();
        vstd::arithmetic::div_mod::lemma_sub_mod_noop(x as int, h as int, 12);
        assert(1 <= interval_class(h, x) <= 6);
    }
}

/// Twice the pairs counted below `k`, over all six classes, when no two elements share a residue.
proof fn lemma_class_pairs_total(s: Seq<i8>, k: int)
    requires
        0 <= k <= s.len(),
        forall|i: int, j: int| 0 <= i < j < s.len() ==> pc(s[i] as int) != pc(s[j] as int),
    ensures
        2 * (class_pairs_below(s, k, 1) + class_pairs_below(s, k, 2) + class_pairs_below(s, k, 3)
            + class_pairs_below(s, k, 4) + class_pairs_below(s, k, 5) + class_pairs_below(s, k, 6))
            == k * (2 * s.len() - k - 1),
    decreases k,
{
    if k > 0 {
        lemma_class_pairs_total(s, k - 1);
        let n = s.len() as int;
        let t = s.subrange(k, n);
        assert forall|j: int| 0 <= j < t.len() implies pc(#[trigger] t[j] as int) != pc(
            s[k - 1] as int,
        ) by {
            assert(t[j] == s[k + j]);
        }
        lemma_class_row(s[k - 1], t);
        assert((k - 1) * (2 * n - (k - 1) - 1) + 2 * (n - k) == k * (2 * n - k - 1))
            by (nonlinear_arith);
    }
}

/// When no two elements share a residue, the interval-class counts add up to
/// `m (m - 1) / 2`, `m` being the number of distinct elements.
pub proof fn law_icvec_total(s: Seq<i8>)
    requires
        forall|i: int, j: int| 0 <= i < j < s.len() ==> pc(s[i] as int) != pc(s[j] as int),
    ensures
        class_total(s) == s.to_set().len() * (s.to_set().len() - 1) / 2,
{
    let n = s.len() as int;
    lemma_class_pairs_total(s, n);
    assert(s.subrange(0, n) =~= s);
    assert forall|i: int, j: int| 0 <= i < s.len() && 0 <= j < s.len() && i != j implies s[i]
        != s[j] by {
        if i < j {
            assert(pc(s[i] as int) != pc(s[j] as int));
        } else {
            assert(pc(s[j] as int) != pc(s[i] as int));
        }
    }
    s.unique_seq_to_set();
    let t = class_total(s) as int;
    assert(2 * t == n * (n - 1));
    assert(t == n * (n - 1) / 2) by (nonlinear_arith)
        requires
            2 * t == n * (n - 1),
    ;
}

/// The twelve sum counts over `t` against `x`.
spec fn sum_row(x: i8, t: Seq<i8>) -> nat {
    sum_count(x, t, 0) + sum_count(x, t, 1) + sum_count(x, t, 2) + sum_count(x, t, 3)
        + sum_count(x, t, 4) + sum_count(x, t, 5) + sum_count(x, t, 6) + sum_count(x, t, 7)
        + sum_count(x, t, 8) + sum_count(x, t, 9) + sum_count(x, t, 10) + sum_count(x, t, 11)
}

/// Every element of `t` falls in exactly one of the twelve sum counts.
proof fn lemma_sum_row(x: i8, t: Seq<i8>)
    ensures
        sum_row(x, t) == t.len(),
    decreases t.len(),
{
    if t.len() > 0 {
        lemma_sum_row(x, t.drop_last());
    }
}

/// The ordered pairs counted below `m`, over all twelve residues.
proof fn lemma_sum_pairs_total(s: Seq<i8>, m: int)
    requires
        0 <= m <= s.len(),
    ensures
        sum_pairs_below(s, m, 0) + sum_pairs_below(s, m, 1) + sum_pairs_below(s, m, 2)
            + sum_pairs_below(s, m, 3) + sum_pairs_below(s, m, 4) + sum_pairs_below(s, m, 5)
            + sum_pairs_below(s, m, 6) + sum_pairs_below(s, m, 7) + sum_pairs_below(s, m, 8)
            + sum_pairs_below(s, m, 9) + sum_pairs_below(s, m, 10) + sum_pairs_below(s, m, 11)
            == m * s.len(),
    decreases m,
{
    if m > 0 {
        lemma_sum_pairs_total(s, m - 1);
        lemma_sum_row(s[m - 1], s);
        let n = s.len() as int;
        assert((m - 1) * n + n == m * n) by (nonlinear_arith);
    } else {
        assert(m * s.len() == 0) by (nonlinear_arith)
            requires
                m == 0,
        ;
    }
}

/// The interval-vector counts add up to `n * n`, `n` being the length of the
/// set with its repeats.
pub proof fn law_ivec_total(s: Seq<i8>)
    ensures
        sum_total(s) == s.len() * s.len(),
{
    lemma_sum_pairs_total(s, s.len() as int);
}

} // verus!
