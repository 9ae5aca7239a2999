//! The model of the two interval descriptors: pairs counted by interval class
//! and ordered pairs counted by the residue of their sum.
use vstd::prelude::*;
use crate::pitch::pc;

verus! {

/// The interval class of the pair `(h, x)`: the residue `d` of `x - h`,
/// folded to `12 - d` when `d > 6`. It is 0 exactly when `x` and `h` have the same residue.
pub open spec fn interval_class(h: i8, x: i8) -> int {
    let d = pc(x - h);
    if d > 6 {
        12 - d
    } else {
        d
    }
}

/// How many elements `x` of `t` make a pair `(h, x)` of interval class `c`.
pub open spec fn class_count(h: i8, t: Seq<i8>, c: int) -> nat
    decreases t.len(),
{
    if t.len() == 0 {
        0
    } else {
        class_count(h, t.drop_last(), c) + if interval_class(h, t.last()) == c {
            1nat
        } else {
            0nat
        }
    }
}

/// How many pairs of positions `i < j` of `s`, with `i < k`, have interval class `c`.
pub open spec fn class_pairs_below(s: Seq<i8>, k: int, c: int) -> nat
    decreases k,
{
    if k <= 0 {
        0
    } else {
        class_pairs_below(s, k - 1, c) + class_count(s[k - 1], s.subrange(k, s.len() as int), c)
    }
}

/// How many pairs of positions `i < j` of `s` have interval class `c`.
pub open spec fn class_pairs(s: Seq<i8>, c: int) -> nat {
    class_pairs_below(s, s.len() as int, c)
}

/// How many elements `y` of `t` make `x + y` have residue `k`.
pub open spec fn sum_count(x: i8, t: Seq<i8>, k: int) -> nat
    decreases t.len(),
{
    if t.len() == 0 {
        0
    } else {
        sum_count(x, t.drop_last(), k) + if pc(x + t.last()) == k {
            1nat
        } else {
            0nat
        }
    }
}

/// How many ordered pairs of positions `(i, j)` of `s`, with `i < m`, have
/// `s[i] + s[j]` of residue `k`.
pub open spec fn sum_pairs_below(s: Seq<i8>, m: int, k: int) -> nat
    decreases m,
{
    if m <= 0 {
        0
    } else {
        sum_pairs_below(s, m - 1, k) + sum_count(s[m - 1], s, k)
    }
}

/// How many ordered pairs of positions `(i, j)` of `s`, `i == j` included,
/// have `s[i] + s[j]` of residue `k`.
pub open spec fn sum_pairs(s: Seq<i8>, k: int) -> nat {
    sum_pairs_below(s, s.len() as int, k)
}

/// The six interval-class counts of `s` added up.
pub open spec fn class_total(s: Seq<i8>) -> nat {
    class_pairs(s, 1) + class_pairs(s, 2) + class_pairs(s, 3) + class_pairs(s, 4)
        + class_pairs(s, 5) + class_pairs(s, 6)
}

/// The twelve sum counts of `s` added up.
pub open spec fn sum_total(s: Seq<i8>) -> nat {
    sum_pairs(s, 0) + sum_pairs(s, 1) + sum_pairs(s, 2) + sum_pairs(s, 3) + sum_pairs(s, 4)
        + sum_pairs(s, 5) + sum_pairs(s, 6) + sum_pairs(s, 7) + sum_pairs(s, 8)
        + sum_pairs(s, 9) + sum_pairs(s, 10) + sum_pairs(s, 11)
}

/// A count over `t` is at most the length of `t`.
pub proof fn lemma_class_count_bound(h: i8, t: Seq<i8>, c: int)
    ensures
        class_count(h, t, c) <= t.len(),
    decreases t.len(),
{
    if t.len() > 0 {
        lemma_class_count_bound(h, t.drop_last(), c);
    }
}

/// Twice the pairs counted below `k` is at most `k * (2n - k - 1)`.
pub proof fn lemma_class_pairs_bound(s: Seq<i8>, k: int, c: int)
    requires
        0 <= k <= s.len(),
    ensures
        2 * class_pairs_below(s, k, c) <= k * (2 * s.len() - k - 1),
    decreases k,
{
    if k > 0 {
        lemma_class_pairs_bound(s, k - 1, c);
        lemma_class_count_bound(s[k - 1], s.subrange(k, s.len() as int), c);
        let n = s.len() as int;
        assert((k - 1) * (2 * n - (k - 1) - 1) + 2 * (n - k) == k * (2 * n - k - 1))
            by (nonlinear_arith);
    }
}

/// A count over `t` is at most the length of `t`.
pub proof fn lemma_sum_count_bound(x: i8, t: Seq<i8>, k: int)
    ensures
        sum_count(x, t, k) <= t.len(),
    decreases t.len(),
{
    if t.len() > 0 {
        lemma_sum_count_bound(x, t.drop_last(), k);
    }
}

/// The ordered pairs counted below `m` are at most `m * |s|`.
pub proof fn lemma_sum_pairs_bound(s: Seq<i8>, m: int, k: int)
    requires
        0 <= m <= s.len(),
    ensures
        sum_pairs_below(s, m, k) <= m * s.len(),
    decreases m,
{
    if m > 0 {
        lemma_sum_pairs_bound(s, m - 1, k);
        lemma_sum_count_bound(s[m - 1], s, k);
        assert((m - 1) * s.len() + s.len() == m * s.len()) by (nonlinear_arith);
    }
}

} // verus!
