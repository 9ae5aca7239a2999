//! The interval-class vector and the interval vector.
use vstd::prelude::*;
use crate::pitch::residue;
use crate::census::{
    interval_class, class_count, class_pairs_below, class_pairs, sum_count, sum_pairs_below,
    sum_pairs, lemma_class_count_bound, lemma_class_pairs_bound, lemma_sum_count_bound,
    lemma_sum_pairs_bound,
};
use crate::{PcSet, IcVec, IVec};

verus! {

/// Descriptors of a set that do not depend on the order of its elements.
pub trait SetAnalysis: Sized + View<V = Seq<i8>> {
    /// Slot `c - 1` counts the pairs of positions `i < j` whose elements form
    /// interval class `c`, for `c` from 1 to 6; pairs of equal residue are not counted.
    fn icvec(&self) -> (r: IcVec)
        requires
            self@.len() * (self@.len() - 1) / 2 <= usize::MAX,
        ensures
            forall|c: int| 1 <= c <= 6 ==> r[c - 1] == class_pairs(self@, c),
    ;

    /// Slot `k` counts the ordered pairs of positions `(i, j)`, `i == j`
    /// included, whose elements add up to residue `k`.
    fn ivec(&self) -> (r: IVec)
        requires
            self@.len() * self@.len() <= usize::MAX,
        ensures
            forall|k: int| 0 <= k < 12 ==> r[k] == sum_pairs(self@, k),
    ;
}

/// One more pair fits under the count of all pairs.
proof fn lemma_room_for_pair(n: int, i: int, j: int)
    requires
        0 <= i < j < n,
    ensures
        i * (2 * n - i - 1) + 2 * (j - i) <= n * (n - 1),
{
    let a = n - i - 1;
    assert(i * (2 * n - i - 1) + 2 * (n - i - 1) == n * (n - 1) - a * (a - 1)) by (nonlinear_arith)
        requires
            a == n - i - 1,
    ;
    assert(a * (a - 1) >= 0) by (nonlinear_arith)
        requires
            a >= 0,
    ;
}

impl SetAnalysis for PcSet {
    fn icvec(&self) -> (r: IcVec) {
        let n = self.len();
        let mut bins: IcVec = [0; 6];
        let mut i: usize = 0;
        while i < n
            invariant
                n == self@.len(),
                n * (n - 1) / 2 <= usize::MAX,
                i <= n,
                forall|c: int| 1 <= c <= 6 ==> bins[c - 1] == class_pairs_below(self@, i as int, c),
            decreases n - i,
        {
            let h = self[i];
            let mut j: usize = i + 1;
            while j < n
                invariant
                    n == self@.len(),
                    n * (n - 1) / 2 <= usize::MAX,
                    i < j <= n,
                    h == self@[i as int],
                    forall|c: int|
                        1 <= c <= 6 ==> bins[c - 1] == class_pairs_below(self@, i as int, c)
                            + class_count(h, self@.subrange(i + 1, j as int), c),
                decreases n - j,
            {
                let d = residue(self[j] as i16 - h as i16);
                let class = if d > 6 { 12 - d } else { d };
                proof {
                    let t = self@.subrange(i + 1, j + 1);
                    assert(t.drop_last() =~= self@.subrange(i + 1, j as int));
                    assert(class == interval_class(h, self@[j as int]));
                    if class > 0 {
                        let c = class as int;
                        lemma_class_pairs_bound(self@, i as int, c);
                        lemma_class_count_bound(h, self@.subrange(i + 1, j as int), c);
                        lemma_room_for_pair(n as int, i as int, j as int);
                    }
                }
                if class > 0 {
                    let slot = (class - 1) as usize;
                    bins[slot] = bins[slot] + 1;
                }
                j += 1;
            }
            assert forall|c: int| 1 <= c <= 6 implies bins[c - 1] == #[trigger] class_pairs_below(
                self@,
                i + 1,
                c,
            ) by {
                assert(bins[c - 1] == class_pairs_below(self@, i as int, c) + class_count(
                    h,
                    self@.subrange(i + 1, n as int),
                    c,
                ));
                assert(class_pairs_below(self@, i + 1, c) == class_pairs_below(self@, i as int, c)
                    + class_count(self@[i as int], self@.subrange(i + 1, self@.len() as int), c));
            }
            i += 1;
        }
        bins
    }

    fn ivec(&self) -> (r: IVec) {
        let n = self.len();
        let mut bins: IVec = [0; 12];
        let mut i: usize = 0;
        while i < n
            invariant
                n == self@.len(),
                n * n <= usize::MAX,
                i <= n,
                forall|k: int| 0 <= k < 12 ==> bins[k] == sum_pairs_below(self@, i as int, k),
            decreases n - i,
        {
            let x = self[i];
            let mut j: usize = 0;
            while j < n
                invariant
                    n == self@.len(),
                    n * n <= usize::MAX,
                    i < n,
                    j <= n,
                    x == self@[i as int],
                    forall|k: int|
                        0 <= k < 12 ==> bins[k] == sum_pairs_below(self@, i as int, k)
                            + sum_count(x, self@.subrange(0, j as int), k),
                decreases n - j,
            {
                let k = residue(x as i16 + self[j] as i16);
                proof {
                    let t = self@.subrange(0, j + 1);
                    assert(t.drop_last() =~= self@.subrange(0, j as int));
                    lemma_sum_pairs_bound(self@, i as int, k as int);
                    lemma_sum_count_bound(x, self@.subrange(0, j as int), k as int);
                    assert(i * n + n <= n * n) by (nonlinear_arith)
                        requires
                            i < n,
                    ;
                }
                let slot = k as usize;
                bins[slot] = bins[slot] + 1;
                j += 1;
            }
            assert forall|k: int| 0 <= k < 12 implies bins[k] == #[trigger] sum_pairs_below(self@, i + 1, k) by {
                assert(self@.subrange(0, n as int) =~= self@);
            }
            i += 1;
        }
        bins
    }
}

} // verus!
