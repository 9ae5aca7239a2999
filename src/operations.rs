//! Reordering, canonical forms and relations between two sets.
use vstd::prelude::*;
use crate::pitch::{
    pc, rotated, zeroed, intervals_of, complement_of, classes_below, absent, residue, occurs,
    lemma_transpose_by_residue,
};
use crate::canon::{
    ascending, strictly_ascending, distinct_ascending, is_first_least_rotation, normal_of,
    reduced_of, prime_of, lemma_members_from, lemma_strictly_ascending_unique,
};
use crate::order::{
    lex_less, precedes, lemma_lex_irreflexive, lemma_lex_transitive, lemma_lex_total,
};
use crate::fundamentals::Fundamentals;
use crate::PcSet;

verus! {

/// The common residue of `t[i] - s[i]` over all positions, when `s` and `t`
/// have the same non-zero length and that residue is the same at every position.
pub open spec fn common_difference(s: Seq<i8>, t: Seq<i8>) -> Option<i8> {
    if s.len() != t.len() || s.len() == 0 {
        None
    } else if forall|i: int| 0 <= i < s.len() ==> #[trigger] pc(t[i] - s[i]) == pc(t[0] - s[0]) {
        Some(pc(t[0] - s[0]) as i8)
    } else {
        None
    }
}

/// The common residue of `s[i] + t[i]` over all positions, when `s` and `t`
/// have the same non-zero length and that residue is the same at every position.
pub open spec fn common_sum(s: Seq<i8>, t: Seq<i8>) -> Option<i8> {
    if s.len() != t.len() || s.len() == 0 {
        None
    } else if forall|i: int| 0 <= i < s.len() ==> #[trigger] pc(s[i] + t[i]) == pc(s[0] + t[0]) {
        Some(pc(s[0] + t[0]) as i8)
    } else {
        None
    }
}

/// Operations that reorder a set, bring it to a canonical form, or relate it to another set.
pub trait SetOperations: Sized + View<V = Seq<i8>> {
    /// The pitch classes 0 to 11 that do not occur, ascending.
    fn complement(&self) -> (r: Self)
        ensures
            r@ == complement_of(self@),
    ;

    /// The elements in reverse order.
    fn retrograde(&self) -> (r: Self)
        ensures
            r@ == self@.reverse(),
    ;

    /// The elements in ascending order.
    fn sort(&self) -> (r: Self)
        ensures
            ascending(r@),
            r@.to_multiset() == self@.to_multiset(),
    ;

    /// The elements rotated cyclically `n + 1` places to the left.
    fn rotate(&self, n: usize) -> (r: Self)
        ensures
            r@ == rotated(self@, n + 1),
    ;

    /// The set transposed so that its first element becomes 0.
    fn zero(&self) -> (r: Self)
        ensures
            r@ == zeroed(self@),
    ;

    /// The normal order: of the rotations of the distinct values in ascending
    /// order, the first one with the least interval profile.
    fn normal(&self) -> (r: Self)
        ensures
            r@ == normal_of(self@),
    ;

    /// The normal order transposed to start at 0.
    fn reduced(&self) -> (r: Self)
        ensures
            r@ == reduced_of(self@),
    ;

    /// The prime form: of the reduced forms of the set and of its inversion,
    /// the one with the smaller interval profile.
    fn prime(&self) -> (r: Self)
        ensures
            r@ == prime_of(self@),
    ;

    /// The interval profile: for each element `x`, last to first, the residue
    /// of `x` minus the first element.
    fn intervals(&self) -> (r: Vec<i8>)
        ensures
            r@ == intervals_of(self@),
    ;

    /// The residue `n` with `other[i] = self[i] + n (mod 12)` at every position,
    /// if both have the same non-zero length and there is one.
    fn transposition_number(&self, other: &Self) -> (r: Option<i8>)
        ensures
            r == common_difference(self@, other@),
    ;

    /// The residue `n` with `self[i] + other[i] = n (mod 12)` at every position,
    /// if both have the same non-zero length and there is one.
    fn index_number(&self, other: &Self) -> (r: Option<i8>)
        ensures
            r == common_sum(self@, other@),
    ;
}

/// Swapping two positions keeps the multiset of elements.
proof fn lemma_swap_keeps_multiset(s: Seq<i8>, i: int, j: int)
    requires
        0 <= i < s.len(),
        0 <= j < s.len(),
    ensures
        s.update(i, s[j]).update(j, s[i]).to_multiset() == s.to_multiset(),
{
    broadcast use vstd::seq_lib::group_to_multiset_ensures;
    broadcast use vstd::multiset::group_multiset_axioms;

    let t = s.update(i, s[j]);
    assert(t.to_multiset() == s.to_multiset().insert(s[j]).remove(s[i]));
    assert(t.update(j, s[i]).to_multiset() == t.to_multiset().insert(s[i]).remove(t[j]));
    assert(t.update(j, s[i]).to_multiset() =~= s.to_multiset());
}

/// Every element of `u` occurs in `s`.
spec fn drawn_from(u: Seq<i8>, s: Seq<i8>) -> bool {
    forall|k: int| 0 <= k < u.len() ==> s.contains(#[trigger] u[k])
}

/// A strictly ascending sequence with the same members as a sorted copy of `s`
/// is the sequence of distinct values of `s`.
proof fn lemma_distinct_ascending_is(s: Seq<i8>, sorted: Seq<i8>, u: Seq<i8>)
    requires
        sorted.to_multiset() == s.to_multiset(),
        strictly_ascending(u),
        drawn_from(u, sorted),
        forall|m: int| 0 <= m < sorted.len() ==> u.contains(#[trigger] sorted[m]),
    ensures
        u == distinct_ascending(s),
{
    broadcast use vstd::seq_lib::group_to_multiset_ensures;

    let d = distinct_ascending(s);
    lemma_members_from(s.to_set(), -128);
    assert forall|x: i8| u.contains(x) <==> d.contains(x) by {
        if u.contains(x) {
            let k = choose|k: int| 0 <= k < u.len() && u[k] == x;
            assert(sorted.contains(u[k]));
            vstd::seq_lib::to_multiset_contains(sorted, x);
            vstd::seq_lib::to_multiset_contains(s, x);
            assert(s.contains(x));
            assert(s.to_set().contains(x));
        }
        if d.contains(x) {
            let k = choose|k: int| 0 <= k < d.len() && d[k] == x;
            assert(s.to_set().contains(x));
            assert(s.contains(x));
            vstd::seq_lib::to_multiset_contains(sorted, x);
            vstd::seq_lib::to_multiset_contains(s, x);
            assert(sorted.contains(x));
            let m = choose|m: int| 0 <= m < sorted.len() && sorted[m] == x;
            assert(u.contains(sorted[m]));
        }
    }
    lemma_strictly_ascending_unique(u, d);
}

/// The distinct values of an ascending sequence, in order.
fn distinct_of_ascending(sorted: &Vec<i8>) -> (u: Vec<i8>)
    requires
        ascending(sorted@),
    ensures
        strictly_ascending(u@),
        drawn_from(u@, sorted@),
        forall|m: int| 0 <= m < sorted@.len() ==> u@.contains(#[trigger] sorted@[m]),
{
    let mut u: PcSet = Vec::new();
    let mut i: usize = 0;
    while i < sorted.len()
        invariant
            i <= sorted@.len(),
            ascending(sorted@),
            strictly_ascending(u@),
            u@.len() > 0 <==> i > 0,
            i > 0 ==> u@.last() == sorted@[i - 1],
            forall|k: int|
                #![trigger u@[k]]
                0 <= k < u@.len() ==> exists|m: int|
                    #![trigger sorted@[m]]
                    0 <= m < i && sorted@[m] == u@[k],
            forall|m: int| 0 <= m < i ==> u@.contains(#[trigger] sorted@[m]),
        decreases sorted@.len() - i,
    {
        let x = sorted[i];
        let ghost before = u@;
        if u.len() == 0 || u[u.len() - 1] != x {
            u.push(x);
        }
        proof {
            assert(u@.last() == x);
            assert(u@.contains(u@[u@.len() - 1]));
            assert forall|m: int| 0 <= m <= i implies u@.contains(#[trigger] sorted@[m]) by {
                if m < i {
                    let k = choose|k: int| 0 <= k < before.len() && before[k] == sorted@[m];
                    assert(u@[k] == sorted@[m]);
                }
            }
        }
        i += 1;
    }
    assert forall|k: int| 0 <= k < u@.len() implies sorted@.contains(#[trigger] u@[k]) by {
        let m = choose|m: int| 0 <= m < i && sorted@[m] == u@[k];
    }
    u
}

/// The index of the first rotation of `u` with the least interval profile.
fn first_least_rotation(u: &Vec<i8>) -> (bk: usize)
    requires
        u@.len() > 0,
    ensures
        is_first_least_rotation(u@, bk as int),
{
    let m = u.len();
    let mut best_iv = u.intervals();
    let mut bk: usize = 0;
    proof {
        assert forall|k: int| 0 <= k < m implies #[trigger] rotated(u@, 0)[k] == u@[k] by {
            vstd::arithmetic::div_mod::lemma_small_mod(k as nat, m as nat);
        }
        assert(rotated(u@, 0) =~= u@);
        lemma_lex_irreflexive(best_iv@);
    }
    let mut x: usize = 0;
    while x + 1 < m
        invariant
            m == u@.len(),
            0 < m,
            x < m,
            0 <= bk <= x,
            best_iv@ == intervals_of(rotated(u@, bk as int)),
            forall|j: int|
                0 <= j <= x ==> !lex_less(
                    intervals_of(#[trigger] rotated(u@, j)),
                    intervals_of(rotated(u@, bk as int)),
                ),
            forall|j: int|
                0 <= j < bk ==> lex_less(
                    intervals_of(rotated(u@, bk as int)),
                    intervals_of(#[trigger] rotated(u@, j)),
                ),
        decreases m - x,
    {
        let cand_iv = u.rotate(x).intervals();
        let ghost c: int = x + 1;
        if precedes(&cand_iv, &best_iv) {
            proof {
                lemma_lex_irreflexive(cand_iv@);
                assert forall|j: int| 0 <= j <= c implies !lex_less(
                    intervals_of(#[trigger] rotated(u@, j)),
                    cand_iv@,
                ) by {
                    if j < c && lex_less(intervals_of(rotated(u@, j)), cand_iv@) {
                        lemma_lex_transitive(intervals_of(rotated(u@, j)), cand_iv@, best_iv@);
                    }
                }
                assert forall|j: int| 0 <= j < c implies lex_less(
                    cand_iv@,
                    intervals_of(#[trigger] rotated(u@, j)),
                ) by {
                    let other = intervals_of(rotated(u@, j));
                    if lex_less(best_iv@, other) {
                        lemma_lex_transitive(cand_iv@, best_iv@, other);
                    } else {
                        lemma_lex_total(best_iv@, other);
                    }
                }
            }
            best_iv = cand_iv;
            bk = x + 1;
        }
        x += 1;
    }
    bk
}

impl SetOperations for PcSet {
    fn complement(&self) -> (r: PcSet) {
        let mut r: PcSet = Vec::new();
        let mut p: i8 = 0;
        while p < 12
            invariant
                0 <= p <= 12,
                r@ == classes_below(p as int).filter(absent(self@)),
            decreases 12 - p,
        {
            proof {
                reveal(Seq::filter);
                assert(classes_below(p + 1).drop_last() =~= classes_below(p as int));
            }
            if !occurs(self, p) {
                r.push(p);
            }
            p += 1;
        }
        r
    }

    fn retrograde(&self) -> (r: PcSet) {
        let len = self.len();
        let mut r: PcSet = Vec::new();
        let mut i: usize = len;
        while i > 0
            invariant
                len == self@.len(),
                i <= len,
                r@ =~= self@.reverse().subrange(0, len - i),
            decreases i,
        {
            i -= 1;
            r.push(self[i]);
        }
        r
    }

    fn sort(&self) -> (r: PcSet) {
        let mut v = self.clone();
        let mut i: usize = 0;
        while i < v.len()
            invariant
                v@.len() == self@.len(),
                i <= v@.len(),
                v@.to_multiset() == self@.to_multiset(),
                forall|a: int, b: int| 0 <= a < b < i ==> v@[a] <= v@[b],
            decreases v@.len() - i,
        {
            let mut j: usize = i;
            while j > 0 && v[j - 1] > v[j]
                invariant
                    v@.len() == self@.len(),
                    i < v@.len(),
                    j <= i,
                    v@.to_multiset() == self@.to_multiset(),
                    forall|a: int, b: int| 0 <= a < b <= i && b != j ==> v@[a] <= v@[b],
                decreases j,
            {
                let below = v[j - 1];
                let here = v[j];
                proof {
                    lemma_swap_keeps_multiset(v@, j - 1, j as int);
                }
                v.set(j - 1, here);
                v.set(j, below);
                j -= 1;
            }
            i += 1;
        }
        v
    }

    fn rotate(&self, n: usize) -> (r: PcSet) {
        let len = self.len();
        let mut r: PcSet = Vec::new();
        if len == 0 {
            return r;
        }
        let mut j: usize = (n % len + 1) % len;
        proof {
            vstd::arithmetic::div_mod::lemma_add_mod_noop_right(1, n as int, len as int);
        }
        let mut i: usize = 0;
        while i < len
            invariant
                len == self@.len(),
                0 < len,
                i <= len,
                j < len,
                j as int == (i + n + 1) % (len as int),
                r@ =~= rotated(self@, n + 1).subrange(0, i as int),
            decreases len - i,
        {
            r.push(self[j]);
            proof {
                vstd::arithmetic::div_mod::lemma_add_mod_noop_right(1, i + n + 1, len as int);
                if j + 1 < len {
                    vstd::arithmetic::div_mod::lemma_small_mod((j + 1) as nat, len as nat);
                } else {
                    vstd::arithmetic::div_mod::lemma_mod_self_0(len as int);
                }
            }
            j = if j + 1 == len { 0 } else { j + 1 };
            i += 1;
        }
        r
    }

    fn zero(&self) -> (r: PcSet) {
        if self.len() == 0 {
            return Vec::new();
        }
        let n = residue(12 - self[0] as i16);
        proof {
            lemma_transpose_by_residue(self@, 12 - self@[0]);
        }
        self.transpose(n)
    }

    fn normal(&self) -> (r: PcSet) {
        let sorted = self.sort();
        let u = distinct_of_ascending(&sorted);
        proof {
            lemma_distinct_ascending_is(self@, sorted@, u@);
        }
        if u.len() == 0 {
            return u;
        }
        let bk = first_least_rotation(&u);
        proof {
            let b = bk as int;
            let k = choose|k: int| is_first_least_rotation(u@, k);
            if k < b {
                assert(lex_less(intervals_of(rotated(u@, b)), intervals_of(rotated(u@, k))));
            } else if b < k {
                assert(lex_less(intervals_of(rotated(u@, k)), intervals_of(rotated(u@, b))));
            }
        }
        if bk == 0 {
            proof {
                assert forall|k: int| 0 <= k < u@.len() implies #[trigger] rotated(u@, 0)[k] == u@[k] by {
                    vstd::arithmetic::div_mod::lemma_small_mod(k as nat, u@.len());
                }
                assert(rotated(u@, 0) =~= u@);
            }
            u
        } else {
            u.rotate(bk - 1)
        }
    }

    fn reduced(&self) -> (r: PcSet) {
        self.normal().zero()
    }

    fn prime(&self) -> (r: PcSet) {
        let a = self.normal().zero();
        let b = self.invert().normal().zero();
        if precedes(&b.intervals(), &a.intervals()) {
            b
        } else {
            a
        }
    }

    fn intervals(&self) -> (r: Vec<i8>) {
        let len = self.len();
        let mut r: Vec<i8> = Vec::new();
        if len == 0 {
            return r;
        }
        let first = self[0];
        let mut i: usize = len;
        while i > 0
            invariant
                len == self@.len(),
                first == self@[0],
                i <= len,
                r@ =~= intervals_of(self@).subrange(0, len - i),
            decreases i,
        {
            i -= 1;
            r.push(residue(self[i] as i16 - first as i16));
        }
        r
    }

    fn transposition_number(&self, other: &PcSet) -> (r: Option<i8>) {
        let len = self.len();
        if len != other.len() || len == 0 {
            return None;
        }
        let first = residue(other[0] as i16 - self[0] as i16);
        let mut i: usize = 1;
        while i < len
            invariant
                len == self@.len(),
                len == other@.len(),
                1 <= i <= len,
                first == pc(other@[0] - self@[0]),
                forall|k: int| 0 <= k < i ==> #[trigger] pc(other@[k] - self@[k]) == first,
            decreases len - i,
        {
            if residue(other[i] as i16 - self[i] as i16) != first {
                return None;
            }
            i += 1;
        }
        Some(first)
    }

    fn index_number(&self, other: &PcSet) -> (r: Option<i8>) {
        let len = self.len();
        if len != other.len() || len == 0 {
            return None;
        }
        let first = residue(self[0] as i16 + other[0] as i16);
        let mut i: usize = 1;
        while i < len
            invariant
                len == self@.len(),
                len == other@.len(),
                1 <= i <= len,
                first == pc(self@[0] + other@[0]),
                forall|k: int| 0 <= k < i ==> #[trigger] pc(self@[k] + other@[k]) == first,
            decreases len - i,
        {
            if residue(self[i] as i16 + other[i] as i16) != first {
                return None;
            }
            i += 1;
        }
        Some(first)
    }
}

} // verus!
