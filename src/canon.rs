//! The model of the canonical forms: normal order, reduced form and prime form.
use vstd::prelude::*;
use crate::pitch::{inverted, rotated, zeroed, intervals_of};
use crate::order::lex_less;

verus! {

/// Each element is at most the next one.
pub open spec fn ascending(u: Seq<i8>) -> bool {
    forall|i: int, j: int| 0 <= i < j < u.len() ==> u[i] <= u[j]
}

/// Each element is smaller than the next one.
pub open spec fn strictly_ascending(u: Seq<i8>) -> bool {
    forall|i: int, j: int| 0 <= i < j < u.len() ==> u[i] < u[j]
}

/// The members of `st` from `v` up to 127, in ascending order.
pub open spec fn members_from(st: Set<i8>, v: int) -> Seq<i8>
    decreases 128 - v,
{
    if v >= 128 {
        Seq::empty()
    } else if st.contains(v as i8) {
        seq![v as i8] + members_from(st, v + 1)
    } else {
        members_from(st, v + 1)
    }
}

/// The distinct values of `s` in ascending order.
pub open spec fn distinct_ascending(s: Seq<i8>) -> Seq<i8> {
    members_from(s.to_set(), -128)
}

/// Rotation `k` of `u` has the least interval profile of all rotations of `u`,
/// and every earlier rotation has a greater one.
pub open spec fn is_first_least_rotation(u: Seq<i8>, k: int) -> bool {
    &&& 0 <= k < u.len()
    &&& forall|j: int|
        0 <= j < u.len() ==> !lex_less(
            intervals_of(#[trigger] rotated(u, j)),
            intervals_of(rotated(u, k)),
        )
    &&& forall|j: int|
        0 <= j < k ==> lex_less(intervals_of(rotated(u, k)), intervals_of(#[trigger] rotated(u, j)))
}

/// The normal order of `s`: of the rotations of its distinct values in
/// ascending order, the first one with the least interval profile.
pub open spec fn normal_of(s: Seq<i8>) -> Seq<i8> {
    let u = distinct_ascending(s);
    if u.len() == 0 {
        u
    } else {
        rotated(u, choose|k: int| is_first_least_rotation(u, k))
    }
}

/// The normal order of `s` transposed to start at 0.
pub open spec fn reduced_of(s: Seq<i8>) -> Seq<i8> {
    zeroed(normal_of(s))
}

/// The prime form of `s`: of the reduced forms of `s` and of its inversion,
/// the one with the smaller interval profile, the former on a tie.
pub open spec fn prime_of(s: Seq<i8>) -> Seq<i8> {
    let a = reduced_of(s);
    let b = reduced_of(inverted(s));
    if lex_less(intervals_of(b), intervals_of(a)) {
        b
    } else {
        a
    }
}

/// What `members_from` holds: ascending, and exactly the members of `st` from `v` on.
pub proof fn lemma_members_from(st: Set<i8>, v: int)
    requires
        -128 <= v <= 128,
    ensures
        strictly_ascending(members_from(st, v)),
        forall|k: int|
            0 <= k < members_from(st, v).len() ==> v <= #[trigger] members_from(st, v)[k]
                && st.contains(members_from(st, v)[k]),
        forall|x: i8| v <= x && st.contains(x) ==> #[trigger] members_from(st, v).contains(x),
    decreases 128 - v,
{
    if v < 128 {
        lemma_members_from(st, v + 1);
        let rest = members_from(st, v + 1);
        if st.contains(v as i8) {
            let r = seq![v as i8] + rest;
            assert forall|k: int| 0 < k < r.len() implies r[k] == rest[k - 1] by {}
            assert forall|x: i8| v <= x && st.contains(x) implies #[trigger] r.contains(x) by {
                if x == v {
                    assert(r[0] == x);
                } else {
                    assert(rest.contains(x));
                    let k = choose|k: int| 0 <= k < rest.len() && rest[k] == x;
                    assert(r[k + 1] == x);
                }
            }
        }
    }
}

/// Two such sequences agree at every position below `i`.
proof fn lemma_agree_below(u: Seq<i8>, w: Seq<i8>, i: int)
    requires
        strictly_ascending(u),
        strictly_ascending(w),
        forall|x: i8| u.contains(x) <==> w.contains(x),
        0 <= i <= u.len(),
        i <= w.len(),
    ensures
        forall|k: int| 0 <= k < i ==> u[k] == w[k],
    decreases i,
{
    if i > 0 {
        let m = i - 1;
        lemma_agree_below(u, w, m);
        if u[m] < w[m] {
            assert(u.contains(u[m]));
            let j = choose|j: int| 0 <= j < w.len() && w[j] == u[m];
            if j < m {
                assert(u[j] < u[m]);
            }
        } else if w[m] < u[m] {
            assert(w.contains(w[m]));
            let j = choose|j: int| 0 <= j < u.len() && u[j] == w[m];
            if j < m {
                assert(w[j] < w[m]);
            }
        }
    }
}

/// Two strictly ascending sequences with the same members are equal.
pub proof fn lemma_strictly_ascending_unique(u: Seq<i8>, w: Seq<i8>)
    requires
        strictly_ascending(u),
        strictly_ascending(w),
        forall|x: i8| u.contains(x) <==> w.contains(x),
    ensures
        u == w,
{
    if u.len() < w.len() {
        lemma_agree_below(u, w, u.len() as int);
        let m = u.len() as int;
        assert(w.contains(w[m]));
        let j = choose|j: int| 0 <= j < u.len() && u[j] == w[m];
        assert(w[j] < w[m]);
    } else if w.len() < u.len() {
        lemma_agree_below(u, w, w.len() as int);
        let m = w.len() as int;
        assert(u.contains(u[m]));
        let j = choose|j: int| 0 <= j < w.len() && w[j] == u[m];
        assert(u[j] < u[m]);
    } else {
        lemma_agree_below(u, w, u.len() as int);
        assert(u =~= w);
    }
}

} // verus!
