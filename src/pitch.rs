//! The residue arithmetic of pitch classes and the element-wise transforms.
use vstd::prelude::*;

verus! {

/// The pitch class of an integer: its floored residue modulo 12, in `[0, 12)`.
pub open spec fn pc(x: int) -> int {
    x % 12
}

/// Every element lies in `[0, 12)`.
pub open spec fn in_range(s: Seq<i8>) -> bool {
    forall|i: int| 0 <= i < s.len() ==> 0 <= #[trigger] s[i] < 12
}

/// Each element `x` replaced by `(12 - x) mod 12`.
pub open spec fn inverted(s: Seq<i8>) -> Seq<i8> {
    Seq::new(s.len(), |i: int| pc(12 - s[i]) as i8)
}

/// Each element `x` replaced by `(x + n) mod 12`.
pub open spec fn transposed(s: Seq<i8>, n: int) -> Seq<i8> {
    Seq::new(s.len(), |i: int| pc(s[i] + n) as i8)
}

/// `s` shifted cyclically `k` places to the left: element `i` of the result is
/// element `(i + k) mod |s|` of `s`.
pub open spec fn rotated(s: Seq<i8>, k: int) -> Seq<i8> {
    Seq::new(s.len(), |i: int| s[(i + k) % (s.len() as int)])
}

/// `s` transposed so that its first element becomes 0; empty stays empty.
pub open spec fn zeroed(s: Seq<i8>) -> Seq<i8> {
    if s.len() == 0 {
        s
    } else {
        transposed(s, 12 - s[0])
    }
}

/// The interval profile: for each element `x` of `s`, last to first, the
/// residue of `x - s[0]`. It ends in 0; an empty `s` gives an empty profile.
pub open spec fn intervals_of(s: Seq<i8>) -> Seq<i8> {
    if s.len() == 0 {
        Seq::empty()
    } else {
        Seq::new(s.len(), |i: int| pc(s[s.len() - 1 - i] - s[0]) as i8)
    }
}

/// The 12-bit chroma of `s` restricted to the classes below `k`: the sum of
/// `2^p` over the values `p` in `[0, k)` that occur in `s`.
pub open spec fn chroma_below(s: Seq<i8>, k: nat) -> nat
    decreases k,
{
    if k == 0 {
        0
    } else {
        let p = (k - 1) as nat;
        chroma_below(s, p) + if s.contains(p as i8) {
            vstd::arithmetic::power2::pow2(p)
        } else {
            0
        }
    }
}

/// The chroma of `s`: bit `p` is set exactly when the value `p` in `[0, 12)` occurs in `s`.
pub open spec fn chroma_of(s: Seq<i8>) -> nat {
    chroma_below(s, 12)
}

/// The values 0 to `k - 1` in ascending order.
pub open spec fn classes_below(k: int) -> Seq<i8> {
    Seq::new(k as nat, |p: int| p as i8)
}

/// The test that a value does not occur in `s`.
pub open spec fn absent(s: Seq<i8>) -> spec_fn(i8) -> bool {
    |p: i8| !s.contains(p)
}

/// The pitch classes 0 to 11 that do not occur in `s`, ascending.
pub open spec fn complement_of(s: Seq<i8>) -> Seq<i8> {
    classes_below(12).filter(absent(s))
}

/// Transposing by `n` and by the residue of `n` agree.
pub proof fn lemma_transpose_by_residue(s: Seq<i8>, n: int)
    ensures
        transposed(s, pc(n)) == transposed(s, n),
{
    assert forall|i: int| 0 <= i < s.len() implies pc(s[i] + pc(n)) == pc(s[i] + n) by {
        vstd::arithmetic::div_mod::lemma_add_mod_noop_right(s[i] as int, n, 12);
    }
    assert(transposed(s, pc(n)) =~= transposed(s, n));
}

/// The residue of `v` modulo 12.
pub fn residue(v: i16) -> (r: i8)
    ensures
        r == pc(v as int),
{
    let m: i16 = v % 12;
    if m < 0 {
        (m + 12) as i8
    } else {
        m as i8
    }
}

/// Whether the value `x` occurs in `s`.
pub fn occurs(s: &Vec<i8>, x: i8) -> (r: bool)
    ensures
        r == s@.contains(x),
{
    let mut i: usize = 0;
    while i < s.len()
        invariant
            i <= s@.len(),
            forall|j: int| 0 <= j < i ==> s@[j] != x,
        decreases s@.len() - i,
    {
        if s[i] == x {
            assert(s@[i as int] == x);
            return true;
        }
        i += 1;
    }
    false
}

} // verus!
