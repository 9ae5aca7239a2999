//! Transposition, inversion and the chroma mask.
use vstd::prelude::*;
use crate::pitch::{
    inverted, transposed, chroma_below, chroma_of, residue, occurs, lemma_transpose_by_residue,
};
use crate::PcSet;

verus! {

/// The group operations of twelve-tone pitch-class arithmetic.
pub trait Fundamentals: Sized + View<V = Seq<i8>> {
    /// Each element `x` becomes `(12 - x) mod 12`.
    fn invert(&self) -> (r: Self)
        ensures
            r@ == inverted(self@),
    ;

    /// Each element `x` becomes `(x + n) mod 12`, floored, so the result lies in `[0, 12)`.
    fn transpose(&self, n: i8) -> (r: Self)
        ensures
            r@ == transposed(self@, n as int),
    ;

    /// The same as `invert`.
    fn i(&self) -> (r: Self)
        ensures
            r@ == inverted(self@),
    ;

    /// The same as `transpose`.
    fn t(&self, n: i8) -> (r: Self)
        ensures
            r@ == transposed(self@, n as int),
    ;

    /// Inversion followed by transposition by `n`.
    fn tni(&self, n: i8) -> (r: Self)
        ensures
            r@ == transposed(inverted(self@), n as int),
    ;

    /// Inversion followed by transposition by `x + y`.
    fn ixy(&self, x: i8, y: i8) -> (r: Self)
        ensures
            r@ == transposed(inverted(self@), x + y),
    ;

    /// The 12-bit chroma: bit `p` is set exactly when the value `p` in `[0, 12)` occurs.
    fn chroma(&self) -> (r: u16)
        ensures
            r as nat == chroma_of(self@),
            r < 4096,
    ;
}

impl Fundamentals for PcSet {
    fn invert(&self) -> (r: PcSet) {
        let mut r: PcSet = Vec::new();
        let mut i: usize = 0;
        while i < self.len()
            invariant
                i <= self@.len(),
                r@ =~= inverted(self@).subrange(0, i as int),
            decreases self@.len() - i,
        {
            r.push(residue(12 - self[i] as i16));
            i += 1;
        }
        r
    }

    fn transpose(&self, n: i8) -> (r: PcSet) {
        let mut r: PcSet = Vec::new();
        let mut i: usize = 0;
        while i < self.len()
            invariant
                i <= self@.len(),
                r@ =~= transposed(self@, n as int).subrange(0, i as int),
            decreases self@.len() - i,
        {
            r.push(residue(self[i] as i16 + n as i16));
            i += 1;
        }
        r
    }

    fn i(&self) -> (r: PcSet) {
        self.invert()
    }

    fn t(&self, n: i8) -> (r: PcSet) {
        self.transpose(n)
    }

    fn tni(&self, n: i8) -> (r: PcSet) {
        self.invert().transpose(n)
    }

    fn ixy(&self, x: i8, y: i8) -> (r: PcSet) {
        let n = residue(x as i16 + y as i16);
        proof {
            lemma_transpose_by_residue(inverted(self@), x + y);
        }
        self.invert().transpose(n)
    }

    fn chroma(&self) -> (r: u16) {
        let mut mask: u32 = 0;
        let mut bit: u32 = 1;
        let mut p: i8 = 0;
        proof {
            vstd::arithmetic::power2::lemma2_to64();
        }
        while p < 12
            invariant
                0 <= p <= 12,
                mask as nat == chroma_below(self@, p as nat),
                bit as nat == vstd::arithmetic::power2::pow2(p as nat),
                mask < bit,
            decreases 12 - p,
        {
            proof {
                vstd::arithmetic::power2::lemma2_to64();
            }
            if occurs(self, p) {
                mask = mask + bit;
            }
            bit = bit * 2;
            p += 1;
            proof {
                vstd::arithmetic::power2::lemma_pow2_unfold(p as nat);
            }
        }
        proof {
            vstd::arithmetic::power2::lemma2_to64();
        }
        mask as u16
    }
}

} // verus!
