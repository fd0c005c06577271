use crate::ciphertext::wrap;
use vstd::arithmetic::div_mod::lemma_fundamental_div_mod_converse;
use vstd::prelude::*;

verus! {

/// Places messages in the high bits of a 64-bit word and reads them back.
pub struct Codec {
    delta: u64,
    modulus: u64,
}

/// The multiple of `delta` nearest to `x`, counted in units of `delta`;
/// a word in the upper half of the last unit wraps to 0.
pub open spec fn rounded(x: u64, delta: u64) -> int {
    wrap(x + delta / 2) as int / delta as int
}

impl Codec {
    pub closed spec fn delta(&self) -> u64 {
        self.delta
    }

    pub closed spec fn modulus(&self) -> u64 {
        self.modulus
    }

    pub open spec fn wf(&self) -> bool {
        self.delta() >= 1 && self.modulus() >= 1
    }

    pub fn new(delta: u64, modulus: u64) -> (c: Self)
        requires
            delta >= 1,
            modulus >= 1,
        ensures
            c.wf(),
            c.delta() == delta,
            c.modulus() == modulus,
    {
        Codec { delta, modulus }
    }

    /// A message scaled by `delta`, in wrapping arithmetic.
    pub open spec fn spec_encode(&self, x: u64) -> u64 {
        wrap(x * self.delta())
    }

    /// The message nearest to an encoded word, reduced modulo `modulus`.
    pub open spec fn spec_decode(&self, x: u64) -> u64 {
        (rounded(x, self.delta()) % self.modulus() as int) as u64
    }

    pub fn encode(&self, x: &mut u64)
        ensures
            *final(x) == self.spec_encode(*old(x)),
    {
        *x = x.wrapping_mul(self.delta);
    }

    pub fn decode(&self, x: &mut u64)
        requires
            self.wf(),
        ensures
            *final(x) == self.spec_decode(*old(x)),
    {
        let r: u64 = x.wrapping_add(self.delta / 2) / self.delta;
        *x = r % self.modulus;
    }

    /// Decoding undoes encoding in the presence of noise: an encoded message
    /// `m` below `modulus`, disturbed by less than half of `delta` in either
    /// direction, decodes to `m`.
    pub proof fn lemma_decode_encode(&self, m: u64, noise: int)
        requires
            self.wf(),
            m < self.modulus(),
            self.modulus() * self.delta() <= 0x8000_0000_0000_0000,
            -(self.delta() / 2) <= noise < self.delta() - self.delta() / 2,
        ensures
            self.spec_decode(wrap(m * self.delta() + noise)) == m,
    {
        let d = self.delta() as int;
        let x = wrap(m * d + noise);
        assert(0 <= m * d <= (self.modulus() - 1) * d) by (nonlinear_arith)
            requires
                0 <= m < self.modulus(),
                d >= 1,
        ;
        assert((self.modulus() - 1) * d == self.modulus() * d - d) by (nonlinear_arith);
        let r = noise + d / 2;
        assert(0 <= r < d);
        // the word after the rounding offset is `m * d + r`, whether or not
        // the disturbed word itself wrapped below zero
        assert(wrap(x + d / 2) == m * d + r);
        lemma_fundamental_div_mod_converse(m * d + r, d, m as int, r);
        assert(rounded(x, self.delta()) == m);
        assert(m as int % self.modulus() as int == m) by (nonlinear_arith)
            requires
                0 <= m < self.modulus(),
        ;
    }
}

} // verus!
