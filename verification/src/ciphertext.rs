use crate::params::Parameters;
use vstd::prelude::*;

verus! {

/// The value of an integer in 64-bit wrapping arithmetic.
pub open spec fn wrap(x: int) -> u64 {
    (x % 0x1_0000_0000_0000_0000) as u64
}

/// Reducing a summand first does not change a wrapped sum.
pub proof fn lemma_wrap_add(a: int, b: int)
    ensures
        wrap(wrap(a) + b) == wrap(a + b),
        wrap(a + wrap(b)) == wrap(a + b),
        wrap(wrap(a) + wrap(b)) == wrap(a + b),
{
    let m = 0x1_0000_0000_0000_0000int;
    vstd::arithmetic::div_mod::lemma_add_mod_noop(a, b, m);
    vstd::arithmetic::div_mod::lemma_add_mod_noop(a % m, b, m);
    vstd::arithmetic::div_mod::lemma_add_mod_noop(a, b % m, m);
    vstd::arithmetic::div_mod::lemma_mod_twice(a, m);
    vstd::arithmetic::div_mod::lemma_mod_twice(b, m);
}

/// Reducing a factor first does not change a wrapped product.
pub proof fn lemma_wrap_mul(a: int, b: int)
    ensures
        wrap(wrap(a) * b) == wrap(a * b),
        wrap(a * wrap(b)) == wrap(a * b),
{
    let m = 0x1_0000_0000_0000_0000int;
    vstd::arithmetic::div_mod::lemma_mul_mod_noop_general(a, b, m);
}

/// Reducing first does not change a wrapped opposite.
pub proof fn lemma_wrap_neg(a: int)
    ensures
        wrap(-wrap(a)) == wrap(-a),
{
    let m = 0x1_0000_0000_0000_0000int;
    vstd::arithmetic::div_mod::lemma_sub_mod_noop(0, a, m);
    vstd::arithmetic::div_mod::lemma_sub_mod_noop(0, a % m, m);
    vstd::arithmetic::div_mod::lemma_mod_twice(a, m);
}

/// An LWE ciphertext: the mask words followed by the body word, with the
/// advisory tags that the primitive library carries along.
pub struct Ciphertext {
    pub ct: Vec<u64>,
    pub degree: usize,
    pub message_modulus: usize,
    pub carry_modulus: usize,
}

impl View for Ciphertext {
    type V = Seq<u64>;

    open spec fn view(&self) -> Seq<u64> {
        self.ct@
    }
}

impl Ciphertext {
    /// The ciphertext has the size and the tags that `params` asks for.
    pub open spec fn fits(&self, params: Parameters) -> bool {
        &&& self.ct@.len() == params.spec_lwe_size()
        &&& self.degree == params.message_modulus - 1
        &&& self.message_modulus == params.message_modulus
        &&& self.carry_modulus == params.carry_modulus
    }

    pub fn duplicate(&self) -> (c: Self)
        ensures
            c@ == self@,
            c.degree == self.degree,
            c.message_modulus == self.message_modulus,
            c.carry_modulus == self.carry_modulus,
    {
        let c = Ciphertext {
            ct: self.ct.clone(),
            degree: self.degree,
            message_modulus: self.message_modulus,
            carry_modulus: self.carry_modulus,
        };
        assert(c.ct@ =~= self.ct@);
        c
    }
}

/// A GLWE ciphertext with one mask polynomial: the `polynomial_size`
/// coefficients of the mask followed by those of the body.
pub struct GlweCiphertext {
    pub data: Vec<u64>,
    pub polynomial_size: usize,
}

impl View for GlweCiphertext {
    type V = Seq<u64>;

    open spec fn view(&self) -> Seq<u64> {
        self.data@
    }
}

impl GlweCiphertext {
    pub open spec fn fits(&self, params: Parameters) -> bool {
        &&& self.polynomial_size == params.polynomial_size
        &&& self.data@.len() == params.spec_glwe_len()
    }
}

/// A lookup table for a programmable bootstrap.
pub struct Accumulator {
    pub acc: GlweCiphertext,
    pub degree: usize,
}

} // verus!
