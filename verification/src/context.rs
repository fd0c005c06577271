use crate::ciphertext::{Ciphertext, GlweCiphertext};
use crate::codec::Codec;
use crate::keyswitch::generate_lift_key;
use crate::params::Parameters;
use crate::primitives::{lwe_decrypt, lwe_encrypt, lwe_phase, pfks_key_len};
use vstd::prelude::*;

verus! {

/// The parameter set together with what is derived from it.
pub struct Context {
    pub params: Parameters,
    pub codec: Codec,
}

/// `n` zero words.
pub fn zeros(n: usize) -> (out: Vec<u64>)
    ensures
        out@ == Seq::new(n as nat, |i: int| 0u64),
{
    let mut out: Vec<u64> = Vec::new();
    let mut i: usize = 0;
    while i < n
        invariant
            i <= n,
            out@.len() == i,
            forall|j: int| 0 <= j < i ==> out@[j] == 0u64,
        decreases n - i,
    {
        out.push(0);
        i += 1;
    }
    assert(out@ =~= Seq::new(n as nat, |i: int| 0u64));
    out
}

impl Context {
    pub open spec fn wf(&self) -> bool {
        &&& self.params.valid()
        &&& self.codec.wf()
        &&& self.codec.delta() == self.params.spec_delta()
        &&& self.codec.modulus() == self.params.message_modulus
    }

    pub fn new(params: Parameters) -> (ctx: Self)
        requires
            params.valid(),
        ensures
            ctx.wf(),
            ctx.params == params,
    {
        let delta = params.delta();
        Context { params, codec: Codec::new(delta, params.message_modulus as u64) }
    }

    /// The scaling factor of the parameter set.
    pub fn delta(&self) -> (d: u64)
        requires
            self.wf(),
        ensures
            d == self.params.spec_delta(),
    {
        self.params.delta()
    }

    /// An LWE ciphertext of the right size with every word zero.
    pub fn zero_lwe(&self) -> (ct: Ciphertext)
        requires
            self.wf(),
        ensures
            ct.fits(self.params),
            ct@ == Seq::new(self.params.spec_lwe_size(), |i: int| 0u64),
    {
        Ciphertext {
            ct: zeros(self.params.polynomial_size + 1),
            degree: self.params.message_modulus - 1,
            message_modulus: self.params.message_modulus,
            carry_modulus: self.params.carry_modulus,
        }
    }

    /// A GLWE ciphertext of the right size with every word zero.
    pub fn zero_glwe(&self) -> (ct: GlweCiphertext)
        requires
            self.wf(),
        ensures
            ct.fits(self.params),
            ct@ == Seq::new(self.params.spec_glwe_len(), |i: int| 0u64),
    {
        GlweCiphertext {
            data: zeros(2 * self.params.polynomial_size),
            polynomial_size: self.params.polynomial_size,
        }
    }

    /// Generates the key that lifts LWE ciphertexts into GLWE ciphertexts.
    pub fn gen_ksk(&self, lwe_key: &Vec<u64>, glwe_key: &Vec<u64>) -> (ksk: Vec<u64>)
        requires
            self.wf(),
            lwe_key@.len() == self.params.polynomial_size,
            glwe_key@.len() == self.params.polynomial_size,
        ensures
            ksk@.len() == pfks_key_len(
                self.params.polynomial_size as int,
                self.params.pfks_level as int,
            ),
    {
        generate_lift_key(lwe_key, glwe_key, &self.params)
    }
}

/// Encodes `x` and encrypts it under the LWE key. The ciphertext is random;
/// it has the size that the parameter set asks for.
pub fn lwe_encode_encrypt(lwe_key: &Vec<u64>, ctx: &Context, x: u64) -> (ct: Vec<u64>)
    requires
        ctx.wf(),
        lwe_key@.len() == ctx.params.polynomial_size,
    ensures
        ct@.len() == ctx.params.spec_lwe_size(),
{
    let mut word = x;
    ctx.codec.encode(&mut word);
    lwe_encrypt(lwe_key, word, ctx.params.lwe_modular_std_dev)
}

/// Decrypts a ciphertext under the LWE key and decodes what comes out.
pub fn lwe_decrypt_decode(lwe_key: &Vec<u64>, ctx: &Context, ct: &Vec<u64>) -> (x: u64)
    requires
        ctx.wf(),
        lwe_key@.len() == ctx.params.polynomial_size,
        ct@.len() == ctx.params.spec_lwe_size(),
    ensures
        x == ctx.codec.spec_decode(lwe_phase(lwe_key@, ct@)),
{
    let mut word = lwe_decrypt(lwe_key, ct);
    ctx.codec.decode(&mut word);
    word
}

} // verus!
