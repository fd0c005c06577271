use crate::ciphertext::{Ciphertext, GlweCiphertext};
use crate::params::Parameters;
use crate::primitives::{generate_pfks_key, pfks_apply, pfks_key_len, pfks_lift};
use vstd::prelude::*;

verus! {

/// The constant polynomial 1 of `n` coefficients.
pub open spec fn spec_unit_polynomial(n: nat) -> Seq<u64> {
    Seq::new(n, |i: int| if i == 0 { 1u64 } else { 0u64 })
}

pub fn unit_polynomial(n: usize) -> (out: Vec<u64>)
    ensures
        out@ == spec_unit_polynomial(n as nat),
{
    let mut out: Vec<u64> = Vec::new();
    let mut i: usize = 0;
    while i < n
        invariant
            i <= n,
            out@.len() == i,
            forall|j: int| 0 <= j < i ==> out@[j] == if j == 0 { 1u64 } else { 0u64 },
        decreases n - i,
    {
        out.push(if i == 0 { 1 } else { 0 });
        i += 1;
    }
    assert(out@ =~= spec_unit_polynomial(n as nat));
    out
}

/// Generates the key that lifts an LWE ciphertext into a GLWE ciphertext
/// whose constant coefficient carries the same message: a private
/// functional packing key-switch key for the unchanged message and the
/// constant polynomial 1.
pub fn generate_lift_key(lwe_key: &Vec<u64>, glwe_key: &Vec<u64>, params: &Parameters) -> (ksk: Vec<
    u64,
>)
    requires
        params.valid(),
        lwe_key@.len() == params.polynomial_size,
        glwe_key@.len() == params.polynomial_size,
    ensures
        ksk@.len() == pfks_key_len(params.polynomial_size as int, params.pfks_level as int),
{
    let one = unit_polynomial(params.polynomial_size);
    generate_pfks_key(lwe_key, glwe_key, &one, params)
}

/// Lifts an LWE ciphertext into a GLWE ciphertext with the key-switch key given.
pub fn lift(ksk: &Vec<u64>, params: &Parameters, ct: &Ciphertext) -> (out: GlweCiphertext)
    requires
        params.valid(),
        ksk@.len() == pfks_key_len(params.polynomial_size as int, params.pfks_level as int),
        ct@.len() == params.spec_lwe_size(),
    ensures
        out.fits(*params),
        out@ == pfks_lift(
            ksk@,
            params.pfks_base_log,
            params.pfks_level,
            params.polynomial_size,
            ct@,
        ),
{
    let data = pfks_apply(ksk, params, &ct.ct);
    GlweCiphertext { data, polynomial_size: params.polynomial_size }
}

} // verus!
