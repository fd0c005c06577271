use vstd::prelude::*;

verus! {

/// Noise standard deviation, as the primitive library takes it. The library
/// only carries such values from the parameter set to the encrypting calls.
#[verifier::external_type_specification]
#[verifier::external_body]
pub struct ExStandardDev(tfhe::core_crypto::prelude::StandardDev);

/// `n` is 1, 2, 4, 8, ...
pub open spec fn power_of_two(n: nat) -> bool
    decreases n,
{
    n == 1 || (n >= 2 && n % 2 == 0 && power_of_two(n / 2))
}

pub fn is_power_of_two(n: usize) -> (b: bool)
    ensures
        b == power_of_two(n as nat),
{
    if n == 0 {
        return false;
    }
    let mut m: usize = n;
    while m % 2 == 0
        invariant
            m >= 1,
            power_of_two(m as nat) == power_of_two(n as nat),
        decreases m,
    {
        m = m / 2;
    }
    m == 1
}

/// The cryptographic parameter set shared by client and server.
#[derive(Debug, Clone, Copy)]
pub struct Parameters {
    pub lwe_dimension: usize,
    pub glwe_dimension: usize,
    pub polynomial_size: usize,
    pub lwe_modular_std_dev: tfhe::core_crypto::prelude::StandardDev,
    pub glwe_modular_std_dev: tfhe::core_crypto::prelude::StandardDev,
    pub pbs_base_log: usize,
    pub pbs_level: usize,
    pub ks_base_log: usize,
    pub ks_level: usize,
    pub pfks_level: usize,
    pub pfks_base_log: usize,
    pub pfks_modular_std_dev: tfhe::core_crypto::prelude::StandardDev,
    pub cbs_level: usize,
    pub cbs_base_log: usize,
    pub message_modulus: usize,
    pub carry_modulus: usize,
}

/// A decomposition into `level` digits of `base_log` bits that leaves at
/// least one bit of a 64-bit word out.
pub open spec fn decomposition_ok(base_log: usize, level: usize) -> bool {
    1 <= base_log < 64 && 1 <= level < 64 && base_log * level < 64
}

fn check_decomposition(base_log: usize, level: usize) -> (b: bool)
    ensures
        b == decomposition_ok(base_log, level),
{
    if base_log >= 1 && base_log < 64 && level >= 1 && level < 64 {
        assert(base_log * level <= 63 * 63) by (nonlinear_arith)
            requires
                base_log <= 63,
                level <= 63,
        ;
        base_log * level < 64
    } else {
        false
    }
}

impl Parameters {
    /// Number of words of the key that lifts LWE ciphertexts into GLWE
    /// ciphertexts: for each of the `polynomial_size + 1` words of an LWE
    /// ciphertext, `pfks_level` GLWE ciphertexts.
    pub open spec fn spec_lift_key_len(&self) -> int {
        (self.polynomial_size + 1) * self.pfks_level * 2 * self.polynomial_size
    }

    /// The parameter sets this library works with: one mask polynomial, a
    /// polynomial size that is a power of two between 256 and 16384, a
    /// plaintext space of `message_modulus * carry_modulus` values in which
    /// every value owns at least two coefficients of an accumulator,
    /// decompositions that fit a 64-bit word, and a lift key that fits the
    /// address space.
    pub open spec fn valid(&self) -> bool {
        &&& 1 <= self.lwe_dimension
        &&& self.glwe_dimension == 1
        &&& 256 <= self.polynomial_size <= 16384
        &&& power_of_two(self.polynomial_size as nat)
        &&& 2 <= self.message_modulus
        &&& 1 <= self.carry_modulus
        &&& 2 * self.message_modulus * self.carry_modulus <= self.polynomial_size
        &&& decomposition_ok(self.pbs_base_log, self.pbs_level)
        &&& decomposition_ok(self.ks_base_log, self.ks_level)
        &&& decomposition_ok(self.pfks_base_log, self.pfks_level)
        &&& self.spec_lift_key_len() <= usize::MAX
    }

    pub fn is_valid(&self) -> (b: bool)
        ensures
            b == self.valid(),
    {
        if !(self.lwe_dimension >= 1 && self.glwe_dimension == 1
            && self.polynomial_size >= 256 && self.polynomial_size <= 16384
            && self.message_modulus >= 2 && self.carry_modulus >= 1) {
            return false;
        }
        if self.message_modulus > 16384 || self.carry_modulus > 16384 {
            assert(2 * self.message_modulus * self.carry_modulus > self.polynomial_size)
                by (nonlinear_arith)
                requires
                    self.message_modulus > 16384 || self.carry_modulus > 16384,
                    self.message_modulus >= 2,
                    self.carry_modulus >= 1,
                    self.polynomial_size <= 16384,
            ;
            return false;
        }
        assert(2 * self.message_modulus * self.carry_modulus <= 2 * 16384 * 16384)
            by (nonlinear_arith)
            requires
                self.message_modulus <= 16384,
                self.carry_modulus <= 16384,
        ;
        if !(is_power_of_two(self.polynomial_size) && 2 * self.message_modulus * self.carry_modulus
            <= self.polynomial_size && check_decomposition(self.pbs_base_log, self.pbs_level)
            && check_decomposition(self.ks_base_log, self.ks_level) && check_decomposition(
            self.pfks_base_log,
            self.pfks_level,
        )) {
            return false;
        }
        let n = self.polynomial_size as u64;
        let level = self.pfks_level as u64;
        assert((n + 1) * level <= 16385 * 63 && (n + 1) * level * 2 * n <= 16385 * 63 * 2 * 16384
            && (n + 1) * level * 2 * n == self.spec_lift_key_len()) by (nonlinear_arith)
            requires
                0 <= n <= 16384,
                0 <= level <= 63,
                n == self.polynomial_size,
                level == self.pfks_level,
        ;
        (n + 1) * level * 2 * n <= usize::MAX as u64
    }

    /// The scaling factor `2^63 / (message_modulus * carry_modulus)`: a
    /// message `m` is encoded as `delta * m`, below one padding bit.
    pub open spec fn spec_delta(&self) -> int {
        0x8000_0000_0000_0000int / (self.message_modulus * self.carry_modulus)
    }

    pub fn delta(&self) -> (d: u64)
        requires
            self.valid(),
        ensures
            d == self.spec_delta(),
            d >= 0x2_0000_0000_0000,
    {
        assert(1 <= self.message_modulus * self.carry_modulus <= 16384) by (nonlinear_arith)
            requires
                2 <= self.message_modulus,
                1 <= self.carry_modulus,
                2 * self.message_modulus * self.carry_modulus <= 16384,
        ;
        let space: usize = self.message_modulus * self.carry_modulus;
        assert(0x8000_0000_0000_0000int / (space as int) >= 0x2_0000_0000_0000) by (nonlinear_arith)
            requires
                1 <= space <= 16384,
        ;
        0x8000_0000_0000_0000u64 / (space as u64)
    }

    /// Number of words of an LWE ciphertext under the key that the GLWE key
    /// flattens to: the mask and the body.
    pub open spec fn spec_lwe_size(&self) -> nat {
        (self.polynomial_size + 1) as nat
    }

    /// Number of words of a GLWE ciphertext: the mask polynomial and the
    /// body polynomial.
    pub open spec fn spec_glwe_len(&self) -> nat {
        (2 * self.polynomial_size) as nat
    }
}

} // verus!
