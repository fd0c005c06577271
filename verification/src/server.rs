use crate::ciphertext::{
    lemma_wrap_add, lemma_wrap_mul, lemma_wrap_neg, wrap, Accumulator, Ciphertext, GlweCiphertext,
};
use crate::context::zeros;
use crate::keyswitch::lift;
use crate::params::Parameters;
use crate::primitives::{
    bootstrap, extracted_sample, negacyclic_product, pfks_key_len, pfks_lift, plaintext_add_assign,
    polynomial_mul, sample_extract, server_key_shape, shape_for, trivial_glwe,
    wrapping_add_assign_words, wrapping_add_words,
    wrapping_opposite_assign_words, wrapping_scalar_mul_assign_words, wrapping_sub_assign_words,
    wrapping_sub_words,
};
use tfhe::shortint::ServerKey;
use vstd::prelude::*;

verus! {

/// Coefficient `i` of a selector polynomial of `n` coefficients: the
/// polynomial with ones on the lower half (`lower`) or on the upper half of
/// its coefficients, of which the first `shift` are negated, rotated left by
/// `shift` places. A programmable bootstrap reads its accumulator rotated by
/// half a slot; the negation and rotation centre each slot on its input.
pub open spec fn selector_coeff(n: int, shift: int, lower: bool, i: int) -> u64 {
    let src = if i + shift < n {
        i + shift
    } else {
        i + shift - n
    };
    let one = if lower {
        src < n / 2
    } else {
        src >= n / 2
    };
    if !one {
        0
    } else if src < shift {
        u64::MAX
    } else {
        1
    }
}

pub open spec fn spec_selector(n: int, shift: int, lower: bool) -> Seq<u64> {
    Seq::new(n as nat, |i: int| selector_coeff(n, shift, lower, i))
}

/// Builds a selector polynomial.
pub fn selector_polynomial(n: usize, shift: usize, lower: bool) -> (out: Vec<u64>)
    requires
        shift <= n / 2,
    ensures
        out@ == spec_selector(n as int, shift as int, lower),
{
    let mut out: Vec<u64> = Vec::new();
    let mut i: usize = 0;
    while i < n
        invariant
            i <= n,
            shift <= n / 2,
            out@.len() == i,
            forall|j: int| 0 <= j < i ==> out@[j] == selector_coeff(n as int, shift as int, lower, j),
        decreases n - i,
    {
        let src = if shift < n - i { i + shift } else { i - (n - shift) };
        let one = if lower { src < n / 2 } else { src >= n / 2 };
        let coeff: u64 = if !one { 0 } else if src < shift { u64::MAX } else { 1 };
        out.push(coeff);
        i += 1;
    }
    assert(out@ =~= spec_selector(n as int, shift as int, lower));
    out
}

/// A GLWE ciphertext times a plaintext polynomial: mask and body are each
/// multiplied by the polynomial, modulo `X^n + 1`.
pub open spec fn glwe_product(glwe: Seq<u64>, n: int, poly: Seq<u64>) -> Seq<u64> {
    negacyclic_product(glwe.subrange(0, n), poly) + negacyclic_product(glwe.subrange(n, 2 * n), poly)
}

/// The word-wise wrapping sum of two sequences of one length.
pub open spec fn words_sum(a: Seq<u64>, b: Seq<u64>) -> Seq<u64> {
    Seq::new(a.len(), |i: int| wrap(a[i] + b[i]))
}

/// The word-wise wrapping difference of two sequences of one length.
pub open spec fn words_diff(a: Seq<u64>, b: Seq<u64>) -> Seq<u64> {
    Seq::new(a.len(), |i: int| wrap(a[i] - b[i]))
}

/// The accumulator that returns `left` on the lower half of its inputs and
/// `right` on the upper half: `left * L + right * R` for the two selector
/// polynomials `L` and `R`, shifted by half a slot of `n / space` coefficients.
pub open spec fn spec_accumulator(left: Seq<u64>, right: Seq<u64>, n: int, space: int) -> Seq<u64> {
    words_sum(
        glwe_product(left, n, spec_selector(n, n / space / 2, true)),
        glwe_product(right, n, spec_selector(n, n / space / 2, false)),
    )
}

/// The trivial GLWE encryption of the constant polynomial `value`.
pub open spec fn trivial_constant(n: int, value: u64) -> Seq<u64> {
    Seq::new((2 * n) as nat, |i: int| if i == n { value } else { 0u64 })
}

/// `b - a` word by word, with `offset` added to the body.
pub open spec fn spec_special_sub(a: Seq<u64>, b: Seq<u64>, offset: int) -> Seq<u64> {
    Seq::new(
        a.len(),
        |i: int|
            if i == a.len() - 1 {
                wrap(b[i] - a[i] + offset)
            } else {
                wrap(b[i] - a[i])
            },
    )
}

/// The words `lo..hi` of `v`.
pub fn copy_range(v: &Vec<u64>, lo: usize, hi: usize) -> (out: Vec<u64>)
    requires
        lo <= hi <= v@.len(),
    ensures
        out@ == v@.subrange(lo as int, hi as int),
{
    let mut out: Vec<u64> = Vec::new();
    let mut i: usize = lo;
    while i < hi
        invariant
            lo <= i <= hi <= v@.len(),
            out@ == v@.subrange(lo as int, i as int),
        decreases hi - i,
    {
        out.push(v[i]);
        assert(out@ =~= v@.subrange(lo as int, i + 1));
        i += 1;
    }
    out
}

/// `a` followed by `b`.
pub fn concat_words(a: Vec<u64>, b: &Vec<u64>) -> (out: Vec<u64>)
    ensures
        out@ == a@ + b@,
{
    let mut out = a;
    let mut i: usize = 0;
    while i < b.len()
        invariant
            i <= b@.len(),
            out@ == a@ + b@.subrange(0, i as int),
        decreases b.len() - i,
    {
        out.push(b[i]);
        assert(out@ =~= a@ + b@.subrange(0, i + 1));
        i += 1;
    }
    assert(b@.subrange(0, b@.len() as int) =~= b@);
    out
}

/// The server of a k-nearest-neighbour query: the evaluation keys and the
/// model it answers queries against.
pub struct KnnServer {
    key: ServerKey,
    lwe_to_glwe_ksk: Vec<u64>,
    params: Parameters,
    gamma: usize,
    data: Vec<Vec<u64>>,
}

impl KnnServer {
    pub closed spec fn params(&self) -> Parameters {
        self.params
    }

    /// The evaluation key of the primitive library.
    pub closed spec fn server_key(&self) -> ServerKey {
        self.key
    }

    /// The key that lifts LWE ciphertexts into GLWE ciphertexts.
    pub closed spec fn lift_key(&self) -> Seq<u64> {
        self.lwe_to_glwe_ksk@
    }

    /// Length of the longest model row.
    pub closed spec fn gamma(&self) -> nat {
        self.gamma as nat
    }

    /// Number of model rows.
    pub closed spec fn rows(&self) -> nat {
        self.data@.len()
    }

    /// Model row `i` as stored: reversed and padded with zeros to the
    /// polynomial size.
    pub closed spec fn row(&self, i: int) -> Seq<u64> {
        self.data@[i]@
    }

    /// The server's invariant: valid parameters, an evaluation key that is
    /// made for them, a lift key of the size they ask for, model rows of
    /// polynomial size, and, where there is a model, a row length between 1
    /// and the polynomial size.
    pub open spec fn wf(&self) -> bool {
        &&& self.params().valid()
        &&& server_key_shape(self.server_key()) == shape_for(self.params())
        &&& self.lift_key().len() == pfks_key_len(
            self.params().polynomial_size as int,
            self.params().pfks_level as int,
        )
        &&& forall|i: int| 0 <= i < self.rows() ==> (#[trigger] self.row(i)).len() == self.params().polynomial_size
        &&& self.rows() > 0 ==> 1 <= self.gamma() <= self.params().polynomial_size
    }

    /// Assembles a server from its parts.
    pub(crate) fn from_parts(
        key: ServerKey,
        lwe_to_glwe_ksk: Vec<u64>,
        params: Parameters,
        gamma: usize,
        data: Vec<Vec<u64>>,
    ) -> (s: Self)
        requires
            params.valid(),
            server_key_shape(key) == shape_for(params),
            lwe_to_glwe_ksk@.len() == pfks_key_len(
                params.polynomial_size as int,
                params.pfks_level as int,
            ),
            forall|i: int| 0 <= i < data@.len() ==> (#[trigger] data@[i])@.len() == params.polynomial_size,
            data@.len() > 0 ==> 1 <= gamma <= params.polynomial_size,
        ensures
            s.wf(),
            s.params() == params,
            s.server_key() == key,
            s.lift_key() == lwe_to_glwe_ksk@,
            s.gamma() == gamma,
            s.rows() == data@.len(),
            forall|i: int| 0 <= i < data@.len() ==> s.row(i) == data@[i]@,
    {
        KnnServer { key, lwe_to_glwe_ksk, params, gamma, data }
    }

    /// The same server with a model: rows already reversed and padded.
    pub(crate) fn with_model(self, gamma: usize, data: Vec<Vec<u64>>) -> (s: Self)
        requires
            self.wf(),
            forall|i: int| 0 <= i < data@.len() ==> (#[trigger] data@[i])@.len() == self.params().polynomial_size,
            data@.len() > 0 ==> 1 <= gamma <= self.params().polynomial_size,
        ensures
            s.wf(),
            s.params() == self.params(),
            s.server_key() == self.server_key(),
            s.lift_key() == self.lift_key(),
            s.gamma() == gamma,
            s.rows() == data@.len(),
            forall|i: int| 0 <= i < data@.len() ==> s.row(i) == data@[i]@,
    {
        KnnServer {
            key: self.key,
            lwe_to_glwe_ksk: self.lwe_to_glwe_ksk,
            params: self.params,
            gamma,
            data,
        }
    }

    /// The parameter set of the server.
    pub fn parameters(&self) -> (p: Parameters)
        ensures
            p == self.params(),
    {
        self.params
    }

    /// Lifts an LWE ciphertext into a GLWE ciphertext whose constant
    /// coefficient carries the same message.
    pub fn lwe_to_glwe(&self, ct: &Ciphertext) -> (out: GlweCiphertext)
        requires
            self.wf(),
            ct@.len() == self.params().spec_lwe_size(),
        ensures
            out.fits(self.params()),
            out@ == pfks_lift(
                self.lift_key(),
                self.params().pfks_base_log,
                self.params().pfks_level,
                self.params().polynomial_size,
                ct@,
            ),
    {
        lift(&self.lwe_to_glwe_ksk, &self.params, ct)
    }

    /// Multiplies mask and body of a GLWE ciphertext by a plaintext polynomial.
    pub fn polynomial_glwe_mul(&self, glwe: &GlweCiphertext, poly: &Vec<u64>) -> (out: GlweCiphertext)
        requires
            self.wf(),
            glwe.fits(self.params()),
            poly@.len() == self.params().polynomial_size,
        ensures
            out.fits(self.params()),
            out@ == glwe_product(glwe@, self.params().polynomial_size as int, poly@),
    {
        let n = self.params.polynomial_size;
        let mask = copy_range(&glwe.data, 0, n);
        let body = copy_range(&glwe.data, n, 2 * n);
        let out_mask = polynomial_mul(&mask, poly);
        let out_body = polynomial_mul(&body, poly);
        GlweCiphertext { data: concat_words(out_mask, &out_body), polynomial_size: n }
    }

    /// The accumulator `left * L + right * R` of two GLWE ciphertexts.
    #[verifier::rlimit(60)]
    pub fn double_glwe_acc(&self, left_glwe: &GlweCiphertext, right_glwe: &GlweCiphertext) -> (acc:
        Accumulator)
        requires
            self.wf(),
            left_glwe.fits(self.params()),
            right_glwe.fits(self.params()),
        ensures
            acc.acc.fits(self.params()),
            acc.degree == self.params().message_modulus - 1,
            acc.acc@ == spec_accumulator(
                left_glwe@,
                right_glwe@,
                self.params().polynomial_size as int,
                self.params().message_modulus as int,
            ),
    {
        let n = self.params.polynomial_size;
        let chunk_size = n / self.params.message_modulus;
        let left_poly = selector_polynomial(n, chunk_size / 2, true);
        let right_poly = selector_polynomial(n, chunk_size / 2, false);
        let mut left_acc = self.polynomial_glwe_mul(left_glwe, &left_poly);
        let right_acc = self.polynomial_glwe_mul(right_glwe, &right_poly);
        let ghost left_words = left_acc.data@;
        wrapping_add_assign_words(&mut left_acc.data, &right_acc.data);
        assert(left_acc.data@ =~= words_sum(left_words, right_acc.data@));
        Accumulator { acc: left_acc, degree: self.params.message_modulus - 1 }
    }

    /// The accumulator that returns the clear value `left_value` on the
    /// lower half of its inputs and `right_value` on the upper half, built
    /// from trivial encryptions of the two encoded values.
    pub fn trivially_double_ct_acc(&self, left_value: u64, right_value: u64) -> (acc: Accumulator)
        requires
            self.wf(),
        ensures
            acc.acc.fits(self.params()),
            acc.degree == self.params().message_modulus - 1,
            acc.acc@ == spec_accumulator(
                trivial_constant(
                    self.params().polynomial_size as int,
                    wrap((left_value % self.params().message_modulus as u64) * self.params().spec_delta()),
                ),
                trivial_constant(
                    self.params().polynomial_size as int,
                    wrap((right_value % self.params().message_modulus as u64) * self.params().spec_delta()),
                ),
                self.params().polynomial_size as int,
                self.params().message_modulus as int,
            ),
    {
        let left_glwe = self.trivial_encode(left_value);
        let right_glwe = self.trivial_encode(right_value);
        self.double_glwe_acc(&left_glwe, &right_glwe)
    }

    /// The trivial GLWE encryption of `value`, reduced modulo the message
    /// modulus and encoded, as a constant polynomial.
    fn trivial_encode(&self, value: u64) -> (out: GlweCiphertext)
        requires
            self.wf(),
        ensures
            out.fits(self.params()),
            out@ == trivial_constant(
                self.params().polynomial_size as int,
                wrap((value % self.params().message_modulus as u64) * self.params().spec_delta()),
            ),
    {
        let n = self.params.polynomial_size;
        let delta = self.params.delta();
        let m = value % (self.params.message_modulus as u64);
        let mut encoded = zeros(n);
        encoded.set(0, m.wrapping_mul(delta));
        let data = trivial_glwe(&encoded, self.params.glwe_dimension);
        assert(data@ =~= trivial_constant(n as int, wrap(m * delta)));
        GlweCiphertext { data, polynomial_size: n }
    }

    /// The accumulator that returns `left_lwe` on the lower half of its
    /// inputs and `right_lwe` on the upper half.
    pub fn double_ct_acc(&self, left_lwe: &Ciphertext, right_lwe: &Ciphertext) -> (acc: Accumulator)
        requires
            self.wf(),
            left_lwe@.len() == self.params().spec_lwe_size(),
            right_lwe@.len() == self.params().spec_lwe_size(),
        ensures
            acc.acc.fits(self.params()),
            acc.degree == self.params().message_modulus - 1,
            acc.acc@ == spec_accumulator(
                pfks_lift(
                    self.lift_key(),
                    self.params().pfks_base_log,
                    self.params().pfks_level,
                    self.params().polynomial_size,
                    left_lwe@,
                ),
                pfks_lift(
                    self.lift_key(),
                    self.params().pfks_base_log,
                    self.params().pfks_level,
                    self.params().polynomial_size,
                    right_lwe@,
                ),
                self.params().polynomial_size as int,
                self.params().message_modulus as int,
            ),
    {
        let left_glwe = self.lwe_to_glwe(left_lwe);
        let right_glwe = self.lwe_to_glwe(right_lwe);
        self.double_glwe_acc(&left_glwe, &right_glwe)
    }

    /// The offset that `special_sub` adds to the body: half the message
    /// modulus, encoded.
    pub open spec fn spec_half_offset(&self) -> int {
        (self.params().message_modulus / 2) * self.params().spec_delta()
    }

    /// `b - a` by raw subtraction, with half the message modulus added to
    /// the body so that a negative difference stays below the padding bit.
    #[verifier::rlimit(60)]
    pub fn special_sub(&self, a: &Ciphertext, b: &Ciphertext) -> (res: Ciphertext)
        requires
            self.wf(),
            a@.len() == self.params().spec_lwe_size(),
            b@.len() == self.params().spec_lwe_size(),
        ensures
            res.fits(self.params()),
            res@ == spec_special_sub(a@, b@, self.spec_half_offset()),
    {
        let mut res = self.raw_sub(b, a);
        let delta = self.params.delta();
        let half = (self.params.message_modulus / 2) as u64;
        assert(0 <= half * delta <= 0x8000_0000_0000_0000) by (nonlinear_arith)
            requires
                half == self.params.message_modulus / 2,
                delta == 0x8000_0000_0000_0000int / (self.params.message_modulus
                    * self.params.carry_modulus),
                self.params.message_modulus >= 2,
                self.params.carry_modulus >= 1,
        ;
        let mod_over_2: u64 = half * delta;
        let ghost before = res.ct@;
        plaintext_add_assign(&mut res.ct, mod_over_2);
        proof {
            let n = a@.len() - 1;
            lemma_wrap_add(b@[n] - a@[n], mod_over_2 as int);
            assert(res.ct@ =~= spec_special_sub(a@, b@, self.spec_half_offset()));
        }
        res
    }

    /// An encryption of the smaller of the messages of `a` and `b`, with
    /// fresh noise: one programmable bootstrap of `special_sub(a, b)`, the
    /// difference `b - a` raised by half the modulus, on the accumulator
    /// `double_ct_acc(b, a)`. Where `a` is at most `b` the difference lies
    /// on the upper half of the inputs, where the accumulator holds `a`.
    pub fn min(&self, a: &Ciphertext, b: &Ciphertext) -> (res: Ciphertext)
        requires
            self.wf(),
            a@.len() == self.params().spec_lwe_size(),
            b@.len() == self.params().spec_lwe_size(),
        ensures
            res.fits(self.params()),
    {
        let acc = self.double_ct_acc(b, a);
        let diff = self.special_sub(a, b);
        bootstrap(&self.key, &self.params, &diff, &acc)
    }

    /// As `min`, with the accumulator built from the clear values `a_pt`
    /// and `b_pt` in place of the ciphertexts.
    pub fn trivially_min(&self, a_pt: u64, b_pt: u64, a: &Ciphertext, b: &Ciphertext) -> (res: Ciphertext)
        requires
            self.wf(),
            a@.len() == self.params().spec_lwe_size(),
            b@.len() == self.params().spec_lwe_size(),
        ensures
            res.fits(self.params()),
    {
        let acc = self.trivially_double_ct_acc(b_pt, a_pt);
        let diff = self.special_sub(a, b);
        bootstrap(&self.key, &self.params, &diff, &acc)
    }

    /// An encryption of the message of `i` where the message of `a` is at
    /// most that of `b`, and of the message of `j` otherwise: as `min`, with
    /// the accumulator `double_ct_acc(j, i)` built over the labels.
    pub fn arg_min(&self, a: &Ciphertext, b: &Ciphertext, i: &Ciphertext, j: &Ciphertext) -> (res:
        Ciphertext)
        requires
            self.wf(),
            a@.len() == self.params().spec_lwe_size(),
            b@.len() == self.params().spec_lwe_size(),
            i@.len() == self.params().spec_lwe_size(),
            j@.len() == self.params().spec_lwe_size(),
        ensures
            res.fits(self.params()),
    {
        let acc = self.double_ct_acc(j, i);
        let diff = self.special_sub(a, b);
        bootstrap(&self.key, &self.params, &diff, &acc)
    }

    /// One programmable bootstrap of `ct` on the lookup table `acc`, with
    /// the server's evaluation key. The result has the size and tags that
    /// the parameters ask for; what it encrypts depends on the noise of the
    /// inputs.
    pub fn keyswitch_programmable_bootstrap(&self, ct: &Ciphertext, acc: &Accumulator) -> (res:
        Ciphertext)
        requires
            self.wf(),
            ct.fits(self.params()),
            acc.acc.fits(self.params()),
            acc.degree == self.params().message_modulus - 1,
        ensures
            res.fits(self.params()),
    {
        bootstrap(&self.key, &self.params, ct, acc)
    }

    /// A ciphertext of the right size and tags with every word zero.
    pub fn new_ct(&self) -> (res: Ciphertext)
        requires
            self.wf(),
        ensures
            res.fits(self.params()),
            res@ == Seq::new(self.params().spec_lwe_size(), |i: int| 0u64),
    {
        Ciphertext {
            ct: zeros(self.params.polynomial_size + 1),
            degree: self.params.message_modulus - 1,
            message_modulus: self.params.message_modulus,
            carry_modulus: self.params.carry_modulus,
        }
    }

    /// `lhs - rhs` word by word, wrapping; no reduction, no bootstrap.
    pub fn raw_sub(&self, lhs: &Ciphertext, rhs: &Ciphertext) -> (res: Ciphertext)
        requires
            self.wf(),
            lhs@.len() == self.params().spec_lwe_size(),
            rhs@.len() == self.params().spec_lwe_size(),
        ensures
            res.fits(self.params()),
            res@ == words_diff(lhs@, rhs@),
    {
        let ct = wrapping_sub_words(&lhs.ct, &rhs.ct);
        assert(ct@ =~= words_diff(lhs@, rhs@));
        Ciphertext {
            ct,
            degree: self.params.message_modulus - 1,
            message_modulus: self.params.message_modulus,
            carry_modulus: self.params.carry_modulus,
        }
    }

    /// Subtracts `rhs` from `lhs` word by word, wrapping.
    pub fn raw_sub_assign(&self, lhs: &mut Ciphertext, rhs: &Ciphertext)
        requires
            old(lhs)@.len() == rhs@.len(),
        ensures
            final(lhs)@ == words_diff(old(lhs)@, rhs@),
            final(lhs).degree == old(lhs).degree,
            final(lhs).message_modulus == old(lhs).message_modulus,
            final(lhs).carry_modulus == old(lhs).carry_modulus,
    {
        let ghost before = lhs.ct@;
        wrapping_sub_assign_words(&mut lhs.ct, &rhs.ct);
        assert(lhs.ct@ =~= words_diff(before, rhs@));
    }

    /// `lhs + rhs` word by word, wrapping; no reduction, no bootstrap.
    pub fn raw_add(&self, lhs: &Ciphertext, rhs: &Ciphertext) -> (res: Ciphertext)
        requires
            self.wf(),
            lhs@.len() == self.params().spec_lwe_size(),
            rhs@.len() == self.params().spec_lwe_size(),
        ensures
            res.fits(self.params()),
            res@ == words_sum(lhs@, rhs@),
    {
        let ct = wrapping_add_words(&lhs.ct, &rhs.ct);
        assert(ct@ =~= words_sum(lhs@, rhs@));
        Ciphertext {
            ct,
            degree: self.params.message_modulus - 1,
            message_modulus: self.params.message_modulus,
            carry_modulus: self.params.carry_modulus,
        }
    }

    /// Adds `rhs` to `lhs` word by word, wrapping.
    pub fn raw_add_assign(&self, lhs: &mut Ciphertext, rhs: &Ciphertext)
        requires
            old(lhs)@.len() == rhs@.len(),
        ensures
            final(lhs)@ == words_sum(old(lhs)@, rhs@),
            final(lhs).degree == old(lhs).degree,
            final(lhs).message_modulus == old(lhs).message_modulus,
            final(lhs).carry_modulus == old(lhs).carry_modulus,
    {
        let ghost before = lhs.ct@;
        wrapping_add_assign_words(&mut lhs.ct, &rhs.ct);
        assert(lhs.ct@ =~= words_sum(before, rhs@));
    }

    /// One encrypted squared distance per model row, from the query
    /// ciphertexts `c` (the target as a polynomial) and `c2` (the sum of its
    /// squares at coefficient `gamma - 1`).
    #[verifier::rlimit(60)]
    pub fn compute_distances(&self, c: &GlweCiphertext, c2: &GlweCiphertext) -> (out: Vec<Ciphertext>)
        requires
            self.wf(),
            c.fits(self.params()),
            c2.fits(self.params()),
        ensures
            out@.len() == self.rows(),
            forall|r: int|
                0 <= r < out@.len() ==> (#[trigger] out@[r]).fits(self.params()) && out@[r]@
                    == spec_distance(
                    c@,
                    c2@,
                    self.params().polynomial_size as int,
                    self.row(r),
                    self.gamma() as int,
                    self.params().spec_delta(),
                    self.params().message_modulus as int,
                ),
    {
        let mut out: Vec<Ciphertext> = Vec::new();
        let mut r: usize = 0;
        while r < self.data.len()
            invariant
                self.wf(),
                c.fits(self.params()),
                c2.fits(self.params()),
                r <= self.data@.len(),
                out@.len() == r,
                forall|q: int|
                    0 <= q < r ==> (#[trigger] out@[q]).fits(self.params()) && out@[q]@
                        == spec_distance(
                        c@,
                        c2@,
                        self.params().polynomial_size as int,
                        self.row(q),
                        self.gamma() as int,
                        self.params().spec_delta(),
                        self.params().message_modulus as int,
                    ),
            decreases self.data@.len() - r,
        {
            assert(self.row(r as int).len() == self.params().polynomial_size);
            let lwe = self.distance_to(c, c2, &self.data[r]);
            out.push(lwe);
            r += 1;
        }
        out
    }

    /// The encrypted squared distance to one stored model row.
    #[verifier::rlimit(60)]
    fn distance_to(&self, c: &GlweCiphertext, c2: &GlweCiphertext, row: &Vec<u64>) -> (lwe: Ciphertext)
        requires
            self.wf(),
            self.rows() > 0,
            c.fits(self.params()),
            c2.fits(self.params()),
            row@.len() == self.params().polynomial_size,
        ensures
            lwe.fits(self.params()),
            lwe@ == spec_distance(
                c@,
                c2@,
                self.params().polynomial_size as int,
                row@,
                self.gamma() as int,
                self.params().spec_delta(),
                self.params().message_modulus as int,
            ),
    {
        let ghost n = self.params.polynomial_size as int;
        let glwe = self.distance_polynomial(c, c2, row);
        // the coefficient at gamma - 1 holds the inner product
        let mut ct = sample_extract(&glwe, self.gamma - 1);
        let ghost extracted = ct@;
        // add the squares of the row, and the message modulus to stay positive
        let delta = self.params.delta();
        let squares = wrapping_sum_squares(row);
        let m2 = delta.wrapping_mul((self.params.message_modulus as u64).wrapping_add(squares));
        plaintext_add_assign(&mut ct, m2);
        proof {
            let p = self.params.message_modulus as int;
            let total = sum_squares(row@, row@.len() as int);
            lemma_wrap_add(p, total);
            lemma_wrap_mul(delta as int, p + total);
            lemma_wrap_add(extracted[n] as int, delta * (p + total));
            assert(m2 == wrap(delta * (p + total)));
            assert(ct@[n] == wrap(extracted[n] + delta * (p + total)));
        }
        Ciphertext {
            ct,
            degree: self.params.message_modulus - 1,
            message_modulus: self.params.message_modulus,
            carry_modulus: self.params.carry_modulus,
        }
    }

    /// The GLWE ciphertext `c2 - 2 * row * c`.
    #[verifier::rlimit(60)]
    fn distance_polynomial(&self, c: &GlweCiphertext, c2: &GlweCiphertext, row: &Vec<u64>) -> (glwe:
        GlweCiphertext)
        requires
            self.wf(),
            c.fits(self.params()),
            c2.fits(self.params()),
            row@.len() == self.params().polynomial_size,
        ensures
            glwe.fits(self.params()),
            glwe@ == distance_glwe(c@, c2@, self.params().polynomial_size as int, row@),
    {
        let ghost n = self.params.polynomial_size as int;
        let mut glwe = self.polynomial_glwe_mul(c, row);
        let ghost product = glwe.data@;
        wrapping_scalar_mul_assign_words(&mut glwe.data, 2);
        wrapping_opposite_assign_words(&mut glwe.data);
        wrapping_add_assign_words(&mut glwe.data, &c2.data);
        proof {
            assert forall|i: int| 0 <= i < 2 * n implies glwe.data@[i] == wrap(
                c2@[i] - 2 * product[i],
            ) by {
                lemma_wrap_neg(product[i] * 2);
                lemma_wrap_add(-(product[i] * 2), c2@[i] as int);
            }
            assert(glwe.data@ =~= distance_glwe(c@, c2@, n, row@));
        }
        glwe
    }
}

/// The squares of the first `upto` words of a row, summed.
pub open spec fn sum_squares(row: Seq<u64>, upto: int) -> int
    decreases upto,
{
    if upto <= 0 {
        0
    } else {
        sum_squares(row, upto - 1) + row[upto - 1] * row[upto - 1]
    }
}

/// The sum of the squares of a row, in wrapping arithmetic.
pub fn wrapping_sum_squares(row: &Vec<u64>) -> (s: u64)
    ensures
        s == wrap(sum_squares(row@, row@.len() as int)),
{
    let mut s: u64 = 0;
    let mut i: usize = 0;
    while i < row.len()
        invariant
            i <= row@.len(),
            s == wrap(sum_squares(row@, i as int)),
        decreases row.len() - i,
    {
        let x = row[i];
        proof {
            lemma_wrap_add(sum_squares(row@, i as int), x * x);
        }
        s = s.wrapping_add(x.wrapping_mul(x));
        i += 1;
    }
    s
}

/// The GLWE ciphertext `c2 - 2 * row * c`.
pub open spec fn distance_glwe(c: Seq<u64>, c2: Seq<u64>, n: int, row: Seq<u64>) -> Seq<u64> {
    Seq::new((2 * n) as nat, |i: int| wrap(c2[i] - 2 * glwe_product(c, n, row)[i]))
}

/// The encrypted squared distance to one stored model row: the sample of
/// `c2 - 2 * row * c` at coefficient `gamma - 1`, with
/// `delta * (modulus + sum of the squares of the row)` added to the body.
pub open spec fn spec_distance(
    c: Seq<u64>,
    c2: Seq<u64>,
    n: int,
    row: Seq<u64>,
    gamma: int,
    delta: int,
    modulus: int,
) -> Seq<u64> {
    let lwe = extracted_sample(distance_glwe(c, c2, n, row), n, gamma - 1);
    lwe.update(n, wrap(lwe[n] + delta * (modulus + sum_squares(row, row.len() as int))))
}

/// A model row as the server stores it: coefficient `i` holds entry
/// `gamma - 1 - i` of the row, and zero where the row has no such entry.
pub open spec fn spec_model_row(row: Seq<u64>, gamma: int, n: int) -> Seq<u64> {
    Seq::new(
        n as nat,
        |i: int|
            if 0 <= gamma - 1 - i < row.len() {
                row[gamma - 1 - i]
            } else {
                0u64
            },
    )
}

/// Reverses a row of at most `gamma` entries against `gamma` and pads it
/// with zeros to `n` coefficients.
pub fn model_row(row: &Vec<u64>, gamma: usize, n: usize) -> (out: Vec<u64>)
    requires
        row@.len() <= gamma <= n,
    ensures
        out@ == spec_model_row(row@, gamma as int, n as int),
{
    let mut out: Vec<u64> = Vec::new();
    let mut i: usize = 0;
    while i < n
        invariant
            i <= n,
            row@.len() <= gamma <= n,
            out@.len() == i,
            forall|j: int|
                0 <= j < i ==> out@[j] == if 0 <= gamma - 1 - j < row@.len() {
                    row@[gamma - 1 - j]
                } else {
                    0u64
                },
        decreases n - i,
    {
        let coeff: u64 = if i < gamma && gamma - 1 - i < row.len() {
            row[gamma - 1 - i]
        } else {
            0
        };
        out.push(coeff);
        i += 1;
    }
    assert(out@ =~= spec_model_row(row@, gamma as int, n as int));
    out
}

/// Length of the longest row; 0 for no rows.
pub fn longest_row(data: &Vec<Vec<u64>>) -> (gamma: usize)
    ensures
        forall|i: int| 0 <= i < data@.len() ==> (#[trigger] data@[i])@.len() <= gamma,
        data@.len() == 0 ==> gamma == 0,
        data@.len() > 0 ==> exists|i: int| 0 <= i < data@.len() && (#[trigger] data@[i])@.len() == gamma,
{
    let mut gamma: usize = 0;
    let mut r: usize = 0;
    while r < data.len()
        invariant
            r <= data@.len(),
            forall|i: int| 0 <= i < r ==> (#[trigger] data@[i])@.len() <= gamma,
            r == 0 ==> gamma == 0,
            r > 0 ==> exists|i: int| 0 <= i < r && (#[trigger] data@[i])@.len() == gamma,
        decreases data.len() - r,
    {
        if data[r].len() > gamma {
            gamma = data[r].len();
        }
        r += 1;
    }
    gamma
}

} // verus!
