use crate::ciphertext::{
    lemma_wrap_add, lemma_wrap_mul, lemma_wrap_neg, wrap, Ciphertext, GlweCiphertext,
};
use crate::comparator::{spec_tagged_decode, EncItem};
use crate::context::{lwe_decrypt_decode, lwe_encode_encrypt, Context};
use crate::params::Parameters;
use crate::primitives::{
    client_secret_keys, glwe_decrypt, glwe_encrypt, glwe_phase, lwe_decrypt, lwe_phase,
};
use crate::server::{sum_squares, wrapping_sum_squares};
use tfhe::shortint::ClientKey;
use vstd::prelude::*;

verus! {

/// The plaintext of the first query ciphertext: coefficient `j` holds
/// `delta * target[j]`, and zero from the target's length on.
pub open spec fn spec_query_plaintext(target: Seq<u64>, n: int, delta: int) -> Seq<u64> {
    Seq::new(
        n as nat,
        |j: int|
            if j < target.len() {
                wrap(target[j] * delta)
            } else {
                0u64
            },
    )
}

/// The plaintext of the second query ciphertext: `delta` times the sum of
/// the squares of the target at coefficient `gamma - 1`, with `gamma` the
/// target's length, and zero elsewhere.
pub open spec fn spec_squares_plaintext(target: Seq<u64>, n: int, delta: int) -> Seq<u64> {
    Seq::new(
        n as nat,
        |j: int|
            if j == target.len() - 1 {
                wrap(delta * sum_squares(target, target.len() as int))
            } else {
                0u64
            },
    )
}

/// The two plaintexts of a query for `target`, for polynomials of `n`
/// coefficients and the scaling factor `delta`.
pub fn query_plaintexts(target: &Vec<u64>, n: usize, delta: u64) -> (pts: (Vec<u64>, Vec<u64>))
    requires
        1 <= target@.len() < n,
    ensures
        pts.0@ == spec_query_plaintext(target@, n as int, delta as int),
        pts.1@ == spec_squares_plaintext(target@, n as int, delta as int),
{
    let gamma = target.len();
    // \sum_{i=0}^{\gamma - 1} c_i * X^i
    let mut pt: Vec<u64> = Vec::new();
    let mut j: usize = 0;
    while j < n
        invariant
            j <= n,
            gamma == target@.len(),
            pt@.len() == j,
            forall|i: int|
                0 <= i < j ==> pt@[i] == if i < target@.len() {
                    wrap(target@[i] * delta)
                } else {
                    0u64
                },
        decreases n - j,
    {
        pt.push(if j < gamma { target[j].wrapping_mul(delta) } else { 0 });
        j += 1;
    }
    assert(pt@ =~= spec_query_plaintext(target@, n as int, delta as int));
    // X^{\gamma - 1} * (\sum_{i = 0}^{\gamma - 1} c_i^2)
    let sum_sqr = delta.wrapping_mul(wrapping_sum_squares(target));
    proof {
        lemma_wrap_mul(delta as int, sum_squares(target@, target@.len() as int));
    }
    let mut pt2: Vec<u64> = Vec::new();
    let mut j: usize = 0;
    while j < n
        invariant
            j <= n,
            gamma == target@.len(),
            gamma >= 1,
            pt2@.len() == j,
            forall|i: int|
                0 <= i < j ==> pt2@[i] == if i == gamma - 1 {
                    sum_sqr
                } else {
                    0u64
                },
        decreases n - j,
    {
        pt2.push(if j == gamma - 1 { sum_sqr } else { 0 });
        j += 1;
    }
    assert(pt2@ =~= spec_squares_plaintext(target@, n as int, delta as int));
    (pt, pt2)
}

/// Distance of a word from zero on the 64-bit circle.
pub open spec fn circle_distance(x: u64) -> u64 {
    if x <= 0x8000_0000_0000_0000 {
        x
    } else {
        (0x1_0000_0000_0000_0000 - x) as u64
    }
}

/// The client of a k-nearest-neighbour query: the secret keys and the
/// context to encode with.
pub struct KnnClient {
    key: ClientKey,
    lwe_key: Vec<u64>,
    glwe_key: Vec<u64>,
    ctx: Context,
}

impl KnnClient {
    pub closed spec fn context(&self) -> Context {
        self.ctx
    }

    /// The client key of the primitive library that the client was
    /// assembled with.
    pub closed spec fn client_key(&self) -> ClientKey {
        self.key
    }

    /// The LWE secret key, one bit per word.
    pub closed spec fn lwe_key(&self) -> Seq<u64> {
        self.lwe_key@
    }

    /// The GLWE secret key, one bit per word.
    pub closed spec fn glwe_key(&self) -> Seq<u64> {
        self.glwe_key@
    }

    pub open spec fn params(&self) -> Parameters {
        self.context().params
    }

    /// The client's invariant: a well-formed context, and secret keys of the
    /// size that the parameters ask for, which are those that the client key
    /// of the primitive library holds.
    pub open spec fn wf(&self) -> bool {
        &&& self.context().wf()
        &&& client_secret_keys(self.client_key()) == (self.lwe_key(), self.glwe_key())
        &&& self.lwe_key().len() == self.params().polynomial_size
        &&& self.glwe_key().len() == self.params().polynomial_size
    }

    pub(crate) fn from_parts(key: ClientKey, lwe_key: Vec<u64>, glwe_key: Vec<u64>, ctx: Context) -> (c:
        Self)
        requires
            ctx.wf(),
            client_secret_keys(key) == (lwe_key@, glwe_key@),
            lwe_key@.len() == ctx.params.polynomial_size,
            glwe_key@.len() == ctx.params.polynomial_size,
        ensures
            c.wf(),
            c.context() == ctx,
            c.client_key() == key,
            c.lwe_key() == lwe_key@,
            c.glwe_key() == glwe_key@,
    {
        KnnClient { key, lwe_key, glwe_key, ctx }
    }

    /// The client key of the primitive library that the client was
    /// assembled with.
    pub fn key(&self) -> (k: &ClientKey)
        ensures
            *k == self.client_key(),
    {
        &self.key
    }

    /// The parameter set of the client.
    pub fn parameters(&self) -> (p: Parameters)
        ensures
            p == self.params(),
    {
        self.ctx.params
    }

    /// Encodes `x` and encrypts it under the LWE key. The ciphertext is
    /// random; it has the size and tags that the parameters ask for.
    pub fn lwe_encode_encrypt(&self, x: u64) -> (ct: Ciphertext)
        requires
            self.wf(),
        ensures
            ct.fits(self.params()),
    {
        let ct = lwe_encode_encrypt(&self.lwe_key, &self.ctx, x);
        Ciphertext {
            ct,
            degree: self.ctx.params.message_modulus - 1,
            message_modulus: self.ctx.params.message_modulus,
            carry_modulus: self.ctx.params.carry_modulus,
        }
    }

    /// Decrypts a ciphertext under the LWE key and decodes what comes out.
    pub fn lwe_decrypt_decode(&self, ct: &Ciphertext) -> (x: u64)
        requires
            self.wf(),
            ct@.len() == self.params().spec_lwe_size(),
        ensures
            x == self.context().codec.spec_decode(lwe_phase(self.lwe_key(), ct@)),
    {
        lwe_decrypt_decode(&self.lwe_key, &self.ctx, &ct.ct)
    }

    /// Encodes every coefficient of a plaintext polynomial.
    pub fn encode_plaintexts(&self, pt: &Vec<u64>) -> (out: Vec<u64>)
        ensures
            out@.len() == pt@.len(),
            forall|i: int| 0 <= i < pt@.len() ==> out@[i] == self.context().codec.spec_encode(pt@[i]),
    {
        let mut out: Vec<u64> = Vec::new();
        let mut i: usize = 0;
        while i < pt.len()
            invariant
                i <= pt@.len(),
                out@.len() == i,
                forall|j: int| 0 <= j < i ==> out@[j] == self.context().codec.spec_encode(pt@[j]),
            decreases pt.len() - i,
        {
            let mut word = pt[i];
            self.ctx.codec.encode(&mut word);
            out.push(word);
            i += 1;
        }
        out
    }

    /// Encodes every coefficient of `pt` and encrypts the polynomial under
    /// the GLWE key. The ciphertext is random; it has the size that the
    /// parameters ask for.
    pub fn glwe_encode_encrypt(&self, pt: &Vec<u64>) -> (ct: GlweCiphertext)
        requires
            self.wf(),
            pt@.len() == self.params().polynomial_size,
        ensures
            ct.fits(self.params()),
    {
        let pt_encoded = self.encode_plaintexts(pt);
        let data = glwe_encrypt(&self.glwe_key, &pt_encoded, &self.ctx.params);
        GlweCiphertext { data, polynomial_size: self.ctx.params.polynomial_size }
    }

    /// Decrypts a GLWE ciphertext and decodes every coefficient.
    pub fn glwe_decrypt_decode(&self, ct: &GlweCiphertext) -> (out: Vec<u64>)
        requires
            self.wf(),
            ct.fits(self.params()),
        ensures
            out@.len() == self.params().polynomial_size,
            forall|i: int|
                0 <= i < out@.len() ==> out@[i] == self.context().codec.spec_decode(
                    glwe_phase(self.glwe_key(), ct@)[i],
                ),
    {
        let mut out = glwe_decrypt(&self.glwe_key, &ct.data);
        let ghost phase = out@;
        let mut i: usize = 0;
        while i < out.len()
            invariant
                self.wf(),
                i <= out@.len(),
                out@.len() == phase.len(),
                forall|j: int| 0 <= j < i ==> out@[j] == self.context().codec.spec_decode(phase[j]),
                forall|j: int| i <= j < out@.len() ==> out@[j] == phase[j],
            decreases out.len() - i,
        {
            let mut word = out[i];
            self.ctx.codec.decode(&mut word);
            out.set(i, word);
            i += 1;
        }
        out
    }

    /// The messages of value and class of an item under the client's LWE
    /// key, each decoded by the tags of its ciphertext. `None` exactly where
    /// the item is not decryptable under the key.
    pub fn decrypt(&self, item: &EncItem) -> (pair: Option<(u64, u64)>)
        ensures
            pair is Some <==> item.decryptable(self.lwe_key().len()),
            pair matches Some(p) ==> p.0 == spec_tagged_decode(
                lwe_phase(self.lwe_key(), item.value@),
                item.value.message_modulus,
                item.value.carry_modulus,
            ) && p.1 == spec_tagged_decode(
                lwe_phase(self.lwe_key(), item.class@),
                item.class.message_modulus,
                item.class.carry_modulus,
            ) && p.0 < item.value.message_modulus && p.1 < item.class.message_modulus,
    {
        item.decrypt_with_key(&self.lwe_key)
    }

    /// How far the phase of `ct` lies from the encoding of `expected_pt`:
    /// the size of the noise of a ciphertext that encrypts `expected_pt`.
    pub fn lwe_noise(&self, ct: &Ciphertext, expected_pt: u64) -> (noise: u64)
        requires
            self.wf(),
            ct@.len() == self.params().spec_lwe_size(),
        ensures
            noise == circle_distance(
                wrap(lwe_phase(self.lwe_key(), ct@) - self.params().spec_delta() * expected_pt),
            ),
    {
        // pt = b - a*s = Delta*m + e
        let pt = lwe_decrypt(&self.lwe_key, &ct.ct);
        // pt = pt - Delta*m = e
        let delta = self.delta();
        let e = pt.wrapping_sub(delta.wrapping_mul(expected_pt));
        assert(e == wrap(pt - delta * expected_pt)) by {
            lemma_wrap_add(pt as int, -(delta * expected_pt));
            lemma_wrap_add(pt as int, -(wrap(delta * expected_pt) as int));
            lemma_wrap_neg(delta * expected_pt);
        }
        if e <= 0x8000_0000_0000_0000 {
            e
        } else {
            (u64::MAX - e) + 1
        }
    }

    /// The scaling factor of the parameter set.
    pub fn delta(&self) -> (d: u64)
        requires
            self.wf(),
        ensures
            d == self.params().spec_delta(),
    {
        self.ctx.delta()
    }

    /// Builds the query for `target`: an encryption of the target as a
    /// polynomial, and an encryption of the sum of its squares at the
    /// coefficient that the distance engine extracts. Both are random; they
    /// have the size that the parameters ask for.
    pub fn make_query(&self, target: &Vec<u64>) -> (query: (GlweCiphertext, GlweCiphertext))
        requires
            self.wf(),
            1 <= target@.len() < self.params().polynomial_size,
        ensures
            query.0.fits(self.params()),
            query.1.fits(self.params()),
    {
        let n = self.ctx.params.polynomial_size;
        let delta = self.delta();
        let (pt, pt2) = query_plaintexts(target, n, delta);
        // now encrypt the two plaintexts
        let glwe = glwe_encrypt(&self.glwe_key, &pt, &self.ctx.params);
        let glwe2 = glwe_encrypt(&self.glwe_key, &pt2, &self.ctx.params);
        (
            GlweCiphertext { data: glwe, polynomial_size: n },
            GlweCiphertext { data: glwe2, polynomial_size: n },
        )
    }
}

} // verus!
