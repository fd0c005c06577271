use crate::ciphertext::{wrap, Accumulator, Ciphertext, GlweCiphertext};
use crate::params::Parameters;
use tfhe::core_crypto::prelude::polynomial_algorithms::polynomial_wrapping_mul;
use tfhe::core_crypto::prelude::slice_algorithms::{
    slice_wrapping_add, slice_wrapping_add_assign, slice_wrapping_opposite_assign,
    slice_wrapping_scalar_mul_assign, slice_wrapping_sub, slice_wrapping_sub_assign,
};
use tfhe::core_crypto::prelude::{
    allocate_and_encrypt_new_lwe_ciphertext, decrypt_glwe_ciphertext, decrypt_lwe_ciphertext,
    encrypt_glwe_ciphertext, extract_lwe_sample_from_glwe_ciphertext,
    generate_lwe_private_functional_packing_keyswitch_key, lwe_ciphertext_plaintext_add_assign,
    new_seeder, private_functional_keyswitch_lwe_ciphertext_into_glwe_ciphertext,
    trivially_encrypt_glwe_ciphertext, ActivatedRandomGenerator, DecompositionBaseLog,
    DecompositionLevelCount, EncryptionRandomGenerator, GlweCiphertext as RawGlwe, GlweDimension,
    GlweSecretKey, GlweSecretKeyOwned, LweCiphertext as RawLwe, LweDimension,
    LwePrivateFunctionalPackingKeyswitchKey, LweSecretKey, LweSecretKeyOwned, MonomialDegree,
    Plaintext, PlaintextList, Polynomial, PolynomialSize, StandardDev,
};
use tfhe::shortint::ciphertext::Degree;
use tfhe::shortint::parameters::{CarryModulus, MessageModulus};
use tfhe::shortint::{ClientKey, ServerKey};
use vstd::prelude::*;

verus! {

/// The client key of the primitive library: the secret keys and the
/// parameter set they were made for.
#[verifier::external_type_specification]
#[verifier::external_body]
pub struct ExClientKey(ClientKey);

/// The server key of the primitive library: the keys for key switching and
/// bootstrapping, which hold no secret.
#[verifier::external_type_specification]
#[verifier::external_body]
pub struct ExServerKey(ServerKey);

/// Coefficient `k` of `a * b` modulo `X^N + 1` is the sum over `i` of
/// `a[i] * b[k - i]` for `i <= k` and of `-a[i] * b[N + k - i]` for `i > k`.
pub open spec fn negacyclic_term(a: Seq<u64>, b: Seq<u64>, k: int, i: int) -> int {
    if i <= k {
        a[i] * b[k - i]
    } else {
        -(a[i] * b[a.len() + k - i])
    }
}

/// The terms `0..upto` of coefficient `k` of the negacyclic product, summed.
pub open spec fn negacyclic_sum(a: Seq<u64>, b: Seq<u64>, k: int, upto: int) -> int
    decreases upto,
{
    if upto <= 0 {
        0
    } else {
        negacyclic_sum(a, b, k, upto - 1) + negacyclic_term(a, b, k, upto - 1)
    }
}

/// The product of two polynomials of the same size `N`, reduced modulo
/// `X^N + 1`, with coefficients in 64-bit wrapping arithmetic.
pub open spec fn negacyclic_product(a: Seq<u64>, b: Seq<u64>) -> Seq<u64> {
    Seq::new(a.len(), |k: int| wrap(negacyclic_sum(a, b, k, a.len() as int)))
}

/// The first `upto` products `mask[i] * key[i]`, summed.
pub open spec fn dot_sum(mask: Seq<u64>, key: Seq<u64>, upto: int) -> int
    decreases upto,
{
    if upto <= 0 {
        0
    } else {
        dot_sum(mask, key, upto - 1) + mask[upto - 1] * key[upto - 1]
    }
}

/// What decryption takes out of an LWE ciphertext: the body less the inner
/// product of mask and key, in wrapping arithmetic. It is the encoded
/// message plus the noise.
pub open spec fn lwe_phase(key: Seq<u64>, ct: Seq<u64>) -> u64 {
    wrap(ct[ct.len() - 1] - dot_sum(ct, key, key.len() as int))
}

/// The LWE ciphertext that sample extraction at coefficient `nth` takes out
/// of a GLWE ciphertext with one mask polynomial of `n` coefficients: mask
/// word `i` is mask coefficient `nth - i` for `i <= nth` and the opposite of
/// mask coefficient `n + nth - i` above; the body is body coefficient `nth`.
pub open spec fn extracted_sample(glwe: Seq<u64>, n: int, nth: int) -> Seq<u64> {
    Seq::new(
        (n + 1) as nat,
        |i: int|
            if i == n {
                glwe[n + nth]
            } else if i <= nth {
                glwe[nth - i]
            } else {
                wrap(-glwe[n + nth - i])
            },
    )
}

/// Number of words of a private functional packing key-switch key from an
/// LWE key of `n` bits to a GLWE key with one polynomial of `n` coefficients:
/// one block for each of the `n + 1` words of an LWE ciphertext, of `level`
/// GLWE ciphertexts of `2 * n` words.
pub open spec fn pfks_key_len(n: int, level: int) -> int {
    (n + 1) * level * 2 * n
}

/// The GLWE ciphertext that the private functional packing key switch makes
/// of an LWE ciphertext under a given key-switch key.
pub uninterp spec fn pfks_lift(
    ksk: Seq<u64>,
    base_log: usize,
    level: usize,
    polynomial_size: usize,
    ct: Seq<u64>,
) -> Seq<u64>;

/// The two secret keys that a client key holds, one bit per word: the LWE
/// key that ciphertexts are encrypted under, and the GLWE key.
pub uninterp spec fn client_secret_keys(key: ClientKey) -> (Seq<u64>, Seq<u64>);

/// The message modulus and the carry modulus of the parameters that a
/// client key holds.
pub uninterp spec fn client_key_moduli(key: ClientKey) -> (usize, usize);

/// What a server key was made for, as eleven numbers: of its key-switching
/// key the input dimension, the output dimension, the base logarithm and
/// the level count; of its bootstrapping key the input dimension, the GLWE
/// size, the polynomial size, the base logarithm and the level count; the
/// message modulus and the carry modulus.
pub uninterp spec fn server_key_shape(key: ServerKey) -> Seq<usize>;

/// The shape of a server key that is made for the parameters `p`.
pub open spec fn shape_for(p: Parameters) -> Seq<usize> {
    seq![
        (p.glwe_dimension * p.polynomial_size) as usize,
        p.lwe_dimension,
        p.ks_base_log,
        p.ks_level,
        p.lwe_dimension,
        (p.glwe_dimension + 1) as usize,
        p.polynomial_size,
        p.pbs_base_log,
        p.pbs_level,
        p.message_modulus,
        p.carry_modulus,
    ]
}

/// The moduli of a client key span a plaintext space that is not empty and
/// leaves room for the padding bit.
pub open spec fn moduli_ok(moduli: (usize, usize)) -> bool {
    1 <= moduli.0 * moduli.1 <= 0x8000_0000_0000_0000 && moduli.0 * moduli.1 <= usize::MAX
}

/// What GLWE decryption returns: the body less the product of mask and key.
pub open spec fn glwe_phase(key: Seq<u64>, glwe: Seq<u64>) -> Seq<u64> {
    let n = key.len() as int;
    Seq::new(
        key.len(),
        |k: int| wrap(glwe[n + k] - negacyclic_product(glwe.subrange(0, n), key)[k]),
    )
}

/// Calls `slice_wrapping_add`: the word-wise wrapping sum of two slices of
/// one length.
#[verifier::external_body]
pub(crate) fn wrapping_add_words(lhs: &Vec<u64>, rhs: &Vec<u64>) -> (out: Vec<u64>)
    requires
        lhs@.len() == rhs@.len(),
    ensures
        out@.len() == lhs@.len(),
        forall|i: int| 0 <= i < out@.len() ==> out@[i] == wrap(lhs@[i] + rhs@[i]),
{
    let mut out = vec![0u64; lhs.len()];
    slice_wrapping_add(&mut out, lhs, rhs);
    out
}

/// Calls `slice_wrapping_sub`: the word-wise wrapping difference of two
/// slices of one length.
#[verifier::external_body]
pub(crate) fn wrapping_sub_words(lhs: &Vec<u64>, rhs: &Vec<u64>) -> (out: Vec<u64>)
    requires
        lhs@.len() == rhs@.len(),
    ensures
        out@.len() == lhs@.len(),
        forall|i: int| 0 <= i < out@.len() ==> out@[i] == wrap(lhs@[i] - rhs@[i]),
{
    let mut out = vec![0u64; lhs.len()];
    slice_wrapping_sub(&mut out, lhs, rhs);
    out
}

/// Calls `slice_wrapping_add_assign`: adds `rhs` to `lhs` word by word, wrapping.
#[verifier::external_body]
pub(crate) fn wrapping_add_assign_words(lhs: &mut Vec<u64>, rhs: &Vec<u64>)
    requires
        old(lhs)@.len() == rhs@.len(),
    ensures
        final(lhs)@.len() == old(lhs)@.len(),
        forall|i: int|
            0 <= i < old(lhs)@.len() ==> final(lhs)@[i] == wrap(old(lhs)@[i] + rhs@[i]),
{
    slice_wrapping_add_assign(lhs, rhs);
}

/// Calls `slice_wrapping_sub_assign`: subtracts `rhs` from `lhs` word by
/// word, wrapping.
#[verifier::external_body]
pub(crate) fn wrapping_sub_assign_words(lhs: &mut Vec<u64>, rhs: &Vec<u64>)
    requires
        old(lhs)@.len() == rhs@.len(),
    ensures
        final(lhs)@.len() == old(lhs)@.len(),
        forall|i: int|
            0 <= i < old(lhs)@.len() ==> final(lhs)@[i] == wrap(old(lhs)@[i] - rhs@[i]),
{
    slice_wrapping_sub_assign(lhs, rhs);
}

/// Calls `slice_wrapping_scalar_mul_assign`: multiplies every word by
/// `scalar`, wrapping.
#[verifier::external_body]
pub(crate) fn wrapping_scalar_mul_assign_words(lhs: &mut Vec<u64>, scalar: u64)
    ensures
        final(lhs)@.len() == old(lhs)@.len(),
        forall|i: int| 0 <= i < old(lhs)@.len() ==> final(lhs)@[i] == wrap(old(lhs)@[i] * scalar),
{
    slice_wrapping_scalar_mul_assign(lhs, scalar);
}

/// Calls `slice_wrapping_opposite_assign`: replaces every word by its
/// opposite, wrapping.
#[verifier::external_body]
pub(crate) fn wrapping_opposite_assign_words(lhs: &mut Vec<u64>)
    ensures
        final(lhs)@.len() == old(lhs)@.len(),
        forall|i: int| 0 <= i < old(lhs)@.len() ==> final(lhs)@[i] == wrap(-old(lhs)@[i]),
{
    slice_wrapping_opposite_assign(lhs);
}

/// Calls `polynomial_wrapping_mul`: the product of two polynomials of one
/// size, reduced modulo `X^N + 1`, in wrapping arithmetic.
#[verifier::external_body]
pub(crate) fn polynomial_mul(lhs: &Vec<u64>, rhs: &Vec<u64>) -> (out: Vec<u64>)
    requires
        lhs@.len() == rhs@.len(),
        lhs@.len() >= 1,
    ensures
        out@ == negacyclic_product(lhs@, rhs@),
{
    let mut out = Polynomial::from_container(vec![0u64; lhs.len()]);
    polynomial_wrapping_mul(
        &mut out,
        &Polynomial::from_container(lhs.as_slice()),
        &Polynomial::from_container(rhs.as_slice()),
    );
    out.into_container()
}

/// Calls `extract_lwe_sample_from_glwe_ciphertext` on a GLWE ciphertext
/// with one mask polynomial.
#[verifier::external_body]
pub(crate) fn sample_extract(glwe: &GlweCiphertext, nth: usize) -> (out: Vec<u64>)
    requires
        glwe.polynomial_size >= 1,
        glwe@.len() == 2 * glwe.polynomial_size,
        nth < glwe.polynomial_size,
    ensures
        out@ == extracted_sample(glwe@, glwe.polynomial_size as int, nth as int),
{
    let input = RawGlwe::from_container(glwe.data.as_slice(), PolynomialSize(glwe.polynomial_size));
    let mut out = RawLwe::new(0u64, LweDimension(glwe.polynomial_size).to_lwe_size());
    extract_lwe_sample_from_glwe_ciphertext(&input, &mut out, MonomialDegree(nth));
    out.into_container()
}

/// Calls `lwe_ciphertext_plaintext_add_assign`: adds a plaintext to the
/// body, the last word, and leaves the mask as it is.
#[verifier::external_body]
pub(crate) fn plaintext_add_assign(ct: &mut Vec<u64>, plaintext: u64)
    requires
        old(ct)@.len() >= 1,
    ensures
        final(ct)@ == old(ct)@.update(
            old(ct)@.len() - 1,
            wrap(old(ct)@[old(ct)@.len() - 1] + plaintext),
        ),
{
    let mut lwe = RawLwe::from_container(ct.as_mut_slice());
    lwe_ciphertext_plaintext_add_assign(&mut lwe, Plaintext(plaintext));
}

/// Calls `trivially_encrypt_glwe_ciphertext` for one mask polynomial: a
/// zero mask and the plaintexts as body.
#[verifier::external_body]
pub(crate) fn trivial_glwe(plaintexts: &Vec<u64>, glwe_dimension: usize) -> (out: Vec<u64>)
    requires
        glwe_dimension == 1,
        plaintexts@.len() >= 1,
        2 * plaintexts@.len() <= usize::MAX,
    ensures
        out@ == Seq::new(plaintexts@.len(), |i: int| 0u64) + plaintexts@,
{
    let size = GlweDimension(glwe_dimension).to_glwe_size();
    let mut out = RawGlwe::new(0u64, size, PolynomialSize(plaintexts.len()));
    trivially_encrypt_glwe_ciphertext(&mut out, &PlaintextList::from_container(plaintexts.as_slice()));
    out.into_container()
}

/// Calls `gen_keys` of the short-integer layer, which draws fresh secret
/// keys and derives the key-switching and bootstrapping keys from them. The
/// keys are random; both secret keys have one word for each coefficient of
/// each mask polynomial, the client key holds the moduli of `p`, and the
/// server key is made for `p`.
#[verifier::external_body]
pub(crate) fn generate_keys(p: &Parameters) -> (keys: (ClientKey, ServerKey))
    requires
        p.valid(),
    ensures
        client_secret_keys(keys.0).0.len() == p.glwe_dimension * p.polynomial_size,
        client_secret_keys(keys.0).1.len() == p.glwe_dimension * p.polynomial_size,
        client_key_moduli(keys.0) == (p.message_modulus, p.carry_modulus),
        server_key_shape(keys.1) == shape_for(*p),
{
    tfhe::shortint::gen_keys(tfhe::shortint::Parameters {
        lwe_dimension: LweDimension(p.lwe_dimension), glwe_dimension: GlweDimension(p.glwe_dimension),
        polynomial_size: PolynomialSize(p.polynomial_size),
        lwe_modular_std_dev: p.lwe_modular_std_dev, glwe_modular_std_dev: p.glwe_modular_std_dev,
        pbs_base_log: DecompositionBaseLog(p.pbs_base_log), pbs_level: DecompositionLevelCount(p.pbs_level),
        ks_base_log: DecompositionBaseLog(p.ks_base_log), ks_level: DecompositionLevelCount(p.ks_level),
        pfks_level: DecompositionLevelCount(p.pfks_level), pfks_base_log: DecompositionBaseLog(p.pfks_base_log),
        pfks_modular_std_dev: p.pfks_modular_std_dev,
        cbs_level: DecompositionLevelCount(p.cbs_level), cbs_base_log: DecompositionBaseLog(p.cbs_base_log),
        message_modulus: MessageModulus(p.message_modulus), carry_modulus: CarryModulus(p.carry_modulus),
    })
}

/// Reads the two secret keys out of a client key, through its serialised
/// form (`bincode::serialize`, `bincode::deserialize`): the LWE key that
/// ciphertexts are encrypted under, and the GLWE key it was flattened from.
/// They are a function of the client key alone.
#[verifier::external_body]
pub(crate) fn secret_keys(key: &ClientKey) -> (keys: (Vec<u64>, Vec<u64>))
    ensures
        keys.0@ == client_secret_keys(*key).0,
        keys.1@ == client_secret_keys(*key).1,
{
    let bytes = bincode::serialize(key).unwrap();
    let parts: (Vec<u8>, Vec<u8>, Vec<u8>, tfhe::shortint::Parameters) =
        bincode::deserialize(&bytes).unwrap();
    let lwe: LweSecretKeyOwned<u64> = bincode::deserialize(&parts.0).unwrap();
    let glwe: GlweSecretKeyOwned<u64> = bincode::deserialize(&parts.1).unwrap();
    (lwe.into_container(), glwe.into_container())
}

/// The function that the packing key switch applies to the message: none.
pub fn unchanged(x: u64) -> (y: u64)
    ensures
        y == x,
{
    x
}

/// Calls `generate_lwe_private_functional_packing_keyswitch_key` for the
/// function `unchanged` and the polynomial given. The key is random; its
/// length is that of `n + 1` blocks of `level` GLWE ciphertexts.
#[verifier::external_body]
pub(crate) fn generate_pfks_key(
    lwe_key: &Vec<u64>,
    glwe_key: &Vec<u64>,
    polynomial: &Vec<u64>,
    p: &Parameters,
) -> (ksk: Vec<u64>)
    requires
        p.valid(),
        lwe_key@.len() == p.polynomial_size,
        glwe_key@.len() == p.polynomial_size,
        polynomial@.len() == p.polynomial_size,
    ensures
        ksk@.len() == pfks_key_len(p.polynomial_size as int, p.pfks_level as int),
{
    let (n, mut seeder) = (PolynomialSize(p.polynomial_size), new_seeder());
    let mut rng = EncryptionRandomGenerator::<ActivatedRandomGenerator>::new(seeder.seed(), seeder.as_mut());
    let mut ksk = LwePrivateFunctionalPackingKeyswitchKey::new(
        0u64, DecompositionBaseLog(p.pfks_base_log), DecompositionLevelCount(p.pfks_level),
        LweDimension(n.0), GlweDimension(p.glwe_dimension).to_glwe_size(), n);
    generate_lwe_private_functional_packing_keyswitch_key(
        &LweSecretKey::from_container(lwe_key.as_slice()),
        &GlweSecretKey::from_container(glwe_key.as_slice(), n),
        &mut ksk, p.pfks_modular_std_dev, &mut rng, |x| unchanged(x),
        &Polynomial::from_container(polynomial.as_slice()));
    ksk.into_container()
}

/// Calls `private_functional_keyswitch_lwe_ciphertext_into_glwe_ciphertext`.
/// The result is a function of the key-switch key, its decomposition and
/// the ciphertext.
#[verifier::external_body]
pub(crate) fn pfks_apply(ksk: &Vec<u64>, p: &Parameters, ct: &Vec<u64>) -> (out: Vec<u64>)
    requires
        p.valid(),
        ksk@.len() == pfks_key_len(p.polynomial_size as int, p.pfks_level as int),
        ct@.len() == p.polynomial_size + 1,
    ensures
        out@.len() == 2 * p.polynomial_size,
        out@ == pfks_lift(ksk@, p.pfks_base_log, p.pfks_level, p.polynomial_size, ct@),
{
    let (n, size) = (PolynomialSize(p.polynomial_size), GlweDimension(p.glwe_dimension).to_glwe_size());
    let key = LwePrivateFunctionalPackingKeyswitchKey::from_container(
        ksk.as_slice(), DecompositionBaseLog(p.pfks_base_log),
        DecompositionLevelCount(p.pfks_level), size, n);
    let mut out = RawGlwe::new(0u64, size, n);
    private_functional_keyswitch_lwe_ciphertext_into_glwe_ciphertext(
        &key, &mut out, &RawLwe::from_container(ct.as_slice()));
    out.into_container()
}

/// Calls `encrypt_glwe_ciphertext` for one mask polynomial, with a freshly
/// seeded generator. The ciphertext is random; its length is that of mask
/// and body.
#[verifier::external_body]
pub(crate) fn glwe_encrypt(glwe_key: &Vec<u64>, plaintexts: &Vec<u64>, p: &Parameters) -> (out: Vec<u64>)
    requires
        p.valid(),
        glwe_key@.len() == p.polynomial_size,
        plaintexts@.len() == p.polynomial_size,
    ensures
        out@.len() == 2 * p.polynomial_size,
{
    let (n, mut seeder, noise) = (PolynomialSize(p.polynomial_size), new_seeder(), p.glwe_modular_std_dev);
    let mut rng = EncryptionRandomGenerator::<ActivatedRandomGenerator>::new(seeder.seed(), seeder.as_mut());
    let mut out = RawGlwe::new(0u64, GlweDimension(p.glwe_dimension).to_glwe_size(), n);
    encrypt_glwe_ciphertext(
        &GlweSecretKey::from_container(glwe_key.as_slice(), n), &mut out,
        &PlaintextList::from_container(plaintexts.as_slice()), noise, &mut rng);
    out.into_container()
}

/// Calls `decrypt_glwe_ciphertext`: the body less the product of the mask
/// and the key.
#[verifier::external_body]
pub(crate) fn glwe_decrypt(glwe_key: &Vec<u64>, glwe: &Vec<u64>) -> (out: Vec<u64>)
    requires
        glwe_key@.len() >= 1,
        glwe@.len() == 2 * glwe_key@.len(),
    ensures
        out@ == glwe_phase(glwe_key@, glwe@),
{
    let n = PolynomialSize(glwe_key.len());
    let mut out = PlaintextList::from_container(vec![0u64; n.0]);
    decrypt_glwe_ciphertext(
        &GlweSecretKey::from_container(glwe_key.as_slice(), n),
        &RawGlwe::from_container(glwe.as_slice(), n), &mut out);
    out.into_container()
}

/// Calls `allocate_and_encrypt_new_lwe_ciphertext` with a freshly seeded
/// generator. The ciphertext is random; it has one word more than the key.
#[verifier::external_body]
pub(crate) fn lwe_encrypt(lwe_key: &Vec<u64>, plaintext: u64, noise: StandardDev) -> (out: Vec<u64>)
    requires
        lwe_key@.len() >= 1,
        lwe_key@.len() < usize::MAX,
    ensures
        out@.len() == lwe_key@.len() + 1,
{
    let mut seeder = new_seeder();
    let mut rng = EncryptionRandomGenerator::<ActivatedRandomGenerator>::new(seeder.seed(), seeder.as_mut());
    allocate_and_encrypt_new_lwe_ciphertext(
        &LweSecretKey::from_container(lwe_key.as_slice()), Plaintext(plaintext), noise, &mut rng,
    ).into_container()
}

/// Calls `decrypt_lwe_ciphertext`: the body less the inner product of mask
/// and key.
#[verifier::external_body]
pub(crate) fn lwe_decrypt(lwe_key: &Vec<u64>, ct: &Vec<u64>) -> (plaintext: u64)
    requires
        lwe_key@.len() >= 1,
        ct@.len() == lwe_key@.len() + 1,
    ensures
        plaintext == lwe_phase(lwe_key@, ct@),
{
    decrypt_lwe_ciphertext(
        &LweSecretKey::from_container(lwe_key.as_slice()),
        &RawLwe::from_container(ct.as_slice()),
    ).0
}

/// Calls `ServerKey::keyswitch_programmable_bootstrap`, with a server key
/// that is made for `p`. The result has the size and the moduli of the
/// input and the degree of the accumulator; what it encrypts depends on the
/// noise of the inputs.
#[verifier::external_body]
pub(crate) fn bootstrap(key: &ServerKey, p: &Parameters, ct: &Ciphertext, acc: &Accumulator) -> (out:
    Ciphertext)
    requires
        p.valid(),
        server_key_shape(*key) == shape_for(*p),
        ct@.len() == p.spec_lwe_size(),
        acc.acc.fits(*p),
    ensures
        out@.len() == ct@.len(),
        out.degree == acc.degree,
        out.message_modulus == ct.message_modulus,
        out.carry_modulus == ct.carry_modulus,
{
    let input = tfhe::shortint::Ciphertext {
        ct: RawLwe::from_container(ct.ct.clone()), degree: Degree(ct.degree),
        message_modulus: MessageModulus(ct.message_modulus),
        carry_modulus: CarryModulus(ct.carry_modulus) };
    let table = tfhe::shortint::server_key::Accumulator {
        acc: RawGlwe::from_container(acc.acc.data.clone(), PolynomialSize(acc.acc.polynomial_size)),
        degree: Degree(acc.degree) };
    let out = key.keyswitch_programmable_bootstrap(&input, &table);
    Ciphertext { ct: out.ct.into_container(), degree: out.degree.0,
        message_modulus: out.message_modulus.0, carry_modulus: out.carry_modulus.0 }
}

/// Reads the numbers that a server key was made for off its two keys and
/// its moduli.
#[verifier::external_body]
pub(crate) fn read_server_key_shape(key: &ServerKey) -> (shape: Vec<usize>)
    ensures
        shape@ == server_key_shape(*key),
{
    let (ks, bs) = (&key.key_switching_key, &key.bootstrapping_key);
    vec![
        ks.input_key_lwe_dimension().0, ks.output_key_lwe_dimension().0,
        ks.decomposition_base_log().0, ks.decomposition_level_count().0,
        bs.input_lwe_dimension().0, bs.glwe_size().0, bs.polynomial_size().0,
        bs.decomposition_base_log().0, bs.decomposition_level_count().0,
        key.message_modulus.0, key.carry_modulus.0,
    ]
}

/// Reads the message modulus and the carry modulus off the parameters of a
/// client key.
#[verifier::external_body]
pub(crate) fn read_client_moduli(key: &ClientKey) -> (moduli: (usize, usize))
    ensures
        moduli == client_key_moduli(*key),
{
    (key.parameters.message_modulus.0, key.parameters.carry_modulus.0)
}

/// Calls `ClientKey::encrypt`: a fresh encryption of `message`, reduced
/// modulo the message modulus of the key's parameters, under the key's LWE
/// key. The ciphertext is random; it has one word more than the LWE key and
/// carries the moduli of the key and a degree one below its message modulus.
#[verifier::external_body]
pub(crate) fn client_encrypt(key: &ClientKey, message: u64) -> (out: Ciphertext)
    requires
        moduli_ok(client_key_moduli(*key)),
    ensures
        out@.len() == client_secret_keys(*key).0.len() + 1,
        out.message_modulus == client_key_moduli(*key).0,
        out.carry_modulus == client_key_moduli(*key).1,
        out.degree == out.message_modulus - 1,
{
    let ct = key.encrypt(message);
    Ciphertext { ct: ct.ct.into_container(), degree: ct.degree.0,
        message_modulus: ct.message_modulus.0, carry_modulus: ct.carry_modulus.0 }
}

} // verus!
