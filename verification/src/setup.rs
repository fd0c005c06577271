use crate::client::KnnClient;
use crate::comparator::EncItem;
use crate::context::Context;
use crate::params::Parameters;
use crate::ciphertext::Ciphertext;
use crate::primitives::{
    client_encrypt, client_key_moduli, client_secret_keys, generate_keys, moduli_ok,
    read_client_moduli, read_server_key_shape, secret_keys, server_key_shape, shape_for,
};
use crate::server::{longest_row, model_row, spec_model_row, KnnServer};
use tfhe::shortint::{ClientKey, ServerKey};
use vstd::prelude::*;

verus! {

/// Why a setup was refused.
#[derive(Debug, PartialEq, Eq, Clone, Copy, Structural)]
pub enum SetupError {
    /// The parameter set is not one that `Parameters::valid` accepts.
    InvalidParameters,
    /// The secret keys that came back from key generation do not have the
    /// size that the parameters ask for.
    KeyShape,
    /// The model has no row, or only rows without entries.
    EmptyModel,
    /// A model row has as many entries as a polynomial has coefficients, or more.
    RowTooLong,
}

/// The keys are made for `params`: both secret keys of the client key are
/// of polynomial size, and the server key has the shape that `params` asks for.
pub open spec fn keys_fit(params: Parameters, client_key: ClientKey, server_key: ServerKey) -> bool {
    &&& client_secret_keys(client_key).0.len() == params.polynomial_size
    &&& client_secret_keys(client_key).1.len() == params.polynomial_size
    &&& server_key_shape(server_key) == shape_for(params)
}

/// Whether the numbers read off a server key are those that `params` asks for.
fn shape_matches(shape: &Vec<usize>, params: &Parameters) -> (b: bool)
    requires
        params.valid(),
    ensures
        b == (shape@ == shape_for(*params)),
{
    let b = shape.len() == 11 && shape[0] == params.glwe_dimension * params.polynomial_size
        && shape[1] == params.lwe_dimension && shape[2] == params.ks_base_log && shape[3]
        == params.ks_level && shape[4] == params.lwe_dimension && shape[5] == params.glwe_dimension
        + 1 && shape[6] == params.polynomial_size && shape[7] == params.pbs_base_log && shape[8]
        == params.pbs_level && shape[9] == params.message_modulus && shape[10]
        == params.carry_modulus;
    proof {
        let want = shape_for(*params);
        assert(want.len() == 11);
        if b {
            assert(shape@ =~= want);
        } else if shape@.len() == 11 {
            assert(shape@[0] != want[0] || shape@[1] != want[1] || shape@[2] != want[2] || shape@[3]
                != want[3] || shape@[4] != want[4] || shape@[5] != want[5] || shape@[6] != want[6]
                || shape@[7] != want[7] || shape@[8] != want[8] || shape@[9] != want[9]
                || shape@[10] != want[10]);
        }
    }
    b
}

/// Assembles client and server from a client key and a server key of the
/// primitive library. Fails with `KeyShape` exactly if the keys are not
/// made for `params`.
pub fn assemble(params: Parameters, client_key: ClientKey, server_key: ServerKey) -> (res: Result<
    (KnnClient, KnnServer),
    SetupError,
>)
    requires
        params.valid(),
    ensures
        res is Ok <==> keys_fit(params, client_key, server_key),
        res matches Err(e) ==> e == SetupError::KeyShape,
        res matches Ok(pair) ==> {
            &&& pair.0.wf()
            &&& pair.1.wf()
            &&& pair.0.params() == params
            &&& pair.1.params() == params
            &&& pair.0.client_key() == client_key
            &&& pair.1.server_key() == server_key
            &&& pair.1.gamma() == 0
            &&& pair.1.rows() == 0
        },
{
    let (lwe_key, glwe_key) = secret_keys(&client_key);
    let shape = read_server_key_shape(&server_key);
    if lwe_key.len() != params.polynomial_size || glwe_key.len() != params.polynomial_size
        || !shape_matches(&shape, &params) {
        return Err(SetupError::KeyShape);
    }
    let ctx = Context::new(params);
    let lwe_to_glwe_ksk = ctx.gen_ksk(&lwe_key, &glwe_key);
    let client = KnnClient::from_parts(client_key, lwe_key, glwe_key, ctx);
    let server = KnnServer::from_parts(server_key, lwe_to_glwe_ksk, params, 0, Vec::new());
    Ok((client, server))
}

/// Generates keys for `params` and builds a client and a server without a
/// model. Succeeds exactly if the parameters are valid, and fails with
/// `InvalidParameters` otherwise.
pub fn setup(params: Parameters) -> (res: Result<(KnnClient, KnnServer), SetupError>)
    ensures
        res is Ok <==> params.valid(),
        res matches Err(e) ==> e == SetupError::InvalidParameters,
        res matches Ok(pair) ==> {
            &&& pair.0.wf()
            &&& pair.1.wf()
            &&& pair.0.params() == params
            &&& pair.1.params() == params
            &&& pair.1.gamma() == 0
            &&& pair.1.rows() == 0
        },
{
    if !params.is_valid() {
        return Err(SetupError::InvalidParameters);
    }
    let (client_key, server_key) = generate_keys(&params);
    assemble(params, client_key, server_key)
}

/// `gamma` is the length of the longest row.
pub open spec fn is_gamma(data: Seq<Vec<u64>>, gamma: int) -> bool {
    &&& forall|i: int| 0 <= i < data.len() ==> (#[trigger] data[i])@.len() <= gamma
    &&& exists|i: int| 0 <= i < data.len() && (#[trigger] data[i])@.len() == gamma
}

/// The model has no row, or only rows without entries.
pub open spec fn model_empty(data: Seq<Vec<u64>>) -> bool {
    forall|i: int| 0 <= i < data.len() ==> (#[trigger] data[i])@.len() == 0
}

/// A row of the model has at least one entry and `n` entries or more.
pub open spec fn model_too_long(data: Seq<Vec<u64>>, n: int) -> bool {
    exists|i: int| 0 <= i < data.len() && (#[trigger] data[i])@.len() >= n && data[i]@.len() >= 1
}

/// The model has a row with an entry, and no row with `n` entries or more.
pub open spec fn model_ok(data: Seq<Vec<u64>>, n: int) -> bool {
    !model_empty(data) && !model_too_long(data, n)
}

/// The model as the server stores it: the length of its longest row, and
/// every row reversed against that length and padded to `n` coefficients.
/// Fails with `EmptyModel` exactly if no row has an entry, and with
/// `RowTooLong` exactly if some row has an entry and `n` entries or more.
pub fn prepare_model(data: &Vec<Vec<u64>>, n: usize) -> (res: Result<(usize, Vec<Vec<u64>>), SetupError>)
    ensures
        res is Ok <==> model_ok(data@, n as int),
        res == Err::<(usize, Vec<Vec<u64>>), SetupError>(SetupError::EmptyModel) <==> model_empty(
            data@,
        ),
        res == Err::<(usize, Vec<Vec<u64>>), SetupError>(SetupError::RowTooLong) <==> model_too_long(
            data@,
            n as int,
        ),
        res matches Ok(model) ==> {
            &&& 1 <= model.0 < n
            &&& is_gamma(data@, model.0 as int)
            &&& model.1@.len() == data@.len()
            &&& forall|i: int| 0 <= i < data@.len() ==> (#[trigger] model.1@[i])@.len() == n
            &&& forall|i: int|
                0 <= i < data@.len() ==> (#[trigger] model.1@[i])@ == spec_model_row(
                    data@[i]@,
                    model.0 as int,
                    n as int,
                )
        },
{
    let gamma = longest_row(data);
    if gamma == 0 {
        return Err(SetupError::EmptyModel);
    }
    let ghost longest = choose|i: int| 0 <= i < data@.len() && (#[trigger] data@[i])@.len() == gamma;
    if gamma >= n {
        assert(data@[longest]@.len() >= n);
        return Err(SetupError::RowTooLong);
    }
    assert(!model_empty(data@)) by {
        assert(data@[longest]@.len() != 0);
    }
    let mut rows: Vec<Vec<u64>> = Vec::new();
    let mut r: usize = 0;
    while r < data.len()
        invariant
            r <= data@.len(),
            1 <= gamma < n,
            forall|i: int| 0 <= i < data@.len() ==> (#[trigger] data@[i])@.len() <= gamma,
            rows@.len() == r,
            forall|i: int|
                0 <= i < r ==> (#[trigger] rows@[i])@ == spec_model_row(
                    data@[i]@,
                    gamma as int,
                    n as int,
                ),
        decreases data.len() - r,
    {
        rows.push(model_row(&data[r], gamma, n));
        r += 1;
    }
    Ok((gamma, rows))
}

/// Assembles client and server as `assemble` does, and gives the server the
/// model `data`. Fails with `EmptyModel` exactly if no row has an entry,
/// with `RowTooLong` exactly if a row has as many entries as a polynomial
/// has coefficients, and with `KeyShape` exactly if the model is in order
/// and the keys are not made for `params`.
pub fn assemble_with_data(
    params: Parameters,
    client_key: ClientKey,
    server_key: ServerKey,
    data: Vec<Vec<u64>>,
) -> (res: Result<(KnnClient, KnnServer), SetupError>)
    requires
        params.valid(),
    ensures
        res is Ok <==> model_ok(data@, params.polynomial_size as int) && keys_fit(
            params,
            client_key,
            server_key,
        ),
        res == Err::<(KnnClient, KnnServer), SetupError>(SetupError::EmptyModel) <==> model_empty(
            data@,
        ),
        res == Err::<(KnnClient, KnnServer), SetupError>(SetupError::RowTooLong) <==> model_too_long(
            data@,
            params.polynomial_size as int,
        ),
        res matches Err(e) ==> e == SetupError::EmptyModel || e == SetupError::RowTooLong || e
            == SetupError::KeyShape,
        res matches Ok(pair) ==> {
            &&& pair.0.wf()
            &&& pair.1.wf()
            &&& pair.0.params() == params
            &&& pair.1.params() == params
            &&& pair.0.client_key() == client_key
            &&& pair.1.server_key() == server_key
            &&& pair.1.rows() == data@.len()
            &&& is_gamma(data@, pair.1.gamma() as int)
            &&& 1 <= pair.1.gamma() < params.polynomial_size
            &&& forall|i: int|
                0 <= i < data@.len() ==> #[trigger] pair.1.row(i) == spec_model_row(
                    data@[i]@,
                    pair.1.gamma() as int,
                    params.polynomial_size as int,
                )
        },
{
    match prepare_model(&data, params.polynomial_size) {
        Err(e) => Err(e),
        Ok((gamma, rows)) => {
            match assemble(params, client_key, server_key) {
                Err(e) => Err(e),
                Ok((client, server)) => {
                    let server = server.with_model(gamma, rows);
                    Ok((client, server))
                },
            }
        },
    }
}

/// Generates keys for `params` and builds a client and a server that holds
/// the model `data`. The data is not encoded. Succeeds exactly if the
/// parameters are valid and the model is in order: it fails with
/// `InvalidParameters` exactly if the parameters are not valid, else with
/// `EmptyModel` exactly if no row has an entry, else with `RowTooLong`.
pub fn setup_with_data(params: Parameters, data: Vec<Vec<u64>>) -> (res: Result<
    (KnnClient, KnnServer),
    SetupError,
>)
    ensures
        res is Ok <==> params.valid() && model_ok(data@, params.polynomial_size as int),
        !params.valid() <==> res == Err::<(KnnClient, KnnServer), SetupError>(
            SetupError::InvalidParameters,
        ),
        params.valid() ==> (res == Err::<(KnnClient, KnnServer), SetupError>(SetupError::EmptyModel)
            <==> model_empty(data@)),
        params.valid() ==> (res == Err::<(KnnClient, KnnServer), SetupError>(SetupError::RowTooLong)
            <==> model_too_long(data@, params.polynomial_size as int)),
        res matches Ok(pair) ==> {
            &&& pair.0.wf()
            &&& pair.1.wf()
            &&& pair.0.params() == params
            &&& pair.1.params() == params
            &&& pair.1.rows() == data@.len()
            &&& is_gamma(data@, pair.1.gamma() as int)
            &&& 1 <= pair.1.gamma() < params.polynomial_size
            &&& forall|i: int|
                0 <= i < data@.len() ==> #[trigger] pair.1.row(i) == spec_model_row(
                    data@[i]@,
                    pair.1.gamma() as int,
                    params.polynomial_size as int,
                )
        },
{
    if !params.is_valid() {
        return Err(SetupError::InvalidParameters);
    }
    let (client_key, server_key) = generate_keys(&params);
    assemble_with_data(params, client_key, server_key, data)
}

/// Encrypts every pair of a list, value and class, with the client key of
/// the primitive library. `None` exactly where the moduli of the key span no
/// plaintext space. The ciphertexts are random; each has one word more
/// than the key's LWE key and carries the moduli of the key and a degree
/// one below its message modulus.
pub fn enc_vec(vs: &Vec<(u64, u64)>, client_key: &ClientKey) -> (res: Option<Vec<EncItem>>)
    ensures
        res is Some <==> moduli_ok(client_key_moduli(*client_key)),
        res matches Some(out) ==> out@.len() == vs@.len() && forall|i: int|
            0 <= i < out@.len() ==> encrypted_under(#[trigger] out@[i], *client_key),
{
    let moduli = read_client_moduli(client_key);
    if !check_moduli(moduli.0, moduli.1) {
        return None;
    }
    let mut out: Vec<EncItem> = Vec::new();
    let mut i: usize = 0;
    while i < vs.len()
        invariant
            i <= vs@.len(),
            out@.len() == i,
            moduli_ok(client_key_moduli(*client_key)),
            forall|j: int| 0 <= j < i ==> encrypted_under(#[trigger] out@[j], *client_key),
        decreases vs.len() - i,
    {
        let value = client_encrypt(client_key, vs[i].0);
        let class = client_encrypt(client_key, vs[i].1);
        out.push(EncItem::new(value, class));
        i += 1;
    }
    Some(out)
}

/// Both ciphertexts of the item have the size and the tags of a fresh
/// encryption under the client key.
pub open spec fn encrypted_under(item: EncItem, client_key: ClientKey) -> bool {
    &&& fresh_under(item.value, client_key)
    &&& fresh_under(item.class, client_key)
}

/// The ciphertext has one word more than the LWE key of the client key, the
/// moduli of the client key and a degree one below its message modulus.
pub open spec fn fresh_under(ct: Ciphertext, client_key: ClientKey) -> bool {
    &&& ct@.len() == client_secret_keys(client_key).0.len() + 1
    &&& ct.message_modulus == client_key_moduli(client_key).0
    &&& ct.carry_modulus == client_key_moduli(client_key).1
    &&& ct.degree == ct.message_modulus - 1
}

fn check_moduli(message_modulus: usize, carry_modulus: usize) -> (b: bool)
    ensures
        b == moduli_ok((message_modulus, carry_modulus)),
{
    if message_modulus == 0 || carry_modulus == 0 {
        assert(message_modulus * carry_modulus == 0) by (nonlinear_arith)
            requires
                message_modulus == 0 || carry_modulus == 0,
        ;
        return false;
    }
    match message_modulus.checked_mul(carry_modulus) {
        Some(space) => {
            assert(space >= 1) by (nonlinear_arith)
                requires
                    space == message_modulus * carry_modulus,
                    message_modulus >= 1,
                    carry_modulus >= 1,
            ;
            (space as u64) <= 0x8000_0000_0000_0000u64
        },
        None => false,
    }
}

} // verus!
