use crate::ciphertext::{lemma_wrap_add, lemma_wrap_mul, wrap};
use crate::client::{spec_query_plaintext, spec_squares_plaintext};
use crate::codec::rounded;
use crate::context::Context;
use crate::primitives::{
    dot_sum, extracted_sample, lwe_phase, negacyclic_product, negacyclic_sum, negacyclic_term,
};
use vstd::arithmetic::div_mod::lemma_fundamental_div_mod_converse;
use crate::server::{distance_glwe, glwe_product, spec_distance, spec_model_row, sum_squares};
use vstd::prelude::*;

verus! {

/// The trivial GLWE encryption of a plaintext polynomial: a zero mask and
/// the plaintexts as body. It carries no noise and needs no key.
pub open spec fn trivial(pt: Seq<u64>) -> Seq<u64> {
    Seq::new(pt.len(), |i: int| 0u64) + pt
}

/// The inner product of the first `upto` entries of two vectors.
pub open spec fn dot(q: Seq<u64>, m: Seq<u64>, upto: int) -> int
    decreases upto,
{
    if upto <= 0 {
        0
    } else {
        dot(q, m, upto - 1) + q[upto - 1] * m[upto - 1]
    }
}

/// The squared Euclidean distance of the first `upto` entries of two vectors.
pub open spec fn squared_distance(q: Seq<u64>, m: Seq<u64>, upto: int) -> int
    decreases upto,
{
    if upto <= 0 {
        0
    } else {
        squared_distance(q, m, upto - 1) + (q[upto - 1] - m[upto - 1]) * (q[upto - 1] - m[upto
            - 1])
    }
}

/// The inner product of the encoded target with the row, entry by entry.
pub open spec fn scaled_dot(q: Seq<u64>, m: Seq<u64>, delta: int, upto: int) -> int
    decreases upto,
{
    if upto <= 0 {
        0
    } else {
        scaled_dot(q, m, delta, upto - 1) + wrap(q[upto - 1] * delta) * m[upto - 1]
    }
}

/// A polynomial whose first `upto` coefficients are zero contributes
/// nothing to the first `upto` terms of a product.
pub proof fn lemma_zero_product(a: Seq<u64>, b: Seq<u64>, k: int, upto: int)
    requires
        0 <= upto <= a.len(),
        forall|i: int| 0 <= i < upto ==> a[i] == 0,
    ensures
        negacyclic_sum(a, b, k, upto) == 0,
    decreases upto,
{
    if upto > 0 {
        lemma_zero_product(a, b, k, upto - 1);
        assert(a[upto - 1] == 0);
        assert(negacyclic_term(a, b, k, upto - 1) == 0);
    }
}

/// Why the model is stored reversed: coefficient `gamma - 1` of the product
/// of the query polynomial and a stored row is the inner product of target
/// and row.
#[verifier::rlimit(60)]
pub proof fn lemma_inner_product(q: Seq<u64>, m: Seq<u64>, n: int, delta: int, upto: int)
    requires
        1 <= q.len() == m.len() <= n,
        0 <= upto <= n,
    ensures
        negacyclic_sum(
            spec_query_plaintext(q, n, delta),
            spec_model_row(m, q.len() as int, n),
            q.len() - 1,
            upto,
        ) == scaled_dot(
            q,
            m,
            delta,
            if upto <= q.len() {
                upto
            } else {
                q.len() as int
            },
        ),
    decreases upto,
{
    if upto > 0 {
        let gamma = q.len() as int;
        let pt = spec_query_plaintext(q, n, delta);
        let row = spec_model_row(m, gamma, n);
        let i = upto - 1;
        lemma_inner_product(q, m, n, delta, i);
        if i < gamma {
            assert(pt[i] == wrap(q[i] * delta));
            assert(row[gamma - 1 - i] == m[i]);
            assert(negacyclic_term(pt, row, gamma - 1, i) == wrap(q[i] * delta) * m[i]);
        } else {
            assert(pt[i] == 0);
            assert(negacyclic_term(pt, row, gamma - 1, i) == 0);
        }
    }
}

/// Encoding entry by entry is encoding the inner product.
pub proof fn lemma_scaled_dot(q: Seq<u64>, m: Seq<u64>, delta: int, upto: int)
    requires
        0 <= upto <= q.len(),
        upto <= m.len(),
    ensures
        wrap(scaled_dot(q, m, delta, upto)) == wrap(delta * dot(q, m, upto)),
    decreases upto,
{
    if upto > 0 {
        let i = upto - 1;
        lemma_scaled_dot(q, m, delta, i);
        let a = scaled_dot(q, m, delta, i);
        let d = dot(q, m, i);
        lemma_wrap_add(a, wrap(q[i] * delta) * m[i]);
        lemma_wrap_mul(q[i] * delta, m[i] as int);
        lemma_wrap_add(delta * d, q[i] * delta * m[i]);
        assert(delta * d + q[i] * delta * m[i] == delta * (d + q[i] * m[i])) by (nonlinear_arith);
    }
}

/// The squares of a stored row sum to the squares of the row.
pub proof fn lemma_stored_squares(m: Seq<u64>, n: int, upto: int)
    requires
        1 <= m.len() <= n,
        0 <= upto <= n,
    ensures
        sum_squares(spec_model_row(m, m.len() as int, n), upto) + sum_squares(
            m,
            if upto <= m.len() {
                m.len() - upto
            } else {
                0
            },
        ) == sum_squares(m, m.len() as int),
    decreases upto,
{
    if upto > 0 {
        let gamma = m.len() as int;
        let row = spec_model_row(m, gamma, n);
        let i = upto - 1;
        lemma_stored_squares(m, n, i);
        if i < gamma {
            assert(row[i] == m[gamma - 1 - i]);
            assert(sum_squares(m, gamma - i) == sum_squares(m, gamma - i - 1) + m[gamma - i - 1]
                * m[gamma - i - 1]);
            assert(sum_squares(row, upto) == sum_squares(row, i) + row[i] * row[i]);
        } else {
            assert(row[i] == 0);
            assert(sum_squares(row, upto) == sum_squares(row, i) + row[i] * row[i]);
            assert(sum_squares(m, 0) == 0);
        }
    }
}

/// A squared distance is the squares of both vectors less twice their
/// inner product.
pub proof fn lemma_square_expand(q: Seq<u64>, m: Seq<u64>, upto: int)
    requires
        0 <= upto <= q.len(),
        upto <= m.len(),
    ensures
        squared_distance(q, m, upto) == sum_squares(q, upto) - 2 * dot(q, m, upto) + sum_squares(
            m,
            upto,
        ),
    decreases upto,
{
    if upto > 0 {
        lemma_square_expand(q, m, upto - 1);
        let a = q[upto - 1] as int;
        let b = m[upto - 1] as int;
        assert((a - b) * (a - b) == a * a - 2 * (a * b) + b * b) by (nonlinear_arith);
    }
}

/// Distance correctness without noise: from the trivial encryptions of the
/// two query plaintexts of a target `q`, the distance engine computes for the
/// stored form of a row `m` of the same length a ciphertext with a zero
/// mask whose body is `delta * (modulus + |q - m|^2)`, in wrapping arithmetic.
#[verifier::rlimit(60)]
pub proof fn lemma_distance_of_trivial_query(
    q: Seq<u64>,
    m: Seq<u64>,
    n: int,
    delta: int,
    modulus: int,
)
    requires
        1 <= q.len() == m.len() <= n,
    ensures
        spec_distance(
            trivial(spec_query_plaintext(q, n, delta)),
            trivial(spec_squares_plaintext(q, n, delta)),
            n,
            spec_model_row(m, q.len() as int, n),
            q.len() as int,
            delta,
            modulus,
        ) == Seq::new(
            (n + 1) as nat,
            |i: int|
                if i == n {
                    wrap(delta * (modulus + squared_distance(q, m, q.len() as int)))
                } else {
                    0u64
                },
        ),
{
    let gamma = q.len() as int;
    let pt = spec_query_plaintext(q, n, delta);
    let pt2 = spec_squares_plaintext(q, n, delta);
    let c = trivial(pt);
    let c2 = trivial(pt2);
    let row = spec_model_row(m, gamma, n);
    let g = distance_glwe(c, c2, n, row);
    let product = glwe_product(c, n, row);
    let zero = Seq::new(n as nat, |i: int| 0u64);
    assert(c.subrange(0, n) =~= zero);
    assert(c.subrange(n, 2 * n) =~= pt);
    // the mask stays zero
    assert forall|i: int| 0 <= i < n implies g[i] == 0 by {
        lemma_zero_product(zero, row, i, n);
        assert(product[i] == negacyclic_product(zero, row)[i]);
        assert(c2[i] == 0);
    }
    // the body at gamma - 1 holds the squares of the target less twice the inner product
    let s = negacyclic_sum(pt, row, gamma - 1, n);
    let sq = sum_squares(q, gamma);
    let d = dot(q, m, gamma);
    lemma_inner_product(q, m, n, delta, n);
    lemma_scaled_dot(q, m, delta, gamma);
    assert(product[n + gamma - 1] == negacyclic_product(pt, row)[gamma - 1]);
    assert(product[n + gamma - 1] == wrap(s));
    assert(c2[n + gamma - 1] == pt2[gamma - 1]);
    assert(pt2[gamma - 1] == wrap(delta * sq));
    assert(g[n + gamma - 1] == wrap(delta * sq - 2 * (delta * d))) by {
        lemma_wrap_mul(s, 2);
        lemma_wrap_mul(delta * d, 2);
        lemma_wrap_add(delta * sq, -(2 * wrap(s)));
        crate::ciphertext::lemma_wrap_neg(2 * wrap(s));
        crate::ciphertext::lemma_wrap_neg(2 * s);
        crate::ciphertext::lemma_wrap_neg(2 * (delta * d));
        lemma_wrap_add(delta * sq, -(wrap(2 * wrap(s)) as int));
        lemma_wrap_add(delta * sq, -(2 * (delta * d)));
        lemma_wrap_add(delta * sq, wrap(-(2 * (delta * d))) as int);
        lemma_wrap_add(delta * sq, wrap(-(2 * wrap(s))) as int);
    }
    // the sample at gamma - 1, and the correction of its body
    let lwe = extracted_sample(g, n, gamma - 1);
    lemma_stored_squares(m, n, n);
    lemma_square_expand(q, m, gamma);
    let total = sum_squares(row, row.len() as int);
    assert(total == sum_squares(m, gamma));
    assert(wrap(lwe[n] + delta * (modulus + total)) == wrap(
        delta * (modulus + squared_distance(q, m, gamma)),
    )) by {
        lemma_wrap_add(delta * sq - 2 * (delta * d), delta * (modulus + total));
        assert(delta * sq - 2 * (delta * d) + delta * (modulus + total) == delta * (modulus + (sq
            - 2 * d + total))) by (nonlinear_arith);
    }
    assert forall|i: int| 0 <= i < n implies lwe[i] == 0 by {
        if i <= gamma - 1 {
            assert(g[gamma - 1 - i] == 0);
        } else {
            assert(g[n + gamma - 1 - i] == 0);
        }
    }
    assert(spec_distance(c, c2, n, row, gamma, delta, modulus) =~= Seq::new(
        (n + 1) as nat,
        |i: int|
            if i == n {
                wrap(delta * (modulus + squared_distance(q, m, gamma)))
            } else {
                0u64
            },
    ));
}


/// The inner product of a zero mask with any key is zero.
pub proof fn lemma_dot_zero(key: Seq<u64>, ct: Seq<u64>, upto: int)
    requires
        0 <= upto <= key.len(),
        ct.len() == key.len() + 1,
        forall|i: int| 0 <= i < key.len() ==> ct[i] == 0,
    ensures
        dot_sum(ct, key, upto) == 0,
    decreases upto,
{
    if upto > 0 {
        lemma_dot_zero(key, ct, upto - 1);
        assert(ct[upto - 1] == 0);
        assert(ct[upto - 1] * key[upto - 1] == 0);
    }
}

/// A ciphertext with a zero mask decrypts to its body under any key.
pub proof fn lemma_phase_of_zero_mask(key: Seq<u64>, ct: Seq<u64>)
    requires
        ct.len() == key.len() + 1,
        forall|i: int| 0 <= i < key.len() ==> ct[i] == 0,
    ensures
        lwe_phase(key, ct) == ct[ct.len() - 1],
{
    lemma_dot_zero(key, ct, key.len() as int);
}

/// Distance correctness, decoded: what the distance engine makes of a
/// noiseless query for `q` and the stored form of a row `m` of the same
/// length decrypts, under any key, and decodes to `(|q - m|^2 + p) mod p`,
/// as long as `p + |q - m|^2` fits the plaintext space with its padding bit.
#[verifier::rlimit(60)]
pub proof fn lemma_distance_decodes(ctx: Context, key: Seq<u64>, q: Seq<u64>, m: Seq<u64>)
    requires
        ctx.wf(),
        key.len() == ctx.params.polynomial_size,
        1 <= q.len() == m.len() <= ctx.params.polynomial_size,
        ctx.params.message_modulus + squared_distance(q, m, q.len() as int) < 2
            * ctx.params.message_modulus * ctx.params.carry_modulus,
    ensures
        ctx.codec.spec_decode(
            lwe_phase(
                key,
                spec_distance(
                    trivial(spec_query_plaintext(q, ctx.params.polynomial_size as int, ctx.params.spec_delta())),
                    trivial(spec_squares_plaintext(q, ctx.params.polynomial_size as int, ctx.params.spec_delta())),
                    ctx.params.polynomial_size as int,
                    spec_model_row(m, q.len() as int, ctx.params.polynomial_size as int),
                    q.len() as int,
                    ctx.params.spec_delta(),
                    ctx.params.message_modulus as int,
                ),
            ),
        ) == (ctx.params.message_modulus + squared_distance(q, m, q.len() as int))
            % (ctx.params.message_modulus as int),
{
    let n = ctx.params.polynomial_size as int;
    let p = ctx.params.message_modulus as int;
    let c = ctx.params.carry_modulus as int;
    let delta = ctx.params.spec_delta();
    let d = squared_distance(q, m, q.len() as int);
    let v = p + d;
    let ct = spec_distance(
        trivial(spec_query_plaintext(q, n, delta)),
        trivial(spec_squares_plaintext(q, n, delta)),
        n,
        spec_model_row(m, q.len() as int, n),
        q.len() as int,
        delta,
        p,
    );
    lemma_distance_of_trivial_query(q, m, n, delta, p);
    lemma_phase_of_zero_mask(key, ct);
    lemma_squared_distance_positive(q, m, q.len() as int);
    // the encoded value and its rounding offset stay inside a word
    assert(1 <= p * c <= 8192 && delta >= 2 && (p * c) * delta <= 0x8000_0000_0000_0000 && v < 2 * (p
        * c)) by (nonlinear_arith)
        requires
            2 <= p,
            1 <= c,
            2 * p * c <= 16384,
            delta == 0x8000_0000_0000_0000int / (p * c),
            v < 2 * p * c,
    ;
    assert(0 <= delta * v && delta * v + delta <= 0x1_0000_0000_0000_0000) by (nonlinear_arith)
        requires
            0 <= v < 2 * (p * c),
            (p * c) * delta <= 0x8000_0000_0000_0000,
            delta >= 2,
    ;
    assert(lwe_phase(key, ct) == delta * v);
    lemma_fundamental_div_mod_converse(delta * v + delta / 2, delta, v, delta / 2);
    assert(rounded(lwe_phase(key, ct), ctx.codec.delta()) == v);
}

/// Distance correctness with wrapping: where the plaintext space
/// `p * carry` divides `2^63`, as every power of two does, what the distance
/// engine makes of a noiseless query decrypts and decodes to
/// `(|q - m|^2 + p) mod p` however large the distance is. A distance beyond
/// the plaintext space wraps silently.
#[verifier::rlimit(60)]
pub proof fn lemma_distance_wraps(ctx: Context, key: Seq<u64>, q: Seq<u64>, m: Seq<u64>)
    requires
        ctx.wf(),
        key.len() == ctx.params.polynomial_size,
        1 <= q.len() == m.len() <= ctx.params.polynomial_size,
        0x8000_0000_0000_0000int % (ctx.params.message_modulus * ctx.params.carry_modulus) == 0,
    ensures
        ctx.codec.spec_decode(
            lwe_phase(
                key,
                spec_distance(
                    trivial(spec_query_plaintext(q, ctx.params.polynomial_size as int, ctx.params.spec_delta())),
                    trivial(spec_squares_plaintext(q, ctx.params.polynomial_size as int, ctx.params.spec_delta())),
                    ctx.params.polynomial_size as int,
                    spec_model_row(m, q.len() as int, ctx.params.polynomial_size as int),
                    q.len() as int,
                    ctx.params.spec_delta(),
                    ctx.params.message_modulus as int,
                ),
            ),
        ) == (ctx.params.message_modulus + squared_distance(q, m, q.len() as int))
            % (ctx.params.message_modulus as int),
{
    let n = ctx.params.polynomial_size as int;
    let p = ctx.params.message_modulus as int;
    let c = ctx.params.carry_modulus as int;
    let delta = ctx.params.spec_delta();
    let d = squared_distance(q, m, q.len() as int);
    let v = p + d;
    let space = 2 * c * p;
    let ct = spec_distance(
        trivial(spec_query_plaintext(q, n, delta)),
        trivial(spec_squares_plaintext(q, n, delta)),
        n,
        spec_model_row(m, q.len() as int, n),
        q.len() as int,
        delta,
        p,
    );
    lemma_distance_of_trivial_query(q, m, n, delta, p);
    lemma_phase_of_zero_mask(key, ct);
    lemma_squared_distance_positive(q, m, q.len() as int);
    let pc = p * c;
    assert(1 <= pc <= 8192) by (nonlinear_arith)
        requires
            pc == p * c,
            2 <= p,
            1 <= c,
            2 * p * c <= 16384,
    ;
    assert(delta == 0x8000_0000_0000_0000int / pc);
    vstd::arithmetic::div_mod::lemma_fundamental_div_mod(0x8000_0000_0000_0000int, pc);
    assert(pc * delta == 0x8000_0000_0000_0000);
    assert(delta * space == 0x1_0000_0000_0000_0000 && space >= 1 && delta >= 2) by (nonlinear_arith)
        requires
            pc * delta == 0x8000_0000_0000_0000,
            pc == p * c,
            space == 2 * c * p,
            1 <= pc <= 8192,
    ;
    // a word holds the encoded value up to multiples of the space with its padding bit
    let r = v % space;
    vstd::arithmetic::div_mod::lemma_truncate_middle(v, delta, space);
    assert(lwe_phase(key, ct) == delta * r);
    assert(0 <= r < space);
    assert(delta * r + delta <= 0x1_0000_0000_0000_0000) by (nonlinear_arith)
        requires
            0 <= r < space,
            delta * space == 0x1_0000_0000_0000_0000,
            delta >= 2,
    ;
    assert(0 <= delta * r) by (nonlinear_arith)
        requires
            0 <= r,
            delta >= 2,
    ;
    lemma_fundamental_div_mod_converse(delta * r + delta / 2, delta, r, delta / 2);
    assert(rounded(lwe_phase(key, ct), ctx.codec.delta()) == r);
    vstd::arithmetic::div_mod::lemma_mod_mod(v, p, 2 * c);
    assert(p * (2 * c) == space) by (nonlinear_arith)
        requires
            space == 2 * c * p,
    ;
}

pub proof fn lemma_squared_distance_positive(q: Seq<u64>, m: Seq<u64>, upto: int)
    ensures
        squared_distance(q, m, upto) >= 0,
    decreases upto,
{
    if upto > 0 {
        lemma_squared_distance_positive(q, m, upto - 1);
        let a = q[upto - 1] - m[upto - 1];
        assert(a * a >= 0) by (nonlinear_arith);
    }
}

} // verus!
