use crate::ciphertext::{lemma_wrap_add, wrap};
use crate::codec::rounded;
use crate::context::Context;
use crate::distance::{lemma_phase_of_zero_mask, lemma_zero_product};
use crate::primitives::{lwe_phase, negacyclic_product, negacyclic_sum, negacyclic_term};
use crate::server::{
    glwe_product, selector_coeff, spec_accumulator, spec_selector, spec_special_sub,
    trivial_constant,
};
use vstd::arithmetic::div_mod::{lemma_fundamental_div_mod_converse, lemma_mod_multiples_vanish};
use vstd::prelude::*;

verus! {

/// Coefficient `k` of the lookup table for two encoded values: seen
/// through the rotation by `shift` places, `left` stands on the lower half
/// and `right` on the upper half; the coefficients that the rotation
/// brought round from the front carry the opposite of `left`, as a
/// negacyclic table asks.
pub open spec fn table_coeff(n: int, shift: int, left: u64, right: u64, k: int) -> u64 {
    let src = if k + shift < n {
        k + shift
    } else {
        k + shift - n
    };
    if src < shift {
        wrap(-left)
    } else if src < n / 2 {
        left
    } else {
        right
    }
}

/// A constant polynomial times a polynomial is the polynomial scaled.
pub proof fn lemma_constant_product(a: Seq<u64>, b: Seq<u64>, k: int, upto: int)
    requires
        1 <= upto <= a.len(),
        0 <= k < a.len(),
        forall|i: int| 1 <= i < upto ==> a[i] == 0,
    ensures
        negacyclic_sum(a, b, k, upto) == a[0] * b[k],
    decreases upto,
{
    if upto > 1 {
        lemma_constant_product(a, b, k, upto - 1);
        assert(a[upto - 1] == 0);
        assert(negacyclic_term(a, b, k, upto - 1) == 0);
    } else {
        assert(negacyclic_sum(a, b, k, 0) == 0);
        assert(negacyclic_term(a, b, k, 0) == a[0] * b[k]);
    }
}

/// Truth-table correctness without noise: the accumulator built from the
/// trivial encryptions of two encoded values has a zero mask, and its body
/// is the lookup table that holds `left` on the lower half of the inputs
/// and `right` on the upper half.
#[verifier::rlimit(60)]
pub proof fn lemma_trivial_accumulator(n: int, space: int, left: u64, right: u64)
    requires
        n >= 2,
        space >= 1,
    ensures
        spec_accumulator(trivial_constant(n, left), trivial_constant(n, right), n, space)
            == Seq::new(
            (2 * n) as nat,
            |i: int|
                if i < n {
                    0u64
                } else {
                    table_coeff(n, n / space / 2, left, right, i - n)
                },
        ),
{
    let shift = n / space / 2;
    assert(0 <= shift <= n / 2) by (nonlinear_arith)
        requires
            n >= 2,
            space >= 1,
            shift == n / space / 2,
    ;
    let lo = spec_selector(n, shift, true);
    let hi = spec_selector(n, shift, false);
    let lc = trivial_constant(n, left);
    let rc = trivial_constant(n, right);
    let zero = Seq::new(n as nat, |i: int| 0u64);
    let lbody = lc.subrange(n, 2 * n);
    let rbody = rc.subrange(n, 2 * n);
    assert(lc.subrange(0, n) =~= zero);
    assert(rc.subrange(0, n) =~= zero);
    let pl = glwe_product(lc, n, lo);
    let pr = glwe_product(rc, n, hi);
    let acc = spec_accumulator(lc, rc, n, space);
    assert forall|i: int| 0 <= i < 2 * n implies acc[i] == if i < n {
        0u64
    } else {
        table_coeff(n, shift, left, right, i - n)
    } by {
        if i < n {
            lemma_zero_product(zero, lo, i, n);
            lemma_zero_product(zero, hi, i, n);
            assert(pl[i] == negacyclic_product(zero, lo)[i]);
            assert(pr[i] == negacyclic_product(zero, hi)[i]);
        } else {
            let k = i - n;
            lemma_constant_product(lbody, lo, k, n);
            lemma_constant_product(rbody, hi, k, n);
            assert(pl[i] == negacyclic_product(lbody, lo)[k]);
            assert(pr[i] == negacyclic_product(rbody, hi)[k]);
            assert(lbody[0] == left && rbody[0] == right);
            assert(lo[k] == selector_coeff(n, shift, true, k));
            assert(hi[k] == selector_coeff(n, shift, false, k));
            lemma_wrap_add(left * lo[k], right * hi[k]);
            let src = if k + shift < n {
                k + shift
            } else {
                k + shift - n
            };
            if src < shift {
                assert(lo[k] == u64::MAX && hi[k] == 0);
                assert(left * lo[k] + right * hi[k] == 0x1_0000_0000_0000_0000 * left + (-left))
                    by (nonlinear_arith)
                    requires
                        lo[k] == 0xffff_ffff_ffff_ffff,
                        hi[k] == 0,
                ;
                lemma_mod_multiples_vanish(left as int, -(left as int), 0x1_0000_0000_0000_0000);
            } else if src < n / 2 {
                assert(lo[k] == 1 && hi[k] == 0);
                assert(left * lo[k] + right * hi[k] == left) by (nonlinear_arith)
                    requires
                        lo[k] == 1,
                        hi[k] == 0,
                ;
            } else {
                assert(lo[k] == 0 && hi[k] == 1);
                assert(left * lo[k] + right * hi[k] == right) by (nonlinear_arith)
                    requires
                        lo[k] == 0,
                        hi[k] == 1,
                ;
            }
        }
    }
    assert(acc =~= Seq::new(
        (2 * n) as nat,
        |i: int|
            if i < n {
                0u64
            } else {
                table_coeff(n, shift, left, right, i - n)
            },
    ));
}


/// A noiseless encryption of `x` with a zero mask, for a key of `n` words.
pub open spec fn noiseless(n: int, x: u64, delta: int) -> Seq<u64> {
    Seq::new(
        (n + 1) as nat,
        |i: int|
            if i == n {
                wrap(x * delta)
            } else {
                0u64
            },
    )
}

/// Which half of the table a comparison reads, without noise: for two
/// values `a` and `b` below half the message modulus, the difference that
/// `min` and `arg_min` hand to the bootstrap decrypts and decodes to
/// `b - a + p / 2`, which lies on the upper half of the inputs, where the
/// table holds its right entry, exactly if `a` is at most `b`.
#[verifier::rlimit(60)]
pub proof fn lemma_comparison_index(ctx: Context, key: Seq<u64>, a: u64, b: u64)
    requires
        ctx.wf(),
        key.len() == ctx.params.polynomial_size,
        a < ctx.params.message_modulus / 2,
        b < ctx.params.message_modulus / 2,
    ensures
        ctx.codec.spec_decode(
            lwe_phase(
                key,
                spec_special_sub(
                    noiseless(ctx.params.polynomial_size as int, a, ctx.params.spec_delta()),
                    noiseless(ctx.params.polynomial_size as int, b, ctx.params.spec_delta()),
                    (ctx.params.message_modulus / 2) * ctx.params.spec_delta(),
                ),
            ),
        ) == b - a + ctx.params.message_modulus / 2,
        b - a + ctx.params.message_modulus / 2 >= ctx.params.message_modulus / 2 <==> a <= b,
        0 < b - a + ctx.params.message_modulus / 2 < ctx.params.message_modulus,
{
    let n = ctx.params.polynomial_size as int;
    let p = ctx.params.message_modulus as int;
    let c = ctx.params.carry_modulus as int;
    let delta = ctx.params.spec_delta();
    let ca = noiseless(n, a, delta);
    let cb = noiseless(n, b, delta);
    let offset = (p / 2) * delta;
    let diff = spec_special_sub(ca, cb, offset);
    let v = b - a + p / 2;
    assert(1 <= p * c <= 8192 && delta >= 2 && p * delta <= 0x8000_0000_0000_0000) by (nonlinear_arith)
        requires
            2 <= p,
            1 <= c,
            2 * p * c <= 16384,
            delta == 0x8000_0000_0000_0000int / (p * c),
    ;
    assert(0 <= a * delta < 0x8000_0000_0000_0000 && 0 <= b * delta < 0x8000_0000_0000_0000 && b
        * delta - a * delta + offset == delta * v && 0 < delta * v && delta * v + delta
        <= 0x8000_0000_0000_0000) by (nonlinear_arith)
        requires
            0 <= a < p / 2,
            0 <= b < p / 2,
            v == b - a + p / 2,
            offset == (p / 2) * delta,
            p * delta <= 0x8000_0000_0000_0000,
            delta >= 2,
    ;
    assert(diff[n] == wrap(cb[n] - ca[n] + offset));
    assert forall|i: int| 0 <= i < n implies diff[i] == 0 by {
        assert(diff[i] == wrap(cb[i] - ca[i]));
    }
    lemma_phase_of_zero_mask(key, diff);
    assert(lwe_phase(key, diff) == delta * v);
    lemma_fundamental_div_mod_converse(delta * v + delta / 2, delta, v, delta / 2);
    assert(rounded(lwe_phase(key, diff), ctx.codec.delta()) == v);
    assert(v % p == v) by (nonlinear_arith)
        requires
            0 < v < p,
    ;
}

/// The coefficients of the lookup table that belong to input `x`: with a
/// slot of `n / p` coefficients for each of the `p` inputs, the half slot
/// before and the half slot after coefficient `x * (n / p)`. A bootstrap
/// whose input carries noise reads somewhere in this window. For every
/// input the window holds the left entry below half the modulus and the
/// right entry from there on; for input 0 its first half has gone round the
/// end of the polynomial, where the opposite of the left entry stands, to be
/// negated again by the rotation that brings it back.
pub proof fn lemma_table_slot(n: int, p: int, left: u64, right: u64, x: int, k: int)
    requires
        p >= 2,
        p % 2 == 0,
        n / p >= 2,
        (n / p) % 2 == 0,
        n == p * (n / p),
        0 <= x < p,
        x * (n / p) - (n / p) / 2 <= k < x * (n / p) + (n / p) / 2,
    ensures
        0 <= k ==> k < n && table_coeff(n, n / p / 2, left, right, k) == if x < p / 2 {
            left
        } else {
            right
        },
        k < 0 ==> x == 0 && 0 <= k + n < n && table_coeff(n, n / p / 2, left, right, k + n)
            == wrap(-left),
{
    let c = n / p;
    let h = c / 2;
    assert(x * c <= (p - 1) * c && (p - 1) * c == n - c) by (nonlinear_arith)
        requires
            0 <= x < p,
            c >= 2,
            n == p * c,
    ;
    assert(n / 2 == (p / 2) * c) by (nonlinear_arith)
        requires
            n == p * c,
            p % 2 == 0,
            p >= 2,
    ;
    if x < p / 2 {
        assert(x * c + c <= (p / 2) * c) by (nonlinear_arith)
            requires
                0 <= x < p / 2,
                c >= 2,
        ;
    } else {
        assert(x * c >= (p / 2) * c) by (nonlinear_arith)
            requires
                x >= p / 2,
                c >= 2,
        ;
    }
    if x == 0 {
        assert(x * c == 0) by (nonlinear_arith)
            requires
                x == 0,
        ;
    } else {
        assert(x * c >= c) by (nonlinear_arith)
            requires
                x >= 1,
                c >= 2,
        ;
    }
}

/// Min and argmin correctness without noise: for two values `a` and `b`
/// below half the modulus, the slot that their comparison reads holds the
/// right entry of the table exactly if `a` is at most `b`. `min` builds its
/// table over `(b, a)` and so reads the smaller value; `arg_min` builds its
/// table over the labels `(j, i)` and so reads the label `i` where `a` is
/// at most `b`, also where the two are equal, and the label `j` otherwise.
pub proof fn lemma_comparison_slot(n: int, p: int, left: u64, right: u64, a: int, b: int)
    requires
        p >= 2,
        p % 2 == 0,
        n / p >= 2,
        (n / p) % 2 == 0,
        n == p * (n / p),
        0 <= a < p / 2,
        0 <= b < p / 2,
    ensures
        0 <= (b - a + p / 2) * (n / p) < n,
        table_coeff(n, n / p / 2, left, right, (b - a + p / 2) * (n / p)) == if a <= b {
            right
        } else {
            left
        },
{
    let x = b - a + p / 2;
    let c = n / p;
    assert(0 <= x * c) by (nonlinear_arith)
        requires
            x >= 1,
            c >= 2,
    ;
    lemma_table_slot(n, p, left, right, x, x * c);
}

} // verus!
