use ppknn::client::query_plaintexts;
use ppknn::codec::Codec;
use ppknn::context::{zeros, Context};
use ppknn::keyswitch::unit_polynomial;
use ppknn::params::is_power_of_two;
use ppknn::server::{
    concat_words, copy_range, longest_row, model_row, selector_polynomial, wrapping_sum_squares,
};
use ppknn::setup::prepare_model;
use ppknn::{majority, quantize, quantize_row, Parameters, QuantizeType, SetupError};
use tfhe::core_crypto::prelude::StandardDev;

fn full_size_param() -> Parameters {
    Parameters {
        lwe_dimension: 742,
        glwe_dimension: 1,
        polynomial_size: 2048,
        lwe_modular_std_dev: StandardDev(0.000007069849454709433),
        glwe_modular_std_dev: StandardDev(0.00000000000000029403601535432533),
        pbs_level: 6,
        pbs_base_log: 3,
        ks_level: 6,
        ks_base_log: 3,
        pfks_level: 6,
        pfks_base_log: 3,
        pfks_modular_std_dev: StandardDev(0.00000000000000029403601535432533),
        cbs_level: 0,
        cbs_base_log: 0,
        message_modulus: 32,
        carry_modulus: 1,
    }
}

#[test]
fn test_delta_of_full_size_parameters() {
    let p = full_size_param();
    assert!(p.is_valid());
    assert_eq!(p.delta(), 1u64 << 58);
    let mut q = p;
    q.message_modulus = 4;
    q.carry_modulus = 4;
    assert!(q.is_valid());
    assert_eq!(q.delta(), 1u64 << 59);
    q.message_modulus = 3;
    q.carry_modulus = 1;
    assert_eq!(q.delta(), (1u64 << 63) / 3);
}

#[test]
fn test_parameter_validity() {
    let p = full_size_param();
    let change = |f: &dyn Fn(&mut Parameters)| {
        let mut q = p;
        f(&mut q);
        q.is_valid()
    };
    assert!(!change(&|q| q.glwe_dimension = 2));
    assert!(!change(&|q| q.lwe_dimension = 0));
    assert!(!change(&|q| q.polynomial_size = 2047));
    assert!(!change(&|q| q.polynomial_size = 128));
    assert!(!change(&|q| q.polynomial_size = 32768));
    assert!(change(&|q| q.polynomial_size = 256));
    assert!(change(&|q| q.polynomial_size = 16384));
    assert!(!change(&|q| q.message_modulus = 1));
    assert!(!change(&|q| q.carry_modulus = 0));
    // every plaintext value needs two coefficients of an accumulator
    assert!(change(&|q| q.message_modulus = 1024));
    assert!(!change(&|q| q.message_modulus = 1025));
    assert!(!change(&|q| q.message_modulus = usize::MAX));
    assert!(!change(&|q| q.pbs_level = 0));
    assert!(!change(&|q| q.ks_base_log = 0));
    assert!(change(&|q| {
        q.pfks_level = 7;
        q.pfks_base_log = 9
    }));
    assert!(!change(&|q| {
        q.pfks_level = 8;
        q.pfks_base_log = 8
    }));
}

#[test]
fn test_is_power_of_two() {
    assert!(!is_power_of_two(0));
    assert!(is_power_of_two(1));
    assert!(is_power_of_two(2));
    assert!(!is_power_of_two(3));
    assert!(is_power_of_two(1 << 20));
    assert!(!is_power_of_two((1 << 20) + 2));
    assert!(!is_power_of_two(usize::MAX));
}

#[test]
fn test_codec_round_trip_with_noise() {
    let delta = 1u64 << 58;
    let codec = Codec::new(delta, 32);
    for m in 0..32u64 {
        let mut x = m;
        codec.encode(&mut x);
        assert_eq!(x, m << 58);
        for noise in [0i64, 1, -1, (1 << 57) - 1, -(1 << 57)] {
            let mut y = x.wrapping_add(noise as u64);
            codec.decode(&mut y);
            assert_eq!(y, m, "m={} noise={}", m, noise);
        }
    }
    // half a step up is the next message
    let mut y = (3u64 << 58) + (1 << 57);
    codec.decode(&mut y);
    assert_eq!(y, 4);
    // the padding bit is reduced away
    let mut y = 33u64 << 58;
    codec.decode(&mut y);
    assert_eq!(y, 1);
    // encoding wraps
    let mut x = 65u64;
    codec.encode(&mut x);
    assert_eq!(x, 1 << 58);
}

#[test]
fn test_context_zero_ciphertexts() {
    let mut p = full_size_param();
    p.polynomial_size = 256;
    let ctx = Context::new(p);
    assert_eq!(ctx.delta(), 1u64 << 58);
    let lwe = ctx.zero_lwe();
    assert_eq!(lwe.ct, vec![0u64; 257]);
    assert_eq!((lwe.degree, lwe.message_modulus, lwe.carry_modulus), (31, 32, 1));
    let glwe = ctx.zero_glwe();
    assert_eq!(glwe.data, vec![0u64; 512]);
    assert_eq!(glwe.polynomial_size, 256);
    assert_eq!(zeros(3), vec![0, 0, 0]);
    assert_eq!(unit_polynomial(4), vec![1, 0, 0, 0]);
    assert_eq!(unit_polynomial(0), Vec::<u64>::new());
}

#[test]
fn test_selector_polynomials() {
    let m = u64::MAX;
    // ones on the lower half, the first two negated, rotated left by two
    assert_eq!(selector_polynomial(8, 2, true), vec![1, 1, 0, 0, 0, 0, m, m]);
    // ones on the upper half: nothing to negate
    assert_eq!(selector_polynomial(8, 2, false), vec![0, 0, 1, 1, 1, 1, 0, 0]);
    assert_eq!(selector_polynomial(8, 0, true), vec![1, 1, 1, 1, 0, 0, 0, 0]);
    assert_eq!(selector_polynomial(8, 4, true), vec![0, 0, 0, 0, m, m, m, m]);
    // what the construction by hand gives, for three sizes
    for (n, p) in [(2048usize, 32usize), (256, 32), (512, 4)] {
        let shift = n / p / 2;
        for lower in [true, false] {
            let mut tmp: Vec<u64> =
                (0..n).map(|i| if (i < n / 2) == lower { 1 } else { 0 }).collect();
            for a_i in tmp[0..shift].iter_mut() {
                *a_i = (*a_i).wrapping_neg();
            }
            tmp.rotate_left(shift);
            assert_eq!(selector_polynomial(n, shift, lower), tmp);
        }
    }
}

#[test]
fn test_model_rows() {
    assert_eq!(model_row(&vec![0, 1, 0, 0], 4, 8), vec![0, 0, 1, 0, 0, 0, 0, 0]);
    assert_eq!(model_row(&vec![1, 2, 3], 3, 5), vec![3, 2, 1, 0, 0]);
    // a shorter row counts as padded with zeros before it is reversed
    assert_eq!(model_row(&vec![1, 2], 4, 6), vec![0, 0, 2, 1, 0, 0]);
    assert_eq!(model_row(&vec![], 2, 3), vec![0, 0, 0]);
    assert_eq!(longest_row(&vec![]), 0);
    assert_eq!(longest_row(&vec![vec![1], vec![1, 2, 3], vec![]]), 3);
    let model = prepare_model(&vec![vec![1, 2, 3], vec![4]], 4).unwrap();
    assert_eq!(model, (3, vec![vec![3, 2, 1, 0], vec![0, 0, 4, 0]]));
    assert_eq!(prepare_model(&vec![], 4), Err(SetupError::EmptyModel));
    assert_eq!(prepare_model(&vec![vec![]], 4), Err(SetupError::EmptyModel));
    assert_eq!(prepare_model(&vec![vec![1, 2, 3, 4]], 4), Err(SetupError::RowTooLong));
    assert_eq!(prepare_model(&vec![vec![1]], 0), Err(SetupError::RowTooLong));
}

#[test]
fn test_query_plaintexts() {
    let delta = 1u64 << 58;
    let (pt, pt2) = query_plaintexts(&vec![2, 0, 0, 0], 8, delta);
    assert_eq!(pt, vec![2 * delta, 0, 0, 0, 0, 0, 0, 0]);
    assert_eq!(pt2, vec![0, 0, 0, 4 * delta, 0, 0, 0, 0]);
    let (pt, pt2) = query_plaintexts(&vec![1, 2, 3], 4, 10);
    assert_eq!(pt, vec![10, 20, 30, 0]);
    assert_eq!(pt2, vec![0, 0, 140, 0]);
    let (pt, pt2) = query_plaintexts(&vec![7], 2, 3);
    assert_eq!(pt, vec![21, 0]);
    assert_eq!(pt2, vec![147, 0]);
    // sums beyond a word wrap
    let (pt, pt2) = query_plaintexts(&vec![1 << 32, 1], 3, 1);
    assert_eq!(pt, vec![1 << 32, 1, 0]);
    assert_eq!(pt2, vec![0, 1, 0]);
}

#[test]
fn test_words() {
    assert_eq!(wrapping_sum_squares(&vec![]), 0);
    assert_eq!(wrapping_sum_squares(&vec![1, 2, 3]), 14);
    assert_eq!(wrapping_sum_squares(&vec![1 << 32, 3]), 9);
    assert_eq!(copy_range(&vec![1, 2, 3, 4], 1, 3), vec![2, 3]);
    assert_eq!(copy_range(&vec![1, 2, 3, 4], 2, 2), Vec::<u64>::new());
    assert_eq!(concat_words(vec![1, 2], &vec![3]), vec![1, 2, 3]);
}

#[test]
fn test_quantize() {
    let plain: Vec<u64> = (0..=16).map(|x| quantize(x, QuantizeType::Plain)).collect();
    assert_eq!(plain, (0..=16).collect::<Vec<u64>>());
    let binary: Vec<u64> = (0..=16).map(|x| quantize(x, QuantizeType::Binary)).collect();
    assert_eq!(binary, vec![0, 0, 0, 0, 0, 0, 0, 0, 1, 1, 1, 1, 1, 1, 1, 1, 1]);
    let ternary: Vec<u64> = (0..=16).map(|x| quantize(x, QuantizeType::Ternary)).collect();
    assert_eq!(ternary, vec![0, 0, 0, 0, 0, 0, 1, 1, 1, 1, 1, 1, 2, 2, 2, 2, 2]);
    // the label at the end of a row stays
    assert_eq!(quantize_row(&vec![0, 7, 8, 16, 9], QuantizeType::Binary), Some(vec![0, 0, 1, 1, 9]));
    assert_eq!(quantize_row(&vec![5, 6, 11, 12, 9], QuantizeType::Ternary), Some(vec![0, 1, 1, 2, 9]));
    assert_eq!(quantize_row(&vec![5, 6, 40], QuantizeType::Plain), Some(vec![5, 6, 40]));
    assert_eq!(quantize_row(&vec![5, 17, 1], QuantizeType::Binary), None);
    assert_eq!(quantize_row(&vec![5, 17, 1], QuantizeType::Ternary), Some(vec![0, 2, 1]));
    assert_eq!(quantize_row(&vec![5, 1, 17], QuantizeType::Binary), Some(vec![0, 0, 17]));
    assert_eq!(quantize_row(&vec![], QuantizeType::Binary), Some(vec![]));
}

#[test]
fn test_majority() {
    assert_eq!(majority(&vec![]), None);
    assert_eq!(majority(&vec![4]), Some(4));
    assert_eq!(majority(&vec![1, 2, 2]), Some(2));
    assert_eq!(majority(&vec![3, 1, 3, 1, 2]), Some(3));
    assert_eq!(majority(&vec![1, 3, 3, 1, 2]), Some(1));
    assert_eq!(majority(&vec![0, 1, 2]), Some(0));
}
