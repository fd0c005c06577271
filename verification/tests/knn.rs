use ppknn::{
    enc_vec, setup, setup_with_data, BatcherSort, Ciphertext, EncCmp, EncItem, Parameters,
    SetupError,
};
use tfhe::core_crypto::prelude::StandardDev;
use tfhe::shortint::ciphertext::Degree;
use tfhe::shortint::parameters::{CarryModulus, MessageModulus};

// The full-size set with its noise, its decompositions and its plaintext
// space, on dimensions that are small enough to generate keys for and to
// bootstrap within a test run.
fn test_param() -> Parameters {
    Parameters {
        lwe_dimension: 6,
        glwe_dimension: 1,
        polynomial_size: 256,
        lwe_modular_std_dev: StandardDev(0.000007069849454709433),
        glwe_modular_std_dev: StandardDev(0.00000000000000029403601535432533),
        pbs_level: 6,
        pbs_base_log: 3,
        ks_level: 6,
        ks_base_log: 3,
        pfks_level: 6,
        pfks_base_log: 3,
        pfks_modular_std_dev: StandardDev(0.00000000000000029403601535432533),
        cbs_level: 0,
        cbs_base_log: 0,
        message_modulus: 32,
        carry_modulus: 1,
    }
}

fn to_raw(ct: &Ciphertext) -> tfhe::shortint::Ciphertext {
    tfhe::shortint::Ciphertext {
        ct: tfhe::core_crypto::prelude::LweCiphertext::from_container(ct.ct.clone()),
        degree: Degree(ct.degree),
        message_modulus: MessageModulus(ct.message_modulus),
        carry_modulus: CarryModulus(ct.carry_modulus),
    }
}

fn from_raw(ct: tfhe::shortint::Ciphertext) -> Ciphertext {
    Ciphertext {
        degree: ct.degree.0,
        message_modulus: ct.message_modulus.0,
        carry_modulus: ct.carry_modulus.0,
        ct: ct.ct.into_container(),
    }
}

#[test]
fn test_tfhe_arith() {
    // testing some basic operations of the primitive library
    let (knn_client, knn_server) = setup(test_param()).unwrap();
    let client = knn_client.key();
    let server = tfhe::shortint::ServerKey::new(client);
    {
        // computation without considering the padding bit
        // note that we cannot use unchecked_sub for this
        let ct_0 = from_raw(client.encrypt_without_padding(0));
        let ct_1 = from_raw(client.encrypt_without_padding(1));
        let res = knn_server.raw_sub(&ct_0, &ct_1);
        assert_eq!(
            client.decrypt_without_padding(&to_raw(&res)),
            client.parameters.message_modulus.0 as u64 - 1
        );
    }
    {
        // computation with the padding bit for -1
        let ct_0 = client.encrypt(0);
        let ct_1 = client.encrypt(1);
        let ct = server.unchecked_sub(&ct_0, &ct_1);
        let res = client.decrypt(&ct);
        assert_eq!(res, client.parameters.message_modulus.0 as u64 - 1);
    }
    {
        // computation with the padding bit for 0 - (-1)
        let ct_0 = client.encrypt(0);
        let ct_1 = client.encrypt(client.parameters.message_modulus.0 as u64 - 1);
        let res = server.unchecked_sub(&ct_0, &ct_1);
        assert_eq!(client.decrypt(&res), 1);
    }
}

#[test]
fn test_custom_accumulator() {
    // setup a truth table that always returns the same value `pt`
    // then using PBS we should always get `pt`
    let (client, server) = setup(test_param()).unwrap();
    let params = server.parameters();

    let pt = 1u64;
    let ct_before = from_raw(client.key().encrypt(pt));
    let ct_after = server.lwe_to_glwe(&ct_before);

    // we need to set the accumulator to be: ct_after * (X^0 + ... + X^{N-1})
    // where ct_after is an encryption of `pt`
    let poly_ones = {
        let mut tmp = vec![1u64; params.polynomial_size];
        let chunk_size = params.polynomial_size / params.message_modulus;
        for a_i in tmp[0..chunk_size / 2].iter_mut() {
            *a_i = (*a_i).wrapping_neg();
        }
        tmp.rotate_left(chunk_size / 2);
        tmp
    };
    let glwe_acc = server.polynomial_glwe_mul(&ct_after, &poly_ones);

    let acc = ppknn::Accumulator { acc: glwe_acc, degree: params.message_modulus - 1 };

    // now we do pbs and the result should always be `pt`
    for x in 0u64..params.message_modulus as u64 {
        let ct = from_raw(client.key().encrypt(x));
        let res = server.keyswitch_programmable_bootstrap(&ct, &acc);
        let actual = client.key().decrypt(&to_raw(&res));
        println!("x={}, actual={}, expected={}", x, actual, pt);
        assert_eq!(actual, pt);
    }
}

#[test]
fn test_double_ct_acc() {
    let (client, server) = setup(test_param()).unwrap();
    let params = server.parameters();
    let left = 1u64;
    let right = params.message_modulus as u64 - 1;
    let acc = server.double_ct_acc(
        &from_raw(client.key().encrypt(left)),
        &from_raw(client.key().encrypt(right)),
    );
    let modulus = params.message_modulus;
    for x in 0u64..modulus as u64 {
        let ct = from_raw(client.key().encrypt(x));
        let res = server.keyswitch_programmable_bootstrap(&ct, &acc);
        let actual = client.key().decrypt(&to_raw(&res));
        let expected = if x < modulus as u64 / 2 { left } else { right };
        println!("x={}, actual={}, expected={}", x, actual, expected);
        assert_eq!(actual, expected);
    }
}

#[test]
fn test_trivially_double_ct_acc() {
    let (client, server) = setup(test_param()).unwrap();
    let modulus = server.parameters().message_modulus as u64;
    for (left, right) in [(0u64, 31u64), (7, 3), (31, 0), (40, 5)] {
        let acc = server.trivially_double_ct_acc(left, right);
        for x in 0u64..modulus {
            let ct = from_raw(client.key().encrypt(x));
            let res = server.keyswitch_programmable_bootstrap(&ct, &acc);
            let actual = client.key().decrypt(&to_raw(&res));
            let expected = if x < modulus / 2 { left % modulus } else { right % modulus };
            assert_eq!(actual, expected);
        }
    }
}

#[test]
fn test_min() {
    let (client, server) = setup(test_param()).unwrap();
    let modulus = server.parameters().message_modulus as u64;

    // note that we can only use half of the plaintext space since
    // the subtraction will take us to the full plaintext space
    for a_pt in 0..modulus / 2 {
        let a_ct = from_raw(client.key().encrypt(a_pt));
        for b_pt in 0..modulus / 2 {
            let b_ct = from_raw(client.key().encrypt(b_pt));
            let min_ct = server.min(&a_ct, &b_ct);
            let actual = client.key().decrypt(&to_raw(&min_ct));
            let expected = a_pt.min(b_pt);
            println!("a={}, b={}, actual={}, expected={}", a_pt, b_pt, actual, expected);
            assert_eq!(actual, expected);
        }
    }
}

#[test]
fn test_trivially_min() {
    let (client, server) = setup(test_param()).unwrap();
    for (a_pt, b_pt) in [(0u64, 0u64), (3, 9), (9, 3), (15, 14), (14, 15)] {
        let a_ct = from_raw(client.key().encrypt(a_pt));
        let b_ct = from_raw(client.key().encrypt(b_pt));
        let min_ct = server.trivially_min(a_pt, b_pt, &a_ct, &b_ct);
        assert_eq!(client.key().decrypt(&to_raw(&min_ct)), a_pt.min(b_pt));
    }
}

#[test]
fn test_arg_min() {
    let (client, server) = setup(test_param()).unwrap();
    for (a, b, i, j) in
        [(1u64, 2u64, 7u64, 9u64), (2, 1, 7, 9), (5, 5, 30, 4), (0, 15, 0, 31), (15, 0, 0, 31)]
    {
        let res = server.arg_min(
            &from_raw(client.key().encrypt(a)),
            &from_raw(client.key().encrypt(b)),
            &from_raw(client.key().encrypt(i)),
            &from_raw(client.key().encrypt(j)),
        );
        let expected = if a <= b { i } else { j };
        assert_eq!(client.key().decrypt(&to_raw(&res)), expected);
    }
}

#[test]
fn test_arg_min_of_equal_values() {
    // on a tie the first label wins
    let (client, server) = setup(test_param()).unwrap();
    for a in 0..16u64 {
        let value = from_raw(client.key().encrypt(a));
        let res = server.arg_min(
            &value,
            &value,
            &from_raw(client.key().encrypt(30)),
            &from_raw(client.key().encrypt(4)),
        );
        assert_eq!(client.key().decrypt(&to_raw(&res)), 30);
    }
}

#[test]
fn test_comparison_difference() {
    // min and arg_min read the table at b - a + p / 2
    let (client, server) = setup(test_param()).unwrap();
    for (a, b) in [(0u64, 0u64), (3, 9), (9, 3), (15, 0), (0, 15)] {
        let diff = server.special_sub(
            &from_raw(client.key().encrypt(a)),
            &from_raw(client.key().encrypt(b)),
        );
        assert_eq!(client.key().decrypt(&to_raw(&diff)), b + 16 - a);
    }
}

#[test]
fn test_raw_add_and_sub_words() {
    let (_client, server) = setup(test_param()).unwrap();
    let mut a = server.new_ct();
    let mut b = server.new_ct();
    assert_eq!(a.ct, vec![0u64; 257]);
    a.ct[0] = u64::MAX;
    a.ct[256] = 5;
    b.ct[0] = 2;
    b.ct[256] = 7;
    let sum = server.raw_add(&a, &b);
    assert_eq!((sum.ct[0], sum.ct[1], sum.ct[256]), (1, 0, 12));
    let diff = server.raw_sub(&a, &b);
    assert_eq!((diff.ct[0], diff.ct[1], diff.ct[256]), (u64::MAX - 2, 0, u64::MAX - 1));
    let mut c = a.duplicate();
    server.raw_add_assign(&mut c, &b);
    assert_eq!(c.ct, sum.ct);
    server.raw_sub_assign(&mut c, &b);
    assert_eq!(c.ct, a.ct);
    // special_sub(a, b) = b - a, with half the modulus added to the body
    let special = server.special_sub(&a, &b);
    assert_eq!(special.ct[0], 3);
    assert_eq!(special.ct[256], 2 + 16 * (1u64 << 58));
    assert_eq!((special.degree, special.message_modulus, special.carry_modulus), (31, 32, 1));
}

#[test]
fn test_enc_sort() {
    {
        let (client, server) = setup(test_param()).unwrap();
        let pt_vec = vec![(1, 1), (0, 0), (2, 2), (3u64, 3u64)];
        let enc_cmp = EncCmp::boxed(enc_vec(&pt_vec, client.key()).unwrap(), test_param(), server).unwrap();

        let mut sorter = BatcherSort::new_k(enc_cmp, 1);
        sorter.sort();

        let actual = sorter.inner()[0].decrypt(client.key()).unwrap();
        let expected = (0u64, 0u64);
        assert_eq!(actual, expected);

        let noise = client.lwe_noise(&sorter.inner()[0].value, expected.0);
        println!("noise={}", noise);
        assert!(noise < 1u64 << 57);
    }
    {
        let (client, server) = setup(test_param()).unwrap();
        let pt_vec = vec![(2, 2), (2, 2), (1, 1), (3u64, 3u64)];
        let enc_cmp = EncCmp::boxed(enc_vec(&pt_vec, client.key()).unwrap(), test_param(), server).unwrap();

        let mut sorter = BatcherSort::new_k(enc_cmp, 1);
        sorter.sort();

        let actual = sorter.inner()[0].decrypt(client.key()).unwrap();
        let expected = (1u64, 1u64);
        assert_eq!(actual, expected);

        let noise = client.lwe_noise(&sorter.inner()[0].value, expected.0);
        println!("noise={}", noise);
    }
    {
        let (client, server) = setup(test_param()).unwrap();
        let pt_vec = vec![(1, 1), (2, 2), (3u64, 3u64), (0, 0)];
        let enc_cmp = EncCmp::boxed(enc_vec(&pt_vec, client.key()).unwrap(), test_param(), server).unwrap();

        let mut sorter = BatcherSort::new_k(enc_cmp, 1);
        sorter.sort();

        let actual = sorter.inner()[0].decrypt(client.key()).unwrap();
        let expected = (0u64, 0u64);
        assert_eq!(actual, expected);

        let noise = client.lwe_noise(&sorter.inner()[0].value, expected.0);
        println!("noise={}", noise);
    }
}

#[test]
fn test_enc_sort_top_three() {
    let (client, server) = setup(test_param()).unwrap();
    let pt_vec: Vec<(u64, u64)> = vec![(9, 1), (4, 2), (7, 3), (1, 4), (12, 5), (3, 6)];
    let enc_cmp = EncCmp::boxed(enc_vec(&pt_vec, client.key()).unwrap(), test_param(), server).unwrap();
    let mut sorter = BatcherSort::new_k(enc_cmp, 3);
    sorter.sort();
    let top: Vec<(u64, u64)> =
        sorter.inner()[..3].iter().map(|item| item.decrypt(client.key()).unwrap()).collect();
    assert_eq!(top, vec![(1, 4), (3, 6), (4, 2)]);
    // the schedule is that of the clear sorter on six items
    let mut clear = BatcherSort::new_k(ppknn::ClearCmp::boxed(vec![9, 4, 7, 1, 12, 3]), 3);
    clear.sort();
    assert_eq!(sorter.comparisons(), clear.comparisons());
}

#[test]
fn test_compute_distance() {
    // distance should be 2^2 + 1 = 5
    let data = vec![vec![0, 1, 0, 0u64]];
    let target = vec![2, 0, 0, 0u64];
    let (client, server) = setup_with_data(test_param(), data).unwrap();
    let (glwe, glwe2) = client.make_query(&target);
    let distances = server.compute_distances(&glwe, &glwe2);

    let expected = 5u64;
    assert_eq!(client.key().decrypt(&to_raw(&distances[0])), expected);
}

#[test]
fn test_compute_distances_of_several_rows() {
    let data: Vec<Vec<u64>> = vec![vec![1, 2, 3], vec![0, 0, 0], vec![3, 1, 2], vec![2]];
    let target: Vec<u64> = vec![1, 2, 2];
    let (client, server) = setup_with_data(test_param(), data.clone()).unwrap();
    let (glwe, glwe2) = client.make_query(&target);
    let distances = server.compute_distances(&glwe, &glwe2);
    assert_eq!(distances.len(), 4);
    for (row, ct) in data.iter().zip(distances.iter()) {
        let mut d = 0u64;
        for j in 0..3 {
            let m = if j < row.len() { row[j] } else { 0 };
            d += (m as i64 - target[j] as i64).pow(2) as u64;
        }
        assert_eq!(client.key().decrypt(&to_raw(ct)), d % 32);
        assert_eq!(client.lwe_decrypt_decode(ct), d % 32);
    }
}

#[test]
fn test_lift_keeps_the_message_in_the_constant_coefficient() {
    let (client, server) = setup(test_param()).unwrap();
    for m in [0u64, 1, 5, 31] {
        let ct = client.lwe_encode_encrypt(m);
        let glwe = server.lwe_to_glwe(&ct);
        let decoded = client.glwe_decrypt_decode(&glwe);
        assert_eq!(decoded[0], m);
        assert!(decoded[1..].iter().all(|&x| x == 0));
    }
}

#[test]
fn test_client_round_trips() {
    let (client, _server) = setup(test_param()).unwrap();
    assert_eq!(client.delta(), 1u64 << 58);
    for m in 0..32u64 {
        let ct = client.lwe_encode_encrypt(m);
        assert_eq!(ct.ct.len(), 257);
        assert_eq!(client.lwe_decrypt_decode(&ct), m);
        assert_eq!(client.key().decrypt(&to_raw(&ct)), m);
        assert!(client.lwe_noise(&ct, m) < 1u64 << 57);
    }
    let mut pt = vec![0u64; 256];
    pt[0] = 3;
    pt[7] = 30;
    pt[255] = 1;
    let glwe = client.glwe_encode_encrypt(&pt);
    assert_eq!(glwe.data.len(), 512);
    assert_eq!(client.glwe_decrypt_decode(&glwe), pt);
}

#[test]
fn test_setup_errors() {
    let mut bad = test_param();
    bad.glwe_dimension = 2;
    assert_eq!(setup(bad).err(), Some(SetupError::InvalidParameters));
    let mut bad = test_param();
    bad.polynomial_size = 300;
    assert_eq!(setup_with_data(bad, vec![vec![1]]).err(), Some(SetupError::InvalidParameters));
    assert_eq!(setup_with_data(test_param(), vec![]).err(), Some(SetupError::EmptyModel));
    assert_eq!(setup_with_data(test_param(), vec![vec![], vec![]]).err(), Some(SetupError::EmptyModel));
    assert_eq!(
        setup_with_data(test_param(), vec![vec![1], vec![0; 256]]).err(),
        Some(SetupError::RowTooLong)
    );
}

#[test]
fn test_enc_cmp_refuses_items_of_another_shape() {
    let (client, server) = setup(test_param()).unwrap();
    let mut items = enc_vec(&vec![(1, 1), (2, 2)], client.key()).unwrap();
    items[1].class.ct.pop();
    assert!(EncCmp::boxed(items, test_param(), server).is_none());
    let short = EncItem::new(
        Ciphertext { ct: vec![0], degree: 31, message_modulus: 32, carry_modulus: 1 },
        Ciphertext { ct: vec![0, 0], degree: 31, message_modulus: 32, carry_modulus: 1 },
    );
    assert_eq!(short.decrypt(client.key()), None);
}

#[test]
fn test_larger_item_is_recovered_without_bootstrap() {
    let (client, server) = setup(test_param()).unwrap();
    let items = enc_vec(&vec![(9, 1), (4, 2)], client.key()).unwrap();
    let before: Vec<(Vec<u64>, Vec<u64>)> =
        items.iter().map(|item| (item.value.ct.clone(), item.class.ct.clone())).collect();
    let cmp = EncCmp::boxed(items, test_param(), server).unwrap();
    let mut sorter = BatcherSort::new(cmp);
    sorter.sort();
    assert_eq!(sorter.comparisons(), 1);
    let cmp = sorter.into_inner();
    let (after, server) = cmp.into_parts();
    assert_eq!(after[0].decrypt(client.key()), Some((4, 2)));
    assert_eq!(after[1].decrypt(client.key()), Some((9, 1)));
    for w in 0..before[0].0.len() {
        let sum = before[0].0[w].wrapping_add(before[1].0[w]);
        assert_eq!(after[1].value.ct[w], sum.wrapping_sub(after[0].value.ct[w]));
        let sum = before[0].1[w].wrapping_add(before[1].1[w]);
        assert_eq!(after[1].class.ct[w], sum.wrapping_sub(after[0].class.ct[w]));
    }
    // the server comes back whole
    assert_eq!(server.parameters().polynomial_size, 256);
    assert_eq!(server.new_ct().ct.len(), 257);
}

#[test]
fn test_polynomial_glwe_mul_is_negacyclic() {
    let (_client, server) = setup(test_param()).unwrap();
    // mask X, body 2 X^255, times 3 X
    let mut data = vec![0u64; 512];
    data[1] = 1;
    data[256 + 255] = 2;
    let glwe = ppknn::GlweCiphertext { data, polynomial_size: 256 };
    let mut poly = vec![0u64; 256];
    poly[1] = 3;
    let out = server.polynomial_glwe_mul(&glwe, &poly);
    let mut expected = vec![0u64; 512];
    // 3 X^2 in the mask; 6 X^256 = -6 in the body
    expected[2] = 3;
    expected[256] = 6u64.wrapping_neg();
    assert_eq!(out.data, expected);
    assert_eq!(out.polynomial_size, 256);
}

#[test]
fn test_assemble_refuses_keys_of_another_size() {
    let (client, _server) = setup(test_param()).unwrap();
    let raw = client.key().parameters;
    let mut other = raw;
    other.polynomial_size = tfhe::shortint::parameters::PolynomialSize(512);
    // keys made for the parameters are taken
    let (client_key, server_key) = tfhe::shortint::gen_keys(raw);
    let (client, server) = ppknn::setup::assemble(test_param(), client_key, server_key).unwrap();
    let a = from_raw(client.key().encrypt(3));
    let b = from_raw(client.key().encrypt(5));
    assert_eq!(client.key().decrypt(&to_raw(&server.min(&a, &b))), 3);
    // both keys made for another polynomial size
    let (client_key, server_key) = tfhe::shortint::gen_keys(other);
    let res = ppknn::setup::assemble(test_param(), client_key, server_key);
    assert_eq!(res.err(), Some(SetupError::KeyShape));
    // a server key made for another polynomial size
    let (client_key, _) = tfhe::shortint::gen_keys(raw);
    let (_, server_key) = tfhe::shortint::gen_keys(other);
    let res = ppknn::setup::assemble_with_data(test_param(), client_key, server_key, vec![vec![1, 2]]);
    assert_eq!(res.err(), Some(SetupError::KeyShape));
    // a server key made for another decomposition
    let mut other = raw;
    other.ks_level = tfhe::shortint::parameters::DecompositionLevelCount(5);
    let (client_key, _) = tfhe::shortint::gen_keys(raw);
    let (_, server_key) = tfhe::shortint::gen_keys(other);
    let res = ppknn::setup::assemble(test_param(), client_key, server_key);
    assert_eq!(res.err(), Some(SetupError::KeyShape));
    // the model is looked at first
    let (client_key, server_key) = tfhe::shortint::gen_keys(raw);
    let res = ppknn::setup::assemble_with_data(test_param(), client_key, server_key, vec![]);
    assert_eq!(res.err(), Some(SetupError::EmptyModel));
}

#[test]
fn test_enc_vec_refuses_a_key_without_plaintext_space() {
    let (client, _server) = setup(test_param()).unwrap();
    let mut raw = client.key().parameters;
    raw.carry_modulus = tfhe::shortint::parameters::CarryModulus(0);
    let key = tfhe::shortint::ClientKey::new(raw);
    assert!(enc_vec(&vec![(1, 1)], &key).is_none());
    let items = enc_vec(&vec![(1, 2), (3, 4)], client.key()).unwrap();
    assert_eq!(items.len(), 2);
    assert_eq!(items[1].value.ct.len(), 257);
    assert_eq!((items[1].class.degree, items[1].class.message_modulus, items[1].class.carry_modulus), (31, 32, 1));
}

#[test]
fn test_exchange_puts_both_items_in_place() {
    let (client, server) = setup(test_param()).unwrap();
    let items = enc_vec(&vec![(9, 1), (7, 7), (4, 2)], client.key()).unwrap();
    let before: Vec<(Vec<u64>, Vec<u64>)> =
        items.iter().map(|item| (item.value.ct.clone(), item.class.ct.clone())).collect();
    let mut cmp = EncCmp::boxed(items, test_param(), server).unwrap();
    // the smaller item as it would come out of the bootstraps
    let given = enc_vec(&vec![(4, 2)], client.key()).unwrap().pop().unwrap();
    let (given_value, given_class) = (given.value.ct.clone(), given.class.ct.clone());
    cmp.exchange(0, 2, given.value, given.class);
    assert_eq!(ppknn::Cmp::cmp_count(&*cmp), 1);
    let (after, _server) = cmp.into_parts();
    assert_eq!(after.len(), 3);
    assert_eq!((&after[0].value.ct, &after[0].class.ct), (&given_value, &given_class));
    assert_eq!((&after[1].value.ct, &after[1].class.ct), (&before[1].0, &before[1].1));
    for w in 0..257 {
        let sum = before[0].0[w].wrapping_add(before[2].0[w]);
        assert_eq!(after[2].value.ct[w], sum.wrapping_sub(given_value[w]));
        let sum = before[0].1[w].wrapping_add(before[2].1[w]);
        assert_eq!(after[2].class.ct[w], sum.wrapping_sub(given_class[w]));
    }
    assert_eq!((after[2].value.degree, after[2].value.message_modulus, after[2].value.carry_modulus), (31, 32, 1));
    assert_eq!(after[0].decrypt(client.key()), Some((4, 2)));
    assert_eq!(after[2].decrypt(client.key()), Some((9, 1)));
}

#[test]
fn test_item_decryption_agrees_with_the_client_key() {
    let (client, _server) = setup(test_param()).unwrap();
    let pairs: Vec<(u64, u64)> = vec![(0, 31), (1, 2), (17, 16), (31, 0), (40, 7)];
    let items = enc_vec(&pairs, client.key()).unwrap();
    for (item, pair) in items.iter().zip(pairs.iter()) {
        assert_eq!(item.decrypt(client.key()), Some((pair.0 % 32, pair.1 % 32)));
        let by_key = (
            client.key().decrypt(&to_raw(&item.value)),
            client.key().decrypt(&to_raw(&item.class)),
        );
        assert_eq!(item.decrypt(client.key()), Some(by_key));
        assert_eq!((item.value.degree, item.value.message_modulus), (31, 32));
    }
    // a key of another size decrypts nothing
    assert_eq!(items[0].decrypt_with_key(&vec![0; 255]), None);
    assert_eq!(items[0].decrypt_with_key(&vec![]), None);
    // under the zero key the phase is the body
    let item = EncItem::new(
        Ciphertext { ct: vec![9, 9, 5 << 58], degree: 31, message_modulus: 32, carry_modulus: 1 },
        Ciphertext { ct: vec![9, 9, (7 << 58) + (1 << 57)], degree: 31, message_modulus: 32, carry_modulus: 1 },
    );
    assert_eq!(item.decrypt_with_key(&vec![0, 0]), Some((5, 8)));
    // under the key (1, 0) the first mask word is taken off the body,
    // which brings the second body just below the half step
    assert_eq!(item.decrypt_with_key(&vec![1, 0]), Some((5, 7)));
    let item = EncItem::new(
        Ciphertext { ct: vec![1 << 58, 9, 5 << 58], degree: 31, message_modulus: 32, carry_modulus: 1 },
        Ciphertext { ct: vec![9, 1 << 59, 7 << 58], degree: 3, message_modulus: 4, carry_modulus: 8 },
    );
    assert_eq!(item.decrypt_with_key(&vec![1, 1]), Some((4, 1)));
    // tags that stand for no plaintext space
    let item = EncItem::new(
        Ciphertext { ct: vec![0, 0, 0], degree: 0, message_modulus: 0, carry_modulus: 1 },
        Ciphertext { ct: vec![0, 0, 0], degree: 31, message_modulus: 32, carry_modulus: 1 },
    );
    assert_eq!(item.decrypt_with_key(&vec![0, 0]), None);
}

#[test]
fn test_sort_top_k() {
    let (client, server) = setup(test_param()).unwrap();
    let pt_vec: Vec<(u64, u64)> = vec![(6, 0), (2, 1), (9, 2), (2, 3), (0, 4)];
    let items = enc_vec(&pt_vec, client.key()).unwrap();
    let (sorted, server, count) = ppknn::sort_top_k(server, items, 2).unwrap();
    assert_eq!(sorted.len(), 5);
    assert_eq!(client.decrypt(&sorted[0]), Some((0, 4)));
    assert_eq!(client.decrypt(&sorted[1]).map(|pair| pair.0), Some(2));
    let mut clear = BatcherSort::new_k(ppknn::ClearCmp::boxed(vec![6, 2, 9, 2, 0]), 2);
    clear.sort();
    assert_eq!(count, clear.comparisons());
    // an item of another shape is refused
    let mut items = enc_vec(&pt_vec, client.key()).unwrap();
    items[3].value.ct.push(0);
    assert!(ppknn::sort_top_k(server, items, 2).is_none());
}

#[test]
fn test_distances_beyond_the_modulus_wrap() {
    // 6^2 + 5^2 = 61 = 32 + 29
    let (client, server) = setup_with_data(test_param(), vec![vec![6, 0], vec![0, 5], vec![6, 5]]).unwrap();
    let (glwe, glwe2) = client.make_query(&vec![0, 0]);
    let distances = server.compute_distances(&glwe, &glwe2);
    let decrypted: Vec<u64> = distances.iter().map(|ct| client.lwe_decrypt_decode(ct)).collect();
    assert_eq!(decrypted, vec![4, 25, 29]);
}
