use ppknn::{BatcherSort, ClearCmp, Cmp};

fn sorted_prefix(xs: &[u64], k: usize) -> Vec<u64> {
    let mut v = xs.to_vec();
    v.sort();
    v.truncate(k);
    v
}

fn sort_count(xs: Vec<u64>, k: usize) -> (Vec<u64>, usize) {
    let mut sorter = BatcherSort::new_k(ClearCmp::boxed(xs), k);
    sorter.sort();
    (sorter.inner().to_vec(), sorter.comparisons())
}

fn merge_count(xs: Vec<u64>, k: usize) -> (Vec<u64>, usize) {
    let mut sorter = BatcherSort::new_k(ClearCmp::boxed(xs), k);
    sorter.merge();
    (sorter.inner().to_vec(), sorter.comparisons())
}

// a small generator of repeatable pseudo-random words
fn next(state: &mut u64) -> u64 {
    *state = state.wrapping_mul(6364136223846793005).wrapping_add(1442695040888963407);
    *state >> 33
}

#[test]
fn test_merge_k() {
    let (out, count) = merge_count(vec![1, 5, 6, 7, 2, 3, 4, 5], 4);
    assert_eq!(&out[..4], &[1, 2, 3, 4]);
    assert_eq!(count, 8);
}

#[test]
fn test_merge_full() {
    let (out, count) = merge_count(vec![1, 5, 6, 7, 2, 3, 4, 5], 8);
    assert_eq!(out, vec![1, 2, 3, 4, 5, 5, 6, 7]);
    assert_eq!(count, 9);
}

#[test]
fn test_merge_two() {
    let (out, count) = merge_count(vec![2, 1], 2);
    assert_eq!(out, vec![1, 2]);
    assert_eq!(count, 1);
}

#[test]
fn test_merge_odd_halves() {
    // halves of 3 and 4 items: the right half is realigned after the merge
    let (out, _) = merge_count(vec![2, 4, 9, 1, 3, 5, 8], 7);
    assert_eq!(out, vec![1, 2, 3, 4, 5, 8, 9]);
}

#[test]
fn test_sort_five() {
    let (out, _) = sort_count(vec![5, 4, 3, 2, 1], 5);
    assert_eq!(out, vec![1, 2, 3, 4, 5]);
}

#[test]
fn test_sort_default_k_is_len() {
    let mut sorter = BatcherSort::new(ClearCmp::boxed(vec![3, 1, 2, 9, 7, 8, 0]));
    sorter.sort();
    assert_eq!(sorter.inner(), &[0, 1, 2, 3, 7, 8, 9]);
}

#[test]
fn test_comparison_counts() {
    let cases: [(usize, usize, usize); 4] = [(4, 2, 5), (8, 2, 13), (16, 2, 29), (10, 3, 20)];
    for (n, k, expected) in cases {
        let xs: Vec<u64> = (0..n as u64).rev().collect();
        let (_, count) = sort_count(xs, k);
        assert_eq!(count, expected, "n={} k={}", n, k);
    }
    let halves: [(usize, usize, usize); 2] = [(8, 4, 8), (8, 6, 9)];
    for (n, k, expected) in halves {
        let xs: Vec<u64> = (0..n as u64).collect();
        let (_, count) = merge_count(xs, k);
        assert_eq!(count, expected, "n={} k={}", n, k);
    }
}

#[test]
fn test_top_k_sound() {
    let mut state = 7u64;
    for n in 0..=20usize {
        for k in 0..=n {
            for _ in 0..8 {
                let xs: Vec<u64> = (0..n).map(|_| next(&mut state) % 16).collect();
                let (out, _) = sort_count(xs.clone(), k);
                assert_eq!(&out[..k], &sorted_prefix(&xs, k)[..], "xs={:?} k={}", xs, k);
                let mut all = out.clone();
                all.sort();
                assert_eq!(all, sorted_prefix(&xs, n));
            }
        }
    }
}

#[test]
fn test_top_k_all_zero_one_inputs() {
    // every 0/1 input of up to 10 items, every k
    for n in 1..=10usize {
        for k in 1..=n {
            for bits in 0..(1u64 << n) {
                let xs: Vec<u64> = (0..n).map(|i| (bits >> i) & 1).collect();
                let (out, _) = sort_count(xs.clone(), k);
                assert_eq!(&out[..k], &sorted_prefix(&xs, k)[..], "xs={:?} k={}", xs, k);
            }
        }
    }
}

#[test]
fn test_count_does_not_depend_on_values() {
    let mut state = 99u64;
    for n in 1..=20usize {
        for k in 1..=n {
            let ascending: Vec<u64> = (0..n as u64).collect();
            let (_, expected) = sort_count(ascending, k);
            for _ in 0..4 {
                let xs: Vec<u64> = (0..n).map(|_| next(&mut state) % 1000).collect();
                let (_, count) = sort_count(xs, k);
                assert_eq!(count, expected, "n={} k={}", n, k);
            }
        }
    }
}

#[test]
fn test_sort_edge_cases() {
    assert_eq!(sort_count(vec![], 0), (vec![], 0));
    assert_eq!(sort_count(vec![4], 1), (vec![4], 0));
    assert_eq!(sort_count(vec![4, 3], 1), (vec![3, 4], 1));
    // k = 0 asks for nothing and compares nothing
    assert_eq!(sort_count(vec![3, 2, 1], 0), (vec![3, 2, 1], 0));
    // k larger than the buffer is a full sort
    assert_eq!(sort_count(vec![3, 2, 1], 9).0, vec![1, 2, 3]);
}

#[test]
fn test_top_one_of_many() {
    let xs: Vec<u64> = vec![9, 8, 7, 6, 5, 4, 3, 2, 1, 0, 11, 12, 13];
    let (out, count) = sort_count(xs, 1);
    assert_eq!(out[0], 0);
    // a tournament: one comparison less than there are items
    assert_eq!(count, 12);
}

#[test]
fn test_compare_exchange_of_clear_integers() {
    let mut c = ClearCmp::new(vec![5, 3, 8]);
    c.cmp_at(0, 1);
    assert_eq!(c.inner(), &[3, 5, 8]);
    assert_eq!(c.cmp_count(), 1);
    // nothing to exchange: still counted
    c.cmp_at(0, 2);
    assert_eq!(c.inner(), &[3, 5, 8]);
    assert_eq!(c.cmp_count(), 2);
    // one slot with itself: counted, nothing exchanged
    c.cmp_at(1, 1);
    assert_eq!(c.inner(), &[3, 5, 8]);
    assert_eq!(c.cmp_count(), 3);
    c.cmp_at(2, 0);
    assert_eq!(c.inner(), &[8, 5, 3]);
    c.swap(0, 2);
    assert_eq!(c.inner(), &[3, 5, 8]);
    assert_eq!((c.cmp_count(), c.len()), (4, 3));
    let (left, right) = c.split_at(1);
    assert_eq!((left, right), (&[3u64][..], &[5u64, 8][..]));
}
