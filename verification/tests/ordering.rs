use apilaaa::order::{argmax_last, argmin, median, order, order_key, ranked, sample_stride};

fn key(x: f32) -> i64 {
    order_key(x.to_bits())
}

#[test]
fn keys_order_as_the_numbers_do() {
    assert_eq!(key(1.0), 0x3f80_0000);
    assert_eq!(key(0.0), 0);
    let v = [f32::NEG_INFINITY, -3.5, -1.0, -1e-20, 0.0, 1e-20, 0.5, 1.0, 1e30, f32::INFINITY];
    for i in 0..v.len() {
        for j in 0..v.len() {
            assert_eq!(v[i] < v[j], key(v[i]) < key(v[j]));
            assert_eq!(v[i] == v[j], key(v[i]) == key(v[j]));
        }
    }
}

#[test]
fn equal_keys_keep_their_order() {
    assert_eq!(order(&[3, 1, 2, 1]), vec![1, 3, 2, 0]);
    assert_eq!(order(&[]), Vec::<usize>::new());
    assert_eq!(order(&[7]), vec![0]);
}

#[test]
fn rank_is_the_one_sorting_gives() {
    let keys = [9, -4, 7, 7, 0, 12, -4];
    let mut sorted = keys.to_vec();
    sorted.sort();
    for k in 0..keys.len() {
        assert_eq!(ranked(&keys, k), sorted[k]);
    }
}

#[test]
fn median_is_the_upper_of_the_middle() {
    assert_eq!(median(&[]), None);
    assert_eq!(median(&[5]), Some(5));
    assert_eq!(median(&[3, 1, 2]), Some(2));
    assert_eq!(median(&[4, 1, 3, 2]), Some(3));
}

#[test]
fn extremes_and_their_ties() {
    assert_eq!(argmin(&[4, 2, 2, 9], 100), Some(1));
    assert_eq!(argmin(&[4, 5], 3), None);
    assert_eq!(argmax_last(&[1, 8, 8, 3]), Some(2));
    assert_eq!(argmax_last(&[]), None);
}

#[test]
fn stride_samples_about_a_million() {
    assert_eq!(sample_stride(0), 1);
    assert_eq!(sample_stride(1_999_999), 1);
    assert_eq!(sample_stride(24_000_000), 24);
}
