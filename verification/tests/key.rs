use sglang_radix::{common_prefix_len, FlatKey, RadixKey};

#[test]
fn plain_len_and_align() {
    let t: Vec<i64> = (0..7).collect();
    let k = RadixKey::new(&t);
    assert_eq!(k.raw_len(), 7);
    assert_eq!(k.logical_len(), 7);
    let f = k.flatten_page_aligned(4);
    assert_eq!(f.as_ref(), [0, 1, 2, 3]);
    let f1 = k.flatten_page_aligned(1);
    assert!(matches!(f1, FlatKey::Borrowed(_)));
    assert_eq!(f1.as_ref(), [0, 1, 2, 3, 4, 5, 6]);
}

#[test]
fn limit_caps_raw() {
    let t: Vec<i64> = (0..10).collect();
    let k = RadixKey {
        tokens: &t,
        limit: Some(3),
        ..RadixKey::new(&t)
    };
    assert_eq!(k.raw_len(), 3);
    assert_eq!(k.logical_len(), 3);
    assert_eq!(k.flatten_page_aligned(1).as_ref(), [0, 1, 2]);
}

#[test]
fn bigram_len_and_flatten() {
    // raw [1,2,3,4,5] -> 4 bigrams: (1,2),(2,3),(3,4),(4,5)
    let t = vec![1, 2, 3, 4, 5];
    let k = RadixKey {
        tokens: &t,
        is_bigram: true,
        ..RadixKey::new(&t)
    };
    assert_eq!(k.raw_len(), 5);
    assert_eq!(k.logical_len(), 4);
    let f = k.flatten_page_aligned(1);
    assert_eq!(f.as_ref(), [1, 2, 2, 3, 3, 4, 4, 5]);
    // page_size 2 -> 4 aligned units (already aligned)
    let f2 = k.flatten_page_aligned(2);
    assert_eq!(f2.len(), 8);
    // raw [1,2] -> 1 bigram; page_size 2 -> aligned 0
    let t2 = vec![1, 2];
    let k2 = RadixKey {
        tokens: &t2,
        is_bigram: true,
        ..RadixKey::new(&t2)
    };
    assert_eq!(k2.logical_len(), 1);
    assert_eq!(k2.flatten_page_aligned(2).len(), 0);
}

#[test]
fn common_prefix() {
    let a = [1, 2, 3, 4, 5, 6];
    let b = [1, 2, 3, 9, 5, 6];
    assert_eq!(common_prefix_len(&a, &b), 3);
    assert_eq!(common_prefix_len(&a, &[1, 2]), 2);
    assert_eq!(common_prefix_len(&[], &a), 0);
    // long shared prefix, divergence near the end (gallop path)
    let long: Vec<i64> = (0..10_000).collect();
    let mut other = long.clone();
    other[9_999] = -1;
    assert_eq!(common_prefix_len(&long, &other), 9_999);
    assert_eq!(common_prefix_len(&long, &long), 10_000);
}
