use symbolica::poly::cache::{ExponentIndex, MonomialCache};
use symbolica::poly::division::{key_dominates, key_minus, row_key, sum_key};
use symbolica::poly::heap::ExponentHeap;
use symbolica::poly::matrix::{filled, insert_row, push_row, remove_range};
use symbolica::poly::monomial::{
    compare_exponents, exponents_are_zero, exponents_dominate, Relation,
};
use symbolica::poly::mul::key_to_exponents;
use symbolica::poly::Exponent;

#[test]
fn heap_gives_the_largest_first() {
    let mut h = ExponentHeap::new(2, false, 4);
    assert!(h.is_empty());
    assert!(h.peek().is_none());
    assert!(h.pop().is_none());
    for key in [[1u32, 5], [3, 0], [0, 9], [2, 2], [3, 1], [1, 5]] {
        h.push(key.to_vec());
    }
    assert_eq!(h.len(), 6);
    assert_eq!(h.peek(), Some(&vec![3, 1]));
    let mut out = Vec::new();
    while let Some(key) = h.pop() {
        out.push(key);
    }
    assert_eq!(
        out,
        vec![
            vec![3, 1],
            vec![3, 0],
            vec![2, 2],
            vec![1, 5],
            vec![1, 5],
            vec![0, 9]
        ]
    );
    assert!(h.is_empty());
}

#[test]
fn heap_gives_the_smallest_first() {
    let mut h = ExponentHeap::new(1, true, 0);
    for key in [7u32, 3, 9, 1, 4, 8, 2] {
        h.push(vec![key]);
    }
    let mut out = Vec::new();
    while let Some(key) = h.pop() {
        out.push(key[0]);
    }
    assert_eq!(out, vec![1, 2, 3, 4, 7, 8, 9]);
}

#[test]
fn cache_collects_the_pairs_of_a_monomial() {
    let mut c = MonomialCache::with_capacity(4);
    let key = vec![1u32, 2];
    assert!(!c.contains_key(&key));
    assert!(c.add(&key, (0, 1, true)));
    assert!(!c.add(&key, (2, 3, false)));
    assert!(c.add(&vec![0, 0], (5, 5, true)));
    assert!(c.contains_key(&key));
    assert_eq!(c.remove(&key), Some(vec![(0, 1, true), (2, 3, false)]));
    assert!(!c.contains_key(&key));
    assert_eq!(c.remove(&key), None);
    assert!(c.contains_key(&vec![0, 0]));
}

#[test]
fn index_keeps_the_place_of_a_monomial() {
    let mut index = ExponentIndex::new();
    assert_eq!(index.get(&vec![1, 2]), None);
    index.insert(&vec![1, 2], 7);
    index.insert(&vec![0, 0], 3);
    assert_eq!(index.get(&vec![1, 2]), Some(7));
    assert_eq!(index.get(&vec![0, 0]), Some(3));
    index.insert(&vec![1, 2], 9);
    assert_eq!(index.get(&vec![1, 2]), Some(9));
    assert_eq!(index.get(&vec![2, 1]), None);
}

#[test]
fn rows_of_a_flat_matrix() {
    let mut buf: Vec<u32> = Vec::new();
    push_row(&mut buf, &[1, 2]);
    push_row(&mut buf, &[5, 6]);
    // the place is counted in entries
    insert_row(&mut buf, 2, &[3, 4]);
    assert_eq!(buf, vec![1, 2, 3, 4, 5, 6]);
    insert_row(&mut buf, 0, &[0, 0]);
    assert_eq!(buf, vec![0, 0, 1, 2, 3, 4, 5, 6]);
    remove_range(&mut buf, 2, 4);
    assert_eq!(buf, vec![0, 0, 5, 6]);
    remove_range(&mut buf, 0, 0);
    assert_eq!(buf, vec![0, 0, 5, 6]);
    assert_eq!(filled(7u8, 3), vec![7, 7, 7]);
    assert_eq!(filled(7u8, 0), Vec::<u8>::new());
}

#[test]
fn monomial_order_is_lexicographic() {
    assert!(matches!(compare_exponents(&[1u32, 9], &[2, 0]), Relation::Less));
    assert!(matches!(compare_exponents(&[2u32, 1], &[2, 0]), Relation::Greater));
    assert!(matches!(compare_exponents(&[2u32, 1], &[2, 1]), Relation::Equal));
    assert!(matches!(compare_exponents::<u32>(&[], &[]), Relation::Equal));
    assert!(exponents_dominate(&[2u32, 3], &[2, 1]));
    assert!(!exponents_dominate(&[2u32, 3], &[3, 0]));
    assert!(exponents_are_zero(&[0u16, 0]));
    assert!(!exponents_are_zero(&[0u16, 1]));
}

#[test]
fn keys_of_exponent_vectors() {
    assert_eq!(row_key(&[3u8, 0, 255]), vec![3, 0, 255]);
    assert_eq!(sum_key(&[3u8, 0], &[4, 255]), Some(vec![7, 255]));
    assert_eq!(sum_key(&[3u8, 1], &[4, 255]), None);
    assert_eq!(sum_key(&[u32::MAX], &[1]), None);
    assert!(key_dominates(&vec![3, 4], &[3u8, 1]));
    assert!(!key_dominates(&vec![3, 4], &[4u8, 1]));
    assert_eq!(key_minus(&vec![3, 4], &[3u8, 1]), vec![0u8, 3]);
    assert_eq!(key_to_exponents::<u16>(&vec![3, 65535]), vec![3u16, 65535]);
}

#[test]
fn exponents_of_every_width() {
    assert_eq!(<u8 as Exponent>::zero(), 0);
    assert!(Exponent::is_zero(&0u16));
    assert!(!Exponent::is_zero(&4u32));
    assert_eq!(Exponent::to_u32(&200u8), 200);
    assert_eq!(<u8 as Exponent>::from_u32(255), 255u8);
    assert_eq!(<u16 as Exponent>::from_u32(65535), 65535u16);
    assert_eq!(Exponent::checked_add(&200u8, &55), Some(255));
    assert_eq!(Exponent::checked_add(&200u8, &56), None);
    assert_eq!(Exponent::checked_add(&65535u16, &1), None);
    assert_eq!(Exponent::checked_add(&u32::MAX, &1), None);
    assert_eq!(Exponent::checked_add(&7u32, &8), Some(15));
}
