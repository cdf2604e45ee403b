use symbolica::rings::finite_field::FiniteField;
use symbolica::rings::{EuclideanDomain, Field, Ring};

#[test]
fn finite_field_arithmetic() {
    let f = FiniteField::new(7);
    assert_eq!(f.add(&5, &4), 2);
    assert_eq!(f.sub(&2, &5), 4);
    assert_eq!(f.mul(&3, &5), 1);
    assert_eq!(f.neg(&3), 4);
    assert_eq!(f.neg(&0), 0);
    assert_eq!(f.pow(&3, 6), 1);
    assert_eq!(f.pow(&3, 0), 1);
    assert_eq!(f.to_element(23), 2);
}

#[test]
fn finite_field_inverse() {
    let f = FiniteField::new(7);
    for a in 1..7u64 {
        let i = f.inv(&a);
        assert_eq!(f.mul(&a, &i), 1);
    }
    assert_eq!(f.inv(&3), 5);
    assert_eq!(f.div(&2, &3), 3);
    assert_eq!(f.quot_rem(&2, &3), (3, 0));
    assert_eq!(f.gcd(&0, &0), 0);
    assert_eq!(f.gcd(&0, &4), 1);
}

#[test]
fn finite_field_large_modulus() {
    // 2^61 - 1 is a prime
    let p = (1u64 << 61) - 1;
    let f = FiniteField::new(p);
    let a = p - 2;
    let i = f.inv(&a);
    assert_eq!(f.mul(&a, &i), 1);
    assert_eq!(f.add(&a, &5), 3);
}

#[test]
fn finite_field_try_new() {
    assert!(FiniteField::try_new(0).is_none());
    assert!(FiniteField::try_new(1).is_none());
    assert!(FiniteField::try_new(91).is_none());
    assert_eq!(FiniteField::try_new(97).unwrap().get_prime(), 97);
}
