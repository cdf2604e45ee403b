use symbolica::poly::polynomial::MultivariatePolynomial;
use symbolica::rings::text::Text;
use symbolica::rings::{EuclideanDomain, Ring};

/// The ring of integers, on machine integers.
#[derive(Clone, Copy, Debug, PartialEq)]
struct IntegerRing;

impl Ring for IntegerRing {
    type Element = i64;

    fn valid(&self) -> bool {
        unreachable!()
    }
    fn contains(&self, _: i64) -> bool {
        unreachable!()
    }
    fn zero_spec() -> i64 {
        unreachable!()
    }
    fn one_spec(&self) -> i64 {
        unreachable!()
    }
    fn add_spec(&self, _: i64, _: i64) -> i64 {
        unreachable!()
    }
    fn neg_spec(&self, _: i64) -> i64 {
        unreachable!()
    }
    fn mul_spec(&self, _: i64, _: i64) -> i64 {
        unreachable!()
    }
    fn pow_spec(&self, _: i64, _: u64) -> i64 {
        unreachable!()
    }
    fn lemma_constants(&self) {}
    fn lemma_closed(&self, _: i64, _: i64) {}
    fn lemma_add_commutative(&self, _: i64, _: i64) {}
    fn lemma_add_associative(&self, _: i64, _: i64, _: i64) {}
    fn lemma_add_zero(&self, _: i64) {}
    fn lemma_add_neg(&self, _: i64) {}
    fn lemma_mul_commutative(&self, _: i64, _: i64) {}
    fn lemma_mul_associative(&self, _: i64, _: i64, _: i64) {}
    fn lemma_mul_one(&self, _: i64) {}
    fn lemma_distributive(&self, _: i64, _: i64, _: i64) {}
    fn lemma_pow(&self, _: i64, _: u64) {}

    fn zero() -> i64 {
        0
    }
    fn one(&self) -> i64 {
        1
    }
    fn is_zero(a: &i64) -> bool {
        *a == 0
    }
    fn is_one(&self, a: &i64) -> bool {
        *a == 1
    }
    fn eq_element(&self, a: &i64, b: &i64) -> bool {
        a == b
    }
    fn copy_element(&self, a: &i64) -> i64 {
        *a
    }
    fn add(&self, a: &i64, b: &i64) -> i64 {
        a + b
    }
    fn sub(&self, a: &i64, b: &i64) -> i64 {
        a - b
    }
    fn mul(&self, a: &i64, b: &i64) -> i64 {
        a * b
    }
    fn neg(&self, a: &i64) -> i64 {
        -a
    }
    fn add_assign(&self, a: &mut i64, b: &i64) {
        *a += b;
    }
    fn sub_assign(&self, a: &mut i64, b: &i64) {
        *a -= b;
    }
    fn mul_assign(&self, a: &mut i64, b: &i64) {
        *a *= b;
    }
    fn pow(&self, b: &i64, e: u64) -> i64 {
        b.pow(e as u32)
    }
    fn element_text(&self, _: i64, _: bool) -> Text {
        unreachable!()
    }
    fn ring_text(&self) -> Text {
        unreachable!()
    }
    fn format_element(&self, a: &i64, plus: bool) -> String {
        if plus {
            format!("{:+}", a)
        } else {
            format!("{}", a)
        }
    }
    fn format_ring(&self) -> String {
        String::new()
    }
}

impl EuclideanDomain for IntegerRing {
    fn quot_spec(&self, _: i64, _: i64) -> i64 {
        unreachable!()
    }
    fn rem_spec(&self, _: i64, _: i64) -> i64 {
        unreachable!()
    }
    fn gcd_spec(&self, _: i64, _: i64) -> i64 {
        unreachable!()
    }
    fn lemma_quot_rem(&self, _: i64, _: i64) {}
    fn lemma_no_zero_divisors(&self, _: i64, _: i64) {}
    fn lemma_gcd(&self, _: i64, _: i64) {}
    fn lemma_gcd_greatest(&self, _: i64, _: i64, _: i64) {}

    fn rem(&self, a: &i64, b: &i64) -> i64 {
        a.rem_euclid(*b)
    }
    fn quot_rem(&self, a: &i64, b: &i64) -> (i64, i64) {
        (a.div_euclid(*b), a.rem_euclid(*b))
    }
    fn gcd(&self, a: &i64, b: &i64) -> i64 {
        let mut a = a.abs();
        let mut b = b.abs();
        while b != 0 {
            let t = a % b;
            a = b;
            b = t;
        }
        a
    }
}

type Poly = MultivariatePolynomial<IntegerRing, u32>;

/// The polynomial with the given terms, which may come in any order.
fn poly(nvars: usize, terms: &[(i64, &[u32])]) -> Poly {
    let mut p = Poly::new(nvars, IntegerRing, None, None);
    for (c, e) in terms {
        p.append_monomial(*c, e);
    }
    assert!(p.check_consistency());
    p
}

/// Checks that `q * b + r = a`.
fn assert_round_trip(a: &Poly, b: &Poly, q: &Poly, r: &Poly) {
    assert!(q.check_consistency());
    assert!(r.check_consistency());
    let back = q.heap_mul(b).add(r.duplicate());
    assert!(back.eq(a));
}

#[test]
fn heap_division_cube_minus_one() {
    // (x^3 - 1) / (x - 1) = x^2 + x + 1
    let a = poly(1, &[(1, &[3]), (-1, &[0])]);
    let b = poly(1, &[(1, &[1]), (-1, &[0])]);
    let (q, r) = a.heap_division(&b).unwrap();
    assert_eq!(q.exponents, vec![0, 1, 2]);
    assert_eq!(q.coefficients, vec![1, 1, 1]);
    assert!(r.is_zero());
    assert_round_trip(&a, &b, &q, &r);
}

#[test]
fn heap_division_fails_cleanly_over_the_integers() {
    // x / 2 leaves a remainder in the ring
    let a = poly(1, &[(1, &[1])]);
    let b = poly(1, &[(2, &[0])]);
    let (q, r) = a.heap_division(&b).unwrap();
    assert!(q.is_zero());
    assert!(r.eq(&a));
}

#[test]
fn heap_division_multivariate_with_remainder() {
    // a = (x^2 y + x y^2 + y^3 + 3) = q * (x y + 1) + r
    let a = poly(2, &[(1, &[2, 1]), (1, &[1, 2]), (1, &[0, 3]), (3, &[0, 0])]);
    let b = poly(2, &[(1, &[1, 1]), (1, &[0, 0])]);
    let (q, r) = a.heap_division(&b).unwrap();
    // q = x + y, r = y^3 - x - y + 3
    assert_eq!(q.exponents, vec![0, 1, 1, 0]);
    assert_eq!(q.coefficients, vec![1, 1]);
    assert_eq!(r.exponents, vec![0, 0, 0, 1, 0, 3, 1, 0]);
    assert_eq!(r.coefficients, vec![3, -1, 1, -1]);
    assert_round_trip(&a, &b, &q, &r);
}

#[test]
fn heap_division_switches_to_the_divisor_heap() {
    // the quotient gets more terms than the divisor has
    let b = poly(2, &[(1, &[1, 0]), (1, &[0, 1]), (2, &[0, 0])]);
    let mut q0 = poly(2, &[(1, &[0, 0])]);
    for c in 1..7i64 {
        q0 = q0.heap_mul(&poly(2, &[(1, &[1, 0]), (c, &[0, 2]), (-c, &[0, 0])]));
    }
    let rest = poly(2, &[(5, &[0, 3]), (7, &[0, 0])]);
    let a = q0.heap_mul(&b).add(rest.duplicate());
    let (q, r) = a.heap_division(&b).unwrap();
    assert!(q.nterms > b.nterms);
    assert_round_trip(&a, &b, &q, &r);
    assert!(q.eq(&q0));
    assert!(r.eq(&rest));
}

#[test]
fn heap_division_exponent_out_of_range() {
    // the quotient term x^200 times the divisor term y^100 is out of range
    type Small = MultivariatePolynomial<IntegerRing, u8>;
    let mut a = Small::new(2, IntegerRing, None, None);
    a.append_monomial(1, &[201, 0]);
    a.append_monomial(1, &[0, 0]);
    let mut b = Small::new(2, IntegerRing, None, None);
    b.append_monomial(1, &[1, 0]);
    b.append_monomial(1, &[0, 200]);
    b.append_monomial(1, &[0, 100]);
    assert!(a.heap_division(&b).is_none());
}

#[test]
fn quot_rem_exact_and_special_cases() {
    let a = poly(2, &[(4, &[2, 1]), (-6, &[1, 3])]);
    // by a single term that divides all terms
    let b = poly(2, &[(2, &[1, 1])]);
    let (q, r) = a.quot_rem(&b).unwrap();
    assert_eq!(q.exponents, vec![0, 2, 1, 0]);
    assert_eq!(q.coefficients, vec![-3, 2]);
    assert!(r.is_zero());
    // by a single term whose coefficient does not divide
    let b = poly(2, &[(4, &[1, 1])]);
    let (q, r) = a.quot_rem(&b).unwrap();
    assert!(q.is_zero());
    assert!(r.eq(&a));
    // by a single term whose monomial does not divide
    let b = poly(2, &[(2, &[2, 2])]);
    let (q, r) = a.quot_rem(&b).unwrap();
    assert!(q.is_zero());
    assert!(r.eq(&a));
    // by one
    let b = poly(2, &[(1, &[0, 0])]);
    let (q, r) = a.quot_rem(&b).unwrap();
    assert!(q.eq(&a));
    assert!(r.is_zero());
    // of zero
    let zero = poly(2, &[]);
    let (q, r) = zero.quot_rem(&a).unwrap();
    assert!(q.is_zero());
    assert!(r.is_zero());
}

#[test]
fn synthetic_division_over_the_integers() {
    // (2x^3 + 3x^2 + 5) / (x^2 - 1): q = 2x + 3, r = 2x + 8
    let a = poly(1, &[(2, &[3]), (3, &[2]), (5, &[0])]);
    let b = poly(1, &[(1, &[2]), (-1, &[0])]);
    let (q, r) = a.synthetic_division(&b);
    assert_eq!(q.exponents, vec![0, 1]);
    assert_eq!(q.coefficients, vec![3, 2]);
    assert_eq!(r.exponents, vec![0, 1]);
    assert_eq!(r.coefficients, vec![8, 2]);
    assert_round_trip(&a, &b, &q, &r);
    // the heap division gives the same
    let (q2, r2) = a.heap_division(&b).unwrap();
    assert!(q2.eq(&q));
    assert!(r2.eq(&r));
}

#[test]
fn synthetic_division_demotes_what_does_not_divide() {
    // (x^2 + 2x) / (2x): the term x^2 goes to the remainder
    let a = poly(1, &[(1, &[2]), (2, &[1])]);
    let b = poly(1, &[(2, &[1])]);
    let (q, r) = a.synthetic_division(&b);
    assert_eq!(q.exponents, vec![0]);
    assert_eq!(q.coefficients, vec![1]);
    assert_eq!(r.exponents, vec![2]);
    assert_eq!(r.coefficients, vec![1]);
    assert_round_trip(&a, &b, &q, &r);
}

#[test]
fn content_is_the_gcd_of_the_coefficients() {
    let p = poly(2, &[(6, &[0, 0]), (-9, &[0, 1]), (15, &[2, 1])]);
    assert_eq!(p.content(), 3);
    assert_eq!(poly(1, &[(7, &[3])]).content(), 7);
    assert_eq!(Poly::new(2, IntegerRing, None, None).content(), 0);
}

#[test]
fn div_gives_the_exact_quotient_or_none() {
    // (x^3 - 1) / (x - 1) = x^2 + x + 1
    let a = poly(1, &[(1, &[3]), (-1, &[0])]);
    let b = poly(1, &[(1, &[1]), (-1, &[0])]);
    let q = a.div(&b).unwrap();
    assert!(q.eq(&poly(1, &[(1, &[2]), (1, &[1]), (1, &[0])])));
    assert!(q.mul(&b).eq(&a));
    // (x^3 + 1) / (x - 1) leaves the remainder 2
    let c = poly(1, &[(1, &[3]), (1, &[0])]);
    assert!(c.div(&b).is_none());
    // by a single term
    let d = poly(2, &[(4, &[2, 1]), (6, &[1, 1])]);
    let m = poly(2, &[(2, &[1, 0])]);
    assert!(d.div(&m).unwrap().eq(&poly(2, &[(2, &[1, 1]), (3, &[0, 1])])));
    assert!(poly(2, &[(4, &[2, 1]), (6, &[0, 1])]).div(&m).is_none());
    assert!(poly(2, &[(4, &[2, 1]), (5, &[1, 1])]).div(&m).is_none());
    // zero divided by anything is zero
    assert!(Poly::new(1, IntegerRing, None, None)
        .div(&b)
        .unwrap()
        .is_zero());
}

#[test]
fn heap_division_of_univariate_polynomials_always_has_a_result() {
    // exponents that add up to the largest one
    let mut a = MultivariatePolynomial::<IntegerRing, u8>::new(1, IntegerRing, None, None);
    a.append_monomial(1, &[255]);
    a.append_monomial(1, &[0]);
    let mut b = MultivariatePolynomial::<IntegerRing, u8>::new(1, IntegerRing, None, None);
    b.append_monomial(1, &[200]);
    b.append_monomial(1, &[1]);
    let (q, r) = a.heap_division(&b).unwrap();
    assert!(q.check_consistency());
    assert!(r.check_consistency());
    assert_eq!(q.nterms(), 1);
    assert_eq!(q.exponents(0), &[55]);
    assert!(q.heap_mul(&b).add(r).eq(&a));
}

#[test]
fn heap_division_finds_the_clean_division_over_the_integers() {
    // (2x^2 + 4x + 2) / (2x + 2) = x + 1, though 2 is no unit
    let a = poly(1, &[(2, &[2]), (4, &[1]), (2, &[0])]);
    let b = poly(1, &[(2, &[1]), (2, &[0])]);
    let (q, r) = a.heap_division(&b).unwrap();
    assert!(q.eq(&poly(1, &[(1, &[1]), (1, &[0])])));
    assert!(r.is_zero());
    let (q, r) = a.quot_rem(&b).unwrap();
    assert!(q.eq(&poly(1, &[(1, &[1]), (1, &[0])])));
    assert!(r.is_zero());
    // (2xy + 2y^2 + 3) / (2x + 2y) = y with the remainder 3
    let a = poly(2, &[(2, &[1, 1]), (2, &[0, 2]), (3, &[0, 0])]);
    let b = poly(2, &[(2, &[1, 0]), (2, &[0, 1])]);
    let (q, r) = a.heap_division(&b).unwrap();
    assert!(q.eq(&poly(2, &[(1, &[0, 1])])));
    assert!(r.eq(&poly(2, &[(3, &[0, 0])])));
    // (2x^2 + 3x) / (2x + 2) cannot be carried out: 3 - 2 = 1 is left at x
    let a = poly(1, &[(2, &[2]), (3, &[1])]);
    let b = poly(1, &[(2, &[1]), (2, &[0])]);
    let (q, r) = a.heap_division(&b).unwrap();
    assert!(q.is_zero());
    assert!(r.eq(&a));
}

#[test]
fn heap_and_synthetic_division_differ_where_the_division_is_not_clean() {
    // (x^2 + 2x) / (2x): the heap division is given up, the synthetic
    // division keeps what it can divide
    let a = poly(1, &[(1, &[2]), (2, &[1])]);
    let b = poly(1, &[(2, &[1])]);
    let (q, r) = a.heap_division(&b).unwrap();
    assert!(q.is_zero());
    assert!(r.eq(&a));
    let (q, r) = a.synthetic_division(&b);
    assert!(q.eq(&poly(1, &[(1, &[0])])));
    assert!(r.eq(&poly(1, &[(1, &[2])])));
    // where the heap division is clean, the two agree
    let a = poly(1, &[(1, &[3]), (-2, &[1]), (5, &[0])]);
    let b = poly(1, &[(1, &[1]), (3, &[0])]);
    let (qh, rh) = a.heap_division(&b).unwrap();
    let (qs, rs) = a.synthetic_division(&b);
    assert!(qh.eq(&qs));
    assert!(rh.eq(&rs));
    assert_round_trip(&a, &b, &qh, &rh);
}
