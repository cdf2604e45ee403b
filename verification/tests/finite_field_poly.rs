use symbolica::poly::polynomial::MultivariatePolynomial;
use symbolica::rings::finite_field::FiniteField;

type Poly = MultivariatePolynomial<FiniteField, u32>;

fn poly(field: FiniteField, nvars: usize, terms: &[(u64, &[u32])]) -> Poly {
    let mut p = Poly::new(nvars, field, None, None);
    for (c, e) in terms {
        p.append_monomial(field.to_element(*c), e);
    }
    assert!(p.check_consistency());
    p
}

fn assert_round_trip(a: &Poly, b: &Poly, q: &Poly, r: &Poly) {
    assert!(q.check_consistency());
    assert!(r.check_consistency());
    let back = q.heap_mul(b).add(r.duplicate());
    assert!(back.eq(a));
}

#[test]
fn synthetic_division_mod_7() {
    // (x^2 + 3x + 2) / (x + 1) = x + 2 over the field with 7 elements
    let f = FiniteField::new(7);
    let a = poly(f, 1, &[(1, &[2]), (3, &[1]), (2, &[0])]);
    let b = poly(f, 1, &[(1, &[1]), (1, &[0])]);
    let (q, r) = a.synthetic_division(&b);
    assert_eq!(q.exponents, vec![0, 1]);
    assert_eq!(q.coefficients, vec![2, 1]);
    assert!(r.is_zero());
    assert_round_trip(&a, &b, &q, &r);
}

#[test]
fn fast_divmod_normalizes_the_divisor() {
    // (x^3 + 2x + 5) / (3x^2 + 1) over the field with 7 elements
    let f = FiniteField::new(7);
    let a = poly(f, 1, &[(1, &[3]), (2, &[1]), (5, &[0])]);
    let mut b = poly(f, 1, &[(3, &[2]), (1, &[0])]);
    let b0 = b.duplicate();
    let (q, r) = a.fast_divmod(&mut b);
    assert!(b.eq(&b0));
    // the normalized divisor is x^2 + 5, by which the quotient is x and the
    // remainder 4x + 5; the quotient is scaled by 3
    assert_eq!(q.exponents, vec![1]);
    assert_eq!(q.coefficients, vec![3]);
    assert_eq!(r.exponents, vec![0, 1]);
    assert_eq!(r.coefficients, vec![5, 4]);
    let monic = poly(f, 1, &[(1, &[2]), (5, &[0])]);
    let q1 = poly(f, 1, &[(1, &[1])]);
    assert_round_trip(&a, &monic, &q1, &r);
    assert!(q.eq(&q1.mul_coeff(3)));
    // the remainder is that of the division by the divisor itself
    let (q2, r2) = a.heap_division(&b).unwrap();
    assert!(r2.eq(&r));
    assert_eq!(q2.coefficients, vec![5]);
}

#[test]
fn fast_divmod_by_a_divisor_with_the_leading_coefficient_one() {
    // (x^3 + 2x + 5) / (x^2 + 5) over the field with 7 elements
    let f = FiniteField::new(7);
    let a = poly(f, 1, &[(1, &[3]), (2, &[1]), (5, &[0])]);
    let mut b = poly(f, 1, &[(1, &[2]), (5, &[0])]);
    let (q, r) = a.fast_divmod(&mut b);
    assert_round_trip(&a, &b, &q, &r);
    assert_eq!(q.coefficients, vec![1]);
    assert_eq!(r.coefficients, vec![5, 4]);
    let (q2, r2) = a.heap_division(&b).unwrap();
    assert!(q2.eq(&q));
    assert!(r2.eq(&r));
}

#[test]
fn fast_divmod_by_a_single_term() {
    let f = FiniteField::new(7);
    let a = poly(f, 2, &[(4, &[2, 1]), (3, &[0, 3]), (6, &[1, 1])]);
    // by a constant
    let mut b = poly(f, 2, &[(2, &[0, 0])]);
    let (q, r) = a.fast_divmod(&mut b);
    assert_eq!(q.exponents, vec![0, 3, 1, 1, 2, 1]);
    assert_eq!(q.coefficients, vec![5, 3, 2]);
    assert!(r.is_zero());
    assert_round_trip(&a, &b, &q, &r);
    // by a monomial: the terms that it does not divide are the remainder
    let mut b = poly(f, 2, &[(2, &[1, 0])]);
    let (q, r) = a.fast_divmod(&mut b);
    assert_eq!(q.exponents, vec![0, 1, 1, 1]);
    assert_eq!(q.coefficients, vec![3, 2]);
    assert_eq!(r.exponents, vec![0, 3]);
    assert_eq!(r.coefficients, vec![3]);
    assert_round_trip(&a, &b, &q, &r);
}

#[test]
fn finite_field_ring_laws_on_polynomials() {
    let f = FiniteField::new(7);
    let a = poly(f, 2, &[(4, &[2, 1]), (3, &[0, 3]), (6, &[1, 1])]);
    let b = poly(f, 2, &[(3, &[2, 1]), (1, &[0, 0])]);
    let c = poly(f, 2, &[(5, &[1, 1]), (6, &[0, 0]), (2, &[4, 0])]);
    // a + b = b + a
    assert!(a.duplicate().add(b.duplicate()).eq(&b.duplicate().add(a.duplicate())));
    // (a + b) + c = a + (b + c)
    let l = a.duplicate().add(b.duplicate()).add(c.duplicate());
    let r = a.duplicate().add(b.duplicate().add(c.duplicate()));
    assert!(l.eq(&r));
    // a + 0 = a
    let zero = poly(f, 2, &[]);
    assert!(a.duplicate().add(zero).eq(&a));
    // a * 1 = a
    let one = Poly::from_constant(1, 2, f);
    assert!(a.heap_mul(&one).eq(&a));
    // a * (b + c) = a * b + a * c
    let l = a.heap_mul(&b.duplicate().add(c.duplicate()));
    let r = a.heap_mul(&b).add(a.heap_mul(&c));
    assert!(l.eq(&r));
    // a - a = 0
    assert!(a.duplicate().sub(a.duplicate()).is_zero());
    // the coefficients 4 and 3 of x^2 y cancel in a + b
    let s = a.duplicate().add(b.duplicate());
    assert_eq!(s.exponents, vec![0, 0, 0, 3, 1, 1]);
    assert_eq!(s.coefficients, vec![1, 3, 6]);
}

#[test]
fn text_of_a_polynomial_over_a_finite_field() {
    let f = FiniteField::new(7);
    let p = poly(f, 2, &[(1, &[0, 0]), (6, &[0, 1]), (3, &[2, 1])]);
    assert_eq!(p.to_string(), "1-x1+3*x0^2*x1 % 7");
    assert_eq!(Poly::new(2, f, None, None).to_string(), "0 % 7");
    let q = poly(f, 1, &[(2, &[0]), (5, &[1])]);
    assert_eq!(q.to_string(), "2+5*x0 % 7");
}

#[test]
fn fast_divmod_mod_7() {
    // (x^2 + 3x + 2) / (x + 1) = x + 2 over the field with 7 elements
    let f = FiniteField::new(7);
    let a = poly(f, 1, &[(1, &[2]), (3, &[1]), (2, &[0])]);
    let mut b = poly(f, 1, &[(1, &[1]), (1, &[0])]);
    let (q, r) = a.fast_divmod(&mut b);
    assert_eq!(q.coefficients, vec![2, 1]);
    assert_eq!(q.exponents, vec![0, 1]);
    assert_eq!(r.nterms(), 0);
    assert_eq!(b.coefficients, vec![1, 1]);
    assert_eq!(b.exponents, vec![0, 1]);
}

#[test]
fn content_over_a_field() {
    let f = FiniteField::new(7);
    assert_eq!(poly(f, 1, &[(3, &[2]), (5, &[0])]).content(), 1);
    assert_eq!(poly(f, 1, &[(3, &[2])]).content(), 3);
    assert_eq!(Poly::new(1, f, None, None).content(), 0);
}
