use symbolica::poly::polynomial::MultivariatePolynomial;
use symbolica::rings::text::Text;
use symbolica::rings::{EuclideanDomain, Field, Ring};

/// A fraction in lowest terms with a positive denominator.
type Q = (i64, i64);

/// The fraction `n / d` in lowest terms.
fn reduced(n: i64, d: i64) -> Q {
    let mut a = n.abs();
    let mut b = d.abs();
    while b != 0 {
        let t = a % b;
        a = b;
        b = t;
    }
    if d < 0 {
        (-n / a, -d / a)
    } else {
        (n / a, d / a)
    }
}

/// The field of rational numbers, on machine integers.
#[derive(Clone, Copy, Debug, PartialEq)]
struct RationalField;

impl Ring for RationalField {
    type Element = Q;

    fn valid(&self) -> bool {
        unreachable!()
    }
    fn contains(&self, _: Q) -> bool {
        unreachable!()
    }
    fn zero_spec() -> Q {
        unreachable!()
    }
    fn one_spec(&self) -> Q {
        unreachable!()
    }
    fn add_spec(&self, _: Q, _: Q) -> Q {
        unreachable!()
    }
    fn neg_spec(&self, _: Q) -> Q {
        unreachable!()
    }
    fn mul_spec(&self, _: Q, _: Q) -> Q {
        unreachable!()
    }
    fn pow_spec(&self, _: Q, _: u64) -> Q {
        unreachable!()
    }
    fn lemma_constants(&self) {}
    fn lemma_closed(&self, _: Q, _: Q) {}
    fn lemma_add_commutative(&self, _: Q, _: Q) {}
    fn lemma_add_associative(&self, _: Q, _: Q, _: Q) {}
    fn lemma_add_zero(&self, _: Q) {}
    fn lemma_add_neg(&self, _: Q) {}
    fn lemma_mul_commutative(&self, _: Q, _: Q) {}
    fn lemma_mul_associative(&self, _: Q, _: Q, _: Q) {}
    fn lemma_mul_one(&self, _: Q) {}
    fn lemma_distributive(&self, _: Q, _: Q, _: Q) {}
    fn lemma_pow(&self, _: Q, _: u64) {}

    fn zero() -> Q {
        (0, 1)
    }
    fn one(&self) -> Q {
        (1, 1)
    }
    fn is_zero(a: &Q) -> bool {
        a.0 == 0
    }
    fn is_one(&self, a: &Q) -> bool {
        *a == (1, 1)
    }
    fn eq_element(&self, a: &Q, b: &Q) -> bool {
        a == b
    }
    fn copy_element(&self, a: &Q) -> Q {
        *a
    }
    fn add(&self, a: &Q, b: &Q) -> Q {
        reduced(a.0 * b.1 + b.0 * a.1, a.1 * b.1)
    }
    fn sub(&self, a: &Q, b: &Q) -> Q {
        reduced(a.0 * b.1 - b.0 * a.1, a.1 * b.1)
    }
    fn mul(&self, a: &Q, b: &Q) -> Q {
        reduced(a.0 * b.0, a.1 * b.1)
    }
    fn neg(&self, a: &Q) -> Q {
        (-a.0, a.1)
    }
    fn add_assign(&self, a: &mut Q, b: &Q) {
        *a = self.add(a, b);
    }
    fn sub_assign(&self, a: &mut Q, b: &Q) {
        *a = self.sub(a, b);
    }
    fn mul_assign(&self, a: &mut Q, b: &Q) {
        *a = self.mul(a, b);
    }
    fn pow(&self, b: &Q, e: u64) -> Q {
        (b.0.pow(e as u32), b.1.pow(e as u32))
    }
    fn format_element(&self, a: &Q, plus: bool) -> String {
        let sign = if plus && a.0 >= 0 { "+" } else { "" };
        if a.1 == 1 {
            format!("{}{}", sign, a.0)
        } else {
            format!("{}{}/{}", sign, a.0, a.1)
        }
    }
    fn format_ring(&self) -> String {
        String::new()
    }
    fn element_text(&self, _: Q, _: bool) -> Text {
        unreachable!()
    }
    fn ring_text(&self) -> Text {
        unreachable!()
    }
}

impl EuclideanDomain for RationalField {
    fn quot_spec(&self, _: Q, _: Q) -> Q {
        unreachable!()
    }
    fn rem_spec(&self, _: Q, _: Q) -> Q {
        unreachable!()
    }
    fn gcd_spec(&self, _: Q, _: Q) -> Q {
        unreachable!()
    }
    fn lemma_quot_rem(&self, _: Q, _: Q) {}
    fn lemma_no_zero_divisors(&self, _: Q, _: Q) {}
    fn lemma_gcd(&self, _: Q, _: Q) {}
    fn lemma_gcd_greatest(&self, _: Q, _: Q, _: Q) {}

    fn rem(&self, _: &Q, _: &Q) -> Q {
        (0, 1)
    }
    fn quot_rem(&self, a: &Q, b: &Q) -> (Q, Q) {
        (reduced(a.0 * b.1, a.1 * b.0), (0, 1))
    }
    fn gcd(&self, a: &Q, b: &Q) -> Q {
        if a.0 == 0 && b.0 == 0 {
            (0, 1)
        } else {
            (1, 1)
        }
    }
}

impl Field for RationalField {
    fn inv_spec(&self, _: Q) -> Q {
        unreachable!()
    }
    fn lemma_inv(&self, _: Q) {}

    fn div(&self, a: &Q, b: &Q) -> Q {
        reduced(a.0 * b.1, a.1 * b.0)
    }
    fn div_assign(&self, a: &mut Q, b: &Q) {
        *a = self.div(a, b);
    }
    fn inv(&self, a: &Q) -> Q {
        reduced(a.1, a.0)
    }
}

type Poly = MultivariatePolynomial<RationalField, u32>;

/// The polynomial with the given terms, which may come in any order.
fn poly(nvars: usize, terms: &[(Q, &[u32])]) -> Poly {
    let mut p = Poly::new(nvars, RationalField, None, None);
    for (c, e) in terms {
        p.append_monomial(*c, e);
    }
    assert!(p.check_consistency());
    p
}

/// The terms of a polynomial, in its own order.
fn terms(p: &Poly) -> Vec<(Q, Vec<u32>)> {
    (0..p.nterms())
        .map(|k| (p.coefficients[k], p.exponents(k).to_vec()))
        .collect()
}

#[test]
fn heap_division_by_a_constant_over_the_rationals() {
    // x / 2 = (1/2) x
    let a = poly(1, &[((1, 1), &[1])]);
    let b = poly(1, &[((2, 1), &[0])]);
    let (q, r) = a.heap_division(&b).unwrap();
    assert_eq!(terms(&q), vec![((1, 2), vec![1])]);
    assert!(r.is_zero());
    let (q, r) = a.quot_rem(&b).unwrap();
    assert_eq!(terms(&q), vec![((1, 2), vec![1])]);
    assert!(r.is_zero());
}

#[test]
fn heap_and_synthetic_division_agree_over_a_field() {
    // (3x^3 + x^2 - 1/2 x + 4) / (2x^2 - 1)
    let a = poly(
        1,
        &[((3, 1), &[3]), ((1, 1), &[2]), ((-1, 2), &[1]), ((4, 1), &[0])],
    );
    let b = poly(1, &[((2, 1), &[2]), ((-1, 1), &[0])]);
    let (q, r) = a.heap_division(&b).unwrap();
    let (qs, rs) = a.synthetic_division(&b);
    assert!(q.eq(&qs));
    assert!(r.eq(&rs));
    assert_eq!(terms(&q), vec![((1, 2), vec![0]), ((3, 2), vec![1])]);
    assert_eq!(terms(&r), vec![((9, 2), vec![0]), ((1, 1), vec![1])]);
    assert!(q.heap_mul(&b).add(r).eq(&a));
}

#[test]
fn text_of_a_polynomial_over_the_rationals() {
    let p = poly(1, &[((1, 2), &[0]), ((-3, 4), &[1]), ((5, 1), &[2])]);
    assert_eq!(p.to_string(), "1/2-3/4*x0+5*x0^2");
}
