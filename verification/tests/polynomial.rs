use symbolica::poly::polynomial::MultivariatePolynomial;
use symbolica::poly::varmap::VarMap;
use symbolica::poly::varorder::{compare_with_highest, is_strictly_increasing, Standing};
use symbolica::representations::Identifier;
use symbolica::rings::text::Text;
use symbolica::rings::Ring;

/// The ring of integers, on machine integers.
#[derive(Clone, Copy, Debug, PartialEq)]
struct IntegerRing;

impl Ring for IntegerRing {
    type Element = i64;

    fn valid(&self) -> bool {
        unreachable!()
    }
    fn contains(&self, _: i64) -> bool {
        unreachable!()
    }
    fn zero_spec() -> i64 {
        unreachable!()
    }
    fn one_spec(&self) -> i64 {
        unreachable!()
    }
    fn add_spec(&self, _: i64, _: i64) -> i64 {
        unreachable!()
    }
    fn neg_spec(&self, _: i64) -> i64 {
        unreachable!()
    }
    fn mul_spec(&self, _: i64, _: i64) -> i64 {
        unreachable!()
    }
    fn pow_spec(&self, _: i64, _: u64) -> i64 {
        unreachable!()
    }
    fn lemma_constants(&self) {}
    fn lemma_closed(&self, _: i64, _: i64) {}
    fn lemma_add_commutative(&self, _: i64, _: i64) {}
    fn lemma_add_associative(&self, _: i64, _: i64, _: i64) {}
    fn lemma_add_zero(&self, _: i64) {}
    fn lemma_add_neg(&self, _: i64) {}
    fn lemma_mul_commutative(&self, _: i64, _: i64) {}
    fn lemma_mul_associative(&self, _: i64, _: i64, _: i64) {}
    fn lemma_mul_one(&self, _: i64) {}
    fn lemma_distributive(&self, _: i64, _: i64, _: i64) {}
    fn lemma_pow(&self, _: i64, _: u64) {}

    fn zero() -> i64 {
        0
    }
    fn one(&self) -> i64 {
        1
    }
    fn is_zero(a: &i64) -> bool {
        *a == 0
    }
    fn is_one(&self, a: &i64) -> bool {
        *a == 1
    }
    fn eq_element(&self, a: &i64, b: &i64) -> bool {
        a == b
    }
    fn copy_element(&self, a: &i64) -> i64 {
        *a
    }
    fn add(&self, a: &i64, b: &i64) -> i64 {
        a + b
    }
    fn sub(&self, a: &i64, b: &i64) -> i64 {
        a - b
    }
    fn mul(&self, a: &i64, b: &i64) -> i64 {
        a * b
    }
    fn neg(&self, a: &i64) -> i64 {
        -a
    }
    fn add_assign(&self, a: &mut i64, b: &i64) {
        *a += b;
    }
    fn sub_assign(&self, a: &mut i64, b: &i64) {
        *a -= b;
    }
    fn mul_assign(&self, a: &mut i64, b: &i64) {
        *a *= b;
    }
    fn pow(&self, b: &i64, e: u64) -> i64 {
        b.pow(e as u32)
    }
    fn element_text(&self, _: i64, _: bool) -> Text {
        unreachable!()
    }
    fn ring_text(&self) -> Text {
        unreachable!()
    }
    fn format_element(&self, a: &i64, plus: bool) -> String {
        if plus {
            format!("{:+}", a)
        } else {
            format!("{}", a)
        }
    }
    fn format_ring(&self) -> String {
        String::new()
    }
}

type Poly = MultivariatePolynomial<IntegerRing, u32>;

/// The polynomial with the given terms, which may come in any order.
fn poly(nvars: usize, terms: &[(i64, &[u32])]) -> Poly {
    let mut p = Poly::new(nvars, IntegerRing, None, None);
    for (c, e) in terms {
        p.append_monomial(*c, e);
    }
    assert!(p.check_consistency());
    p
}

#[test]
fn heap_mul_difference_of_squares() {
    // (x + y) * (x - y) = x^2 - y^2
    let a = poly(2, &[(1, &[1, 0]), (1, &[0, 1])]);
    let b = poly(2, &[(1, &[1, 0]), (-1, &[0, 1])]);
    let c = a.heap_mul(&b);
    assert!(c.check_consistency());
    assert_eq!(c.nterms, 2);
    assert_eq!(c.exponents, vec![0, 2, 2, 0]);
    assert_eq!(c.coefficients, vec![-1, 1]);
}

#[test]
fn add_merges_and_cancels() {
    let a = poly(2, &[(2, &[1, 0]), (1, &[0, 1]), (5, &[3, 3])]);
    let b = poly(2, &[(1, &[0, 1]), (3, &[0, 0]), (-5, &[3, 3])]);
    let c = a.add(b);
    assert!(c.check_consistency());
    assert_eq!(c.exponents, vec![0, 0, 0, 1, 1, 0]);
    assert_eq!(c.coefficients, vec![3, 2, 2]);
}

/// The terms of a polynomial, in its own order.
fn terms(p: &Poly) -> Vec<(i64, Vec<u32>)> {
    (0..p.nterms())
        .map(|k| (p.coefficients[k], p.exponents(k).to_vec()))
        .collect()
}

#[test]
fn terms_are_kept_sorted_merged_and_without_zeros() {
    let mut p = Poly::new(2, IntegerRing, None, None);
    p.append_monomial(3, &[1, 1]);
    p.append_monomial(5, &[0, 2]);
    p.append_monomial(7, &[2, 0]);
    p.append_monomial(-3, &[1, 1]);
    p.append_monomial(0, &[4, 4]);
    p.append_monomial(2, &[0, 2]);
    assert!(p.check_consistency());
    assert_eq!(terms(&p), vec![(7, vec![0, 2]), (7, vec![2, 0])]);
    assert_eq!(p.last_exponents(), &[2, 0]);
    assert_eq!(p.exponents_back(1), &[0, 2]);
    assert_eq!(*p.coefficient_back(0), 7);
    let view = p.to_monomial_view(0);
    assert_eq!(*view.coefficient, 7);
    assert_eq!(view.exponents, &[0, 2]);
}

#[test]
fn check_consistency_finds_a_broken_order() {
    let mut p = poly(1, &[(1, &[1]), (2, &[2])]);
    assert!(p.check_consistency());
    p.exponents.swap(0, 1);
    assert!(!p.check_consistency());
    let mut q = poly(1, &[(1, &[1])]);
    q.coefficients[0] = 0;
    assert!(!q.check_consistency());
}

#[test]
fn constants_and_constructors() {
    let zero = Poly::zero(IntegerRing);
    assert!(zero.is_zero());
    assert!(zero.is_constant());
    assert!(!zero.is_one());
    assert_eq!(zero.nterms(), 0);

    let one = Poly::one(IntegerRing);
    assert!(one.is_one());
    assert!(one.is_constant());
    assert_eq!(one.nvars(), 0);

    let c = Poly::from_constant(5, 3, IntegerRing);
    assert_eq!(terms(&c), vec![(5, vec![0, 0, 0])]);
    assert!(c.is_constant());
    assert!(!c.is_one());
    assert!(Poly::from_constant(1, 3, IntegerRing).is_one());
    assert!(Poly::from_constant(0, 3, IntegerRing).is_zero());

    let m = Poly::from_monomial(4, vec![1, 2], IntegerRing);
    assert_eq!(terms(&m), vec![(4, vec![1, 2])]);
    assert!(!m.is_constant());
    assert!(Poly::from_monomial(0, vec![1, 2], IntegerRing).is_zero());

    let mut n = m.new_from(Some(4));
    assert_eq!(n.nvars(), 2);
    assert!(n.is_zero());
    n.reserve(10);
    n.append_monomial_back(1, &[0, 1]);
    n.append_monomial_back(2, &[3, 0]);
    assert_eq!(terms(&n), vec![(1, vec![0, 1]), (2, vec![3, 0])]);
    n.clear();
    assert!(n.is_zero());
    assert_eq!(n.nvars(), 2);
}

#[test]
fn negation_subtraction_and_equality() {
    let a = poly(2, &[(1, &[1, 0]), (2, &[0, 1])]);
    let b = poly(2, &[(2, &[0, 1]), (1, &[1, 0])]);
    assert!(a.eq(&b));
    let n = a.duplicate().neg();
    assert_eq!(terms(&n), vec![(-2, vec![0, 1]), (-1, vec![1, 0])]);
    assert!(!a.eq(&n));
    assert!(a.duplicate().sub(b).is_zero());
    let d = a.duplicate().sub(poly(2, &[(5, &[0, 0]), (2, &[0, 1])]));
    assert_eq!(terms(&d), vec![(-5, vec![0, 0]), (1, vec![1, 0])]);
    assert!(a.duplicate().add(n).is_zero());
}

#[test]
fn scalar_and_monomial_products() {
    let a = poly(2, &[(1, &[1, 0]), (2, &[0, 1])]);
    assert_eq!(
        terms(&a.duplicate().mul_coeff(3)),
        vec![(6, vec![0, 1]), (3, vec![1, 0])]
    );
    assert!(a.duplicate().mul_coeff(0).is_zero());
    assert_eq!(
        terms(&a.duplicate().add_monomial(4)),
        vec![(4, vec![0, 0]), (2, vec![0, 1]), (1, vec![1, 0])]
    );
    assert_eq!(
        terms(&a.duplicate().mul_monomial(&-2, &[1, 3])),
        vec![(-4, vec![1, 4]), (-2, vec![2, 3])]
    );
}

#[test]
fn heap_mul_agrees_with_the_schoolbook_product() {
    // (1 + 2x + 3y + x*y^2) * (2 - x + y^3)
    let a = poly(2, &[(1, &[0, 0]), (2, &[1, 0]), (3, &[0, 1]), (1, &[1, 2])]);
    let b = poly(2, &[(2, &[0, 0]), (-1, &[1, 0]), (1, &[0, 3])]);
    let mut expected = Poly::new(2, IntegerRing, None, None);
    for (ca, ea) in terms(&a) {
        for (cb, eb) in terms(&b) {
            let e: Vec<u32> = ea.iter().zip(eb.iter()).map(|(x, y)| x + y).collect();
            expected.append_monomial(ca * cb, &e);
        }
    }
    let c = a.heap_mul(&b);
    assert!(c.check_consistency());
    assert!(c.eq(&expected));
    assert!(b.heap_mul(&a).eq(&expected));
    assert!(a.heap_mul(&Poly::new(2, IntegerRing, None, None)).is_zero());
    assert!(a.heap_mul(&Poly::from_constant(1, 2, IntegerRing)).eq(&a));
}

#[test]
fn heap_mul_cancels_inner_terms() {
    // (x^2 + x + 1) * (x - 1) = x^3 - 1
    let a = poly(1, &[(1, &[2]), (1, &[1]), (1, &[0])]);
    let b = poly(1, &[(1, &[1]), (-1, &[0])]);
    assert_eq!(terms(&a.heap_mul(&b)), vec![(-1, vec![0]), (1, vec![3])]);
}

#[test]
fn ring_laws_on_concrete_polynomials() {
    let a = poly(2, &[(1, &[1, 0]), (2, &[0, 1])]);
    let b = poly(2, &[(3, &[1, 1]), (-2, &[0, 1])]);
    let c = poly(2, &[(5, &[0, 0]), (7, &[2, 0])]);
    let zero = Poly::new(2, IntegerRing, None, None);
    // a + b = b + a
    assert!(a.duplicate().add(b.duplicate()).eq(&b.duplicate().add(a.duplicate())));
    // (a + b) + c = a + (b + c)
    assert!(a
        .duplicate()
        .add(b.duplicate())
        .add(c.duplicate())
        .eq(&a.duplicate().add(b.duplicate().add(c.duplicate()))));
    // a + 0 = a
    assert!(a.duplicate().add(zero).eq(&a));
    // a - a = 0
    assert!(a.duplicate().sub(a.duplicate()).is_zero());
    // a * (b + c) = a * b + a * c
    let left = a.heap_mul(&b.duplicate().add(c.duplicate()));
    let right = a.heap_mul(&b).add(a.heap_mul(&c));
    assert!(left.eq(&right));
}

#[test]
fn degrees_and_leading_coefficient() {
    // 4 + 3*x1^2 + 2*x0*x1 + 5*x0^3
    let p = poly(2, &[(4, &[0, 0]), (3, &[0, 2]), (2, &[1, 1]), (5, &[3, 0])]);
    assert_eq!(p.degree(0), 3);
    assert_eq!(p.degree(1), 2);
    assert_eq!(p.ldegree(0), 3);
    assert_eq!(p.ldegree(1), 0);
    assert_eq!(p.ldegree_max(), 3);
    assert_eq!(p.lcoeff(), 5);
    let zero = Poly::new(2, IntegerRing, None, None);
    assert_eq!(zero.degree(1), 0);
    assert_eq!(zero.ldegree_max(), 0);
    assert_eq!(zero.lcoeff(), 0);
}

#[test]
fn leading_coefficient_under_another_variable_order() {
    // 4 + 3*x1^2 + 2*x0*x1 + 5*x0^3
    let p = poly(2, &[(4, &[0, 0]), (3, &[0, 2]), (2, &[1, 1]), (5, &[3, 0])]);
    assert_eq!(p.lcoeff_varorder(&[0, 1]), 5);
    // with x1 as the main variable the leading term is 3*x1^2
    assert_eq!(p.lcoeff_varorder(&[1, 0]), 3);
    assert_eq!(Poly::new(2, IntegerRing, None, None).lcoeff_varorder(&[1, 0]), 0);

    assert!(is_strictly_increasing(&[0, 1, 4]));
    assert!(!is_strictly_increasing(&[0, 1, 1]));
    assert!(!is_strictly_increasing(&[2, 1]));
    assert!(is_strictly_increasing(&[]));

    let mut highest = vec![1u32, 5];
    assert!(matches!(
        compare_with_highest(&[1u32, 7], &[0, 1], &mut highest),
        Standing::Above
    ));
    assert_eq!(highest, vec![1, 7]);
    assert!(matches!(
        compare_with_highest(&[0u32, 9], &[0, 1], &mut highest),
        Standing::Below
    ));
    assert_eq!(highest, vec![1, 7]);
    assert!(matches!(
        compare_with_highest(&[1u32, 7], &[0, 1], &mut highest),
        Standing::Level
    ));
}

#[test]
fn leading_coefficient_as_a_polynomial() {
    // (2 + 3*x1) * x0^2 + x0 * x1 + 7
    let p = poly(
        2,
        &[(7, &[0, 0]), (1, &[1, 1]), (2, &[2, 0]), (3, &[2, 1])],
    );
    let l = p.lcoeff_last(1);
    assert_eq!(terms(&l), vec![(2, vec![0, 0]), (3, vec![0, 1])]);
    let l = p.lcoeff_last_varorder(&[0, 1]);
    assert_eq!(terms(&l), vec![(2, vec![0, 0]), (3, vec![0, 1])]);
    // with x1 first the leading power is x1, with the coefficient 3*x0^2 + x0
    let l = p.lcoeff_last_varorder(&[1, 0]);
    assert_eq!(terms(&l), vec![(1, vec![1, 0]), (3, vec![2, 0])]);
    assert!(Poly::new(2, IntegerRing, None, None).lcoeff_last(1).is_zero());
}

#[test]
fn rearrange_permutes_the_variables() {
    // x0 + 2*x1^2 + 3*x2^3
    let p = poly(3, &[(1, &[1, 0, 0]), (2, &[0, 2, 0]), (3, &[0, 0, 3])]);
    let r = p.rearrange(&[2, 0, 1], false);
    assert!(r.check_consistency());
    let back = r.rearrange(&[2, 0, 1], true);
    assert!(back.eq(&p));
    let mut expected = Poly::new(3, IntegerRing, None, None);
    for (c, e) in terms(&p) {
        expected.append_monomial(c, &[e[2], e[0], e[1]]);
    }
    assert!(r.eq(&expected));
}

#[test]
fn replace_puts_a_value_in() {
    // x0^2*x1 + 3*x0 + x1 + 1 at x0 = 2 is 5*x1 + 7
    let p = poly(2, &[(1, &[2, 1]), (3, &[1, 0]), (1, &[0, 1]), (1, &[0, 0])]);
    let r = p.replace(0, 2);
    assert_eq!(terms(&r), vec![(7, vec![0, 0]), (5, vec![0, 1])]);
    // x0 - 1 at x0 = 1 is zero
    let q = poly(1, &[(1, &[1]), (-1, &[0])]);
    assert!(q.replace(0, 1).is_zero());
}

#[test]
fn replace_all_except_keeps_one_variable() {
    // x0*x1^2*x2 + 2*x1*x2^3 + 5*x0 at x0 = 2, x2 = 3 is 6*x1^2 + 54*x1 + 10
    let p = poly(
        3,
        &[(1, &[1, 2, 1]), (2, &[0, 1, 3]), (5, &[1, 0, 0])],
    );
    let mut cache = vec![vec![0i64; 3]; 3];
    let r = p.replace_all_except(1, &[(0, 2), (2, 3)], &mut cache);
    assert_eq!(
        terms(&r),
        vec![(10, vec![0, 0, 0]), (54, vec![0, 1, 0]), (6, vec![0, 2, 0])]
    );
    // a second run reads the powers that the first one kept
    let again = p.replace_all_except(1, &[(0, 2), (2, 3)], &mut cache);
    assert!(again.eq(&r));
    assert_eq!(cache.len(), 3);
}

#[test]
fn univariate_list_round_trip() {
    // (1 + x1) + (2*x1^2) * x0^2 + 7 * x0^3
    let p = poly(
        2,
        &[(1, &[0, 0]), (1, &[0, 1]), (2, &[2, 2]), (7, &[3, 0])],
    );
    let list = p.to_univariate_polynomial_list(0);
    let powers: Vec<u32> = list.iter().map(|(_, e)| *e).collect();
    assert_eq!(powers, vec![0, 2, 3]);
    assert_eq!(terms(&list[0].0), vec![(1, vec![0, 0]), (1, vec![0, 1])]);
    assert_eq!(terms(&list[1].0), vec![(2, vec![0, 2])]);
    assert_eq!(terms(&list[2].0), vec![(7, vec![0, 0])]);
    // the sum of c_k * x0^k gives the polynomial back
    let mut sum = Poly::new(2, IntegerRing, None, None);
    for (c, e) in list {
        sum = sum.add(c.mul_monomial(&1, &[e, 0]));
    }
    assert!(sum.eq(&p));
    assert!(Poly::new(2, IntegerRing, None, None)
        .to_univariate_polynomial_list(0)
        .is_empty());
}

#[test]
fn multivariate_list_round_trip() {
    // x0*x2 + 2*x0*x1*x2 + 3*x1 + 4*x0^2
    let p = poly(
        3,
        &[(1, &[1, 0, 1]), (2, &[1, 1, 1]), (3, &[0, 1, 0]), (4, &[2, 0, 0])],
    );
    for inside in [true, false] {
        let list = p.to_multivariate_polynomial_list(&[0, 2], inside);
        let mut sum = Poly::new(3, IntegerRing, None, None);
        for (e, c) in &list {
            sum = sum.add(c.duplicate().mul_monomial(&1, e));
        }
        assert!(sum.eq(&p));
        for i in 0..list.len() {
            for j in 0..i {
                assert_ne!(list[i].0, list[j].0);
            }
        }
    }
    let list = p.to_multivariate_polynomial_list(&[0, 2], true);
    let keys: Vec<Vec<u32>> = list.iter().map(|(e, _)| e.clone()).collect();
    assert_eq!(keys, vec![vec![0, 0, 0], vec![1, 0, 1], vec![2, 0, 0]]);
    assert_eq!(terms(&list[1].1), vec![(1, vec![0, 0, 0]), (2, vec![0, 1, 0])]);
}

#[test]
fn variable_map() {
    let x = Identifier::from(10);
    let y = Identifier::from(20);
    let mut m = VarMap::new();
    assert_eq!(m.len(), 0);
    m.push(x);
    m.push(y);
    assert_eq!(m.len(), 2);
    assert_eq!(m.get(1), y);
    assert_eq!(m.get(1).to_u32(), 20);
    assert_eq!(m.position(y), Some(1));
    assert_eq!(m.position(Identifier::from(30)), None);
    assert_eq!(m.to_ids(), vec![x, y]);
    let n = VarMap::from_ids(&vec![x, y]);
    assert!(m.same(&n));
    assert!(m.same(&m.duplicate()));
    assert!(!m.same(&VarMap::from_ids(&vec![y, x])));
    assert!(!m.same(&VarMap::from_ids(&vec![x])));
}

#[test]
fn unify_var_map_merges_the_variables() {
    let x = Identifier::from(1);
    let y = Identifier::from(2);
    let z = Identifier::from(3);
    // a = 2x + y in (x, y), b = y + 3z in (y, z)
    let mut a = Poly::new(2, IntegerRing, None, Some(VarMap::from_ids(&vec![x, y])));
    a.append_monomial(2, &[1, 0]);
    a.append_monomial(1, &[0, 1]);
    let mut b = Poly::new(2, IntegerRing, None, Some(VarMap::from_ids(&vec![y, z])));
    b.append_monomial(1, &[1, 0]);
    b.append_monomial(3, &[0, 1]);
    a.unify_var_map(&mut b);
    assert_eq!(a.get_var_map().as_ref().unwrap().to_ids(), vec![x, y, z]);
    assert_eq!(b.get_var_map().as_ref().unwrap().to_ids(), vec![x, y, z]);
    assert_eq!(a.nvars(), 3);
    assert_eq!(b.nvars(), 3);
    assert!(a.check_consistency());
    assert!(b.check_consistency());
    assert_eq!(terms(&a), vec![(1, vec![0, 1, 0]), (2, vec![1, 0, 0])]);
    assert_eq!(terms(&b), vec![(3, vec![0, 0, 1]), (1, vec![0, 1, 0])]);
    // a + b = 2x + 2y + 3z
    let sum = a.add(b);
    assert_eq!(
        terms(&sum),
        vec![(3, vec![0, 0, 1]), (2, vec![0, 1, 0]), (2, vec![1, 0, 0])]
    );
}

#[test]
fn unify_var_map_with_the_same_variables_changes_nothing() {
    let x = Identifier::from(1);
    let y = Identifier::from(2);
    let mut a = Poly::new(2, IntegerRing, None, Some(VarMap::from_ids(&vec![x, y])));
    a.append_monomial(2, &[1, 0]);
    let mut b = Poly::new(2, IntegerRing, None, Some(VarMap::from_ids(&vec![x, y])));
    b.append_monomial(5, &[1, 3]);
    a.unify_var_map(&mut b);
    assert_eq!(terms(&a), vec![(2, vec![1, 0])]);
    assert_eq!(terms(&b), vec![(5, vec![1, 3])]);
    assert_eq!(a.get_var_map().as_ref().unwrap().to_ids(), vec![x, y]);
}

#[test]
fn unify_var_map_reorders_the_other_polynomial() {
    let x = Identifier::from(1);
    let y = Identifier::from(2);
    // a in (x, y), b = x^2 + y in (y, x)
    let mut a = Poly::new(2, IntegerRing, None, Some(VarMap::from_ids(&vec![x, y])));
    a.append_monomial(1, &[1, 1]);
    let mut b = Poly::new(2, IntegerRing, None, Some(VarMap::from_ids(&vec![y, x])));
    b.append_monomial(1, &[0, 2]);
    b.append_monomial(1, &[1, 0]);
    a.unify_var_map(&mut b);
    assert!(b.check_consistency());
    assert_eq!(terms(&b), vec![(1, vec![0, 1]), (1, vec![2, 0])]);
    assert_eq!(b.get_var_map().as_ref().unwrap().to_ids(), vec![x, y]);
}

#[test]
fn text_of_a_polynomial() {
    let p = poly(2, &[(1, &[0, 0]), (-1, &[0, 1]), (3, &[2, 1]), (-4, &[3, 0])]);
    assert_eq!(p.to_string(), "1-x1+3*x0^2*x1-4*x0^3");
    assert_eq!(Poly::new(2, IntegerRing, None, None).to_string(), "0");
    assert_eq!(poly(1, &[(1, &[1])]).to_string(), "x0");
    assert_eq!(poly(1, &[(2, &[0]), (1, &[5])]).to_string(), "2+x0^5");
}

#[test]
fn walking_over_the_terms() {
    let p = poly(2, &[(4, &[0, 0]), (3, &[0, 2]), (5, &[3, 0])]);
    let mut it = p.into_iter();
    let mut seen = Vec::new();
    while let Some(view) = it.next() {
        seen.push((*view.coefficient, view.exponents.to_vec()));
    }
    assert_eq!(seen, terms(&p));
    assert!(it.next().is_none());
    assert!(Poly::new(2, IntegerRing, None, None).into_iter().next().is_none());
}

#[test]
fn mul_is_the_heap_product() {
    let a = poly(2, &[(1, &[1, 0]), (1, &[0, 1])]);
    let b = poly(2, &[(1, &[1, 0]), (-1, &[0, 1])]);
    assert!(a.mul(&b).eq(&a.heap_mul(&b)));
    assert_eq!(terms(&a.mul(&b)), vec![(-1, vec![0, 2]), (1, vec![2, 0])]);
    assert!(a.mul(&b).eq(&b.mul(&a)));
}

#[test]
fn grow_to_leaves_a_polynomial_with_enough_terms_as_it_is() {
    let mut p = poly(2, &[(4, &[0, 0]), (3, &[0, 2]), (5, &[3, 0])]);
    let before = terms(&p);
    p.grow_to(2);
    p.grow_to(0);
    assert_eq!(terms(&p), before);
    assert!(p.check_consistency());
}

#[test]
fn replace_all_except_adds_up_the_terms_of_one_power() {
    // x0*x1 + 3*x1*x2 - 5*x1 + x0^2 + x2 at x0 = 2, x2 = 1 is (2 + 3 - 5)*x1 + 5
    let p = poly(
        3,
        &[
            (1, &[1, 1, 0]),
            (3, &[0, 1, 1]),
            (-5, &[0, 1, 0]),
            (1, &[2, 0, 0]),
            (1, &[0, 0, 1]),
        ],
    );
    let mut cache = vec![vec![0i64; 2]; 3];
    let r = p.replace_all_except(1, &[(0, 2), (2, 1)], &mut cache);
    assert!(r.check_consistency());
    assert_eq!(terms(&r), vec![(5, vec![0, 0, 0])]);
    // the power 2^2 did not fit into the memo, 2^1 did
    assert_eq!(cache[0], vec![0, 2]);
}
