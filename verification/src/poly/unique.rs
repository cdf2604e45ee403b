//! The quotient and the remainder of a division are determined by the
//! dividend and the divisor.
//!
//! Two divisions of one polynomial by another are compared from the largest
//! monomial of the quotients down. Where the quotients agree on all larger
//! monomials, the products with the divisor differ, at the monomial times the
//! leading monomial of the divisor, by the difference of the two quotient
//! coefficients times the leading coefficient of the divisor. The remainders
//! cannot make up for that difference, so there is none.
use crate::poly::arith::add_view;
use crate::poly::heap_division::{
    division_holds, g_back, remainder_reduced, remainder_settled,
};
use crate::poly::synthetic::remainder_whole;
use crate::poly::laws::{
    law_mul_commutative, lemma_add_view_coeff, lemma_product_coeff_commutative,
    lemma_row_sum_lookup, same_shape,
};
use crate::poly::monomial::{
    dominates, key_of, lemma_key_of, lemma_lex_irreflexive, lemma_lex_total, lemma_rank_bound,
    lemma_rank_monotone, lemma_row_add_monotone_both, lemma_row_add_cancel,
    lemma_row_add_values, lemma_row_sub_values, lex_le, lex_lt, rank, rank_bound, row_add,
    row_sub, sum_fits,
};
use crate::poly::polynomial::{coeff_in, MultivariatePolynomial};
use crate::poly::product::{
    can_multiply, lemma_pair_terms_contained, lemma_sum_contained, lemma_sum_equal, mul_view,
    product_coeff, ring_sum, row_sums,
};
use crate::poly::arith::lemma_view_determines;
use crate::poly::Exponent;
use crate::rings::{
    divides, lemma_add_cancel_left, lemma_add_sub, lemma_mul_sub, lemma_sub_zero, sub_spec,
    EuclideanDomain, Ring,
};
use vstd::prelude::*;

verus! {

/// Every term of the map has a coefficient of the ring that is not zero.
pub open spec fn terms_ok<F: Ring, E: Exponent>(f: F, r: Map<Seq<E>, F::Element>) -> bool {
    forall|e: Seq<E>| #[trigger] r.dom().contains(e) ==> f.contains(r[e]) && r[e] != F::zero_spec()
}

/// The quotient `q` times the divisor `g` plus the terms `r` is the dividend
/// `a`.
pub open spec fn divides_into<F: Ring, E: Exponent>(
    a: MultivariatePolynomial<F, E>,
    g: MultivariatePolynomial<F, E>,
    q: MultivariatePolynomial<F, E>,
    r: Map<Seq<E>, F::Element>,
) -> bool {
    &&& can_multiply(q, g)
    &&& add_view(a.field, mul_view(q, g), r) == a@
}

/// Two divisions of `a` by `g`: in each the quotient times the divisor plus
/// the remainder is the dividend. No term of the first remainder is divisible
/// by the leading monomial of the divisor, and no term of the second one by
/// its leading term.
pub open spec fn two_divisions<F: EuclideanDomain, E: Exponent>(
    a: MultivariatePolynomial<F, E>,
    g: MultivariatePolynomial<F, E>,
    q1: MultivariatePolynomial<F, E>,
    r1: Map<Seq<E>, F::Element>,
    q2: MultivariatePolynomial<F, E>,
    r2: Map<Seq<E>, F::Element>,
) -> bool {
    &&& g.nterms > 0
    &&& a.field == g.field
    &&& terms_ok(g.field, r1)
    &&& terms_ok(g.field, r2)
    &&& divides_into(a, g, q1, r1)
    &&& divides_into(a, g, q2, r2)
    &&& forall|x: Seq<E>| #[trigger] r1.dom().contains(x) ==> !dominates(x, g_back(g, 0))
    &&& forall|x: Seq<E>|
        #[trigger] r2.dom().contains(x) ==> !dominates(x, g_back(g, 0)) || g.field.rem_spec(
            r2[x],
            g.coefficients@.last(),
        ) != F::zero_spec()
}

/// The two quotients have the same coefficient for every monomial after `x`.
pub open spec fn agree_after<F: Ring, E: Exponent>(
    q1: MultivariatePolynomial<F, E>,
    q2: MultivariatePolynomial<F, E>,
    x: Seq<E>,
) -> bool {
    forall|y: Seq<E>| #[trigger] lex_lt(x, y) ==> q1.coeff(y) == q2.coeff(y)
}

/// In a division, the coefficient of the product and that of the remainder
/// add up to the coefficient of the dividend.
pub proof fn lemma_division_coeff<F: Ring, E: Exponent>(
    a: MultivariatePolynomial<F, E>,
    g: MultivariatePolynomial<F, E>,
    q: MultivariatePolynomial<F, E>,
    r: Map<Seq<E>, F::Element>,
    e: Seq<E>,
)
    requires
        divides_into(a, g, q, r),
        a.field == g.field,
    ensures
        a.field.add_spec(product_coeff(q, g, e), coeff_in::<F, E>(r, e)) == a.coeff(e),
{
    lemma_add_view_coeff(a.field, mul_view(q, g), r, e);
}

/// The coefficient that the product of the divisor and a quotient has for
/// the monomial `x` times the leading monomial of the divisor: what the terms
/// of the divisor before the leading one add, and the leading coefficient
/// times the coefficient of `x` in the quotient.
proof fn lemma_product_top<F: Ring, E: Exponent>(
    g: MultivariatePolynomial<F, E>,
    q: MultivariatePolynomial<F, E>,
    x: Seq<E>,
)
    requires
        same_shape(g, q),
        g.nterms > 0,
        sum_fits(x, g_back(g, 0)),
    ensures
        product_coeff(g, q, row_add(x, g_back(g, 0))) == g.field.add_spec(
            ring_sum(g.field, row_sums(g, q, row_add(x, g_back(g, 0))).drop_last()),
            g.field.mul_spec(g.coefficients@.last(), q.coeff(x)),
        ),
{
    let top = g_back(g, 0);
    let m = row_add(x, top);
    g.lemma_rows();
    lemma_row_add_values(x, top);
    assert(dominates(m, top)) by {
        assert forall|v: int| 0 <= v < m.len() implies #[trigger] top[v].to_u32_spec()
            <= m[v].to_u32_spec() by {
            assert(m[v].to_u32_spec() == x[v].to_u32_spec() + top[v].to_u32_spec());
        }
    }
    lemma_row_sub_values(m, top);
    lemma_row_add_cancel(row_sub(m, top), x, top);
    lemma_row_sum_lookup(g, q, g.nterms - 1, m);
}

/// Where two quotients agree after `x`, the terms of the divisor before the
/// leading one add the same to the coefficient of `x` times the leading
/// monomial of the divisor in both products.
proof fn lemma_product_below<F: Ring, E: Exponent>(
    g: MultivariatePolynomial<F, E>,
    q1: MultivariatePolynomial<F, E>,
    q2: MultivariatePolynomial<F, E>,
    x: Seq<E>,
)
    requires
        same_shape(g, q1),
        same_shape(g, q2),
        g.nterms > 0,
        sum_fits(x, g_back(g, 0)),
        agree_after(q1, q2, x),
    ensures
        ring_sum(g.field, row_sums(g, q1, row_add(x, g_back(g, 0))).drop_last()) == ring_sum(
            g.field,
            row_sums(g, q2, row_add(x, g_back(g, 0))).drop_last(),
        ),
{
    let top = g_back(g, 0);
    let m = row_add(x, top);
    let s1 = row_sums(g, q1, m).drop_last();
    let s2 = row_sums(g, q2, m).drop_last();
    g.lemma_rows();
    lemma_row_add_values(x, top);
    assert forall|j: int| 0 <= j < s1.len() implies #[trigger] s1[j] == s2[j] by {
        let y = g.rows()[j];
        lemma_row_sum_lookup(g, q1, j, m);
        lemma_row_sum_lookup(g, q2, j, m);
        if dominates(m, y) {
            let z = row_sub(m, y);
            lemma_row_sub_values(m, y);
            assert(lex_lt(y, top));
            lemma_lex_total(x, z);
            if !lex_lt(x, z) {
                lemma_row_add_monotone_both(z, x, y, top);
                lemma_lex_irreflexive(y);
            }
            assert(q1.coeff(z) == q2.coeff(z));
        }
    }
    lemma_sum_equal(g.field, s1, s2);
}

/// Two quotients that agree after `x` agree at `x`.
proof fn lemma_quotients_agree_at<F: EuclideanDomain, E: Exponent>(
    a: MultivariatePolynomial<F, E>,
    g: MultivariatePolynomial<F, E>,
    q1: MultivariatePolynomial<F, E>,
    r1: Map<Seq<E>, F::Element>,
    q2: MultivariatePolynomial<F, E>,
    r2: Map<Seq<E>, F::Element>,
    x: Seq<E>,
)
    requires
        two_divisions(a, g, q1, r1, q2, r2),
        agree_after(q1, q2, x),
    ensures
        q1.coeff(x) == q2.coeff(x),
{
    let f = g.field;
    let top = g_back(g, 0);
    let lead = g.coefficients@.last();
    g.lemma_rows();
    q1.lemma_rows();
    q2.lemma_rows();
    if q1@.dom().contains(x) || q2@.dom().contains(x) {
        assert(sum_fits(x, top)) by {
            if q1@.dom().contains(x) {
                let i = q1.rows().index_of(x);
                assert(sum_fits(q1.rows()[i], g.rows()[g.nterms - 1]));
            } else {
                let i = q2.rows().index_of(x);
                assert(sum_fits(q2.rows()[i], g.rows()[g.nterms - 1]));
            }
        }
        let m = row_add(x, top);
        lemma_row_add_values(x, top);
        assert(dominates(m, top)) by {
            assert forall|v: int| 0 <= v < m.len() implies #[trigger] top[v].to_u32_spec()
                <= m[v].to_u32_spec() by {
                assert(m[v].to_u32_spec() == x[v].to_u32_spec() + top[v].to_u32_spec());
            }
        }
        law_mul_commutative(q1, g);
        law_mul_commutative(q2, g);
        lemma_product_coeff_commutative(q1, g, m);
        lemma_product_coeff_commutative(q2, g, m);
        lemma_product_top(g, q1, x);
        lemma_product_top(g, q2, x);
        lemma_product_below(g, q1, q2, x);
        lemma_division_coeff(a, g, q1, r1, m);
        lemma_division_coeff(a, g, q2, r2, m);
        // the parts of the two equations
        let below = ring_sum(f, row_sums(g, q1, m).drop_last());
        let c1 = q1.coeff(x);
        let c2 = q2.coeff(x);
        let u1 = f.mul_spec(lead, c1);
        let u2 = f.mul_spec(lead, c2);
        let rest = coeff_in::<F, E>(r2, m);
        q1.lemma_coeff_contained(x);
        q2.lemma_coeff_contained(x);
        f.lemma_constants();
        crate::poly::product::lemma_can_pair(g, q1);
        lemma_pair_terms_contained(g, q1, m);
        assert(f.contains(below)) by {
            let s = row_sums(g, q1, m).drop_last();
            assert forall|j: int| 0 <= j < s.len() implies f.contains(#[trigger] s[j]) by {
                assert(s[j] == row_sums(g, q1, m)[j]);
            }
            lemma_sum_contained(f, s);
        }
        f.lemma_closed(lead, c1);
        f.lemma_closed(lead, c2);
        f.lemma_closed(u2, rest);
        f.lemma_closed(below, u1);
        // the first remainder has no term at the monomial
        assert(coeff_in::<F, E>(r1, m) == F::zero_spec());
        f.lemma_add_zero(f.add_spec(below, u1));
        f.lemma_add_associative(below, u2, rest);
        lemma_add_cancel_left(f, u1, f.add_spec(u2, rest), below);
        // so the leading coefficient times the difference is what the second
        // remainder has there
        let d = sub_spec(f, c1, c2);
        f.lemma_closed(c2, c2);
        f.lemma_closed(c1, f.neg_spec(c2));
        lemma_mul_sub(f, lead, c1, c2);
        lemma_add_sub(f, u2, rest);
        f.lemma_mul_commutative(lead, d);
        assert(f.mul_spec(d, lead) == rest);
        if r2.dom().contains(m) {
            assert(divides(f, lead, rest));
            f.lemma_quot_rem(rest, lead);
            assert(false);
        } else {
            f.lemma_no_zero_divisors(d, lead);
            lemma_sub_zero(f, c1, c2);
        }
    }
}

/// Two quotients agree at every monomial.
proof fn lemma_quotients_agree<F: EuclideanDomain, E: Exponent>(
    a: MultivariatePolynomial<F, E>,
    g: MultivariatePolynomial<F, E>,
    q1: MultivariatePolynomial<F, E>,
    r1: Map<Seq<E>, F::Element>,
    q2: MultivariatePolynomial<F, E>,
    r2: Map<Seq<E>, F::Element>,
    x: Seq<E>,
)
    requires
        two_divisions(a, g, q1, r1, q2, r2),
    ensures
        q1.coeff(x) == q2.coeff(x),
    decreases rank_bound(x.len()) - rank(key_of(x)),
{
    assert forall|y: Seq<E>| #[trigger] lex_lt(x, y) implies q1.coeff(y) == q2.coeff(y) by {
        lemma_key_of(x, y);
        lemma_rank_monotone(key_of(x), key_of(y));
        lemma_rank_bound(key_of(y));
        lemma_quotients_agree(a, g, q1, r1, q2, r2, y);
    }
    lemma_quotients_agree_at(a, g, q1, r1, q2, r2, x);
}

/// The monomial `x` comes after `e`, or is `e` unless `strict`.
pub open spec fn at_or_after<E: Exponent>(e: Seq<E>, x: Seq<E>, strict: bool) -> bool {
    lex_lt(e, x) || (!strict && x == e)
}

/// The quotient `q` and the terms `r` account for the dividend `a` after the
/// monomial `e`, and at `e` unless `strict`: for every such monomial the
/// coefficient of the product of `q` with the divisor `g` and the
/// coefficient in `r` add up to the coefficient in `a`. No term of `r` is
/// divisible by the leading monomial of the divisor, and the product of
/// every term of `q` with the leading term is within range.
pub open spec fn accounts_after<F: Ring, E: Exponent>(
    a: MultivariatePolynomial<F, E>,
    g: MultivariatePolynomial<F, E>,
    q: MultivariatePolynomial<F, E>,
    r: Map<Seq<E>, F::Element>,
    e: Seq<E>,
    strict: bool,
) -> bool {
    &&& same_shape(q, g)
    &&& g.nterms > 0
    &&& a.field == g.field
    &&& forall|x: Seq<E>|
        #[trigger] at_or_after(e, x, strict) ==> a.field.add_spec(
            product_coeff(q, g, x),
            coeff_in::<F, E>(r, x),
        ) == a.coeff(x)
    &&& forall|x: Seq<E>| #[trigger] r.dom().contains(x) ==> !dominates(x, g_back(g, 0))
    &&& forall|i: int| 0 <= i < q.nterms ==> sum_fits(#[trigger] q.rows()[i], g_back(g, 0))
}

/// A monomial that the leading monomial of the divisor divides has no term
/// in a remainder.
proof fn lemma_no_remainder_term<F: Ring, E: Exponent>(
    g: MultivariatePolynomial<F, E>,
    r: Map<Seq<E>, F::Element>,
    x: Seq<E>,
)
    requires
        g.wf(),
        g.nterms > 0,
        forall|y: Seq<E>| #[trigger] r.dom().contains(y) ==> !dominates(y, g_back(g, 0)),
        sum_fits(x, g_back(g, 0)),
    ensures
        coeff_in::<F, E>(r, row_add(x, g_back(g, 0))) == F::zero_spec(),
{
    let top = g_back(g, 0);
    let m = row_add(x, top);
    lemma_row_add_values(x, top);
    assert(dominates(m, top)) by {
        assert forall|v: int| 0 <= v < m.len() implies #[trigger] top[v].to_u32_spec()
            <= m[v].to_u32_spec() by {
            assert(m[v].to_u32_spec() == x[v].to_u32_spec() + top[v].to_u32_spec());
        }
    }
}

/// What the terms of the divisor before the leading one add to a
/// coefficient of the product is an element of the ring.
proof fn lemma_below_contained<F: Ring, E: Exponent>(
    g: MultivariatePolynomial<F, E>,
    q: MultivariatePolynomial<F, E>,
    m: Seq<E>,
)
    requires
        same_shape(g, q),
        g.nterms > 0,
    ensures
        g.field.contains(ring_sum(g.field, row_sums(g, q, m).drop_last())),
{
    let f = g.field;
    assert(crate::poly::product::can_pair(g, q));
    lemma_pair_terms_contained(g, q, m);
    let s = row_sums(g, q, m).drop_last();
    assert forall|j: int| 0 <= j < s.len() implies f.contains(#[trigger] s[j]) by {
        assert(s[j] == row_sums(g, q, m)[j]);
    }
    lemma_sum_contained(f, s);
}

/// Two quotients that account for the dividend after `e` and agree after
/// `x`, where `x` times the leading monomial of the divisor comes after `e`,
/// agree at `x`.
proof fn lemma_partial_at<F: EuclideanDomain, E: Exponent>(
    a: MultivariatePolynomial<F, E>,
    g: MultivariatePolynomial<F, E>,
    q1: MultivariatePolynomial<F, E>,
    r1: Map<Seq<E>, F::Element>,
    q2: MultivariatePolynomial<F, E>,
    r2: Map<Seq<E>, F::Element>,
    e: Seq<E>,
    strict: bool,
    x: Seq<E>,
)
    requires
        accounts_after(a, g, q1, r1, e, strict),
        accounts_after(a, g, q2, r2, e, strict),
        sum_fits(x, g_back(g, 0)),
        at_or_after(e, row_add(x, g_back(g, 0)), strict),
        agree_after(q1, q2, x),
    ensures
        q1.coeff(x) == q2.coeff(x),
{
    let f = g.field;
    let top = g_back(g, 0);
    let lead = g.coefficients@.last();
    let m = row_add(x, top);
    g.lemma_rows();
    lemma_product_coeff_commutative(q1, g, m);
    lemma_product_coeff_commutative(q2, g, m);
    lemma_product_top(g, q1, x);
    lemma_product_top(g, q2, x);
    lemma_product_below(g, q1, q2, x);
    lemma_no_remainder_term(g, r1, x);
    lemma_no_remainder_term(g, r2, x);
    lemma_below_contained(g, q1, m);
    let below = ring_sum(f, row_sums(g, q1, m).drop_last());
    let c1 = q1.coeff(x);
    let c2 = q2.coeff(x);
    let u1 = f.mul_spec(lead, c1);
    let u2 = f.mul_spec(lead, c2);
    q1.lemma_coeff_contained(x);
    q2.lemma_coeff_contained(x);
    f.lemma_closed(lead, c1);
    f.lemma_closed(lead, c2);
    f.lemma_closed(below, u1);
    f.lemma_closed(below, u2);
    f.lemma_add_zero(f.add_spec(below, u1));
    f.lemma_add_zero(f.add_spec(below, u2));
    assert(at_or_after(e, m, strict));
    lemma_add_cancel_left(f, u1, u2, below);
    // the leading coefficient times the difference is zero
    let d = sub_spec(f, c1, c2);
    f.lemma_closed(c2, c2);
    f.lemma_closed(c1, f.neg_spec(c2));
    lemma_mul_sub(f, lead, c1, c2);
    f.lemma_add_neg(u2);
    f.lemma_no_zero_divisors(lead, d);
    lemma_sub_zero(f, c1, c2);
}

/// Two quotients that account for the dividend after `e` agree at every
/// monomial whose product with the leading monomial of the divisor comes
/// after `e`.
pub proof fn lemma_partial<F: EuclideanDomain, E: Exponent>(
    a: MultivariatePolynomial<F, E>,
    g: MultivariatePolynomial<F, E>,
    q1: MultivariatePolynomial<F, E>,
    r1: Map<Seq<E>, F::Element>,
    q2: MultivariatePolynomial<F, E>,
    r2: Map<Seq<E>, F::Element>,
    e: Seq<E>,
    strict: bool,
    x: Seq<E>,
)
    requires
        accounts_after(a, g, q1, r1, e, strict),
        accounts_after(a, g, q2, r2, e, strict),
        sum_fits(x, g_back(g, 0)),
        lex_le(e, row_add(x, g_back(g, 0))),
    ensures
        agree_after(q1, q2, x),
        at_or_after(e, row_add(x, g_back(g, 0)), strict) ==> q1.coeff(x) == q2.coeff(x),
    decreases rank_bound(x.len()) - rank(key_of(x)),
{
    let top = g_back(g, 0);
    q1.lemma_rows();
    q2.lemma_rows();
    g.lemma_rows();
    assert forall|y: Seq<E>| #[trigger] lex_lt(x, y) implies q1.coeff(y) == q2.coeff(y) by {
        if q1@.dom().contains(y) || q2@.dom().contains(y) {
            assert(sum_fits(y, top)) by {
                if q1@.dom().contains(y) {
                    let i = q1.rows().index_of(y);
                    assert(sum_fits(q1.rows()[i], top));
                } else {
                    let i = q2.rows().index_of(y);
                    assert(sum_fits(q2.rows()[i], top));
                }
            }
            crate::poly::monomial::lemma_row_add_monotone(x, y, top);
            crate::poly::monomial::lemma_lex_le_lt(e, row_add(x, top), row_add(y, top));
            lemma_key_of(x, y);
            lemma_rank_monotone(key_of(x), key_of(y));
            lemma_rank_bound(key_of(y));
            lemma_partial(a, g, q1, r1, q2, r2, e, strict, y);
        }
    }
    if at_or_after(e, row_add(x, top), strict) {
        lemma_partial_at(a, g, q1, r1, q2, r2, e, strict, x);
    }
}

/// What is left of the coefficient of `e` when the products of a quotient so
/// far are taken off is divisible by the leading coefficient of the divisor
/// if the division can be carried out cleanly at all. Here `q1` and `r1` are
/// the quotient and the remainder of a clean division; `q2` and `r2` account
/// for the dividend after `e`, `q2` has no term for `e` over the leading
/// monomial, and `c` is what is left at `e`.
pub proof fn lemma_forced_coefficient<F: EuclideanDomain, E: Exponent>(
    a: MultivariatePolynomial<F, E>,
    g: MultivariatePolynomial<F, E>,
    q1: MultivariatePolynomial<F, E>,
    r1: Map<Seq<E>, F::Element>,
    q2: MultivariatePolynomial<F, E>,
    r2: Map<Seq<E>, F::Element>,
    e: Seq<E>,
    c: F::Element,
)
    requires
        accounts_after(a, g, q1, r1, e, true),
        accounts_after(a, g, q2, r2, e, true),
        dominates(e, g_back(g, 0)),
        a.field.add_spec(product_coeff(q1, g, e), coeff_in::<F, E>(r1, e)) == a.coeff(e),
        a.field.add_spec(product_coeff(q2, g, e), c) == a.coeff(e),
        a.field.contains(c),
        q2.coeff(row_sub(e, g_back(g, 0))) == F::zero_spec(),
    ensures
        a.field.mul_spec(q1.coeff(row_sub(e, g_back(g, 0))), g.coefficients@.last()) == c,
        divides(a.field, g.coefficients@.last(), c),
{
    let f = g.field;
    let top = g_back(g, 0);
    let lead = g.coefficients@.last();
    let x = row_sub(e, top);
    g.lemma_rows();
    lemma_row_sub_values(e, top);
    lemma_partial(a, g, q1, r1, q2, r2, e, true, x);
    lemma_product_coeff_commutative(q1, g, e);
    lemma_product_coeff_commutative(q2, g, e);
    lemma_product_top(g, q1, x);
    lemma_product_top(g, q2, x);
    lemma_product_below(g, q1, q2, x);
    lemma_below_contained(g, q1, e);
    let below = ring_sum(f, row_sums(g, q1, e).drop_last());
    let c1 = q1.coeff(x);
    let u1 = f.mul_spec(lead, c1);
    q1.lemma_coeff_contained(x);
    f.lemma_closed(lead, c1);
    f.lemma_closed(below, u1);
    f.lemma_constants();
    crate::rings::lemma_mul_zero(f, lead);
    f.lemma_add_zero(below);
    f.lemma_add_zero(f.add_spec(below, u1));
    lemma_add_cancel_left(f, u1, c, below);
    f.lemma_mul_commutative(lead, c1);
}

/// Two divisions of one polynomial by another have the same quotient and
/// the same remainder.
pub proof fn lemma_divisions_agree<F: EuclideanDomain, E: Exponent>(
    a: MultivariatePolynomial<F, E>,
    g: MultivariatePolynomial<F, E>,
    q1: MultivariatePolynomial<F, E>,
    r1: Map<Seq<E>, F::Element>,
    q2: MultivariatePolynomial<F, E>,
    r2: Map<Seq<E>, F::Element>,
)
    requires
        two_divisions(a, g, q1, r1, q2, r2),
    ensures
        q1@ == q2@,
        r1 == r2,
{
    assert forall|x: Seq<E>| q1.coeff(x) == q2.coeff(x) by {
        lemma_quotients_agree(a, g, q1, r1, q2, r2, x);
    }
    lemma_remainders_agree(a, g, q1, r1, q2, r2);
}

/// Division is unique: if `a = q1 * g + r1 = q2 * g + r2` over a ring without
/// zero divisors, where no term of `r1` is divisible by the leading monomial
/// of `g` and no term of `r2` is divisible by the leading term of `g`, then
/// `q1 = q2` and `r1 = r2`. So heap division, where it is carried out
/// cleanly, and synthetic division give the same quotient and the same
/// remainder.
pub proof fn law_division_unique<F: EuclideanDomain, E: Exponent>(
    a: MultivariatePolynomial<F, E>,
    g: MultivariatePolynomial<F, E>,
    q1: MultivariatePolynomial<F, E>,
    r1: MultivariatePolynomial<F, E>,
    q2: MultivariatePolynomial<F, E>,
    r2: MultivariatePolynomial<F, E>,
)
    requires
        g.nterms > 0,
        a.field == g.field,
        r1.wf(),
        r2.wf(),
        r1.field == g.field,
        r2.field == g.field,
        division_holds(a, g, q1, r1),
        division_holds(a, g, q2, r2),
        remainder_reduced(r1, g),
        remainder_settled(r2, g),
    ensures
        q1@ == q2@,
        r1@ == r2@,
{
    r1.lemma_rows();
    r2.lemma_rows();
    lemma_divisions_agree(a, g, q1, r1@, q2, r2@);
}

/// Two divisions of `a` by `g` in which every coefficient goes as a whole to
/// the quotient or to the remainder: the quotient times the divisor plus the
/// remainder is the dividend; a term of the remainder that the leading
/// monomial of the divisor divides has a coefficient that the leading
/// coefficient does not divide, and the quotient has no term for it.
pub open spec fn two_whole_divisions<F: EuclideanDomain, E: Exponent>(
    a: MultivariatePolynomial<F, E>,
    g: MultivariatePolynomial<F, E>,
    q1: MultivariatePolynomial<F, E>,
    r1: Map<Seq<E>, F::Element>,
    q2: MultivariatePolynomial<F, E>,
    r2: Map<Seq<E>, F::Element>,
) -> bool {
    &&& g.nterms > 0
    &&& a.field == g.field
    &&& terms_ok(g.field, r1)
    &&& terms_ok(g.field, r2)
    &&& divides_into(a, g, q1, r1)
    &&& divides_into(a, g, q2, r2)
    &&& whole(g, q1, r1)
    &&& whole(g, q2, r2)
}

/// Every term of `r` that the leading monomial of the divisor divides has a
/// coefficient that the leading coefficient does not divide, and the quotient
/// `q` has no term for the quotient of the two monomials.
pub open spec fn whole<F: EuclideanDomain, E: Exponent>(
    g: MultivariatePolynomial<F, E>,
    q: MultivariatePolynomial<F, E>,
    r: Map<Seq<E>, F::Element>,
) -> bool {
    forall|x: Seq<E>|
        #[trigger] r.dom().contains(x) && dominates(x, g_back(g, 0)) ==> g.field.rem_spec(
            r[x],
            g.coefficients@.last(),
        ) != F::zero_spec() && !q@.dom().contains(row_sub(x, g_back(g, 0)))
}

/// Two quotients of whole divisions that agree after `x` agree at `x`.
proof fn lemma_whole_agree_at<F: EuclideanDomain, E: Exponent>(
    a: MultivariatePolynomial<F, E>,
    g: MultivariatePolynomial<F, E>,
    q1: MultivariatePolynomial<F, E>,
    r1: Map<Seq<E>, F::Element>,
    q2: MultivariatePolynomial<F, E>,
    r2: Map<Seq<E>, F::Element>,
    x: Seq<E>,
)
    requires
        two_whole_divisions(a, g, q1, r1, q2, r2),
        agree_after(q1, q2, x),
    ensures
        q1.coeff(x) == q2.coeff(x),
{
    let f = g.field;
    let top = g_back(g, 0);
    let lead = g.coefficients@.last();
    g.lemma_rows();
    q1.lemma_rows();
    q2.lemma_rows();
    if q1@.dom().contains(x) || q2@.dom().contains(x) {
        assert(sum_fits(x, top)) by {
            if q1@.dom().contains(x) {
                let i = q1.rows().index_of(x);
                assert(sum_fits(q1.rows()[i], g.rows()[g.nterms - 1]));
            } else {
                let i = q2.rows().index_of(x);
                assert(sum_fits(q2.rows()[i], g.rows()[g.nterms - 1]));
            }
        }
        let m = row_add(x, top);
        lemma_row_add_values(x, top);
        assert(dominates(m, top)) by {
            assert forall|v: int| 0 <= v < m.len() implies #[trigger] top[v].to_u32_spec()
                <= m[v].to_u32_spec() by {
                assert(m[v].to_u32_spec() == x[v].to_u32_spec() + top[v].to_u32_spec());
            }
        }
        lemma_row_sub_values(m, top);
        lemma_row_add_cancel(row_sub(m, top), x, top);
        law_mul_commutative(q1, g);
        law_mul_commutative(q2, g);
        lemma_product_coeff_commutative(q1, g, m);
        lemma_product_coeff_commutative(q2, g, m);
        lemma_product_top(g, q1, x);
        lemma_product_top(g, q2, x);
        lemma_product_below(g, q1, q2, x);
        lemma_division_coeff(a, g, q1, r1, m);
        lemma_division_coeff(a, g, q2, r2, m);
        lemma_below_contained(g, q1, m);
        let below = ring_sum(f, row_sums(g, q1, m).drop_last());
        let c1 = q1.coeff(x);
        let c2 = q2.coeff(x);
        let u1 = f.mul_spec(lead, c1);
        let u2 = f.mul_spec(lead, c2);
        let rest1 = coeff_in::<F, E>(r1, m);
        let rest2 = coeff_in::<F, E>(r2, m);
        q1.lemma_coeff_contained(x);
        q2.lemma_coeff_contained(x);
        f.lemma_constants();
        f.lemma_closed(lead, c1);
        f.lemma_closed(lead, c2);
        f.lemma_closed(u1, rest1);
        f.lemma_closed(u2, rest2);
        f.lemma_add_associative(below, u1, rest1);
        f.lemma_add_associative(below, u2, rest2);
        lemma_add_cancel_left(f, f.add_spec(u1, rest1), f.add_spec(u2, rest2), below);
        crate::rings::lemma_mul_zero(f, lead);
        if r1.dom().contains(m) {
            // the first quotient has no term here
            crate::rings::lemma_zero_add(f, rest1);
            if !r2.dom().contains(m) {
                f.lemma_add_zero(u2);
                f.lemma_mul_commutative(lead, c2);
                assert(divides(f, lead, rest1));
                f.lemma_quot_rem(rest1, lead);
                assert(false);
            }
        } else if r2.dom().contains(m) {
            crate::rings::lemma_zero_add(f, rest2);
            f.lemma_add_zero(u1);
            f.lemma_mul_commutative(lead, c1);
            assert(divides(f, lead, rest2));
            f.lemma_quot_rem(rest2, lead);
            assert(false);
        } else {
            f.lemma_add_zero(u1);
            f.lemma_add_zero(u2);
            let d = sub_spec(f, c1, c2);
            f.lemma_closed(c2, c2);
            f.lemma_closed(c1, f.neg_spec(c2));
            lemma_mul_sub(f, lead, c1, c2);
            f.lemma_add_neg(u2);
            f.lemma_no_zero_divisors(lead, d);
            lemma_sub_zero(f, c1, c2);
        }
    }
}

/// Two quotients of whole divisions agree at every monomial.
proof fn lemma_whole_agree<F: EuclideanDomain, E: Exponent>(
    a: MultivariatePolynomial<F, E>,
    g: MultivariatePolynomial<F, E>,
    q1: MultivariatePolynomial<F, E>,
    r1: Map<Seq<E>, F::Element>,
    q2: MultivariatePolynomial<F, E>,
    r2: Map<Seq<E>, F::Element>,
    x: Seq<E>,
)
    requires
        two_whole_divisions(a, g, q1, r1, q2, r2),
    ensures
        q1.coeff(x) == q2.coeff(x),
    decreases rank_bound(x.len()) - rank(key_of(x)),
{
    assert forall|y: Seq<E>| #[trigger] lex_lt(x, y) implies q1.coeff(y) == q2.coeff(y) by {
        lemma_key_of(x, y);
        lemma_rank_monotone(key_of(x), key_of(y));
        lemma_rank_bound(key_of(y));
        lemma_whole_agree(a, g, q1, r1, q2, r2, y);
    }
    lemma_whole_agree_at(a, g, q1, r1, q2, r2, x);
}

/// Equal quotients leave equal remainders.
proof fn lemma_remainders_agree<F: Ring, E: Exponent>(
    a: MultivariatePolynomial<F, E>,
    g: MultivariatePolynomial<F, E>,
    q1: MultivariatePolynomial<F, E>,
    r1: Map<Seq<E>, F::Element>,
    q2: MultivariatePolynomial<F, E>,
    r2: Map<Seq<E>, F::Element>,
)
    requires
        a.field == g.field,
        terms_ok(g.field, r1),
        terms_ok(g.field, r2),
        divides_into(a, g, q1, r1),
        divides_into(a, g, q2, r2),
        forall|x: Seq<E>| q1.coeff(x) == q2.coeff(x),
    ensures
        q1@ == q2@,
        r1 == r2,
{
    let f = g.field;
    q1.lemma_rows();
    q2.lemma_rows();
    f.lemma_constants();
    assert forall|x: Seq<E>| q1@.dom().contains(x) <==> q2@.dom().contains(x) by {
        assert(q1.coeff(x) == q2.coeff(x));
    }
    assert forall|x: Seq<E>| q1@.dom().contains(x) implies q1@[x] == q2@[x] by {
        assert(q1.coeff(x) == q2.coeff(x));
    }
    assert(q1@ =~= q2@);
    lemma_view_determines(&q1, &q2);
    assert forall|x: Seq<E>| coeff_in::<F, E>(r1, x) == coeff_in::<F, E>(r2, x) by {
        lemma_division_coeff(a, g, q1, r1, x);
        lemma_division_coeff(a, g, q2, r2, x);
        assert(row_sums(q1, g, x) =~= row_sums(q2, g, x)) by {
            assert forall|i: int| 0 <= i < q1.nterms implies crate::poly::product::pair_terms(
                q1,
                g,
                i,
                x,
            ) =~= crate::poly::product::pair_terms(q2, g, i, x) by {}
        }
        crate::poly::product::lemma_can_pair(q1, g);
        lemma_pair_terms_contained(q1, g, x);
        lemma_add_cancel_left(
            f,
            coeff_in::<F, E>(r1, x),
            coeff_in::<F, E>(r2, x),
            product_coeff(q1, g, x),
        );
    }
    assert forall|x: Seq<E>| r1.dom().contains(x) <==> r2.dom().contains(x) by {
        assert(coeff_in::<F, E>(r1, x) == coeff_in::<F, E>(r2, x));
    }
    assert forall|x: Seq<E>| r1.dom().contains(x) implies r1[x] == r2[x] by {
        assert(coeff_in::<F, E>(r1, x) == coeff_in::<F, E>(r2, x));
    }
    assert(r1 =~= r2);
}

/// Synthetic division is determined by what it promises: two divisions of
/// `a` by `g` in which every coefficient goes as a whole to the quotient or
/// to the remainder, and to the remainder only where the leading monomial of
/// `g` does not divide its monomial or the leading coefficient does not
/// divide it, have the same quotient and the same remainder.
pub proof fn law_whole_division_unique<F: EuclideanDomain, E: Exponent>(
    a: MultivariatePolynomial<F, E>,
    g: MultivariatePolynomial<F, E>,
    q1: MultivariatePolynomial<F, E>,
    r1: MultivariatePolynomial<F, E>,
    q2: MultivariatePolynomial<F, E>,
    r2: MultivariatePolynomial<F, E>,
)
    requires
        g.nterms > 0,
        a.field == g.field,
        r1.wf(),
        r2.wf(),
        r1.field == g.field,
        r2.field == g.field,
        division_holds(a, g, q1, r1),
        division_holds(a, g, q2, r2),
        remainder_settled(r1, g),
        remainder_settled(r2, g),
        remainder_whole(q1, r1, g),
        remainder_whole(q2, r2, g),
    ensures
        q1@ == q2@,
        r1@ == r2@,
{
    r1.lemma_rows();
    r2.lemma_rows();
    assert(two_whole_divisions(a, g, q1, r1@, q2, r2@));
    assert forall|x: Seq<E>| q1.coeff(x) == q2.coeff(x) by {
        lemma_whole_agree(a, g, q1, r1@, q2, r2@, x);
    }
    lemma_remainders_agree(a, g, q1, r1@, q2, r2@);
}

} // verus!
