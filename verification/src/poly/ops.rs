//! The product and the exact quotient of two polynomials, and the walk over
//! the terms of a polynomial.
use crate::poly::arith::add_view;
use crate::poly::division::term_divisible;
use crate::poly::heap_division::{clean_division, divides_cleanly};
use crate::poly::polynomial::{
    coeff_in, same_variables, var_map_view, MonomialView, MultivariatePolynomial,
};
use crate::poly::product::{
    can_multiply, lemma_can_pair, lemma_pair_terms_contained, mul_view, product_coeff,
    product_fits,
};
use crate::poly::unique::{lemma_divisions_agree, two_divisions};
use crate::poly::Exponent;
use crate::rings::{EuclideanDomain, Ring};
use vstd::prelude::*;

verus! {

/// `q` is the quotient of an exact division of `a` by `g`: `q * g = a`.
pub open spec fn exact_quotient<F: Ring, E: Exponent>(
    a: MultivariatePolynomial<F, E>,
    g: MultivariatePolynomial<F, E>,
    q: MultivariatePolynomial<F, E>,
) -> bool {
    can_multiply(q, g) && mul_view(q, g) == a@
}

/// A product to which nothing is added stays what it is.
pub proof fn lemma_product_plus_nothing<F: Ring, E: Exponent>(
    q: MultivariatePolynomial<F, E>,
    g: MultivariatePolynomial<F, E>,
)
    requires
        can_multiply(q, g),
    ensures
        add_view(q.field, mul_view(q, g), Map::<Seq<E>, F::Element>::empty()) == mul_view(q, g),
{
    let f = q.field;
    let m = mul_view(q, g);
    let s = add_view(f, m, Map::<Seq<E>, F::Element>::empty());
    lemma_can_pair(q, g);
    assert forall|e: Seq<E>| coeff_in::<F, E>(s, e) == coeff_in::<F, E>(m, e) && (s.dom().contains(e)
        <==> m.dom().contains(e)) by {
        lemma_pair_terms_contained(q, g, e);
        f.lemma_add_zero(product_coeff(q, g, e));
    }
    assert(s =~= m);
}

impl<F: Ring, E: Exponent> MultivariatePolynomial<F, E> {
    /// The product of two polynomials.
    pub fn mul(&self, other: &Self) -> (res: Self)
        requires
            self.wf(),
            other.wf(),
            self.field == other.field,
            same_variables(self.var_map, other.var_map) || self.nterms == 0 || other.nterms == 0,
            self.nterms > 0 && other.nterms > 0 ==> self.nvars == other.nvars && product_fits(
                *self,
                *other,
            ),
        ensures
            res.wf(),
            res@ == mul_view(*self, *other),
            res.nvars == self.nvars,
            res.field == self.field,
            var_map_view(res.var_map) == var_map_view(self.var_map),
    {
        self.heap_mul(other)
    }

    /// The terms of the polynomial, from the first one on.
    #[inline]
    pub fn into_iter(&self) -> (r: MonomialViewIterator<'_, F, E>)
        ensures
            r.poly == self,
            r.index == 0,
    {
        MonomialViewIterator { poly: self, index: 0 }
    }
}

impl<F: EuclideanDomain, E: Exponent> MultivariatePolynomial<F, E> {
    /// The quotient of the polynomial by `other`, if the division leaves no
    /// remainder. There is none either if the division cannot be carried
    /// out cleanly in the ring, or if an exponent is out of range.
    pub fn div(&self, other: &Self) -> (res: Option<Self>)
        requires
            self.wf(),
            other.wf(),
            self.field == other.field,
            same_variables(self.var_map, other.var_map) || self.nterms == 0,
            self.nvars == other.nvars,
            other.nterms > 0,
        ensures
            res matches Some(q) ==> q.wf() && exact_quotient(*self, *other, q) && q.nvars
                == self.nvars && q.field == self.field && var_map_view(q.var_map) == var_map_view(
                self.var_map,
            ),
            self.nterms > 0 && other.nterms == 1 ==> (res is Some <==> forall|k: int|
                0 <= k < self.nterms ==> term_divisible(*self, *other, k)),
            other.nterms > 1 ==> (res is Some <==> exists|q: Self|
                exact_quotient(*self, *other, q)),
    {
        proof {
            // an exact quotient makes a clean division
            if other.nterms > 1 && exists|y: Self| exact_quotient(*self, *other, y) {
                let y = choose|y: Self| exact_quotient(*self, *other, y);
                lemma_product_plus_nothing(y, *other);
                assert(clean_division(*self, *other, y, Map::<Seq<E>, F::Element>::empty()));
            }
        }
        match self.quot_rem(other) {
            None => None,
            Some((q, r)) => {
                proof {
                    r.lemma_rows();
                    self.lemma_rows();
                    if r.nterms == 0 {
                        assert(r@ =~= Map::<Seq<E>, F::Element>::empty());
                        lemma_product_plus_nothing(q, *other);
                        assert(exact_quotient(*self, *other, q));
                    } else {
                        assert(r@.dom().contains(r.rows()[0]));
                    }
                    if self.nterms > 0 {
                        assert(self@.dom().contains(self.rows()[0]));
                    }
                    if other.nterms > 1 && r.nterms > 0 && divides_cleanly(*self, *other) {
                        assert forall|y: Self| !exact_quotient(*self, *other, y) by {
                            if exact_quotient(*self, *other, y) {
                                lemma_product_plus_nothing(y, *other);
                                other.lemma_rows();
                                assert(two_divisions(
                                    *self,
                                    *other,
                                    q,
                                    r@,
                                    y,
                                    Map::<Seq<E>, F::Element>::empty(),
                                ));
                                lemma_divisions_agree(
                                    *self,
                                    *other,
                                    q,
                                    r@,
                                    y,
                                    Map::<Seq<E>, F::Element>::empty(),
                                );
                            }
                        }
                    }
                }
                if r.is_zero() {
                    Some(q)
                } else {
                    None
                }
            },
        }
    }
}

/// A walk over the terms of a polynomial.
pub struct MonomialViewIterator<'a, F: Ring, E: Exponent> {
    pub poly: &'a MultivariatePolynomial<F, E>,
    pub index: usize,
}

impl<'a, F: Ring, E: Exponent> MonomialViewIterator<'a, F, E> {
    /// The next term of the polynomial, if there is one.
    #[inline]
    pub fn next(&mut self) -> (r: Option<MonomialView<'a, F, E>>)
        requires
            old(self).poly.consistent(),
            old(self).index <= old(self).poly.nterms,
        ensures
            final(self).poly == old(self).poly,
            old(self).index == old(self).poly.nterms ==> r is None && final(self).index == old(
                self,
            ).index,
            old(self).index < old(self).poly.nterms ==> r is Some && *r->0.coefficient == old(
                self,
            ).poly.coefficients@[old(self).index as int] && r->0.exponents@ == old(
                self,
            ).poly.rows()[old(self).index as int] && final(self).index == old(self).index + 1,
    {
        if self.index == self.poly.nterms {
            None
        } else {
            let view = self.poly.to_monomial_view(self.index);
            self.index += 1;
            Some(view)
        }
    }
}

} // verus!
