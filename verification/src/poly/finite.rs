//! Division of polynomials over a finite field, for a divisor in one variable
//! or with a single term.
use crate::poly::arith::{add_view, in_rows_before, scale_view};
use crate::poly::heap_division::{division_holds, g_back, remainder_reduced};
use crate::poly::monomial::{dominates, exponents_dominate, lemma_lex_transitive, lex_lt};
use crate::poly::polynomial::{coeff_in, same_variables, var_map_view, MultivariatePolynomial};
use crate::poly::synthetic::{main_var, univariate_in};
use crate::poly::Exponent;
use crate::rings::finite_field::FiniteField;
use crate::rings::{EuclideanDomain, Field, Ring};
use vstd::prelude::*;

verus! {

impl<F: EuclideanDomain, E: Exponent> MultivariatePolynomial<F, E> {
    /// Multiplies every coefficient by `c`, which is not zero, in place. In a
    /// ring without zero divisors no coefficient becomes zero.
    pub fn scale_in_place(&mut self, c: &F::Element)
        requires
            old(self).wf(),
            old(self).field.contains(*c),
            *c != F::zero_spec(),
        ensures
            final(self).wf(),
            final(self)@ == scale_view(old(self).field, old(self)@, *c),
            final(self).rows() == old(self).rows(),
            final(self).exponents@ == old(self).exponents@,
            final(self).nterms == old(self).nterms,
            final(self).nvars == old(self).nvars,
            final(self).field == old(self).field,
            final(self).var_map == old(self).var_map,
            forall|k: int|
                0 <= k < old(self).nterms ==> #[trigger] final(self).coefficients@[k] == old(
                    self,
                ).field.mul_spec(old(self).coefficients@[k], *c),
    {
        let n = self.nterms;
        let ghost f = self.field;
        let mut k: usize = 0;
        while k < n
            invariant
                old(self).wf(),
                f == old(self).field,
                f.contains(*c),
                *c != F::zero_spec(),
                n == old(self).nterms,
                k <= n,
                self.coefficients@.len() == n,
                self.exponents == old(self).exponents,
                self.nterms == n,
                self.nvars == old(self).nvars,
                self.field == f,
                self.var_map == old(self).var_map,
                forall|i: int|
                    0 <= i < k ==> #[trigger] self.coefficients@[i] == f.mul_spec(
                        old(self).coefficients@[i],
                        *c,
                    ),
                forall|i: int|
                    k <= i < n ==> #[trigger] self.coefficients@[i] == old(self).coefficients@[i],
            decreases n - k,
        {
            let p = self.field.mul(&self.coefficients[k], c);
            self.coefficients[k] = p;
            k += 1;
        }
        proof {
            old(self).lemma_rows();
            assert forall|i: int| 0 <= i < n implies #[trigger] self.coefficients@[i]
                != F::zero_spec() && f.contains(self.coefficients@[i]) by {
                f.lemma_closed(old(self).coefficients@[i], *c);
                if self.coefficients@[i] == F::zero_spec() {
                    f.lemma_no_zero_divisors(old(self).coefficients@[i], *c);
                }
            }
            self.lemma_rows();
            assert forall|x: Seq<E>| self@.dom().contains(x) <==> scale_view(
                f,
                old(self)@,
                *c,
            ).dom().contains(x) by {
                if self@.dom().contains(x) {
                    assert(old(self)@.dom().contains(x));
                }
                if old(self)@.dom().contains(x) {
                    let i = old(self).rows().index_of(x);
                    assert(self.rows()[i] == x);
                }
            }
            assert forall|x: Seq<E>| self@.dom().contains(x) implies self@[x] == scale_view(
                f,
                old(self)@,
                *c,
            )[x] by {
                let i = self.rows().index_of(x);
                assert(old(self).rows()[i] == x);
            }
            assert(self@ =~= scale_view(f, old(self)@, *c));
        }
    }

    /// The terms whose monomial is divisible by the monomial with the exponent
    /// vector `lead`, and the other terms.
    pub fn split_divisible(&self, lead: &[E]) -> (res: (Self, Self))
        requires
            self.wf(),
            lead@.len() == self.nvars,
        ensures
            res.0.wf(),
            res.1.wf(),
            res.0.nvars == self.nvars,
            res.1.nvars == self.nvars,
            res.0.field == self.field,
            res.1.field == self.field,
            var_map_view(res.0.var_map) == var_map_view(self.var_map),
            var_map_view(res.1.var_map) == var_map_view(self.var_map),
            forall|x: Seq<E>|
                #[trigger] res.0@.dom().contains(x) <==> self@.dom().contains(x) && dominates(
                    x,
                    lead@,
                ),
            forall|x: Seq<E>|
                #[trigger] res.1@.dom().contains(x) <==> self@.dom().contains(x) && !dominates(
                    x,
                    lead@,
                ),
            forall|x: Seq<E>| res.0@.dom().contains(x) ==> #[trigger] res.0@[x] == self@[x],
            forall|x: Seq<E>| res.1@.dom().contains(x) ==> #[trigger] res.1@[x] == self@[x],
            add_view(self.field, res.0@, res.1@) == self@,
    {
        let n = self.nterms;
        let ghost f = self.field;
        let mut yes = self.new_from(Some(n));
        let mut no = self.new_from(None);
        let mut k: usize = 0;
        proof {
            self.lemma_rows();
        }
        while k < n
            invariant
                self.wf(),
                f == self.field,
                lead@.len() == self.nvars,
                n == self.nterms,
                k <= n,
                yes.wf(),
                no.wf(),
                yes.nvars == self.nvars,
                no.nvars == self.nvars,
                yes.field == f,
                no.field == f,
                var_map_view(yes.var_map) == var_map_view(self.var_map),
                var_map_view(no.var_map) == var_map_view(self.var_map),
                forall|i: int|
                    0 <= i < yes.nterms && k < n ==> lex_lt(
                        #[trigger] yes.rows()[i],
                        self.rows()[k as int],
                    ),
                forall|i: int|
                    0 <= i < no.nterms && k < n ==> lex_lt(
                        #[trigger] no.rows()[i],
                        self.rows()[k as int],
                    ),
                forall|x: Seq<E>|
                    #[trigger] yes@.dom().contains(x) <==> in_rows_before(self.rows(), k as int, x)
                        && dominates(x, lead@),
                forall|x: Seq<E>|
                    #[trigger] no@.dom().contains(x) <==> in_rows_before(self.rows(), k as int, x)
                        && !dominates(x, lead@),
                forall|x: Seq<E>| yes@.dom().contains(x) ==> #[trigger] yes@[x] == self@[x],
                forall|x: Seq<E>| no@.dom().contains(x) ==> #[trigger] no@[x] == self@[x],
            decreases n - k,
        {
            proof {
                self.lemma_rows();
                yes.lemma_rows();
                no.lemma_rows();
            }
            let row = self.exponents(k);
            let c = self.field.copy_element(&self.coefficients[k]);
            let ghost yes0 = yes;
            let ghost no0 = no;
            let fits = exponents_dominate(row, lead);
            if fits {
                yes.push_back(c, row);
            } else {
                no.push_back(c, row);
            }
            proof {
                let e = row@;
                assert(self@.dom().contains(self.rows()[k as int]));
                assert forall|i: int| 0 <= i < yes.nterms && k + 1 < n implies lex_lt(
                    #[trigger] yes.rows()[i],
                    self.rows()[k + 1],
                ) by {
                    if i < yes0.nterms {
                        assert(yes.rows()[i] == yes0.rows()[i]);
                        lemma_lex_transitive(yes0.rows()[i], e, self.rows()[k + 1]);
                    }
                }
                assert forall|i: int| 0 <= i < no.nterms && k + 1 < n implies lex_lt(
                    #[trigger] no.rows()[i],
                    self.rows()[k + 1],
                ) by {
                    if i < no0.nterms {
                        assert(no.rows()[i] == no0.rows()[i]);
                        lemma_lex_transitive(no0.rows()[i], e, self.rows()[k + 1]);
                    }
                }
                assert forall|x: Seq<E>| in_rows_before(self.rows(), k + 1, x) <==> (in_rows_before(
                    self.rows(),
                    k as int,
                    x,
                ) || x == e) by {
                    if in_rows_before(self.rows(), k + 1, x) {
                        let i = choose|i: int| 0 <= i < k + 1 && #[trigger] self.rows()[i] == x;
                        if i < k {
                            assert(self.rows()[i] == x);
                        }
                    }
                    if in_rows_before(self.rows(), k as int, x) {
                        let i = choose|i: int| 0 <= i < k && #[trigger] self.rows()[i] == x;
                        assert(self.rows()[i] == x);
                    }
                    if x == e {
                        assert(self.rows()[k as int] == x);
                    }
                }
                assert forall|x: Seq<E>|
                    #[trigger] yes@.dom().contains(x) <==> in_rows_before(self.rows(), k + 1, x)
                        && dominates(x, lead@) by {
                    assert(yes0@.dom().contains(x) <==> in_rows_before(self.rows(), k as int, x)
                        && dominates(x, lead@));
                }
                assert forall|x: Seq<E>|
                    #[trigger] no@.dom().contains(x) <==> in_rows_before(self.rows(), k + 1, x)
                        && !dominates(x, lead@) by {
                    assert(no0@.dom().contains(x) <==> in_rows_before(self.rows(), k as int, x)
                        && !dominates(x, lead@));
                }
                assert forall|x: Seq<E>| yes@.dom().contains(x) implies #[trigger] yes@[x] == self@[x] by {
                    if x != e || !fits {
                        assert(yes0@.dom().contains(x));
                        assert(yes0@[x] == self@[x]);
                    }
                }
                assert forall|x: Seq<E>| no@.dom().contains(x) implies #[trigger] no@[x] == self@[x] by {
                    if x != e || fits {
                        assert(no0@.dom().contains(x));
                        assert(no0@[x] == self@[x]);
                    }
                }
            }
            k += 1;
        }
        proof {
            self.lemma_rows();
            yes.lemma_rows();
            no.lemma_rows();
            f.lemma_constants();
            assert forall|x: Seq<E>| in_rows_before(self.rows(), n as int, x) <==> self@.dom().contains(
                x,
            ) by {
                if in_rows_before(self.rows(), n as int, x) {
                    let i = choose|i: int| 0 <= i < n && #[trigger] self.rows()[i] == x;
                    assert(self@.dom().contains(self.rows()[i]));
                }
                if self@.dom().contains(x) {
                    let i = self.rows().index_of(x);
                    assert(self.rows()[i] == x);
                }
            }
            let sum = add_view(f, yes@, no@);
            assert forall|x: Seq<E>| #[trigger]
                f.add_spec(coeff_in::<F, E>(yes@, x), coeff_in::<F, E>(no@, x)) == coeff_in::<F, E>(
                    self@,
                    x,
                ) by {
                assert(yes@.dom().contains(x) <==> self@.dom().contains(x) && dominates(x, lead@));
                assert(no@.dom().contains(x) <==> self@.dom().contains(x) && !dominates(x, lead@));
                self.lemma_coeff_contained(x);
                f.lemma_add_zero(self.coeff(x));
                crate::rings::lemma_zero_add(f, self.coeff(x));
                if yes@.dom().contains(x) {
                    assert(yes@[x] == self@[x]);
                }
                if no@.dom().contains(x) {
                    assert(no@[x] == self@[x]);
                }
            }
            assert forall|x: Seq<E>| sum.dom().contains(x) <==> self@.dom().contains(x) by {
                assert(f.add_spec(coeff_in::<F, E>(yes@, x), coeff_in::<F, E>(no@, x))
                    == coeff_in::<F, E>(self@, x));
                assert(yes@.dom().contains(x) <==> self@.dom().contains(x) && dominates(x, lead@));
                assert(no@.dom().contains(x) <==> self@.dom().contains(x) && !dominates(x, lead@));
            }
            assert forall|x: Seq<E>| sum.dom().contains(x) implies sum[x] == self@[x] by {
                assert(f.add_spec(coeff_in::<F, E>(yes@, x), coeff_in::<F, E>(no@, x))
                    == coeff_in::<F, E>(self@, x));
            }
            assert(sum =~= self@);
        }
        (yes, no)
    }
}

/// `monic` is the divisor `g` with every coefficient multiplied by the
/// inverse of the leading coefficient, so that its leading coefficient is one.
pub open spec fn normalized<E: Exponent>(
    g: MultivariatePolynomial<FiniteField, E>,
    monic: MultivariatePolynomial<FiniteField, E>,
) -> bool {
    &&& monic.wf()
    &&& monic.nterms == g.nterms
    &&& monic.nvars == g.nvars
    &&& monic.field == g.field
    &&& monic.rows() == g.rows()
    &&& forall|k: int|
        0 <= k < g.nterms ==> #[trigger] monic.coefficients@[k] == g.field.mul_spec(
            g.coefficients@[k],
            g.field.inv_spec(g.coefficients@.last()),
        )
}

/// `q1` is the quotient of `a` by the normalized divisor, with the remainder
/// `r`, and `q` is `q1` with every coefficient multiplied by the leading
/// coefficient of the divisor `g`.
pub open spec fn scaled_division<E: Exponent>(
    a: MultivariatePolynomial<FiniteField, E>,
    g: MultivariatePolynomial<FiniteField, E>,
    monic: MultivariatePolynomial<FiniteField, E>,
    q1: MultivariatePolynomial<FiniteField, E>,
    q: MultivariatePolynomial<FiniteField, E>,
    r: MultivariatePolynomial<FiniteField, E>,
) -> bool {
    &&& normalized(g, monic)
    &&& division_holds(a, monic, q1, r)
    &&& q.nterms == q1.nterms
    &&& q.rows() == q1.rows()
    &&& q@ == scale_view(g.field, q1@, g.coefficients@.last())
    &&& forall|k: int|
        0 <= k < q1.nterms ==> #[trigger] q.coefficients@[k] == g.field.mul_spec(
            q1.coefficients@[k],
            g.coefficients@.last(),
        )
}

/// The division is one by the divisor as it is: the divisor has a single
/// term, or its leading coefficient is one.
pub open spec fn divides_as_it_is<E: Exponent>(g: MultivariatePolynomial<FiniteField, E>) -> bool {
    g.nterms == 1 || g.coefficients@.last() == g.field.one_spec()
}

impl<E: Exponent> MultivariatePolynomial<FiniteField, E> {
    /// Optimized division routine for the univariate case in a finite field.
    ///
    /// A divisor with a single term may have any variables. A divisor with
    /// more terms has no variable but the one of the leading monomial of
    /// `self`, and neither has `self`. Such a divisor is normalized for the
    /// division, so that its leading coefficient is one, and put back as it
    /// was afterwards; the quotient by the normalized divisor is scaled by the
    /// leading coefficient that the divisor had. The remainder is the
    /// remainder of the division by the divisor itself.
    pub fn fast_divmod(&self, div: &mut Self) -> (res: (Self, Self))
        requires
            self.wf(),
            old(div).wf(),
            self.field == old(div).field,
            same_variables(self.var_map, old(div).var_map) || self.nterms == 0,
            self.nvars == old(div).nvars,
            old(div).nterms > 0,
            old(div).nterms > 1 ==> self.nterms > 0 && self.nvars > 0 && univariate_in(
                *self,
                main_var(self.rows().last()),
            ) && univariate_in(*old(div), main_var(self.rows().last())),
        ensures
            final(div).wf(),
            final(div)@ == old(div)@,
            final(div).rows() == old(div).rows(),
            final(div).coefficients@ == old(div).coefficients@,
            final(div).nvars == old(div).nvars,
            final(div).field == old(div).field,
            final(div).var_map == old(div).var_map,
            res.0.wf(),
            res.1.wf(),
            res.0.nvars == self.nvars,
            res.1.nvars == self.nvars,
            res.0.field == self.field,
            res.1.field == self.field,
            var_map_view(res.0.var_map) == var_map_view(self.var_map),
            var_map_view(res.1.var_map) == var_map_view(self.var_map),
            divides_as_it_is(*old(div)) ==> division_holds(*self, *old(div), res.0, res.1),
            !divides_as_it_is(*old(div)) ==> exists|monic: Self, q1: Self|
                scaled_division(*self, *old(div), monic, q1, res.0, res.1),
            remainder_reduced(res.1, *old(div)),
    {
        let ghost f = self.field;
        let ghost g = *div;
        proof {
            self.lemma_rows();
            div.lemma_rows();
            f.lemma_constants();
        }
        if div.nterms == 1 {
            // every term that the monomial of the divisor divides goes into the quotient
            let parts = self.split_divisible(div.exponents(0));
            let yes = parts.0;
            let no = parts.1;
            proof {
                yes.lemma_rows();
                assert forall|k: int| 0 <= k < yes.nterms implies #[trigger] crate::poly::division::term_divisible(
                    yes,
                    g,
                    k,
                ) by {
                    assert(yes@.dom().contains(yes.rows()[k]));
                }
            }
            let q = yes.monomial_quotient(div).unwrap();
            proof {
                assert forall|x: Seq<E>| #[trigger] no@.dom().contains(x) implies !dominates(
                    x,
                    g_back(g, 0),
                ) by {}
            }
            return (q, no);
        }
        let o = div.lcoeff();
        // normalize the lcoeff to 1 to prevent a costly inversion
        if !self.field.is_one(&o) {
            let inv = self.field.inv(&o);
            proof {
                f.lemma_inv(o);
                if inv == 0 {
                    crate::rings::lemma_mul_zero(f, o);
                }
            }
            div.scale_in_place(&inv);
            let ghost monic = *div;
            proof {
                assert forall|k: int| 0 <= k < monic.nterms implies crate::poly::synthetic::is_unit(
                    #[trigger] monic.rows()[k],
                    main_var(self.rows().last()),
                ) by {
                    assert(monic.rows()[k] == g.rows()[k]);
                }
            }
            let res = self.synthetic_division(div);
            let mut q = res.0;
            let r = res.1;
            let ghost q1 = q;
            // scale the quotient back
            q.scale_in_place(&o);
            div.scale_in_place(&o);
            proof {
                // the divisor is as it was
                assert forall|k: int| 0 <= k < g.nterms implies #[trigger] div.coefficients@[k]
                    == g.coefficients@[k] by {
                    let c = g.coefficients@[k];
                    f.lemma_mul_associative(c, inv, o);
                    f.lemma_mul_commutative(inv, o);
                    f.lemma_mul_one(c);
                }
                assert(div.coefficients@ =~= g.coefficients@);
                div.lemma_rows();
                assert(div@ =~= g@);
                assert forall|x: Seq<E>| #[trigger] r@.dom().contains(x) implies !dominates(
                    x,
                    g_back(g, 0),
                ) by {
                    assert(g_back(monic, 0) == g_back(g, 0));
                }
                assert(normalized(g, monic));
                assert(scaled_division(*self, g, monic, q1, q, r));
            }
            return (q, r);
        }
        // fall back to generic case
        let res = self.synthetic_division(div);
        proof {
            let r = res.1;
            assert forall|x: Seq<E>| #[trigger] r@.dom().contains(x) implies !dominates(
                x,
                g_back(g, 0),
            ) by {}
        }
        res
    }
}

} // verus!
