//! Equality, negation, addition and subtraction of polynomials, and the
//! products with a scalar and with a monomial.
use crate::poly::monomial::{
    compare_exponents, dominates, lemma_lex_asymmetric, lemma_lex_irreflexive,
    lemma_lex_transitive, lemma_row_add_cancel, lemma_row_add_monotone, lemma_row_add_values,
    lemma_row_sub_values, lex_lt, row_add, row_sub, sum_fits, zero_row, Relation,
};
use crate::poly::matrix::filled;
use crate::poly::polynomial::{
    add_term, coeff_in, same_variables, var_map_view, MultivariatePolynomial,
};
use crate::poly::Exponent;
use crate::rings::{lemma_neg_is_zero, lemma_zero_add, Ring};
use vstd::prelude::*;

verus! {

/// The sum of two maps of terms: the coefficients are added, and a term
/// stays where the sum is not zero.
pub open spec fn add_view<F: Ring, E: Exponent>(
    f: F,
    a: Map<Seq<E>, F::Element>,
    b: Map<Seq<E>, F::Element>,
) -> Map<Seq<E>, F::Element> {
    Map::new(
        |e: Seq<E>|
            (a.dom().contains(e) || b.dom().contains(e)) && f.add_spec(
                coeff_in::<F, E>(a, e),
                coeff_in::<F, E>(b, e),
            ) != F::zero_spec(),
        |e: Seq<E>| f.add_spec(coeff_in::<F, E>(a, e), coeff_in::<F, E>(b, e)),
    )
}

/// The map of terms with every coefficient negated.
pub open spec fn neg_view<F: Ring, E: Exponent>(f: F, a: Map<Seq<E>, F::Element>) -> Map<
    Seq<E>,
    F::Element,
> {
    Map::new(|e: Seq<E>| a.dom().contains(e), |e: Seq<E>| f.neg_spec(a[e]))
}

/// The difference of two maps of terms.
pub open spec fn sub_view<F: Ring, E: Exponent>(
    f: F,
    a: Map<Seq<E>, F::Element>,
    b: Map<Seq<E>, F::Element>,
) -> Map<Seq<E>, F::Element> {
    add_view(f, a, neg_view(f, b))
}

/// The map of terms with every coefficient multiplied by `c`; a term stays
/// where the product is not zero.
pub open spec fn scale_view<F: Ring, E: Exponent>(
    f: F,
    a: Map<Seq<E>, F::Element>,
    c: F::Element,
) -> Map<Seq<E>, F::Element> {
    Map::new(
        |e: Seq<E>| a.dom().contains(e) && f.mul_spec(a[e], c) != F::zero_spec(),
        |e: Seq<E>| f.mul_spec(a[e], c),
    )
}

/// The map of terms multiplied by the monomial `c * x^s`: every coefficient is
/// multiplied by `c` and `s` is added to every exponent vector; a term stays
/// where the product is not zero.
pub open spec fn monomial_mul_view<F: Ring, E: Exponent>(
    f: F,
    a: Map<Seq<E>, F::Element>,
    c: F::Element,
    s: Seq<E>,
) -> Map<Seq<E>, F::Element> {
    Map::new(
        |e: Seq<E>|
            dominates(e, s) && a.dom().contains(row_sub(e, s)) && f.mul_spec(
                a[row_sub(e, s)],
                c,
            ) != F::zero_spec(),
        |e: Seq<E>| f.mul_spec(a[row_sub(e, s)], c),
    )
}

/// One of the first `n` rows is `e`.
pub open spec fn in_rows_before<E: Exponent>(rows: Seq<Seq<E>>, n: int, e: Seq<E>) -> bool {
    exists|k: int| 0 <= k < n && #[trigger] rows[k] == e
}

/// Two consistent polynomials agree in their first `k` terms if they have the
/// same view.
proof fn lemma_rows_agree<F: Ring, E: Exponent>(
    a: &MultivariatePolynomial<F, E>,
    b: &MultivariatePolynomial<F, E>,
    k: int,
)
    requires
        a.consistent(),
        b.consistent(),
        a@ == b@,
        0 <= k <= a.nterms,
    ensures
        k <= b.nterms,
        forall|i: int| 0 <= i < k ==> #[trigger] a.rows()[i] == b.rows()[i],
    decreases k,
{
    a.lemma_rows();
    b.lemma_rows();
    if k > 0 {
        lemma_rows_agree(a, b, k - 1);
        let e = a.rows()[k - 1];
        assert(a@.dom().contains(e));
        let t = b.rows().index_of(e);
        if t < k - 1 {
            // b.rows()[t] is a.rows()[t], which comes before a.rows()[k - 1]
            assert(a.rows()[t] == b.rows()[t]);
            lemma_lex_asymmetric(a.rows()[t], a.rows()[k - 1]);
        }
        if t > k - 1 {
            let e2 = b.rows()[k - 1];
            assert(b@.dom().contains(e2));
            let s = a.rows().index_of(e2);
            if s < k - 1 {
                assert(a.rows()[s] == b.rows()[s]);
                lemma_lex_asymmetric(b.rows()[s], b.rows()[k - 1]);
            }
            // e2 comes before e in b, and is e or comes after e in a
            assert(lex_lt(e2, e));
            if s > k - 1 {
                lemma_lex_asymmetric(a.rows()[k - 1], a.rows()[s]);
            } else {
                lemma_lex_irreflexive(e);
            }
        }
    }
}

/// The canonical form is unique: two consistent polynomials with the same
/// view have the same terms in the same order.
pub proof fn lemma_view_determines<F: Ring, E: Exponent>(
    a: &MultivariatePolynomial<F, E>,
    b: &MultivariatePolynomial<F, E>,
)
    requires
        a.consistent(),
        b.consistent(),
        a@ == b@,
    ensures
        a.nterms == b.nterms,
        a.rows() == b.rows(),
        a.coefficients@ == b.coefficients@,
{
    a.lemma_rows();
    b.lemma_rows();
    lemma_rows_agree(a, b, a.nterms as int);
    lemma_rows_agree(b, a, b.nterms as int);
    assert(a.rows() =~= b.rows());
    assert forall|k: int| 0 <= k < a.nterms implies a.coefficients@[k] == b.coefficients@[k] by {
        assert(a@[a.rows()[k]] == a.coefficients@[k]);
        assert(b@[b.rows()[k]] == b.coefficients@[k]);
    }
    assert(a.coefficients@ =~= b.coefficients@);
}

impl<F: Ring, E: Exponent> MultivariatePolynomial<F, E> {
    /// Whether two polynomials are the same polynomial. Of polynomials in
    /// different numbers of variables, one has to be zero.
    #[inline]
    pub fn eq(&self, other: &Self) -> (r: bool)
        requires
            self.wf(),
            other.wf(),
            self.nvars == other.nvars || self.nterms == 0 || other.nterms == 0,
        ensures
            r == (self@ == other@),
            r == (self.rows() == other.rows() && self.coefficients@ == other.coefficients@),
    {
        proof {
            self.lemma_rows();
            other.lemma_rows();
            if self@ == other@ {
                lemma_view_determines(self, other);
            }
        }
        if self.nterms != other.nterms {
            return false;
        }
        let n = self.nterms;
        if n == 0 {
            proof {
                assert(self.rows() =~= other.rows());
                assert(self.coefficients@ =~= other.coefficients@);
            }
            return true;
        }
        let mut k: usize = 0;
        while k < n
            invariant
                self.wf(),
                other.wf(),
                self.nvars == other.nvars,
                n == self.nterms,
                n == other.nterms,
                k <= n,
                self@ == other@ ==> self.rows() == other.rows() && self.coefficients@
                    == other.coefficients@,
                forall|i: int| 0 <= i < k ==> #[trigger] self.rows()[i] == other.rows()[i],
                forall|i: int|
                    0 <= i < k ==> #[trigger] self.coefficients@[i] == other.coefficients@[i],
            decreases n - k,
        {
            if compare_exponents(self.exponents(k), other.exponents(k)) != Relation::Equal {
                return false;
            }
            if !self.field.eq_element(&self.coefficients[k], &other.coefficients[k]) {
                return false;
            }
            k += 1;
        }
        proof {
            assert(self.rows() =~= other.rows());
            assert(self.coefficients@ =~= other.coefficients@);
        }
        true
    }

    /// A copy of the polynomial.
    pub fn duplicate(&self) -> (r: Self)
        requires
            self.wf(),
        ensures
            r.wf(),
            r@ == self@,
            r.coefficients@ == self.coefficients@,
            r.exponents@ == self.exponents@,
            r.nterms == self.nterms,
            r.nvars == self.nvars,
            r.field == self.field,
            var_map_view(r.var_map) == var_map_view(self.var_map),
    {
        let n = self.nterms;
        let mut coefficients: Vec<F::Element> = Vec::with_capacity(n);
        let mut k: usize = 0;
        while k < n
            invariant
                n == self.coefficients@.len(),
                k <= n,
                coefficients@ == self.coefficients@.take(k as int),
            decreases n - k,
        {
            coefficients.push(self.field.copy_element(&self.coefficients[k]));
            proof {
                assert(coefficients@ =~= self.coefficients@.take(k + 1));
            }
            k += 1;
        }
        let len = self.exponents.len();
        let mut exponents: Vec<E> = Vec::with_capacity(len);
        let mut i: usize = 0;
        while i < len
            invariant
                len == self.exponents@.len(),
                i <= len,
                exponents@ == self.exponents@.take(i as int),
            decreases len - i,
        {
            exponents.push(self.exponents[i]);
            proof {
                assert(exponents@ =~= self.exponents@.take(i + 1));
            }
            i += 1;
        }
        proof {
            assert(coefficients@ =~= self.coefficients@);
            assert(exponents@ =~= self.exponents@);
        }
        Self {
            coefficients,
            exponents,
            nterms: n,
            nvars: self.nvars,
            field: self.field,
            var_map: crate::poly::polynomial::copy_var_map(&self.var_map),
        }
    }

    /// The negative of the polynomial: the coefficients of all terms are
    /// negated.
    pub fn neg(self) -> (r: Self)
        requires
            self.wf(),
        ensures
            r.wf(),
            r@ == neg_view(self.field, self@),
            r.rows() == self.rows(),
            r.nterms == self.nterms,
            r.nvars == self.nvars,
            r.field == self.field,
            r.var_map == self.var_map,
    {
        let mut r = self;
        let n = r.nterms;
        let mut k: usize = 0;
        while k < n
            invariant
                self.wf(),
                n == self.nterms,
                k <= n,
                r.coefficients@.len() == n,
                r.exponents == self.exponents,
                r.nterms == n,
                r.nvars == self.nvars,
                r.field == self.field,
                r.var_map == self.var_map,
                forall|i: int|
                    0 <= i < k ==> #[trigger] r.coefficients@[i] == self.field.neg_spec(
                        self.coefficients@[i],
                    ),
                forall|i: int| k <= i < n ==> #[trigger] r.coefficients@[i] == self.coefficients@[i],
            decreases n - k,
        {
            let c = r.field.neg(&r.coefficients[k]);
            r.coefficients[k] = c;
            k += 1;
        }
        proof {
            self.lemma_rows();
            assert forall|i: int| 0 <= i < n implies #[trigger] r.coefficients@[i] != F::zero_spec()
                && r.field.contains(r.coefficients@[i]) by {
                self.field.lemma_closed(self.coefficients@[i], self.coefficients@[i]);
                if r.coefficients@[i] == F::zero_spec() {
                    lemma_neg_is_zero(self.field, self.coefficients@[i]);
                }
            }
            r.lemma_rows();
            assert(r@ =~= neg_view(self.field, self@));
        }
        r
    }

    /// The sum of two polynomials, by a linear merge of their terms.
    pub fn add(self, other: Self) -> (r: Self)
        requires
            self.wf(),
            other.wf(),
            self.field == other.field,
            self.nvars == other.nvars || self.nterms == 0 || other.nterms == 0,
            same_variables(self.var_map, other.var_map) || self.nterms == 0 || other.nterms == 0,
        ensures
            r.wf(),
            r@ == add_view(self.field, self@, other@),
            r.nvars == (if self.nterms == 0 {
                other.nvars
            } else {
                self.nvars
            }),
            r.field == self.field,
            var_map_view(r.var_map) == (if self.nterms == 0 {
                var_map_view(other.var_map)
            } else {
                var_map_view(self.var_map)
            }),
    {
        let ghost f = self.field;
        proof {
            self.lemma_rows();
            other.lemma_rows();
        }
        if self.is_zero() {
            proof {
                let sum = add_view(f, self@, other@);
                assert forall|e: Seq<E>| #[trigger]
                    f.add_spec(coeff_in::<F, E>(self@, e), coeff_in::<F, E>(other@, e))
                        == coeff_in::<F, E>(other@, e) by {
                    other.lemma_coeff_contained(e);
                    lemma_zero_add(f, other.coeff(e));
                }
                assert forall|e: Seq<E>| other@.dom().contains(e) <==> sum.dom().contains(e) by {
                    assert(f.add_spec(coeff_in::<F, E>(self@, e), coeff_in::<F, E>(other@, e))
                        == coeff_in::<F, E>(other@, e));
                }
                assert forall|e: Seq<E>| other@.dom().contains(e) implies other@[e] == sum[e] by {
                    assert(f.add_spec(coeff_in::<F, E>(self@, e), coeff_in::<F, E>(other@, e))
                        == coeff_in::<F, E>(other@, e));
                }
                assert(other@ =~= sum);
            }
            return other;
        }
        if other.is_zero() {
            proof {
                let sum = add_view(f, self@, other@);
                assert forall|e: Seq<E>| #[trigger]
                    f.add_spec(coeff_in::<F, E>(self@, e), coeff_in::<F, E>(other@, e))
                        == coeff_in::<F, E>(self@, e) by {
                    self.lemma_coeff_contained(e);
                    f.lemma_add_zero(self.coeff(e));
                }
                assert forall|e: Seq<E>| self@.dom().contains(e) <==> sum.dom().contains(e) by {
                    assert(f.add_spec(coeff_in::<F, E>(self@, e), coeff_in::<F, E>(other@, e))
                        == coeff_in::<F, E>(self@, e));
                }
                assert forall|e: Seq<E>| self@.dom().contains(e) implies self@[e] == sum[e] by {
                    assert(f.add_spec(coeff_in::<F, E>(self@, e), coeff_in::<F, E>(other@, e))
                        == coeff_in::<F, E>(self@, e));
                }
                assert(self@ =~= sum);
            }
            return self;
        }
        // Merge the two polynomials, which are already sorted.
        let n = self.nterms;
        let m = other.nterms;
        let mut res = self.new_from(Some(if n <= usize::MAX - m {
            n + m
        } else {
            n
        }));
        let mut i: usize = 0;
        let mut j: usize = 0;
        while i < n || j < m
            invariant
                self.wf(),
                other.wf(),
                f == self.field,
                f == other.field,
                self.nvars == other.nvars,
                n == self.nterms,
                m == other.nterms,
                i <= n,
                j <= m,
                res.wf(),
                res.nvars == self.nvars,
                res.field == f,
                var_map_view(res.var_map) == var_map_view(self.var_map),
                forall|k: int|
                    0 <= k < res.nterms && i < n ==> lex_lt(
                        #[trigger] res.rows()[k],
                        self.rows()[i as int],
                    ),
                forall|k: int|
                    0 <= k < res.nterms && j < m ==> lex_lt(
                        #[trigger] res.rows()[k],
                        other.rows()[j as int],
                    ),
                forall|k: int|
                    0 <= k < i && j < m ==> lex_lt(#[trigger] self.rows()[k], other.rows()[j as int]),
                forall|k: int|
                    0 <= k < j && i < n ==> lex_lt(#[trigger] other.rows()[k], self.rows()[i as int]),
                forall|e: Seq<E>|
                    res@.dom().contains(e) ==> in_rows_before(self.rows(), i as int, e)
                        || in_rows_before(other.rows(), j as int, e),
                forall|e: Seq<E>|
                    in_rows_before(self.rows(), i as int, e) || in_rows_before(
                        other.rows(),
                        j as int,
                        e,
                    ) ==> coeff_in::<F, E>(res@, e) == f.add_spec(self.coeff(e), other.coeff(e)),
            decreases (n - i) + (m - j),
        {
            proof {
                self.lemma_rows();
                other.lemma_rows();
                res.lemma_rows();
            }
            let mut take_a = i < n;
            let mut take_b = j < m;
            if take_a && take_b {
                match compare_exponents(self.exponents(i), other.exponents(j)) {
                    Relation::Less => {
                        take_b = false;
                    },
                    Relation::Greater => {
                        take_a = false;
                    },
                    Relation::Equal => {},
                }
            }
            let e = if take_a {
                self.exponents(i)
            } else {
                other.exponents(j)
            };
            proof {
                // the coefficients of e in the two polynomials
                if take_a {
                    assert(self.coeff(e@) == self.coefficients@[i as int]);
                } else {
                    // e is a row of other that is no row of self
                    if self@.dom().contains(e@) {
                        let k = self.rows().index_of(e@);
                        if k < i {
                            lemma_lex_asymmetric(self.rows()[k], other.rows()[j as int]);
                        } else {
                            if k > i {
                                lemma_lex_transitive(e@, self.rows()[i as int], self.rows()[k]);
                            }
                            lemma_lex_irreflexive(e@);
                        }
                    }
                    assert(self.coeff(e@) == F::zero_spec());
                }
                if take_b {
                    assert(other.coeff(e@) == other.coefficients@[j as int]);
                } else {
                    if other@.dom().contains(e@) {
                        let k = other.rows().index_of(e@);
                        if k < j {
                            lemma_lex_asymmetric(other.rows()[k], self.rows()[i as int]);
                        } else {
                            if k > j {
                                lemma_lex_transitive(e@, other.rows()[j as int], other.rows()[k]);
                            }
                            lemma_lex_irreflexive(e@);
                        }
                    }
                    assert(other.coeff(e@) == F::zero_spec());
                }
                f.lemma_constants();
                f.lemma_add_zero(self.coeff(e@));
                lemma_zero_add(f, other.coeff(e@));
                f.lemma_closed(self.coeff(e@), other.coeff(e@));
                // e has not been seen
                if res@.dom().contains(e@) {
                    let k = res.rows().index_of(e@);
                    lemma_lex_irreflexive(e@);
                }
            }
            let c = if take_a && take_b {
                self.field.add(&self.coefficients[i], &other.coefficients[j])
            } else if take_a {
                self.field.copy_element(&self.coefficients[i])
            } else {
                self.field.copy_element(&other.coefficients[j])
            };
            let ghost before = res@;
            let ghost before_rows = res.rows();
            if !F::is_zero(&c) {
                res.push_back(c, e);
            }
            proof {
                let i2 = if take_a { i + 1 } else { i as int };
                let j2 = if take_b { j + 1 } else { j as int };
                assert(coeff_in::<F, E>(res@, e@) == f.add_spec(self.coeff(e@), other.coeff(e@)));
                assert forall|k: int| 0 <= k < res.nterms && i2 < n implies lex_lt(
                    #[trigger] res.rows()[k],
                    self.rows()[i2],
                ) by {
                    if k < before_rows.len() {
                        assert(res.rows()[k] == before_rows[k]);
                        if take_a {
                            lemma_lex_transitive(
                                before_rows[k],
                                self.rows()[i as int],
                                self.rows()[i2],
                            );
                        }
                    } else {
                        assert(res.rows()[k] == e@);
                    }
                }
                assert forall|k: int| 0 <= k < res.nterms && j2 < m implies lex_lt(
                    #[trigger] res.rows()[k],
                    other.rows()[j2],
                ) by {
                    if k < before_rows.len() {
                        assert(res.rows()[k] == before_rows[k]);
                        if take_b {
                            lemma_lex_transitive(
                                before_rows[k],
                                other.rows()[j as int],
                                other.rows()[j2],
                            );
                        }
                    } else {
                        assert(res.rows()[k] == e@);
                    }
                }
                assert forall|k: int| 0 <= k < i2 && j2 < m implies lex_lt(
                    #[trigger] self.rows()[k],
                    other.rows()[j2],
                ) by {
                    if take_b {
                        if k < i {
                            lemma_lex_transitive(
                                self.rows()[k],
                                other.rows()[j as int],
                                other.rows()[j2],
                            );
                        }
                    }
                }
                assert forall|k: int| 0 <= k < j2 && i2 < n implies lex_lt(
                    #[trigger] other.rows()[k],
                    self.rows()[i2],
                ) by {
                    if take_a {
                        if k < j {
                            lemma_lex_transitive(
                                other.rows()[k],
                                self.rows()[i as int],
                                self.rows()[i2],
                            );
                        }
                    }
                }
                assert forall|x: Seq<E>| res@.dom().contains(x) implies in_rows_before(
                    self.rows(),
                    i2,
                    x,
                ) || in_rows_before(other.rows(), j2, x) by {
                    if x == e@ {
                        if take_a {
                            assert(self.rows()[i as int] == x);
                        } else {
                            assert(other.rows()[j as int] == x);
                        }
                    } else {
                        assert(before.dom().contains(x));
                        if in_rows_before(self.rows(), i as int, x) {
                            let k = choose|k: int| 0 <= k < i && #[trigger] self.rows()[k] == x;
                            assert(self.rows()[k] == x);
                        } else {
                            let k = choose|k: int| 0 <= k < j && #[trigger] other.rows()[k] == x;
                            assert(other.rows()[k] == x);
                        }
                    }
                }
                assert forall|x: Seq<E>|
                    in_rows_before(self.rows(), i2, x) || in_rows_before(
                        other.rows(),
                        j2,
                        x,
                    ) implies coeff_in::<F, E>(res@, x) == f.add_spec(
                    self.coeff(x),
                    other.coeff(x),
                ) by {
                    if x != e@ {
                        if in_rows_before(self.rows(), i2, x) {
                            let k = choose|k: int| 0 <= k < i2 && #[trigger] self.rows()[k] == x;
                            assert(k < i);
                            assert(in_rows_before(self.rows(), i as int, x));
                        } else {
                            let k = choose|k: int| 0 <= k < j2 && #[trigger] other.rows()[k] == x;
                            assert(k < j);
                            assert(in_rows_before(other.rows(), j as int, x));
                        }
                        assert(coeff_in::<F, E>(before, x) == coeff_in::<F, E>(res@, x));
                    }
                }
            }
            if take_a {
                i += 1;
            }
            if take_b {
                j += 1;
            }
        }
        proof {
            self.lemma_rows();
            other.lemma_rows();
            res.lemma_rows();
            assert forall|x: Seq<E>| self@.dom().contains(x) implies in_rows_before(
                self.rows(),
                n as int,
                x,
            ) by {
                let k = self.rows().index_of(x);
                assert(self.rows()[k] == x);
            }
            assert forall|x: Seq<E>| other@.dom().contains(x) implies in_rows_before(
                other.rows(),
                m as int,
                x,
            ) by {
                let k = other.rows().index_of(x);
                assert(other.rows()[k] == x);
            }
            assert forall|x: Seq<E>| in_rows_before(self.rows(), n as int, x) implies self@.dom().contains(
                x,
            ) by {
                let k = choose|k: int| 0 <= k < n && #[trigger] self.rows()[k] == x;
                assert(self@.dom().contains(self.rows()[k]));
            }
            assert forall|x: Seq<E>| in_rows_before(other.rows(), m as int, x) implies other@.dom().contains(
                x,
            ) by {
                let k = choose|k: int| 0 <= k < m && #[trigger] other.rows()[k] == x;
                assert(other@.dom().contains(other.rows()[k]));
            }
            let sum = add_view(f, self@, other@);
            assert forall|x: Seq<E>| res@.dom().contains(x) <==> sum.dom().contains(x) by {
                if res@.dom().contains(x) {
                    assert(in_rows_before(self.rows(), n as int, x) || in_rows_before(
                        other.rows(),
                        m as int,
                        x,
                    ));
                    assert(res@[x] != F::zero_spec());
                }
                if sum.dom().contains(x) {
                    assert(in_rows_before(self.rows(), n as int, x) || in_rows_before(
                        other.rows(),
                        m as int,
                        x,
                    ));
                    assert(coeff_in::<F, E>(res@, x) != F::zero_spec());
                }
            }
            assert forall|x: Seq<E>| res@.dom().contains(x) implies res@[x] == sum[x] by {
                assert(in_rows_before(self.rows(), n as int, x) || in_rows_before(
                    other.rows(),
                    m as int,
                    x,
                ));
                assert(coeff_in::<F, E>(res@, x) == res@[x]);
            }
            assert(res@ =~= sum);
        }
        res
    }

    /// Multiplies every coefficient by `c` and adds `s` to every exponent
    /// vector. Terms whose coefficient becomes zero are left out.
    fn scale_shift(&self, c: &F::Element, s: &[E]) -> (r: Self)
        requires
            self.wf(),
            self.field.contains(*c),
            s@.len() == self.nvars,
            forall|k: int| 0 <= k < self.nterms ==> sum_fits(#[trigger] self.rows()[k], s@),
        ensures
            r.wf(),
            r@ == monomial_mul_view(self.field, self@, *c, s@),
            r.nvars == self.nvars,
            r.field == self.field,
            var_map_view(r.var_map) == var_map_view(self.var_map),
    {
        let n = self.nterms;
        let nv = self.nvars;
        let ghost f = self.field;
        let mut res = self.new_from(Some(n));
        let mut k: usize = 0;
        proof {
            self.lemma_rows();
        }
        while k < n
            invariant
                self.wf(),
                f == self.field,
                f.contains(*c),
                n == self.nterms,
                nv == self.nvars,
                s@.len() == nv,
                k <= n,
                forall|k: int| 0 <= k < self.nterms ==> sum_fits(#[trigger] self.rows()[k], s@),
                res.wf(),
                res.nvars == nv,
                res.field == f,
                var_map_view(res.var_map) == var_map_view(self.var_map),
                forall|i: int|
                    0 <= i < res.nterms && k < n ==> lex_lt(
                        #[trigger] res.rows()[i],
                        row_add(self.rows()[k as int], s@),
                    ),
                forall|e: Seq<E>|
                    res@.dom().contains(e) ==> exists|i: int|
                        0 <= i < k && row_add(#[trigger] self.rows()[i], s@) == e,
                forall|i: int|
                    0 <= i < k ==> coeff_in::<F, E>(res@, row_add(#[trigger] self.rows()[i], s@))
                        == f.mul_spec(self.coefficients@[i], *c),
            decreases n - k,
        {
            proof {
                self.lemma_rows();
                res.lemma_rows();
                f.lemma_closed(self.coefficients@[k as int], *c);
            }
            let p = self.field.mul(&self.coefficients[k], c);
            let row = self.exponents(k);
            let mut shifted: Vec<E> = Vec::with_capacity(nv);
            let mut v: usize = 0;
            proof {
                lemma_row_add_values(row@, s@);
            }
            while v < nv
                invariant
                    nv == row@.len(),
                    nv == s@.len(),
                    v <= nv,
                    sum_fits(row@, s@),
                    shifted@ == row_add(row@, s@).take(v as int),
                    row_add(row@, s@).len() == nv,
                decreases nv - v,
            {
                proof {
                    assert(row@[v as int].to_u32_spec() + s@[v as int].to_u32_spec() <= E::max_spec());
                }
                let sum = row[v].checked_add(&s[v]);
                shifted.push(sum.unwrap());
                proof {
                    assert(shifted@ =~= row_add(row@, s@).take(v + 1));
                }
                v += 1;
            }
            let ghost e = row_add(row@, s@);
            proof {
                assert(row_add(row@, s@).take(nv as int) =~= e);
                // the new row is not among the rows so far
                if res@.dom().contains(e) {
                    let i = res.rows().index_of(e);
                    lemma_lex_irreflexive(e);
                }
            }
            let ghost before = res@;
            let ghost before_rows = res.rows();
            if !F::is_zero(&p) {
                res.push_back(p, shifted.as_slice());
            }
            proof {
                assert(coeff_in::<F, E>(res@, e) == p);
                assert forall|i: int| 0 <= i < res.nterms && k + 1 < n implies lex_lt(
                    #[trigger] res.rows()[i],
                    row_add(self.rows()[k + 1], s@),
                ) by {
                    lemma_row_add_monotone(self.rows()[k as int], self.rows()[k + 1], s@);
                    if i < before_rows.len() {
                        assert(res.rows()[i] == before_rows[i]);
                        lemma_lex_transitive(before_rows[i], e, row_add(self.rows()[k + 1], s@));
                    } else {
                        assert(res.rows()[i] == e);
                    }
                }
                assert forall|x: Seq<E>| res@.dom().contains(x) implies exists|i: int|
                    0 <= i < k + 1 && row_add(#[trigger] self.rows()[i], s@) == x by {
                    if x == e {
                        assert(row_add(self.rows()[k as int], s@) == x);
                    } else {
                        assert(before.dom().contains(x));
                        let i = choose|i: int|
                            0 <= i < k && row_add(#[trigger] self.rows()[i], s@) == x;
                        assert(row_add(self.rows()[i], s@) == x);
                    }
                }
                assert forall|i: int| 0 <= i < k + 1 implies coeff_in::<F, E>(
                    res@,
                    row_add(#[trigger] self.rows()[i], s@),
                ) == f.mul_spec(self.coefficients@[i], *c) by {
                    if i < k {
                        let x = row_add(self.rows()[i], s@);
                        lemma_row_add_monotone(self.rows()[i], self.rows()[k as int], s@);
                        lemma_lex_asymmetric(x, e);
                        assert(coeff_in::<F, E>(before, x) == coeff_in::<F, E>(res@, x));
                    }
                }
            }
            k += 1;
        }
        proof {
            self.lemma_rows();
            res.lemma_rows();
            let target = monomial_mul_view(f, self@, *c, s@);
            // a row of the result comes from the row of self that is left of it
            assert forall|i: int| 0 <= i < n implies dominates(
                row_add(#[trigger] self.rows()[i], s@),
                s@,
            ) && row_sub(row_add(self.rows()[i], s@), s@) == self.rows()[i] by {
                let x = row_add(self.rows()[i], s@);
                lemma_row_add_values(self.rows()[i], s@);
                assert(dominates(x, s@));
                lemma_row_sub_values(x, s@);
                lemma_row_add_cancel(row_sub(x, s@), self.rows()[i], s@);
            }
            assert forall|x: Seq<E>| res@.dom().contains(x) <==> target.dom().contains(x) by {
                if res@.dom().contains(x) {
                    let i = choose|i: int|
                        0 <= i < n && row_add(#[trigger] self.rows()[i], s@) == x;
                    assert(coeff_in::<F, E>(res@, row_add(self.rows()[i], s@)) == f.mul_spec(
                        self.coefficients@[i],
                        *c,
                    ));
                    assert(self@.dom().contains(self.rows()[i]));
                }
                if target.dom().contains(x) {
                    let y = row_sub(x, s@);
                    let i = self.rows().index_of(y);
                    lemma_row_sub_values(x, s@);
                    assert(row_add(self.rows()[i], s@) == x);
                    assert(coeff_in::<F, E>(res@, row_add(self.rows()[i], s@)) == f.mul_spec(
                        self.coefficients@[i],
                        *c,
                    ));
                }
            }
            assert forall|x: Seq<E>| res@.dom().contains(x) implies res@[x] == target[x] by {
                let i = choose|i: int| 0 <= i < n && row_add(#[trigger] self.rows()[i], s@) == x;
                assert(coeff_in::<F, E>(res@, row_add(self.rows()[i], s@)) == f.mul_spec(
                    self.coefficients@[i],
                    *c,
                ));
                assert(self@.dom().contains(self.rows()[i]));
            }
            assert(res@ =~= target);
        }
        res
    }

    /// Multiply every coefficient with `other`. Terms whose coefficient
    /// becomes zero are left out, so that the product with zero is the zero
    /// polynomial.
    pub fn mul_coeff(self, other: F::Element) -> (r: Self)
        requires
            self.wf(),
            self.field.contains(other),
        ensures
            r.wf(),
            r@ == scale_view(self.field, self@, other),
            r.nvars == self.nvars,
            r.field == self.field,
            var_map_view(r.var_map) == var_map_view(self.var_map),
    {
        let zero = E::zero();
        proof {
            E::lemma_exponent(zero, 0);
        }
        let s = filled(zero, self.nvars);
        proof {
            self.lemma_rows();
            assert(s@ =~= zero_row::<E>(self.nvars as nat));
            assert forall|k: int| 0 <= k < self.nterms implies sum_fits(
                #[trigger] self.rows()[k],
                s@,
            ) by {
                crate::poly::monomial::lemma_row_add_zero(self.rows()[k]);
            }
        }
        let r = self.scale_shift(&other, s.as_slice());
        proof {
            let f = self.field;
            let a = monomial_mul_view(f, self@, other, s@);
            let b = scale_view(f, self@, other);
            assert forall|x: Seq<E>| self@.dom().contains(x) implies dominates(x, s@) && row_sub(
                x,
                s@,
            ) == x by {
                crate::poly::monomial::lemma_row_add_zero(x);
                lemma_row_add_values(x, s@);
                assert(dominates(x, s@)) by {
                    assert forall|v: int| 0 <= v < x.len() implies #[trigger] s@[v].to_u32_spec()
                        <= x[v].to_u32_spec() by {
                        E::lemma_exponent(x[v], 0);
                    }
                }
                lemma_row_sub_values(x, s@);
                lemma_row_add_cancel(row_sub(x, s@), x, s@);
            }
            assert forall|x: Seq<E>| a.dom().contains(x) <==> b.dom().contains(x) by {
                if a.dom().contains(x) {
                    let y = row_sub(x, s@);
                    assert(self@.dom().contains(y));
                    lemma_row_sub_values(x, s@);
                    crate::poly::monomial::lemma_row_add_zero(y);
                    assert(x == y);
                }
            }
            assert(a =~= b);
        }
        r
    }

    /// Add a new monomial with coefficient `other` and all exponents zero.
    pub fn add_monomial(self, other: F::Element) -> (r: Self)
        requires
            self.wf(),
            self.field.contains(other),
        ensures
            r.wf(),
            r@ == add_term(self.field, self@, zero_row::<E>(self.nvars as nat), other),
            r.nvars == self.nvars,
            r.field == self.field,
            r.var_map == self.var_map,
    {
        let zero = E::zero();
        proof {
            E::lemma_exponent(zero, 0);
        }
        let s = filled(zero, self.nvars);
        proof {
            assert(s@ =~= zero_row::<E>(self.nvars as nat));
        }
        let mut r = self;
        r.append_monomial(other, s.as_slice());
        r
    }

    /// The product with the monomial `coefficient * x^exponents`. The sums of
    /// the exponents have to be within range.
    #[inline]
    pub fn mul_monomial(self, coefficient: &F::Element, exponents: &[E]) -> (r: Self)
        requires
            self.wf(),
            self.field.contains(*coefficient),
            exponents@.len() == self.nvars,
            forall|k: int| 0 <= k < self.nterms ==> sum_fits(#[trigger] self.rows()[k], exponents@),
        ensures
            r.wf(),
            r@ == monomial_mul_view(self.field, self@, *coefficient, exponents@),
            r.nvars == self.nvars,
            r.field == self.field,
            var_map_view(r.var_map) == var_map_view(self.var_map),
    {
        self.scale_shift(coefficient, exponents)
    }

    /// The difference of two polynomials.
    pub fn sub(self, other: Self) -> (r: Self)
        requires
            self.wf(),
            other.wf(),
            self.field == other.field,
            self.nvars == other.nvars || self.nterms == 0 || other.nterms == 0,
            same_variables(self.var_map, other.var_map) || self.nterms == 0 || other.nterms == 0,
        ensures
            r.wf(),
            r@ == sub_view(self.field, self@, other@),
            r.nvars == (if self.nterms == 0 {
                other.nvars
            } else {
                self.nvars
            }),
            r.field == self.field,
            var_map_view(r.var_map) == (if self.nterms == 0 {
                var_map_view(other.var_map)
            } else {
                var_map_view(self.var_map)
            }),
    {
        self.add(other.neg())
    }
}

} // verus!
