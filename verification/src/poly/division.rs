//! Division with remainder.
//!
//! The heap division follows "Sparse polynomial division using a heap" by
//! Monagan, Pearce (2011), with a cache so that only unique exponent vectors
//! appear in the heap. The monomials of the dividend and of the products of
//! quotient terms with divisor terms are worked off from the largest to the
//! smallest.
use crate::poly::heap_division::{
    divides_cleanly, division_failed, division_result, lead_dominates, lemma_division_failed,
    remainder_reduced, runs_out_of_range,
};
use crate::poly::matrix::{lemma_rows_entries, lemma_rows_push, push_row};
use crate::poly::monomial::{
    dominates, exponents_dominate, key_of, lemma_lex_asymmetric, lemma_lex_total,
    lemma_lex_transitive, lemma_row_add_monotone, lemma_row_sub_values, lex_lt, row_add, row_of,
    row_sub, sum_fits,
};
use crate::poly::polynomial::{same_variables, var_map_view, MultivariatePolynomial};
use crate::poly::product::{
    lemma_product_coeff_zero, lemma_row_sum_hit, lemma_row_sum_miss, lemma_sum_single, mul_view,
    pair_row, product_coeff, row_sums,
};
use crate::poly::Exponent;
use crate::rings::{divides_all, lemma_mul_zero, EuclideanDomain, Ring};
use vstd::prelude::*;

verus! {

/// Each row comes after every later row in the monomial order.
pub open spec fn decreasing<E: Exponent>(rows: Seq<Seq<E>>) -> bool {
    forall|i: int, j: int| 0 <= i < j < rows.len() ==> lex_lt(#[trigger] rows[j], #[trigger] rows[i])
}

/// The numbers of an exponent vector.
pub fn row_key<E: Exponent>(x: &[E]) -> (r: Vec<u32>)
    ensures
        r@ == key_of(x@),
{
    let n = x.len();
    let mut r: Vec<u32> = Vec::with_capacity(n);
    let mut v: usize = 0;
    while v < n
        invariant
            n == x@.len(),
            v <= n,
            r@ == key_of(x@).take(v as int),
        decreases n - v,
    {
        r.push(x[v].to_u32());
        proof {
            assert(r@ =~= key_of(x@).take(v + 1));
        }
        v += 1;
    }
    proof {
        assert(key_of(x@).take(n as int) =~= key_of(x@));
    }
    r
}

/// The numbers of the sum of two exponent vectors, if the sum is within range.
pub fn sum_key<E: Exponent>(x: &[E], y: &[E]) -> (r: Option<Vec<u32>>)
    requires
        x@.len() == y@.len(),
    ensures
        r.is_some() == sum_fits(x@, y@),
        r matches Some(k) ==> k@ == key_of(row_add(x@, y@)) && k@.len() == x@.len(),
{
    let n = x.len();
    let mut r: Vec<u32> = Vec::with_capacity(n);
    let mut v: usize = 0;
    while v < n
        invariant
            n == x@.len(),
            n == y@.len(),
            v <= n,
            forall|w: int|
                0 <= w < v ==> #[trigger] x@[w].to_u32_spec() + y@[w].to_u32_spec()
                    <= E::max_spec(),
            r@ == key_of(row_add(x@, y@)).take(v as int),
        decreases n - v,
    {
        match x[v].checked_add(&y[v]) {
            Some(s) => {
                proof {
                    E::lemma_exponent(
                        s,
                        (x@[v as int].to_u32_spec() + y@[v as int].to_u32_spec()) as u32,
                    );
                }
                r.push(s.to_u32());
                proof {
                    assert(r@ =~= key_of(row_add(x@, y@)).take(v + 1));
                }
            },
            None => {
                return None;
            },
        }
        v += 1;
    }
    proof {
        assert(key_of(row_add(x@, y@)).take(n as int) =~= key_of(row_add(x@, y@)));
    }
    Some(r)
}

/// Whether the monomial that `m` stands for is divisible by the monomial
/// with the exponent vector `lead`.
pub fn key_dominates<E: Exponent>(m: &Vec<u32>, lead: &[E]) -> (r: bool)
    requires
        m@.len() == lead@.len(),
    ensures
        r == dominates(m@, key_of(lead@)),
{
    let n = m.len();
    let mut v: usize = 0;
    while v < n
        invariant
            n == m@.len(),
            n == lead@.len(),
            v <= n,
            forall|w: int|
                0 <= w < v ==> #[trigger] key_of(lead@)[w].to_u32_spec() <= m@[w].to_u32_spec(),
        decreases n - v,
    {
        if m[v] < lead[v].to_u32() {
            proof {
                assert(key_of(lead@)[v as int].to_u32_spec() > m@[v as int].to_u32_spec());
            }
            return false;
        }
        v += 1;
    }
    true
}

/// The exponent vector of the quotient of the monomial that `m` stands for by
/// the monomial with the exponent vector `lead`.
pub fn key_minus<E: Exponent>(m: &Vec<u32>, lead: &[E]) -> (r: Vec<E>)
    requires
        m@.len() == lead@.len(),
        dominates(m@, key_of(lead@)),
        forall|v: int| 0 <= v < m@.len() ==> #[trigger] m@[v] <= E::max_spec(),
    ensures
        r@ == row_sub(row_of::<E>(m@), lead@),
        r@.len() == m@.len(),
{
    let n = m.len();
    let ghost target = row_sub(row_of::<E>(m@), lead@);
    let mut r: Vec<E> = Vec::with_capacity(n);
    let mut v: usize = 0;
    while v < n
        invariant
            n == m@.len(),
            n == lead@.len(),
            v <= n,
            dominates(m@, key_of(lead@)),
            forall|v: int| 0 <= v < m@.len() ==> #[trigger] m@[v] <= E::max_spec(),
            target == row_sub(row_of::<E>(m@), lead@),
            r@ == target.take(v as int),
        decreases n - v,
    {
        proof {
            assert(key_of(lead@)[v as int].to_u32_spec() <= m@[v as int].to_u32_spec());
            E::lemma_exponent(lead@[v as int], m@[v as int]);
        }
        r.push(E::from_u32(m[v] - lead[v].to_u32()));
        proof {
            assert(r@ =~= target.take(v + 1));
        }
        v += 1;
    }
    proof {
        assert(target.take(n as int) =~= target);
    }
    r
}

/// A list of terms that is built from the largest monomial down: the buffers
/// fit, no coefficient is zero, all are ring elements, and the exponent
/// vectors are strictly decreasing.
pub open spec fn built_down<F: Ring, E: Exponent>(p: MultivariatePolynomial<F, E>) -> bool {
    &&& p.coefficients@.len() == p.nterms
    &&& p.exponents@.len() == p.nterms * p.nvars
    &&& forall|k: int| 0 <= k < p.nterms ==> #[trigger] p.coefficients@[k] != F::zero_spec()
    &&& forall|k: int| 0 <= k < p.nterms ==> p.field.contains(#[trigger] p.coefficients@[k])
    &&& decreasing(p.rows())
    &&& p.field.valid()
}

impl<F: Ring, E: Exponent> MultivariatePolynomial<F, E> {
    /// Appends a term below all terms of a list that is built from the largest
    /// monomial down.
    pub(crate) fn push_down(&mut self, coefficient: F::Element, exponents: &[E])
        requires
            built_down(*old(self)),
            old(self).field.contains(coefficient),
            coefficient != F::zero_spec(),
            exponents@.len() == old(self).nvars,
            old(self).nterms > 0 ==> lex_lt(exponents@, old(self).rows().last()),
        ensures
            built_down(*final(self)),
            final(self).rows() == old(self).rows().push(exponents@),
            final(self).coefficients@ == old(self).coefficients@.push(coefficient),
            final(self).nterms == old(self).nterms + 1,
            final(self).nvars == old(self).nvars,
            final(self).field == old(self).field,
            final(self).var_map == old(self).var_map,
    {
        let ghost rows = self.rows();
        let ghost e = exponents@;
        proof {
            lemma_rows_entries(self.exponents@, self.nvars as int, self.nterms as int);
            lemma_rows_push(self.exponents@, self.nvars as int, self.nterms as int, e);
            assert forall|i: int, j: int| 0 <= i < j < rows.push(e).len() implies lex_lt(
                #[trigger] rows.push(e)[j],
                #[trigger] rows.push(e)[i],
            ) by {
                if j == rows.len() && i < rows.len() - 1 {
                    lemma_lex_transitive(e, rows.last(), rows[i]);
                }
            }
        }
        self.coefficients.push(coefficient);
        push_row(&mut self.exponents, exponents);
        let len = self.coefficients.len();
        self.nterms = len;
        proof {
            assert(self.rows() == rows.push(e));
        }
    }

    /// Reverses the order of the terms: a list that was built from the largest
    /// monomial down becomes a polynomial.
    pub(crate) fn reverse(self) -> (r: Self)
        requires
            built_down(self),
        ensures
            r.wf(),
            r.rows() == self.rows().reverse(),
            r.coefficients@ == self.coefficients@.reverse(),
            r.nterms == self.nterms,
            r.nvars == self.nvars,
            r.field == self.field,
            r.var_map == self.var_map,
    {
        let n = self.nterms;
        let nv = self.nvars;
        let mut res = Self {
            coefficients: Vec::with_capacity(n),
            exponents: Vec::new(),
            nterms: 0,
            nvars: nv,
            field: self.field,
            var_map: None,
        };
        proof {
            lemma_rows_entries(self.exponents@, nv as int, n as int);
            assert(0 * nv == 0) by (nonlinear_arith);
            assert(res.rows() =~= self.rows().reverse().take(0));
            assert(res.coefficients@ =~= self.coefficients@.reverse().take(0));
        }
        let mut k: usize = 0;
        while k < n
            invariant
                built_down(self),
                n == self.nterms,
                nv == self.nvars,
                k <= n,
                res.nvars == nv,
                res.field == self.field,
                res.nterms == k,
                res.coefficients@.len() == k,
                res.exponents@.len() == k * nv,
                res.rows() == self.rows().reverse().take(k as int),
                res.coefficients@ == self.coefficients@.reverse().take(k as int),
            decreases n - k,
        {
            let src = n - 1 - k;
            let ghost old_rows = res.rows();
            let ghost old_exps = res.exponents@;
            let row = self.exponents(src);
            proof {
                lemma_rows_push(old_exps, nv as int, k as int, row@);
            }
            res.coefficients.push(self.field.copy_element(&self.coefficients[src]));
            push_row(&mut res.exponents, row);
            res.nterms = k + 1;
            proof {
                assert(res.rows() == old_rows.push(row@));
                assert(res.rows() =~= self.rows().reverse().take(k + 1));
                assert(res.coefficients@ =~= self.coefficients@.reverse().take(k + 1));
            }
            k += 1;
        }
        proof {
            assert(res.rows() =~= self.rows().reverse());
            assert(res.coefficients@ =~= self.coefficients@.reverse());
            assert forall|i: int, j: int| 0 <= i < j < res.rows().len() implies lex_lt(
                #[trigger] res.rows()[i],
                #[trigger] res.rows()[j],
            ) by {
                assert(res.rows()[i] == self.rows()[n - 1 - i]);
                assert(res.rows()[j] == self.rows()[n - 1 - j]);
            }
            assert forall|i: int| 0 <= i < n implies #[trigger] res.coefficients@[i]
                != F::zero_spec() && res.field.contains(res.coefficients@[i]) by {
                assert(res.coefficients@[i] == self.coefficients@[n - 1 - i]);
            }
        }
        res.var_map = self.var_map;
        res
    }
}

/// Term `k` of the dividend is divisible by the divisor's single term: its
/// coefficient by the coefficient, without remainder, and its monomial by the
/// monomial.
pub open spec fn term_divisible<F: EuclideanDomain, E: Exponent>(
    a: MultivariatePolynomial<F, E>,
    g: MultivariatePolynomial<F, E>,
    k: int,
) -> bool {
    &&& a.field.rem_spec(a.coefficients@[k], g.coefficients@[0]) == F::zero_spec()
    &&& dominates(a.rows()[k], g.rows()[0])
}

/// The quotient of a polynomial by a single term that divides all its terms:
/// the product with the term gives the polynomial back.
pub proof fn lemma_monomial_quotient<F: EuclideanDomain, E: Exponent>(
    a: MultivariatePolynomial<F, E>,
    g: MultivariatePolynomial<F, E>,
    q: MultivariatePolynomial<F, E>,
)
    requires
        a.wf(),
        g.wf(),
        q.wf(),
        a.field == g.field,
        q.field == g.field,
        a.nvars == g.nvars,
        q.nvars == g.nvars,
        g.nterms == 1,
        q.nterms == a.nterms,
        forall|k: int|
            0 <= k < a.nterms ==> dominates(#[trigger] a.rows()[k], g.rows()[0]) && q.rows()[k]
                == row_sub(a.rows()[k], g.rows()[0]) && a.field.mul_spec(
                q.coefficients@[k],
                g.coefficients@[0],
            ) == a.coefficients@[k],
    ensures
        crate::poly::product::can_multiply(q, g),
        mul_view(q, g) == a@,
{
    let f = g.field;
    let lead = g.rows()[0];
    a.lemma_rows();
    g.lemma_rows();
    q.lemma_rows();
    assert forall|i: int, j: int| 0 <= i < q.nterms && 0 <= j < g.nterms implies sum_fits(
        #[trigger] q.rows()[i],
        #[trigger] g.rows()[j],
    ) && pair_row(q, g, i, j) == a.rows()[i] by {
        assert(dominates(a.rows()[i], lead));
        lemma_row_sub_values(a.rows()[i], lead);
    }
    assert forall|x: Seq<E>| product_coeff(q, g, x) == a.coeff(x) by {
        if a@.dom().contains(x) {
            let i = a.rows().index_of(x);
            assert(sum_fits(q.rows()[i], g.rows()[0]));
            lemma_row_sum_hit(q, g, i, 0, x);
            assert forall|k: int| 0 <= k < q.nterms && k != i implies #[trigger] row_sums(q, g, x)[k]
                == F::zero_spec() by {
                assert forall|j: int|
                    0 <= j < g.nterms && sum_fits(q.rows()[k], g.rows()[j]) implies #[trigger] pair_row(
                    q,
                    g,
                    k,
                    j,
                ) != x by {
                    assert(sum_fits(q.rows()[k], g.rows()[0]));
                    if k < i {
                        lemma_lex_asymmetric(a.rows()[k], a.rows()[i]);
                    } else {
                        lemma_lex_asymmetric(a.rows()[i], a.rows()[k]);
                    }
                }
                lemma_row_sum_miss(q, g, k, x);
            }
            f.lemma_closed(q.coefficients@[i], g.coefficients@[0]);
            lemma_sum_single(f, row_sums(q, g, x), i);
        } else {
            assert forall|i: int, j: int|
                0 <= i < q.nterms && 0 <= j < g.nterms && sum_fits(q.rows()[i], g.rows()[j])
                    implies #[trigger] pair_row(q, g, i, j) != x by {
                assert(sum_fits(q.rows()[i], g.rows()[0]));
                assert(a@.dom().contains(a.rows()[i]));
            }
            lemma_product_coeff_zero(q, g, x);
        }
    }
    assert forall|x: Seq<E>| mul_view(q, g).dom().contains(x) <==> a@.dom().contains(x) by {
        assert(product_coeff(q, g, x) == a.coeff(x));
    }
    assert forall|x: Seq<E>| a@.dom().contains(x) implies mul_view(q, g)[x] == a@[x] by {
        assert(product_coeff(q, g, x) == a.coeff(x));
    }
    assert(mul_view(q, g) =~= a@);
}

impl<F: EuclideanDomain, E: Exponent> MultivariatePolynomial<F, E> {
    /// The quotient by a polynomial with a single term, if that divides every
    /// term of `self`.
    pub(crate) fn monomial_quotient(&self, div: &Self) -> (res: Option<Self>)
        requires
            self.wf(),
            div.wf(),
            self.field == div.field,
            self.nvars == div.nvars,
            div.nterms == 1,
        ensures
            res.is_some() == (forall|k: int|
                0 <= k < self.nterms ==> #[trigger] term_divisible(*self, *div, k)),
            res matches Some(q) ==> q.wf() && q.nvars == self.nvars && q.field == self.field
                && var_map_view(q.var_map) == var_map_view(self.var_map) && q.nterms
                == self.nterms && crate::poly::product::can_multiply(q, *div) && mul_view(q, *div)
                == self@,
    {
        let n = self.nterms;
        let ghost a = *self;
        let ghost g = *div;
        let ghost f = self.field;
        let mut q = self.new_from(Some(n));
        proof {
            self.lemma_rows();
            div.lemma_rows();
        }
        let dive = div.to_monomial_view(0);
        let mut k: usize = 0;
        while k < n
            invariant
                a == *self,
                g == *div,
                f == a.field,
                a.wf(),
                g.wf(),
                a.field == g.field,
                a.nvars == g.nvars,
                g.nterms == 1,
                n == a.nterms,
                k <= n,
                *dive.coefficient == g.coefficients@[0],
                dive.exponents@ == g.rows()[0],
                q.wf(),
                q.nvars == a.nvars,
                q.field == f,
                var_map_view(q.var_map) == var_map_view(a.var_map),
                q.nterms == k,
                forall|i: int| 0 <= i < k ==> #[trigger] term_divisible(a, g, i),
                forall|i: int|
                    0 <= i < k ==> dominates(#[trigger] a.rows()[i], g.rows()[0]) && q.rows()[i]
                        == row_sub(a.rows()[i], g.rows()[0]) && f.mul_spec(
                        q.coefficients@[i],
                        g.coefficients@[0],
                    ) == a.coefficients@[i],
            decreases n - k,
        {
            proof {
                self.lemma_rows();
                div.lemma_rows();
                q.lemma_rows();
                f.lemma_quot_rem(a.coefficients@[k as int], g.coefficients@[0]);
            }
            let t = self.to_monomial_view(k);
            let (quot, rem) = self.field.quot_rem(t.coefficient, dive.coefficient);
            if !F::is_zero(&rem) || !exponents_dominate(t.exponents, dive.exponents) {
                proof {
                    assert(!term_divisible(a, g, k as int));
                }
                return None;
            }
            let lead = dive.exponents;
            let row = t.exponents;
            let mut diff: Vec<E> = Vec::with_capacity(self.nvars);
            let mut v: usize = 0;
            while v < self.nvars
                invariant
                    row@.len() == self.nvars,
                    lead@.len() == self.nvars,
                    dominates(row@, lead@),
                    v <= self.nvars,
                    diff@ == row_sub(row@, lead@).take(v as int),
                decreases self.nvars - v,
            {
                proof {
                    assert(lead@[v as int].to_u32_spec() <= row@[v as int].to_u32_spec());
                    E::lemma_exponent(row@[v as int], 0);
                }
                diff.push(E::from_u32(row[v].to_u32() - lead[v].to_u32()));
                proof {
                    assert(diff@ =~= row_sub(row@, lead@).take(v + 1));
                }
                v += 1;
            }
            proof {
                assert(row_sub(row@, lead@).take(self.nvars as int) =~= row_sub(row@, lead@));
                let lc = g.coefficients@[0];
                let ak = a.coefficients@[k as int];
                f.lemma_closed(quot, lc);
                f.lemma_add_zero(f.mul_spec(quot, lc));
                if quot == F::zero_spec() {
                    lemma_mul_zero(f, lc);
                }
                // the quotient terms come in the order of the terms
                lemma_row_sub_values(row@, lead@);
                if k > 0 {
                    let prev = a.rows()[k - 1];
                    lemma_row_sub_values(prev, lead@);
                    lemma_lex_total(row_sub(prev, lead@), row_sub(row@, lead@));
                    if !lex_lt(row_sub(prev, lead@), row_sub(row@, lead@)) {
                        if row_sub(prev, lead@) != row_sub(row@, lead@) {
                            lemma_row_add_monotone(row_sub(row@, lead@), row_sub(prev, lead@), lead@);
                        }
                        lemma_lex_asymmetric(prev, row@);
                    }
                }
            }
            let ghost q0 = q;
            q.push_back(quot, diff.as_slice());
            proof {
                assert forall|i: int| 0 <= i < k + 1 implies dominates(
                    #[trigger] a.rows()[i],
                    g.rows()[0],
                ) && q.rows()[i] == row_sub(a.rows()[i], g.rows()[0]) && f.mul_spec(
                    q.coefficients@[i],
                    g.coefficients@[0],
                ) == a.coefficients@[i] by {
                    if i < k {
                        assert(q.rows()[i] == q0.rows()[i]);
                        assert(q.coefficients@[i] == q0.coefficients@[i]);
                    }
                }
            }
            k += 1;
        }
        proof {
            lemma_monomial_quotient(a, g, q);
        }
        Some(q)
    }

    /// Divide two multivariate polynomials and return the quotient and
    /// remainder.
    ///
    /// If the division cannot be carried out cleanly in the ring, the result
    /// is no quotient and the dividend as the remainder. There is no result if
    /// an exponent is out of range in the heap division, which is used for a
    /// divisor with more than one term. By a single term, the division is clean
    /// only if the term divides every term of the dividend.
    pub fn quot_rem(&self, div: &Self) -> (res: Option<(Self, Self)>)
        requires
            self.wf(),
            div.wf(),
            self.field == div.field,
            same_variables(self.var_map, div.var_map) || self.nterms == 0,
            self.nvars == div.nvars,
            div.nterms > 0,
        ensures
            res matches Some(qr) ==> division_result(*self, *div, qr.0, qr.1),
            self.nterms == 0 || lead_dominates(*div) ==> res is Some,
            res is None ==> runs_out_of_range(*self, *div),
            res matches Some(qr) ==> div.nterms > 1 && divides_all(
                self.field,
                div.coefficients@.last(),
            ) ==> remainder_reduced(qr.1, *div),
            div.nterms > 1 && divides_cleanly(*self, *div) ==> (res matches Some(qr)
                && remainder_reduced(qr.1, *div)),
            self.nterms > 0 && div.nterms == 1 ==> (res matches Some(qr) && (division_failed(
                *self,
                qr.0,
                qr.1,
            ) <==> exists|k: int| 0 <= k < self.nterms && !term_divisible(*self, *div, k))
                && (!division_failed(*self, qr.0, qr.1) ==> qr.1.nterms == 0)),
    {
        proof {
            self.lemma_rows();
            div.lemma_rows();
        }
        if self.is_zero() {
            let q = self.duplicate();
            let r = self.duplicate();
            proof {
                lemma_division_failed(*self, *div, q, r);
            }
            return Some((q, r));
        }
        if div.is_one() {
            let q = self.duplicate();
            let r = self.new_from(None);
            proof {
                crate::poly::laws::law_mul_one(q, *div);
                crate::poly::laws::law_add_zero(*self);
                r.lemma_rows();
                assert(r@ =~= Map::<Seq<E>, F::Element>::empty());
                // one divides every term
                let f = self.field;
                f.lemma_constants();
                assert forall|k: int| 0 <= k < self.nterms implies term_divisible(*self, *div, k) by {
                    let c = self.coefficients@[k];
                    f.lemma_quot_rem(c, f.one_spec());
                    f.lemma_mul_one(c);
                    assert(f.mul_spec(c, f.one_spec()) == c);
                    assert(crate::rings::divides(f, f.one_spec(), c));
                    assert(dominates(self.rows()[k], div.rows()[0])) by {
                        assert forall|v: int| 0 <= v < self.nvars implies #[trigger] div.rows()[0][v].to_u32_spec()
                            <= self.rows()[k][v].to_u32_spec() by {
                            E::lemma_exponent(self.rows()[k][v], 0);
                        }
                    }
                }
            }
            return Some((q, r));
        }
        if div.nterms == 1 {
            match self.monomial_quotient(div) {
                Some(q) => {
                    let r = self.new_from(None);
                    proof {
                        crate::poly::laws::law_add_zero(*self);
                        r.lemma_rows();
                        assert(r@ =~= Map::<Seq<E>, F::Element>::empty());
                        assert(self@.dom().contains(self.rows()[0]));
                    }
                    return Some((q, r));
                },
                None => {
                    let q = self.new_from(None);
                    let r = self.duplicate();
                    proof {
                        lemma_division_failed(*self, *div, q, r);
                    }
                    return Some((q, r));
                },
            }
        }
        self.heap_division(div)
    }
}

} // verus!
