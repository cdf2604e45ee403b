//! Leading coefficients under another order of the variables.
use crate::poly::matrix::filled;
use crate::poly::monomial::{
    agree_before, lemma_lex_asymmetric, lemma_lex_irreflexive, lemma_lex_total,
    lemma_lex_transitive, lex_lt, lt_at,
};
use crate::poly::polynomial::{var_map_view, MultivariatePolynomial};
use crate::poly::project::{lemma_sum_terms_step, only_at, sum_terms};
use crate::poly::Exponent;
use crate::rings::Ring;
use vstd::prelude::*;

verus! {

/// The exponents of the variables `vars`, in their order.
pub open spec fn ordered_by<E: Exponent>(row: Seq<E>, vars: Seq<usize>) -> Seq<E> {
    Seq::new(vars.len(), |p: int| row[vars[p] as int])
}

/// The list is strictly increasing.
pub open spec fn strictly_increasing(vars: Seq<usize>) -> bool {
    forall|p: int| 0 < p < vars.len() ==> #[trigger] vars[p - 1] < vars[p]
}

/// Among the first `t` terms, term `k` is the last of those that no term comes
/// after in the order of the variables `vars`.
pub open spec fn leads_among<F: Ring, E: Exponent>(
    p: MultivariatePolynomial<F, E>,
    vars: Seq<usize>,
    k: int,
    t: int,
) -> bool {
    &&& 0 <= k < t
    &&& forall|j: int|
        0 <= j < t ==> !lex_lt(
            ordered_by(p.rows()[k], vars),
            ordered_by(#[trigger] p.rows()[j], vars),
        )
    &&& forall|j: int|
        k < j < t ==> lex_lt(ordered_by(#[trigger] p.rows()[j], vars), ordered_by(p.rows()[k], vars))
}

/// Among the first `t` terms, no term comes after term `k` in the order of the
/// variables `vars`.
pub open spec fn tops_among<F: Ring, E: Exponent>(
    p: MultivariatePolynomial<F, E>,
    vars: Seq<usize>,
    k: int,
    t: int,
) -> bool {
    &&& 0 <= k < t
    &&& forall|j: int|
        0 <= j < t ==> !lex_lt(
            ordered_by(p.rows()[k], vars),
            ordered_by(#[trigger] p.rows()[j], vars),
        )
}

/// The list holds the places of the terms among the first `t` that no term
/// comes after in the order of the variables `vars`, in increasing order.
pub open spec fn tops_listed<F: Ring, E: Exponent>(
    p: MultivariatePolynomial<F, E>,
    vars: Seq<usize>,
    idx: Seq<usize>,
    t: int,
) -> bool {
    &&& forall|i: int| 0 <= i < idx.len() ==> tops_among(p, vars, #[trigger] idx[i] as int, t)
    &&& forall|i: int, j: int| 0 <= i < j < idx.len() ==> #[trigger] idx[i] < #[trigger] idx[j]
    &&& forall|k: int|
        #[trigger] tops_among(p, vars, k, t) ==> exists|i: int|
            0 <= i < idx.len() && #[trigger] idx[i] == k
}

/// How a term stands to the highest exponents so far, variable by variable in
/// the order `vars`.
#[derive(Clone, Copy, Debug, PartialEq, Eq, Structural)]
pub enum Standing {
    /// The term comes before the highest.
    Below,
    /// The term has the highest exponents.
    Level,
    /// The term comes after the highest, which it is from now on.
    Above,
}

/// Compares a term with the highest exponents so far, in the order of the
/// variables `vars`, and makes its exponents the highest if it comes after
/// them.
pub fn compare_with_highest<E: Exponent>(row: &[E], vars: &[usize], highest: &mut Vec<E>) -> (r:
    Standing)
    requires
        old(highest)@.len() == row@.len(),
        forall|p: int| 0 <= p < vars@.len() ==> #[trigger] vars@[p] < row@.len(),
    ensures
        final(highest)@.len() == row@.len(),
        r == Standing::Below ==> final(highest)@ == old(highest)@ && lex_lt(
            ordered_by(row@, vars@),
            ordered_by(old(highest)@, vars@),
        ),
        r == Standing::Level ==> final(highest)@ == old(highest)@ && ordered_by(row@, vars@)
            == ordered_by(old(highest)@, vars@),
        r == Standing::Above ==> lex_lt(
            ordered_by(old(highest)@, vars@),
            ordered_by(row@, vars@),
        ) && ordered_by(final(highest)@, vars@) == ordered_by(row@, vars@),
        forall|v: int|
            0 <= v < row@.len() ==> #[trigger] final(highest)@[v] == old(highest)@[v]
                || final(highest)@[v] == row@[v],
{
    let ghost h0 = highest@;
    let ghost a = ordered_by(row@, vars@);
    let ghost b = ordered_by(h0, vars@);
    let mut more = false;
    let mut p: usize = 0;
    let ghost mut at: int = 0;
    while p < vars.len()
        invariant
            highest@.len() == row@.len(),
            h0 == old(highest)@,
            h0.len() == row@.len(),
            forall|p: int| 0 <= p < vars@.len() ==> #[trigger] vars@[p] < row@.len(),
            a == ordered_by(row@, vars@),
            b == ordered_by(h0, vars@),
            p <= vars@.len(),
            !more ==> highest@ == h0 && agree_before(a, b, p as int),
            more ==> lt_at(b, a, at) && at < p,
            more ==> forall|q: int| 0 <= q < p ==> highest@[#[trigger] vars@[q] as int] == row@[vars@[q] as int],
            forall|v: int|
                0 <= v < row@.len() ==> #[trigger] highest@[v] == h0[v] || highest@[v] == row@[v],
        decreases vars@.len() - p,
    {
        let v = vars[p];
        if more {
            highest[v] = row[v];
        } else {
            let x = row[v].to_u32();
            let y = highest[v].to_u32();
            if x < y {
                proof {
                    assert(lt_at(a, b, p as int));
                }
                return Standing::Below;
            }
            if x > y {
                highest[v] = row[v];
                more = true;
                proof {
                    at = p as int;
                    assert(lt_at(b, a, at));
                    assert forall|q: int| 0 <= q < p + 1 implies highest@[#[trigger] vars@[q] as int]
                        == row@[vars@[q] as int] by {
                        if q < p && vars@[q] != v {
                            assert(a[q] == b[q]);
                        }
                    }
                }
            } else {
                proof {
                    E::lemma_exponent(row@[v as int], 0);
                    E::lemma_exponent(h0[v as int], 0);
                    assert(a[p as int] == b[p as int]);
                }
            }
        }
        p += 1;
    }
    if more {
        proof {
            assert(ordered_by(highest@, vars@) =~= a);
        }
        Standing::Above
    } else {
        proof {
            assert(a =~= b);
        }
        Standing::Level
    }
}

/// Whether the list is strictly increasing.
pub fn is_strictly_increasing(vars: &[usize]) -> (r: bool)
    ensures
        r == strictly_increasing(vars@),
{
    let mut p: usize = 1;
    while p < vars.len()
        invariant
            1 <= p,
            forall|q: int| 0 < q < p && q < vars@.len() ==> #[trigger] vars@[q - 1] < vars@[q],
        decreases vars@.len() - p,
    {
        if vars[p - 1] >= vars[p] {
            return false;
        }
        p += 1;
    }
    true
}

impl<F: Ring, E: Exponent> MultivariatePolynomial<F, E> {
    /// The number of terms, counted from the leading one, that have the
    /// exponents of the leading term in all variables but the last one and the
    /// variable `n`, when `k` of them are counted already.
    pub open spec fn leading_run(&self, n: int, k: int) -> int
        decreases self.nterms - k,
    {
        if k < 0 || k >= self.nterms {
            k
        } else if self.agrees_with_leading(n, k) {
            self.leading_run(n, k + 1)
        } else {
            k
        }
    }

    /// The `k`-th term from the leading one has the exponents of the leading
    /// term in all variables but the last one and the variable `n`.
    pub open spec fn agrees_with_leading(&self, n: int, k: int) -> bool {
        forall|i: int|
            0 <= i < self.nvars - 1 && i != n ==> (#[trigger] self.rows()[self.nterms - 1 - k][i])
                == self.rows().last()[i]
    }

    /// The exponent vectors of the terms from the leading one down, with all
    /// exponents but that of the variable `n` set to zero.
    pub open spec fn rows_back_only(&self, n: int) -> Seq<Seq<E>> {
        Seq::new(self.nterms as nat, |k: int| only_at(self.rows()[self.nterms - 1 - k], n))
    }

    /// The coefficients of the terms from the leading one down.
    pub open spec fn coefficients_back(&self) -> Seq<F::Element> {
        Seq::new(self.nterms as nat, |k: int| self.coefficients@[self.nterms - 1 - k])
    }

    /// Get the leading coefficient under a given variable ordering.
    /// This operation is O(n) if the variables are out of order.
    ///
    /// If the variables are in increasing order, this is the leading
    /// coefficient. Otherwise it is the coefficient of the last of the terms
    /// that no term comes after when the exponents are compared in the order
    /// of `vars`.
    pub fn lcoeff_varorder(&self, vars: &[usize]) -> (r: F::Element)
        requires
            self.consistent(),
            forall|p: int| 0 <= p < vars@.len() ==> #[trigger] vars@[p] < self.nvars,
        ensures
            self.nterms == 0 ==> r == F::zero_spec(),
            self.nterms > 0 && strictly_increasing(vars@) ==> r == self.coefficients@.last(),
            self.nterms > 0 && !strictly_increasing(vars@) ==> exists|k: int|
                #[trigger] leads_among(*self, vars@, k, self.nterms as int) && r
                    == self.coefficients@[k],
    {
        if is_strictly_increasing(vars) {
            return self.lcoeff();
        }
        if self.nterms == 0 {
            return F::zero();
        }
        let zero = E::zero();
        let mut highest = filled(zero, self.nvars);
        let mut best: usize = 0;
        let mut t: usize = 0;
        proof {
            self.lemma_rows();
        }
        while t < self.nterms
            invariant
                self.consistent(),
                forall|p: int| 0 <= p < vars@.len() ==> #[trigger] vars@[p] < self.nvars,
                t <= self.nterms,
                highest@.len() == self.nvars,
                t == 0 ==> forall|v: int| 0 <= v < self.nvars ==> (#[trigger] highest@[v]).to_u32_spec() == 0,
                t > 0 ==> leads_among(*self, vars@, best as int, t as int) && ordered_by(
                    highest@,
                    vars@,
                ) == ordered_by(self.rows()[best as int], vars@),
            decreases self.nterms - t,
        {
            proof {
                self.lemma_rows();
            }
            let row = self.exponents(t);
            let ghost h0 = highest@;
            let ghost kb = ordered_by(self.rows()[best as int], vars@);
            let ghost kr = ordered_by(row@, vars@);
            let standing = compare_with_highest(row, vars, &mut highest);
            proof {
                if t == 0 {
                    // nothing comes before the vector of zeros
                    if standing == Standing::Below {
                        let q = choose|q: int| lt_at(kr, ordered_by(h0, vars@), q);
                        assert(h0[vars@[q] as int].to_u32_spec() == 0);
                    }
                }
            }
            match standing {
                Standing::Below => {
                    proof {
                        assert forall|j: int| 0 <= j < t + 1 implies !lex_lt(
                            kb,
                            ordered_by(#[trigger] self.rows()[j], vars@),
                        ) by {
                            if j == t {
                                lemma_lex_asymmetric(kr, kb);
                            }
                        }
                    }
                },
                Standing::Level => {
                    proof {
                        assert forall|j: int| 0 <= j < t + 1 implies !lex_lt(
                            kr,
                            ordered_by(#[trigger] self.rows()[j], vars@),
                        ) by {
                            if j == t {
                                lemma_lex_irreflexive(kr);
                            }
                        }
                    }
                    best = t;
                },
                Standing::Above => {
                    proof {
                        assert forall|j: int| 0 <= j < t + 1 implies !lex_lt(
                            kr,
                            ordered_by(#[trigger] self.rows()[j], vars@),
                        ) by {
                            let kj = ordered_by(self.rows()[j], vars@);
                            if j == t {
                                lemma_lex_irreflexive(kr);
                            } else if t > 0 {
                                if lex_lt(kr, kj) {
                                    lemma_lex_transitive(kb, kr, kj);
                                }
                            }
                        }
                    }
                    best = t;
                },
            }
            t += 1;
        }
        self.field.copy_element(&self.coefficients[best])
    }

    /// Get the leading coefficient viewed as a polynomial in the variable `n`:
    /// the terms from the leading one down that have the exponents of the
    /// leading term in all variables but the last one and the variable `n`,
    /// with all exponents but that of `n` set to zero.
    pub fn lcoeff_last(&self, n: usize) -> (res: Self)
        requires
            self.wf(),
            self.nterms > 0 ==> n < self.nvars,
        ensures
            res.wf(),
            res.field == self.field,
            self.nterms == 0 ==> res.nterms == 0 && res.nvars == 0 && res.var_map is None,
            self.nterms > 0 ==> res.nvars == self.nvars && var_map_view(res.var_map)
                == var_map_view(self.var_map) && res@ == sum_terms(
                self.field,
                self.rows_back_only(n as int).take(self.leading_run(n as int, 0)),
                self.coefficients_back().take(self.leading_run(n as int, 0)),
            ),
            0 <= self.leading_run(n as int, 0) <= self.nterms,
    {
        if self.is_zero() {
            return MultivariatePolynomial::zero(self.field);
        }
        // the last variable should have the least sorting priority,
        // so the last term should still be the lcoeff
        let last = self.last_exponents();
        let mut res = self.new_from(None);
        let zero = E::zero();
        let mut e = filled(zero, self.nvars);
        let ghost rows = self.rows_back_only(n as int);
        let ghost coeffs = self.coefficients_back();
        let mut k: usize = 0;
        let mut stop = false;
        proof {
            E::lemma_exponent(zero, 0);
            self.lemma_rows();
            assert(rows.take(0) =~= Seq::<Seq<E>>::empty());
        }
        while k < self.nterms && !stop
            invariant
                self.wf(),
                self.nterms > 0,
                n < self.nvars,
                zero == E::from_u32_spec(0),
                last@ == self.rows().last(),
                rows == self.rows_back_only(n as int),
                coeffs == self.coefficients_back(),
                e@ == Seq::new(self.nvars as nat, |v: int| zero),
                k <= self.nterms,
                res.wf(),
                res.nvars == self.nvars,
                res.field == self.field,
                var_map_view(res.var_map) == var_map_view(self.var_map),
                !stop ==> self.leading_run(n as int, 0) == self.leading_run(n as int, k as int)
                    && res@ == sum_terms(self.field, rows.take(k as int), coeffs.take(k as int)),
                stop ==> 0 <= self.leading_run(n as int, 0) <= self.nterms && res@ == sum_terms(
                    self.field,
                    rows.take(self.leading_run(n as int, 0)),
                    coeffs.take(self.leading_run(n as int, 0)),
                ),
            decreases self.nterms - k, (if stop { 0int } else { 1int }),
        {
            proof {
                self.lemma_rows();
            }
            let t = self.nterms - 1 - k;
            let row = self.exponents(t);
            // do the exponents agree with those of the leading term?
            let mut agrees = true;
            let mut i: usize = 0;
            while i + 1 < self.nvars && agrees
                invariant
                    row@ == self.rows()[t as int],
                    row@.len() == self.nvars,
                    last@ == self.rows().last(),
                    last@.len() == self.nvars,
                    i < self.nvars,
                    agrees ==> forall|j: int| 0 <= j < i && j != n ==> (#[trigger] row@[j]) == last@[j],
                    !agrees ==> exists|j: int|
                        0 <= j < self.nvars - 1 && j != n && (#[trigger] row@[j]) != last@[j],
                decreases self.nvars - i, (if agrees { 1int } else { 0int }),
            {
                if i != n && row[i].to_u32() != last[i].to_u32() {
                    agrees = false;
                    proof {
                        assert(row@[i as int] != last@[i as int]);
                    }
                } else {
                    proof {
                        if i != n {
                            E::lemma_exponent(row@[i as int], 0);
                            E::lemma_exponent(last@[i as int], 0);
                        }
                    }
                    i += 1;
                }
            }
            proof {
                assert(agrees == self.agrees_with_leading(n as int, k as int));
            }
            if agrees {
                e[n] = row[n];
                proof {
                    assert(e@ =~= rows[k as int]);
                    lemma_sum_terms_step(self.field, rows, coeffs, k as int);
                }
                res.append_monomial(self.field.copy_element(&self.coefficients[t]), e.as_slice());
                e[n] = zero;
                proof {
                    assert(e@ =~= Seq::new(self.nvars as nat, |v: int| zero));
                }
                k += 1;
            } else {
                stop = true;
            }
        }
        res
    }

    /// Get the leading coefficient viewed as a polynomial in the last variable
    /// of `vars`, under the order of the variables that `vars` gives.
    /// This operation is O(n) if the variables are out of order.
    ///
    /// If the variables are in increasing order, this is `lcoeff_last` for
    /// the last of them. Otherwise it is made up of the terms that no term
    /// comes after when the exponents of all variables of `vars` but the last
    /// one are compared in their order, with all exponents but that of the
    /// last one set to zero.
    pub fn lcoeff_last_varorder(&self, vars: &[usize]) -> (res: Self)
        requires
            self.wf(),
            vars@.len() > 0,
            forall|p: int| 0 <= p < vars@.len() ==> #[trigger] vars@[p] < self.nvars,
        ensures
            res.wf(),
            res.field == self.field,
            self.nterms == 0 ==> res.nterms == 0 && res.nvars == 0 && res.var_map is None,
            self.nterms > 0 ==> res.nvars == self.nvars && var_map_view(res.var_map)
                == var_map_view(self.var_map),
            self.nterms > 0 && strictly_increasing(vars@) ==> res@ == sum_terms(
                self.field,
                self.rows_back_only(vars@.last() as int).take(
                    self.leading_run(vars@.last() as int, 0),
                ),
                self.coefficients_back().take(self.leading_run(vars@.last() as int, 0)),
            ),
            self.nterms > 0 && !strictly_increasing(vars@) ==> exists|idx: Seq<usize>|
                #[trigger] tops_listed(*self, vars@.drop_last(), idx, self.nterms as int) && res@
                    == sum_terms(
                    self.field,
                    Seq::new(idx.len(), |i: int| only_at(self.rows()[idx[i] as int], vars@.last() as int)),
                    Seq::new(idx.len(), |i: int| self.coefficients@[idx[i] as int]),
                ),
    {
        if self.is_zero() {
            return MultivariatePolynomial::zero(self.field);
        }
        let lastvar = vars[vars.len() - 1];
        if is_strictly_increasing(vars) {
            return self.lcoeff_last(lastvar);
        }
        let front = vstd::slice::slice_subrange(vars, 0, vars.len() - 1);
        proof {
            assert(front@ =~= vars@.drop_last());
        }
        let zero = E::zero();
        let mut highest = filled(zero, self.nvars);
        let mut indices: Vec<usize> = Vec::with_capacity(10);
        let mut t: usize = 0;
        proof {
            E::lemma_exponent(zero, 0);
            self.lemma_rows();
        }
        while t < self.nterms
            invariant
                self.wf(),
                front@ == vars@.drop_last(),
                forall|p: int| 0 <= p < front@.len() ==> #[trigger] front@[p] < self.nvars,
                t <= self.nterms,
                highest@.len() == self.nvars,
                t == 0 ==> indices@.len() == 0 && forall|v: int|
                    0 <= v < self.nvars ==> (#[trigger] highest@[v]).to_u32_spec() == 0,
                t > 0 ==> indices@.len() > 0,
                tops_listed(*self, front@, indices@, t as int),
                forall|i: int|
                    0 <= i < indices@.len() ==> ordered_by(
                        self.rows()[#[trigger] indices@[i] as int],
                        front@,
                    ) == ordered_by(highest@, front@),
            decreases self.nterms - t,
        {
            proof {
                self.lemma_rows();
            }
            let row = self.exponents(t);
            let ghost h0 = highest@;
            let ghost kh = ordered_by(h0, front@);
            let ghost kr = ordered_by(row@, front@);
            let ghost before = indices@;
            let standing = compare_with_highest(row, front, &mut highest);
            proof {
                if t == 0 {
                    if standing == Standing::Below {
                        let q = choose|q: int| lt_at(kr, kh, q);
                        assert(h0[front@[q] as int].to_u32_spec() == 0);
                    }
                }
            }
            match standing {
                Standing::Below => {
                    proof {
                        // the term is no top, and the tops stay
                        assert(tops_among(*self, front@, before[0] as int, t as int));
                        assert forall|k: int| #[trigger] tops_among(*self, front@, k, t + 1)
                            <==> tops_among(*self, front@, k, t as int) by {
                            if tops_among(*self, front@, k, t + 1) {
                                if k == t {
                                    assert(!lex_lt(kr, ordered_by(self.rows()[before[0] as int], front@)));
                                }
                            }
                            if tops_among(*self, front@, k, t as int) {
                                let i = choose|i: int| 0 <= i < before.len() && #[trigger] before[i] == k;
                                assert forall|j: int| 0 <= j < t + 1 implies !lex_lt(
                                    ordered_by(self.rows()[k], front@),
                                    ordered_by(#[trigger] self.rows()[j], front@),
                                ) by {
                                    if j == t {
                                        lemma_lex_asymmetric(kr, kh);
                                    }
                                }
                            }
                        }
                    }
                },
                Standing::Level => {
                    indices.push(t);
                    proof {
                        assert forall|k: int| #[trigger] tops_among(*self, front@, k, t + 1) <==> (k
                            == t || tops_among(*self, front@, k, t as int)) by {
                            if t > 0 {
                                assert(tops_among(*self, front@, before[0] as int, t as int));
                            }
                            if k == t {
                                assert forall|j: int| 0 <= j < t + 1 implies !lex_lt(
                                    kr,
                                    ordered_by(#[trigger] self.rows()[j], front@),
                                ) by {
                                    if j == t {
                                        lemma_lex_irreflexive(kr);
                                    } else {
                                        assert(!lex_lt(
                                            ordered_by(self.rows()[before[0] as int], front@),
                                            ordered_by(self.rows()[j], front@),
                                        ));
                                    }
                                }
                            }
                            if tops_among(*self, front@, k, t as int) {
                                let i = choose|i: int| 0 <= i < before.len() && #[trigger] before[i] == k;
                                assert forall|j: int| 0 <= j < t + 1 implies !lex_lt(
                                    ordered_by(self.rows()[k], front@),
                                    ordered_by(#[trigger] self.rows()[j], front@),
                                ) by {
                                    if j == t {
                                        lemma_lex_irreflexive(kr);
                                    }
                                }
                            }
                        }
                        assert forall|i: int| 0 <= i < indices@.len() implies tops_among(
                            *self,
                            front@,
                            #[trigger] indices@[i] as int,
                            t + 1,
                        ) by {
                            if i < before.len() {
                                assert(indices@[i] == before[i]);
                                assert(tops_among(*self, front@, before[i] as int, t as int));
                            }
                        }
                        assert forall|i: int, j: int| 0 <= i < j < indices@.len() implies #[trigger] indices@[i]
                            < #[trigger] indices@[j] by {
                            assert(indices@[i] == before[i]);
                            assert(tops_among(*self, front@, before[i] as int, t as int));
                            if j < before.len() {
                                assert(indices@[j] == before[j]);
                            }
                        }
                        assert forall|k: int| #[trigger] tops_among(*self, front@, k, t + 1) implies exists|i: int|
                            0 <= i < indices@.len() && #[trigger] indices@[i] == k by {
                            if k == t {
                                assert(indices@[before.len() as int] == k);
                            } else {
                                let i = choose|i: int| 0 <= i < before.len() && #[trigger] before[i] == k;
                                assert(indices@[i] == k);
                            }
                        }
                        assert forall|i: int| 0 <= i < indices@.len() implies ordered_by(
                            self.rows()[#[trigger] indices@[i] as int],
                            front@,
                        ) == ordered_by(highest@, front@) by {
                            if i < before.len() {
                                assert(indices@[i] == before[i]);
                            }
                        }
                    }
                },
                Standing::Above => {
                    indices.clear();
                    indices.push(t);
                    proof {
                        assert(indices@.len() == 1 && indices@[0] == t);
                        assert forall|j: int| 0 <= j < t + 1 implies !lex_lt(
                            kr,
                            ordered_by(#[trigger] self.rows()[j], front@),
                        ) by {
                            let kj = ordered_by(self.rows()[j], front@);
                            if j == t {
                                lemma_lex_irreflexive(kr);
                            } else {
                                assert(tops_among(*self, front@, before[0] as int, t as int));
                                if lex_lt(kr, kj) {
                                    lemma_lex_transitive(kh, kr, kj);
                                }
                            }
                        }
                        assert(tops_among(*self, front@, t as int, t + 1));
                        assert forall|k: int| #[trigger] tops_among(*self, front@, k, t + 1) implies exists|i: int|
                            0 <= i < indices@.len() && #[trigger] indices@[i] == k by {
                            if k != t {
                                // the former tops come before the term
                                assert(tops_among(*self, front@, before[0] as int, t as int));
                                let kk = ordered_by(self.rows()[k], front@);
                                assert(!lex_lt(kk, kr));
                                assert(!lex_lt(kh, kk));
                                lemma_lex_total(kk, kh);
                                if kk == kh {
                                    assert(lex_lt(kk, kr));
                                } else {
                                    lemma_lex_transitive(kk, kh, kr);
                                }
                                assert(false);
                            }
                        }
                    }
                },
            }
            t += 1;
        }
        let mut res = self.new_from(None);
        let mut e = filled(zero, self.nvars);
        let ghost idx = indices@;
        let ghost rows = Seq::new(
            idx.len(),
            |i: int| only_at(self.rows()[idx[i] as int], lastvar as int),
        );
        let ghost coeffs = Seq::new(idx.len(), |i: int| self.coefficients@[idx[i] as int]);
        let mut i: usize = 0;
        proof {
            assert(rows.take(0) =~= Seq::<Seq<E>>::empty());
        }
        while i < indices.len()
            invariant
                self.wf(),
                zero == E::from_u32_spec(0),
                lastvar < self.nvars,
                idx == indices@,
                forall|i: int| 0 <= i < idx.len() ==> #[trigger] idx[i] < self.nterms,
                rows == Seq::new(
                    idx.len(),
                    |i: int| only_at(self.rows()[idx[i] as int], lastvar as int),
                ),
                coeffs == Seq::new(idx.len(), |i: int| self.coefficients@[idx[i] as int]),
                e@ == Seq::new(self.nvars as nat, |v: int| zero),
                i <= idx.len(),
                res.wf(),
                res.nvars == self.nvars,
                res.field == self.field,
                var_map_view(res.var_map) == var_map_view(self.var_map),
                res@ == sum_terms(self.field, rows.take(i as int), coeffs.take(i as int)),
            decreases idx.len() - i,
        {
            proof {
                self.lemma_rows();
            }
            let k = indices[i];
            e[lastvar] = self.exponents(k)[lastvar];
            proof {
                assert(e@ =~= rows[i as int]);
                lemma_sum_terms_step(self.field, rows, coeffs, i as int);
            }
            res.append_monomial(self.field.copy_element(&self.coefficients[k]), e.as_slice());
            e[lastvar] = zero;
            proof {
                assert(e@ =~= Seq::new(self.nvars as nat, |v: int| zero));
            }
            i += 1;
        }
        proof {
            assert(rows.take(idx.len() as int) =~= rows);
            assert(coeffs.take(idx.len() as int) =~= coeffs);
            assert(tops_listed(*self, vars@.drop_last(), idx, self.nterms as int));
        }
        res
    }
}

} // verus!
