//! Substitution of variables, reordering of variables, and projection onto
//! the powers of a variable.
use crate::poly::cache::ExponentIndex;
use crate::poly::division::row_key;
use crate::poly::matrix::filled;
use crate::poly::monomial::{key_of, lemma_key_of, zero_row};
use crate::poly::polynomial::{add_term, coeff_in, var_map_view, MultivariatePolynomial};
use crate::poly::Exponent;
use crate::rings::{lemma_pow_closed, lemma_zero_add, Ring};
use vstd::prelude::*;

verus! {

/// The map of terms that comes of adding up a list of monomials, one after
/// the other.
pub open spec fn sum_terms<F: Ring, E: Exponent>(
    f: F,
    rows: Seq<Seq<E>>,
    coeffs: Seq<F::Element>,
) -> Map<Seq<E>, F::Element>
    decreases rows.len(),
{
    if rows.len() == 0 {
        Map::empty()
    } else {
        add_term(f, sum_terms(f, rows.drop_last(), coeffs.drop_last()), rows.last(), coeffs.last())
    }
}

/// Adding one more monomial to a sum of monomials.
pub proof fn lemma_sum_terms_step<F: Ring, E: Exponent>(
    f: F,
    rows: Seq<Seq<E>>,
    coeffs: Seq<F::Element>,
    k: int,
)
    requires
        0 <= k < rows.len(),
        rows.len() == coeffs.len(),
    ensures
        sum_terms(f, rows.take(k + 1), coeffs.take(k + 1)) == add_term(
            f,
            sum_terms(f, rows.take(k), coeffs.take(k)),
            rows[k],
            coeffs[k],
        ),
{
    assert(rows.take(k + 1).drop_last() =~= rows.take(k));
    assert(coeffs.take(k + 1).drop_last() =~= coeffs.take(k));
}

/// The exponent vector with the exponent of the variable `n` set to zero.
pub open spec fn zero_at<E: Exponent>(row: Seq<E>, n: int) -> Seq<E> {
    row.update(n, E::from_u32_spec(0))
}

/// The exponent vector under a change of the order of the variables, after
/// the first `t` places of the map have been applied: place `x` of the result
/// is place `varmap[x]` of the vector, or the other way round if `inverse`.
/// Places that the map does not reach are zero.
pub open spec fn rearranged<E: Exponent>(
    row: Seq<E>,
    varmap: Seq<usize>,
    inverse: bool,
    t: int,
) -> Seq<E>
    decreases t,
{
    if t <= 0 {
        zero_row::<E>(row.len())
    } else if inverse {
        rearranged(row, varmap, inverse, t - 1).update(varmap[t - 1] as int, row[t - 1])
    } else {
        rearranged(row, varmap, inverse, t - 1).update(t - 1, row[varmap[t - 1] as int])
    }
}

/// The coefficient times the powers of the values that are put in for the
/// variables, for the first `t` of the substitutions: the value `r[i].1` is put
/// in for the variable `r[i].0`.
pub open spec fn substituted<F: Ring, E: Exponent>(
    f: F,
    c: F::Element,
    row: Seq<E>,
    r: Seq<(usize, F::Element)>,
    t: int,
) -> F::Element
    decreases t,
{
    if t <= 0 {
        c
    } else {
        let p = row[r[t - 1].0 as int].to_u32_spec();
        if p > 0 {
            f.mul_spec(substituted(f, c, row, r, t - 1), f.pow_spec(r[t - 1].1, p as u64))
        } else {
            substituted(f, c, row, r, t - 1)
        }
    }
}

/// The exponent vector with all exponents but that of the variable `v` set to
/// zero.
pub open spec fn only_at<E: Exponent>(row: Seq<E>, v: int) -> Seq<E> {
    zero_row::<E>(row.len()).update(v, row[v])
}

/// The coefficient that a list of terms gives to an exponent vector: that
/// of the term with the vector, zero if there is none.
pub open spec fn listed<F: Ring, E: Exponent>(
    rows: Seq<Seq<E>>,
    coeffs: Seq<F::Element>,
    e: Seq<E>,
) -> F::Element {
    if rows.contains(e) {
        coeffs[rows.index_of(e)]
    } else {
        F::zero_spec()
    }
}

/// No term of the map has the coefficient zero.
pub open spec fn no_zero_terms<F: Ring, E: Exponent>(m: Map<Seq<E>, F::Element>) -> bool {
    forall|e: Seq<E>| #[trigger] m.dom().contains(e) ==> m[e] != F::zero_spec()
}

/// Monomials that differ from each other add up to the map that gives each
/// its coefficient, and has no term where the coefficient is zero.
pub proof fn lemma_sum_of_distinct<F: Ring, E: Exponent>(
    f: F,
    rows: Seq<Seq<E>>,
    coeffs: Seq<F::Element>,
)
    requires
        f.valid(),
        rows.len() == coeffs.len(),
        rows.no_duplicates(),
        forall|k: int| 0 <= k < coeffs.len() ==> f.contains(#[trigger] coeffs[k]),
    ensures
        no_zero_terms::<F, E>(sum_terms(f, rows, coeffs)),
        forall|e: Seq<E>|
            coeff_in::<F, E>(#[trigger] sum_terms(f, rows, coeffs), e) == listed::<F, E>(
                rows,
                coeffs,
                e,
            ),
    decreases rows.len(),
{
    let sum = sum_terms(f, rows, coeffs);
    if rows.len() > 0 {
        let r0 = rows.drop_last();
        let c0 = coeffs.drop_last();
        let last = rows.last();
        let c = coeffs.last();
        let n = rows.len() - 1;
        lemma_sum_of_distinct(f, r0, c0);
        let s0 = sum_terms(f, r0, c0);
        assert(!r0.contains(last)) by {
            if r0.contains(last) {
                let i = r0.index_of(last);
                assert(rows[i] == rows[n]);
            }
        }
        assert(coeff_in::<F, E>(s0, last) == listed::<F, E>(r0, c0, last));
        lemma_zero_add(f, c);
        assert forall|e: Seq<E>| coeff_in::<F, E>(sum, e) == listed::<F, E>(rows, coeffs, e) by {
            assert(coeff_in::<F, E>(s0, e) == listed::<F, E>(r0, c0, e));
            if e == last {
                assert(rows[n] == e);
                assert(rows.contains(e));
                let i = rows.index_of(e);
                assert(rows[i] == rows[n]);
            } else if r0.contains(e) {
                let i0 = r0.index_of(e);
                assert(rows[i0] == e);
                assert(rows.contains(e));
                let i = rows.index_of(e);
                assert(rows[i] == rows[i0]);
                assert(c0[i0] == coeffs[i0]);
            } else if rows.contains(e) {
                let i = rows.index_of(e);
                assert(r0[i] == e);
            }
        }
    }
}

/// Adding to the coefficient of one of a list of monomials that differ from
/// each other adds a monomial to their sum.
pub proof fn lemma_sum_update<F: Ring, E: Exponent>(
    f: F,
    rows: Seq<Seq<E>>,
    coeffs: Seq<F::Element>,
    j: int,
    c: F::Element,
)
    requires
        f.valid(),
        rows.len() == coeffs.len(),
        rows.no_duplicates(),
        forall|k: int| 0 <= k < coeffs.len() ==> f.contains(#[trigger] coeffs[k]),
        0 <= j < rows.len(),
        f.contains(c),
    ensures
        sum_terms(f, rows, coeffs.update(j, f.add_spec(coeffs[j], c))) == add_term(
            f,
            sum_terms(f, rows, coeffs),
            rows[j],
            c,
        ),
{
    let more = coeffs.update(j, f.add_spec(coeffs[j], c));
    let s0 = sum_terms(f, rows, coeffs);
    let m1 = sum_terms(f, rows, more);
    let m2 = add_term(f, s0, rows[j], c);
    f.lemma_closed(coeffs[j], c);
    lemma_sum_of_distinct(f, rows, coeffs);
    lemma_sum_of_distinct(f, rows, more);
    assert(rows.contains(rows[j]));
    let i = rows.index_of(rows[j]);
    assert(rows[i] == rows[j]);
    assert forall|e: Seq<E>| coeff_in::<F, E>(m1, e) == coeff_in::<F, E>(m2, e) by {
        assert(coeff_in::<F, E>(s0, e) == listed::<F, E>(rows, coeffs, e));
        assert(coeff_in::<F, E>(m1, e) == listed::<F, E>(rows, more, e));
        if e != rows[j] && rows.contains(e) {
            let i2 = rows.index_of(e);
            assert(rows[i2] == e);
        }
    }
    assert forall|e: Seq<E>| m1.dom().contains(e) <==> m2.dom().contains(e) by {
        assert(coeff_in::<F, E>(m1, e) == coeff_in::<F, E>(m2, e));
    }
    assert forall|e: Seq<E>| m1.dom().contains(e) implies m1[e] == m2[e] by {
        assert(coeff_in::<F, E>(m1, e) == coeff_in::<F, E>(m2, e));
    }
    assert(m1 =~= m2);
}

/// The exponent vector among `nv` variables in which the variable `v` has
/// the exponent `k` and every other variable the exponent zero.
pub open spec fn key_row<E: Exponent>(nv: nat, v: int, k: E) -> Seq<E> {
    zero_row::<E>(nv).update(v, k)
}

/// The exponent vectors that stand for a list of exponents of the variable
/// `v`.
pub open spec fn key_rows<E: Exponent>(keys: Seq<E>, nv: nat, v: int) -> Seq<Seq<E>> {
    Seq::new(keys.len(), |j: int| key_row(nv, v, keys[j]))
}

/// The number of an exponent as a key of the index.
pub open spec fn key1<E: Exponent>(k: E) -> Seq<u32> {
    Seq::<u32>::empty().push(k.to_u32_spec())
}

/// The index has the place of every exponent of the list, and no other
/// entry.
pub open spec fn keys_indexed<E: Exponent>(keys: Seq<E>, places: Map<Seq<u32>, usize>) -> bool {
    &&& forall|key: Seq<u32>|
        #[trigger] places.dom().contains(key) ==> places[key] < keys.len() && key1(
            keys[places[key] as int],
        ) == key
    &&& forall|j: int|
        0 <= j < keys.len() ==> places.dom().contains(#[trigger] key1(keys[j])) && places[key1(
            keys[j],
        )] == j
}

/// The exponent vectors of exponents that the index tells apart differ from
/// each other.
pub proof fn lemma_key_rows_distinct<E: Exponent>(
    keys: Seq<E>,
    places: Map<Seq<u32>, usize>,
    nv: nat,
    v: int,
)
    requires
        keys_indexed(keys, places),
        0 <= v < nv,
    ensures
        key_rows(keys, nv, v).no_duplicates(),
{
    let rows = key_rows(keys, nv, v);
    assert forall|i: int, j: int| 0 <= i < rows.len() && 0 <= j < rows.len() && i != j implies rows[i]
        != rows[j] by {
        if rows[i] == rows[j] {
            assert(rows[i][v] == keys[i]);
            assert(rows[j][v] == keys[j]);
            assert(places[key1(keys[i])] == i);
            assert(places[key1(keys[j])] == j);
        }
    }
}

/// One value is put in for each variable, and every power in the memo is
/// either not worked out yet, which is marked by zero, or the power of the
/// value that is put in for its variable.
pub open spec fn memo_ok<F: Ring>(
    f: F,
    r: Seq<(usize, F::Element)>,
    cache: Seq<Vec<F::Element>>,
) -> bool {
    &&& forall|i: int, j: int|
        0 <= i < r.len() && 0 <= j < r.len() && (#[trigger] r[i]).0 == (#[trigger] r[j]).0
            ==> r[i].1 == r[j].1
    &&& forall|i: int, p: int|
        #![trigger cache[r[i].0 as int]@[p]]
        0 <= i < r.len() && 0 < p < cache[r[i].0 as int]@.len() && p <= u32::MAX
            ==> cache[r[i].0 as int]@[p] == F::zero_spec() || cache[r[i].0 as int]@[p]
            == f.pow_spec(r[i].1, p as u64)
}

impl<F: Ring, E: Exponent> MultivariatePolynomial<F, E> {
    /// The exponent vectors of the terms under a change of the order of the
    /// variables.
    pub open spec fn rearranged_rows(&self, varmap: Seq<usize>, inverse: bool) -> Seq<Seq<E>> {
        Seq::new(
            self.nterms as nat,
            |k: int| rearranged(self.rows()[k], varmap, inverse, varmap.len() as int),
        )
    }

    /// The exponent vectors of the terms with the exponent of the variable `n`
    /// set to zero.
    pub open spec fn rows_without(&self, n: int) -> Seq<Seq<E>> {
        Seq::new(self.nterms as nat, |k: int| zero_at(self.rows()[k], n))
    }

    /// The coefficients of the terms times the power of `v` that the variable
    /// `n` has in the term.
    pub open spec fn coefficients_with(&self, n: int, v: F::Element) -> Seq<F::Element> {
        Seq::new(
            self.nterms as nat,
            |k: int|
                self.field.mul_spec(
                    self.coefficients@[k],
                    self.field.pow_spec(v, self.rows()[k][n].to_u32_spec() as u64),
                ),
        )
    }

    /// The exponent vectors of the terms with all exponents but that of the
    /// variable `v` set to zero.
    pub open spec fn rows_only(&self, v: int) -> Seq<Seq<E>> {
        Seq::new(self.nterms as nat, |k: int| only_at(self.rows()[k], v))
    }

    /// The coefficients of the terms after the substitutions `r`.
    pub open spec fn coefficients_substituted(&self, r: Seq<(usize, F::Element)>) -> Seq<
        F::Element,
    > {
        Seq::new(
            self.nterms as nat,
            |k: int| substituted(self.field, self.coefficients@[k], self.rows()[k], r, r.len() as int),
        )
    }

    /// Change the order of the variables in the polynomial, using `varmap`.
    /// The map can also be reversed, by setting `inverse` to `true`.
    pub fn rearrange(&self, varmap: &[usize], inverse: bool) -> (res: Self)
        requires
            self.wf(),
            varmap@.len() <= self.nvars,
            forall|x: int| 0 <= x < varmap@.len() ==> #[trigger] varmap@[x] < self.nvars,
        ensures
            res.wf(),
            res.nvars == self.nvars,
            res.field == self.field,
            var_map_view(res.var_map) == var_map_view(self.var_map),
            res@ == sum_terms(
                self.field,
                self.rearranged_rows(varmap@, inverse),
                self.coefficients@,
            ),
    {
        let mut res = self.new_from(None);
        let zero = E::zero();
        proof {
            E::lemma_exponent(zero, 0);
            self.lemma_rows();
        }
        let ghost rows = self.rearranged_rows(varmap@, inverse);
        let mut k: usize = 0;
        proof {
            assert(rows.take(0) =~= Seq::<Seq<E>>::empty());
        }
        while k < self.nterms
            invariant
                self.wf(),
                zero == E::from_u32_spec(0),
                varmap@.len() <= self.nvars,
                forall|x: int| 0 <= x < varmap@.len() ==> #[trigger] varmap@[x] < self.nvars,
                rows == self.rearranged_rows(varmap@, inverse),
                k <= self.nterms,
                res.wf(),
                res.nvars == self.nvars,
                res.field == self.field,
                var_map_view(res.var_map) == var_map_view(self.var_map),
                res@ == sum_terms(self.field, rows.take(k as int), self.coefficients@.take(k as int)),
            decreases self.nterms - k,
        {
            proof {
                self.lemma_rows();
            }
            let m = self.exponents(k);
            let mut newe = filled(zero, self.nvars);
            let mut x: usize = 0;
            proof {
                assert(newe@ =~= rearranged(m@, varmap@, inverse, 0));
            }
            while x < varmap.len()
                invariant
                    m@.len() == self.nvars,
                    varmap@.len() <= self.nvars,
                    forall|x: int| 0 <= x < varmap@.len() ==> #[trigger] varmap@[x] < self.nvars,
                    x <= varmap@.len(),
                    newe@.len() == self.nvars,
                    newe@ == rearranged(m@, varmap@, inverse, x as int),
                decreases varmap@.len() - x,
            {
                if !inverse {
                    newe[x] = m[varmap[x]];
                } else {
                    newe[varmap[x]] = m[x];
                }
                x += 1;
            }
            proof {
                lemma_sum_terms_step(self.field, rows, self.coefficients@, k as int);
            }
            res.append_monomial(self.field.copy_element(&self.coefficients[k]), newe.as_slice());
            k += 1;
        }
        proof {
            assert(rows.take(self.nterms as int) =~= rows);
            assert(self.coefficients@.take(self.nterms as int) =~= self.coefficients@);
        }
        res
    }

    /// Replace a variable `n` in the polynomial by an element from the ring
    /// `v`.
    pub fn replace(&self, n: usize, v: F::Element) -> (res: Self)
        requires
            self.wf(),
            n < self.nvars,
            self.field.contains(v),
        ensures
            res.wf(),
            res.nvars == self.nvars,
            res.field == self.field,
            var_map_view(res.var_map) == var_map_view(self.var_map),
            res@ == sum_terms(self.field, self.rows_without(n as int), self.coefficients_with(n as int, v)),
    {
        let mut res = self.new_from(Some(self.nterms));
        let zero = E::zero();
        proof {
            E::lemma_exponent(zero, 0);
            self.lemma_rows();
        }
        let ghost rows = self.rows_without(n as int);
        let ghost coeffs = self.coefficients_with(n as int, v);
        let mut t: usize = 0;
        proof {
            assert(rows.take(0) =~= Seq::<Seq<E>>::empty());
        }
        while t < self.nterms
            invariant
                self.wf(),
                zero == E::from_u32_spec(0),
                n < self.nvars,
                self.field.contains(v),
                rows == self.rows_without(n as int),
                coeffs == self.coefficients_with(n as int, v),
                t <= self.nterms,
                res.wf(),
                res.nvars == self.nvars,
                res.field == self.field,
                var_map_view(res.var_map) == var_map_view(self.var_map),
                res@ == sum_terms(self.field, rows.take(t as int), coeffs.take(t as int)),
            decreases self.nterms - t,
        {
            proof {
                self.lemma_rows();
            }
            let row = self.exponents(t);
            let p = self.field.pow(&v, row[n].to_u32() as u64);
            proof {
                lemma_pow_closed(self.field, v, row@[n as int].to_u32_spec() as u64);
                self.field.lemma_closed(self.coefficients@[t as int], p);
            }
            let c = self.field.mul(&self.coefficients[t], &p);
            let mut e: Vec<E> = Vec::with_capacity(self.nvars);
            let mut i: usize = 0;
            while i < self.nvars
                invariant
                    row@.len() == self.nvars,
                    i <= self.nvars,
                    e@ == row@.take(i as int),
                decreases self.nvars - i,
            {
                e.push(row[i]);
                proof {
                    assert(e@ =~= row@.take(i + 1));
                }
                i += 1;
            }
            proof {
                assert(row@.take(self.nvars as int) =~= row@);
            }
            e[n] = zero;
            proof {
                assert(e@ == rows[t as int]);
                assert(c == coeffs[t as int]);
                lemma_sum_terms_step(self.field, rows, coeffs, t as int);
            }
            res.append_monomial(c, e.as_slice());
            t += 1;
        }
        proof {
            assert(rows.take(self.nterms as int) =~= rows);
            assert(coeffs.take(self.nterms as int) =~= coeffs);
        }
        res
    }

    /// Replace all variables except `v` in the polynomial by elements from
    /// the ring. The value `r[i].1` is put in for the variable `r[i].0`. The
    /// powers that have been worked out are kept in `cache`, by variable and
    /// exponent, where there is room for them. The coefficients of the terms
    /// with the same power of `v` are added up in a hash map before the
    /// result is built.
    pub fn replace_all_except(
        &self,
        v: usize,
        r: &[(usize, F::Element)],
        cache: &mut Vec<Vec<F::Element>>,
    ) -> (res: Self)
        requires
            self.wf(),
            v < self.nvars,
            forall|i: int|
                0 <= i < r@.len() ==> (#[trigger] r@[i]).0 < self.nvars && r@[i].0 < old(cache)@.len()
                    && self.field.contains(r@[i].1),
            memo_ok(self.field, r@, old(cache)@),
        ensures
            res.wf(),
            res.nvars == self.nvars,
            res.field == self.field,
            var_map_view(res.var_map) == var_map_view(self.var_map),
            res@ == sum_terms(
                self.field,
                self.rows_only(v as int),
                self.coefficients_substituted(r@),
            ),
            final(cache)@.len() == old(cache)@.len(),
            forall|n: int|
                0 <= n < old(cache)@.len() ==> (#[trigger] final(cache)@[n])@.len() == old(
                    cache,
                )@[n]@.len(),
            memo_ok(self.field, r@, final(cache)@),
    {
        let zero = E::zero();
        let ghost f = self.field;
        proof {
            E::lemma_exponent(zero, 0);
            self.lemma_rows();
        }
        let ghost rows = self.rows_only(v as int);
        let ghost coeffs = self.coefficients_substituted(r@);
        let mut t: usize = 0;
        let mut places = ExponentIndex::new();
        let mut keys: Vec<E> = Vec::new();
        let mut sums: Vec<F::Element> = Vec::new();
        proof {
            assert(rows.take(0) =~= Seq::<Seq<E>>::empty());
            assert(key_rows(keys@, self.nvars as nat, v as int) =~= Seq::<Seq<E>>::empty());
        }
        while t < self.nterms
            invariant
                self.wf(),
                f == self.field,
                zero == E::from_u32_spec(0),
                v < self.nvars,
                cache@.len() == old(cache)@.len(),
                forall|n: int|
                    0 <= n < cache@.len() ==> (#[trigger] cache@[n])@.len() == old(cache)@[n]@.len(),
                forall|i: int|
                    0 <= i < r@.len() ==> (#[trigger] r@[i]).0 < self.nvars && r@[i].0
                        < cache@.len() && f.contains(r@[i].1),
                memo_ok(f, r@, cache@),
                rows == self.rows_only(v as int),
                coeffs == self.coefficients_substituted(r@),
                t <= self.nterms,
                keys@.len() == sums@.len(),
                forall|j: int| 0 <= j < sums@.len() ==> f.contains(#[trigger] sums@[j]),
                keys_indexed(keys@, places@),
                sum_terms(f, key_rows(keys@, self.nvars as nat, v as int), sums@) == sum_terms(
                    f,
                    rows.take(t as int),
                    coeffs.take(t as int),
                ),
            decreases self.nterms - t,
        {
            proof {
                self.lemma_rows();
            }
            let row = self.exponents(t);
            let mut c = self.field.copy_element(&self.coefficients[t]);
            let mut i: usize = 0;
            while i < r.len()
                invariant
                    self.wf(),
                    f == self.field,
                    row@ == self.rows()[t as int],
                    row@.len() == self.nvars,
                    t < self.nterms,
                    cache@.len() == old(cache)@.len(),
                    forall|n: int|
                        0 <= n < cache@.len() ==> (#[trigger] cache@[n])@.len() == old(
                            cache,
                        )@[n]@.len(),
                    forall|i: int|
                        0 <= i < r@.len() ==> (#[trigger] r@[i]).0 < self.nvars && r@[i].0
                            < cache@.len() && f.contains(r@[i].1),
                    memo_ok(f, r@, cache@),
                    i <= r@.len(),
                    f.contains(c),
                    c == substituted(f, self.coefficients@[t as int], row@, r@, i as int),
                decreases r@.len() - i,
            {
                let n = r[i].0;
                let p = row[n].to_u32() as usize;
                proof {
                    assert(r@[i as int].0 < cache@.len());
                    lemma_pow_closed(f, r@[i as int].1, p as u64);
                    f.lemma_closed(c, f.pow_spec(r@[i as int].1, p as u64));
                }
                if p > 0 {
                    if p < cache[n].len() {
                        if F::is_zero(&cache[n][p]) {
                            let power = self.field.pow(&r[i].1, p as u64);
                            let ghost before = cache@;
                            cache[n][p] = power;
                            proof {
                                assert forall|i2: int, p2: int|
                                    #![trigger cache@[r@[i2].0 as int]@[p2]]
                                    0 <= i2 < r@.len() && 0 < p2 < cache@[r@[i2].0 as int]@.len()
                                        && p2 <= u32::MAX implies cache@[r@[i2].0 as int]@[p2]
                                    == F::zero_spec() || cache@[r@[i2].0 as int]@[p2] == f.pow_spec(
                                    r@[i2].1,
                                    p2 as u64,
                                ) by {
                                    if r@[i2].0 == n && p2 == p {
                                        assert(r@[i2].1 == r@[i as int].1);
                                    } else {
                                        assert(cache@[r@[i2].0 as int]@[p2] == before[r@[i2].0 as int]@[p2]);
                                    }
                                }
                            }
                        }
                        c = self.field.mul(&c, &cache[n][p]);
                    } else {
                        let power = self.field.pow(&r[i].1, p as u64);
                        c = self.field.mul(&c, &power);
                    }
                }
                i += 1;
            }
            let k = row[v];
            let mut ku: Vec<u32> = Vec::new();
            ku.push(k.to_u32());
            let ghost keys0 = keys@;
            let ghost sums0 = sums@;
            let ghost acc0 = key_rows(keys0, self.nvars as nat, v as int);
            proof {
                assert(ku@ == key1(k));
                assert(only_at(row@, v as int) == key_row(self.nvars as nat, v as int, k));
                assert(c == coeffs[t as int]);
                lemma_sum_terms_step(f, rows, coeffs, t as int);
                lemma_key_rows_distinct(keys0, places@, self.nvars as nat, v as int);
            }
            match places.get(&ku) {
                Some(j) => {
                    proof {
                        E::lemma_exponent(keys0[j as int], 0);
                        E::lemma_exponent(k, 0);
                        assert(key1(keys0[j as int])[0] == key1(k)[0]);
                        assert(keys0[j as int] == k);
                        assert(acc0[j as int] == rows[t as int]);
                        lemma_sum_update(f, acc0, sums0, j as int, c);
                        f.lemma_closed(sums0[j as int], c);
                    }
                    let s = self.field.add(&sums[j], &c);
                    sums.set(j, s);
                },
                None => {
                    let n = keys.len();
                    keys.push(k);
                    sums.push(c);
                    places.insert(&ku, n);
                    proof {
                        let acc1 = key_rows(keys@, self.nvars as nat, v as int);
                        assert(acc1.drop_last() =~= acc0);
                        assert(sums@.drop_last() =~= sums0);
                        assert(acc1.last() == rows[t as int]);
                        assert forall|key: Seq<u32>| #[trigger] places@.dom().contains(
                            key,
                        ) implies places@[key] < keys@.len() && key1(keys@[places@[key] as int])
                            == key by {
                            if key != key1(k) {
                                assert(keys@[places@[key] as int] == keys0[places@[key] as int]);
                            }
                        }
                        assert forall|j: int| 0 <= j < keys@.len() implies places@.dom().contains(
                            #[trigger] key1(keys@[j]),
                        ) && places@[key1(keys@[j])] == j by {
                            if j < n {
                                assert(keys@[j] == keys0[j]);
                                assert(key1(keys0[j]) != key1(k));
                            }
                        }
                    }
                },
            }
            t += 1;
        }
        proof {
            assert(rows.take(self.nterms as int) =~= rows);
            assert(coeffs.take(self.nterms as int) =~= coeffs);
        }
        let ghost acc = key_rows(keys@, self.nvars as nat, v as int);
        let mut res = self.new_from(None);
        let mut j: usize = 0;
        proof {
            assert(acc.take(0) =~= Seq::<Seq<E>>::empty());
        }
        while j < keys.len()
            invariant
                self.wf(),
                f == self.field,
                zero == E::from_u32_spec(0),
                v < self.nvars,
                keys@.len() == sums@.len(),
                forall|i: int| 0 <= i < sums@.len() ==> f.contains(#[trigger] sums@[i]),
                acc == key_rows(keys@, self.nvars as nat, v as int),
                j <= keys@.len(),
                res.wf(),
                res.nvars == self.nvars,
                res.field == f,
                var_map_view(res.var_map) == var_map_view(self.var_map),
                res@ == sum_terms(f, acc.take(j as int), sums@.take(j as int)),
            decreases keys@.len() - j,
        {
            let mut e = filled(zero, self.nvars);
            e[v] = keys[j];
            let c = self.field.copy_element(&sums[j]);
            proof {
                assert(e@ =~= acc[j as int]);
                lemma_sum_terms_step(f, acc, sums@, j as int);
            }
            res.append_monomial(c, e.as_slice());
            j += 1;
        }
        proof {
            assert(acc.take(keys@.len() as int) =~= acc);
            assert(sums@.take(sums@.len() as int) =~= sums@);
        }
        res
    }
}

/// The exponent vector with the exponent of the variable `x` set to `d`.
pub open spec fn with_exp<E: Exponent>(row: Seq<E>, x: int, d: u32) -> Seq<E> {
    row.update(x, E::from_u32_spec(d))
}

/// The coefficient of the power `d` of the variable `x`, as a map of terms in
/// the other variables: the terms in which `x` has the exponent `d`, with that
/// exponent set to zero.
pub open spec fn coefficient_of_power<F: Ring, E: Exponent>(
    m: Map<Seq<E>, F::Element>,
    x: int,
    d: u32,
) -> Map<Seq<E>, F::Element> {
    Map::new(
        |y: Seq<E>|
            0 <= x < y.len() && y[x].to_u32_spec() == 0 && m.dom().contains(with_exp(y, x, d)),
        |y: Seq<E>| m[with_exp(y, x, d)],
    )
}

/// Setting the exponent of a variable to zero can be undone when the exponent
/// is known.
pub proof fn lemma_zero_at<E: Exponent>(row: Seq<E>, x: int)
    requires
        0 <= x < row.len(),
    ensures
        zero_at(row, x)[x].to_u32_spec() == 0,
        zero_at(row, x).len() == row.len(),
        with_exp(zero_at(row, x), x, row[x].to_u32_spec()) == row,
        forall|y: Seq<E>|
            y.len() == row.len() && y[x].to_u32_spec() == 0 && with_exp(y, x, row[x].to_u32_spec())
                == row ==> y == zero_at(row, x),
{
    E::lemma_exponent(row[x], 0);
    assert(with_exp(zero_at(row, x), x, row[x].to_u32_spec()) =~= row);
    assert forall|y: Seq<E>|
        y.len() == row.len() && y[x].to_u32_spec() == 0 && with_exp(y, x, row[x].to_u32_spec())
            == row implies y == zero_at(row, x) by {
        E::lemma_exponent(y[x], 0);
        assert forall|v: int| 0 <= v < row.len() implies y[v] == zero_at(row, x)[v] by {
            if v != x {
                assert(with_exp(y, x, row[x].to_u32_spec())[v] == y[v]);
            }
        }
        assert(y =~= zero_at(row, x));
    }
}

/// The list of the powers of the variable `x` that the polynomial `p` has,
/// in increasing order, each with its coefficient: a polynomial in the
/// variables of `p` that holds the terms of `p` with that power of `x`, with
/// the exponent of `x` set to zero.
pub open spec fn univariate_list<F: Ring, E: Exponent>(
    p: MultivariatePolynomial<F, E>,
    x: int,
    list: Seq<(MultivariatePolynomial<F, E>, E)>,
) -> bool {
    &&& forall|i: int|
        0 <= i < list.len() ==> (#[trigger] list[i]).0.wf() && list[i].0.nvars == p.nvars
            && list[i].0.field == p.field && var_map_view(list[i].0.var_map) == var_map_view(
            p.var_map,
        ) && list[i].0.nterms > 0 && list[i].0@ == coefficient_of_power::<F, E>(
            p@,
            x,
            list[i].1.to_u32_spec(),
        )
    &&& forall|i: int, j: int|
        0 <= i < j < list.len() ==> (#[trigger] list[i]).1.to_u32_spec() < (
        #[trigger] list[j]).1.to_u32_spec()
    &&& forall|e: Seq<E>|
        #[trigger] p@.dom().contains(e) ==> exists|i: int|
            0 <= i < list.len() && (#[trigger] list[i]).1 == e[x] && list[i].0@.dom().contains(
                zero_at(e, x),
            ) && list[i].0@[zero_at(e, x)] == p@[e]
}

impl<F: Ring, E: Exponent> MultivariatePolynomial<F, E> {
    /// The terms in which the variable `x` has the exponent `d`, with that
    /// exponent set to zero.
    fn coefficient_at_power(&self, x: usize, d: u32) -> (a: Self)
        requires
            self.wf(),
            x < self.nvars,
            d <= E::max_spec(),
        ensures
            a.wf(),
            a.nvars == self.nvars,
            a.field == self.field,
            var_map_view(a.var_map) == var_map_view(self.var_map),
            a@ == coefficient_of_power::<F, E>(self@, x as int, d),
    {
        let mut a = self.new_from(None);
        let zero = E::zero();
        let ghost f = self.field;
        proof {
            E::lemma_exponent(zero, 0);
            self.lemma_rows();
        }
        let mut t: usize = 0;
        while t < self.nterms
            invariant
                self.wf(),
                f == self.field,
                zero == E::from_u32_spec(0),
                x < self.nvars,
                t <= self.nterms,
                a.wf(),
                a.nvars == self.nvars,
                a.field == f,
                var_map_view(a.var_map) == var_map_view(self.var_map),
                forall|y: Seq<E>|
                    #[trigger] a@.dom().contains(y) <==> exists|k: int|
                        0 <= k < t && (#[trigger] self.rows()[k])[x as int].to_u32_spec() == d
                            && zero_at(self.rows()[k], x as int) == y,
                forall|k: int|
                    0 <= k < t && (#[trigger] self.rows()[k])[x as int].to_u32_spec() == d ==> a@[zero_at(
                        self.rows()[k],
                        x as int,
                    )] == self.coefficients@[k],
            decreases self.nterms - t,
        {
            proof {
                self.lemma_rows();
            }
            let row = self.exponents(t);
            if row[x].to_u32() == d {
                let mut e: Vec<E> = Vec::with_capacity(self.nvars);
                let mut i: usize = 0;
                while i < self.nvars
                    invariant
                        row@.len() == self.nvars,
                        i <= self.nvars,
                        e@ == row@.take(i as int),
                    decreases self.nvars - i,
                {
                    e.push(row[i]);
                    proof {
                        assert(e@ =~= row@.take(i + 1));
                    }
                    i += 1;
                }
                proof {
                    assert(row@.take(self.nvars as int) =~= row@);
                }
                e[x] = zero;
                let ghost before = a@;
                proof {
                    // no term so far has this exponent vector
                    if before.dom().contains(e@) {
                        let k = choose|k: int|
                            0 <= k < t && (#[trigger] self.rows()[k])[x as int].to_u32_spec() == d
                                && zero_at(self.rows()[k], x as int) == e@;
                        lemma_zero_at(self.rows()[k], x as int);
                        lemma_zero_at(row@, x as int);
                        crate::poly::monomial::lemma_lex_asymmetric(
                            self.rows()[k],
                            self.rows()[t as int],
                        );
                    }
                    lemma_zero_add(f, self.coefficients@[t as int]);
                }
                a.append_monomial(self.field.copy_element(&self.coefficients[t]), e.as_slice());
                proof {
                    assert(a@ == before.insert(e@, self.coefficients@[t as int]));
                    assert forall|y: Seq<E>| #[trigger] a@.dom().contains(y) <==> exists|k: int|
                        0 <= k < t + 1 && (#[trigger] self.rows()[k])[x as int].to_u32_spec() == d
                            && zero_at(self.rows()[k], x as int) == y by {
                        if a@.dom().contains(y) {
                            if y == e@ {
                                assert(zero_at(self.rows()[t as int], x as int) == y);
                            } else {
                                assert(before.dom().contains(y));
                                let k = choose|k: int|
                                    0 <= k < t && (#[trigger] self.rows()[k])[x as int].to_u32_spec()
                                        == d && zero_at(self.rows()[k], x as int) == y;
                                assert(zero_at(self.rows()[k], x as int) == y);
                            }
                        }
                        if exists|k: int|
                            0 <= k < t + 1 && (#[trigger] self.rows()[k])[x as int].to_u32_spec()
                                == d && zero_at(self.rows()[k], x as int) == y {
                            let k = choose|k: int|
                                0 <= k < t + 1 && (#[trigger] self.rows()[k])[x as int].to_u32_spec()
                                    == d && zero_at(self.rows()[k], x as int) == y;
                            if k < t {
                                assert(before.dom().contains(y));
                            }
                        }
                    }
                    assert forall|k: int|
                        0 <= k < t + 1 && (#[trigger] self.rows()[k])[x as int].to_u32_spec()
                            == d implies a@[zero_at(self.rows()[k], x as int)]
                        == self.coefficients@[k] by {
                        if k < t {
                            let y = zero_at(self.rows()[k], x as int);
                            assert(before.dom().contains(y));
                            if y == e@ {
                                assert(false);
                            }
                        }
                    }
                }
            } else {
                proof {
                    assert forall|y: Seq<E>| #[trigger] a@.dom().contains(y) <==> exists|k: int|
                        0 <= k < t + 1 && (#[trigger] self.rows()[k])[x as int].to_u32_spec() == d
                            && zero_at(self.rows()[k], x as int) == y by {
                        if a@.dom().contains(y) {
                            let k = choose|k: int|
                                0 <= k < t && (#[trigger] self.rows()[k])[x as int].to_u32_spec()
                                    == d && zero_at(self.rows()[k], x as int) == y;
                            assert(zero_at(self.rows()[k], x as int) == y);
                        }
                        if exists|k: int|
                            0 <= k < t + 1 && (#[trigger] self.rows()[k])[x as int].to_u32_spec()
                                == d && zero_at(self.rows()[k], x as int) == y {
                            let k = choose|k: int|
                                0 <= k < t + 1 && (#[trigger] self.rows()[k])[x as int].to_u32_spec()
                                    == d && zero_at(self.rows()[k], x as int) == y;
                            assert(k < t);
                        }
                    }
                }
            }
            t += 1;
        }
        proof {
            self.lemma_rows();
            a.lemma_rows();
            let target = coefficient_of_power::<F, E>(self@, x as int, d);
            assert forall|y: Seq<E>| a@.dom().contains(y) <==> target.dom().contains(y) by {
                if a@.dom().contains(y) {
                    let k = choose|k: int|
                        0 <= k < self.nterms && (#[trigger] self.rows()[k])[x as int].to_u32_spec()
                            == d && zero_at(self.rows()[k], x as int) == y;
                    lemma_zero_at(self.rows()[k], x as int);
                    assert(self@.dom().contains(self.rows()[k]));
                }
                if target.dom().contains(y) {
                    let row = with_exp(y, x as int, d);
                    let k = self.rows().index_of(row);
                    assert(self.rows()[k] == row);
                    assert(y.len() == row.len());
                    lemma_zero_at(row, x as int);
                    E::lemma_exponent(y[x as int], d);
                    assert(row[x as int].to_u32_spec() == d);
                    assert(zero_at(self.rows()[k], x as int) == y);
                }
            }
            assert forall|y: Seq<E>| a@.dom().contains(y) implies a@[y] == target[y] by {
                let k = choose|k: int|
                    0 <= k < self.nterms && (#[trigger] self.rows()[k])[x as int].to_u32_spec() == d
                        && zero_at(self.rows()[k], x as int) == y;
                lemma_zero_at(self.rows()[k], x as int);
                assert(self@.dom().contains(self.rows()[k]));
            }
            assert(a@ =~= target);
        }
        a
    }

    /// Create a univariate polynomial out of a multivariate one: the list of
    /// the powers of the variable `x` that the polynomial has, in increasing
    /// order, each with its coefficient, a polynomial in the other variables.
    pub fn to_univariate_polynomial_list(&self, x: usize) -> (res: Vec<(Self, E)>)
        requires
            self.wf(),
            x < self.nvars,
        ensures
            univariate_list(*self, x as int, res@),
    {
        let mut result: Vec<(Self, E)> = Vec::new();
        if self.nterms == 0 {
            proof {
                self.lemma_rows();
            }
            return result;
        }
        // get maximum degree for variable x
        let maxdeg_e = self.degree(x);
        let maxdeg = maxdeg_e.to_u32();
        let mut d: u32 = 0;
        let mut done = false;
        proof {
            self.lemma_rows();
            E::lemma_exponent(maxdeg_e, 0);
        }
        while !done
            invariant
                self.wf(),
                x < self.nvars,
                d <= maxdeg,
                maxdeg <= E::max_spec(),
                forall|k: int|
                    0 <= k < self.nterms ==> (#[trigger] self.rows()[k])[x as int].to_u32_spec()
                        <= maxdeg,
                forall|i: int|
                    0 <= i < result@.len() ==> (#[trigger] result@[i]).0.wf() && result@[i].0.nvars
                        == self.nvars && result@[i].0.field == self.field && var_map_view(
                        result@[i].0.var_map,
                    ) == var_map_view(self.var_map) && result@[i].0.nterms > 0 && result@[i].0@
                        == coefficient_of_power::<F, E>(
                        self@,
                        x as int,
                        result@[i].1.to_u32_spec(),
                    ),
                forall|i: int, j: int|
                    0 <= i < j < result@.len() ==> (#[trigger] result@[i]).1.to_u32_spec() < (
                    #[trigger] result@[j]).1.to_u32_spec(),
                forall|i: int|
                    0 <= i < result@.len() ==> (#[trigger] result@[i]).1.to_u32_spec() < d || (done
                        && result@[i].1.to_u32_spec() <= d),
                forall|e: Seq<E>|
                    #[trigger] self@.dom().contains(e) && (e[x as int].to_u32_spec() < d || done)
                        ==> exists|i: int|
                        0 <= i < result@.len() && (#[trigger] result@[i]).1 == e[x as int],
            decreases maxdeg - d, (if done { 0int } else { 1int }),
        {
            let a = self.coefficient_at_power(x, d);
            let ghost before = result@;
            if !a.is_zero() {
                let power = E::from_u32(d);
                proof {
                    E::lemma_exponent(power, d);
                }
                result.push((a, power));
            }
            proof {
                self.lemma_rows();
                a.lemma_rows();
                assert forall|i: int| 0 <= i < result@.len() implies (#[trigger] result@[i]).0.wf()
                    && result@[i].0.nvars == self.nvars && result@[i].0.field == self.field
                    && result@[i].0.nterms > 0 && result@[i].0@ == coefficient_of_power::<F, E>(
                    self@,
                    x as int,
                    result@[i].1.to_u32_spec(),
                ) by {
                    if i < before.len() {
                        assert(result@[i] == before[i]);
                    }
                }
                assert forall|i: int, j: int| 0 <= i < j < result@.len() implies (
                #[trigger] result@[i]).1.to_u32_spec() < (#[trigger] result@[j]).1.to_u32_spec() by {
                    assert(result@[i] == before[i]);
                    if j < before.len() {
                        assert(result@[j] == before[j]);
                    }
                }
                assert forall|e: Seq<E>|
                    #[trigger] self@.dom().contains(e) && e[x as int].to_u32_spec()
                        <= d implies exists|i: int|
                    0 <= i < result@.len() && (#[trigger] result@[i]).1 == e[x as int] by {
                    if e[x as int].to_u32_spec() < d {
                        let i = choose|i: int|
                            0 <= i < before.len() && (#[trigger] before[i]).1 == e[x as int];
                        assert(result@[i] == before[i]);
                    } else {
                        // the term is in the coefficient of this power
                        lemma_zero_at(e, x as int);
                        let k = self.rows().index_of(e);
                        assert(a@.dom().contains(zero_at(e, x as int)));
                        E::lemma_exponent(e[x as int], d);
                        assert(result@[before.len() as int].1 == e[x as int]);
                    }
                }
                assert forall|i: int| 0 <= i < result@.len() implies (#[trigger] result@[i]).1.to_u32_spec()
                    <= d by {
                    if i < before.len() {
                        assert(result@[i] == before[i]);
                    }
                }
            }
            if d == maxdeg {
                done = true;
                proof {
                    assert forall|e: Seq<E>| #[trigger] self@.dom().contains(e) implies e[x as int].to_u32_spec()
                        <= d by {
                        let k = self.rows().index_of(e);
                        assert(self.rows()[k] == e);
                    }
                }
            } else {
                d += 1;
            }
        }
        proof {
            self.lemma_rows();
            assert forall|e: Seq<E>| #[trigger] self@.dom().contains(e) implies exists|i: int|
                0 <= i < result@.len() && (#[trigger] result@[i]).1 == e[x as int] && result@[i].0@.dom().contains(
                    zero_at(e, x as int),
                ) && result@[i].0@[zero_at(e, x as int)] == self@[e] by {
                let i = choose|i: int|
                    0 <= i < result@.len() && (#[trigger] result@[i]).1 == e[x as int];
                let k = self.rows().index_of(e);
                lemma_zero_at(e, x as int);
                assert(result@[i].0@ == coefficient_of_power::<F, E>(
                    self@,
                    x as int,
                    result@[i].1.to_u32_spec(),
                ));
            }
        }
        result
    }
}

/// The exponent vector with the exponents of the variables in `xs` kept and
/// all others set to zero, or the other way round if `!keep`.
pub open spec fn restricted<E: Exponent>(row: Seq<E>, xs: Seq<usize>, keep: bool) -> Seq<E> {
    Seq::new(
        row.len(),
        |v: int|
            if xs.contains(v as usize) == keep {
                row[v]
            } else {
                E::from_u32_spec(0)
            },
    )
}

/// The terms of a map of terms whose exponent vector is `key` in the variables
/// in `xs` (in the other variables, if `!inside`), with those exponents set to
/// zero.
pub open spec fn part_of<F: Ring, E: Exponent>(
    m: Map<Seq<E>, F::Element>,
    xs: Seq<usize>,
    inside: bool,
    key: Seq<E>,
) -> Map<Seq<E>, F::Element> {
    Map::new(
        |y: Seq<E>|
            exists|e: Seq<E>|
                #[trigger] m.dom().contains(e) && restricted(e, xs, inside) == key && restricted(
                    e,
                    xs,
                    !inside,
                ) == y,
        |y: Seq<E>|
            m[choose|e: Seq<E>|
                #[trigger] m.dom().contains(e) && restricted(e, xs, inside) == key && restricted(
                    e,
                    xs,
                    !inside,
                ) == y],
    )
}

/// An exponent vector is made up of its exponents in the variables in `xs` and
/// its exponents in the other variables.
pub proof fn lemma_restricted<E: Exponent>(a: Seq<E>, b: Seq<E>, xs: Seq<usize>)
    requires
        a.len() == b.len(),
        restricted(a, xs, true) == restricted(b, xs, true),
        restricted(a, xs, false) == restricted(b, xs, false),
    ensures
        a == b,
{
    assert forall|v: int| 0 <= v < a.len() implies a[v] == b[v] by {
        if xs.contains(v as usize) {
            assert(restricted(a, xs, true)[v] == a[v]);
            assert(restricted(b, xs, true)[v] == b[v]);
        } else {
            assert(restricted(a, xs, false)[v] == a[v]);
            assert(restricted(b, xs, false)[v] == b[v]);
        }
    }
    assert(a =~= b);
}

/// The exponents of a vector in the variables in `xs`, if `keep`, or in the
/// other variables.
pub fn restrict_exponents<E: Exponent>(row: &[E], xs: &[usize], keep: bool) -> (r: Vec<E>)
    requires
        forall|i: int| 0 <= i < xs@.len() ==> #[trigger] xs@[i] < row@.len(),
    ensures
        r@ == restricted(row@, xs@, keep),
{
    let n = row.len();
    let zero = E::zero();
    proof {
        E::lemma_exponent(zero, 0);
    }
    // mark the variables in xs
    let mut marked: Vec<bool> = filled(false, n);
    let mut i: usize = 0;
    while i < xs.len()
        invariant
            n == row@.len(),
            marked@.len() == n,
            forall|i: int| 0 <= i < xs@.len() ==> #[trigger] xs@[i] < row@.len(),
            i <= xs@.len(),
            forall|v: int|
                0 <= v < n ==> #[trigger] marked@[v] == xs@.take(i as int).contains(v as usize),
        decreases xs@.len() - i,
    {
        let x = xs[i];
        let ghost m0 = marked@;
        marked[x] = true;
        proof {
            assert(xs@.take(i + 1) =~= xs@.take(i as int).push(x));
            assert forall|v: int| 0 <= v < n implies #[trigger] marked@[v] == xs@.take(
                i + 1,
            ).contains(v as usize) by {
                assert(m0[v] == xs@.take(i as int).contains(v as usize));
                vstd::seq_lib::lemma_seq_contains_after_push(xs@.take(i as int), x, v as usize);
            }
        }
        i += 1;
    }
    proof {
        assert(xs@.take(xs@.len() as int) =~= xs@);
    }
    let mut r: Vec<E> = Vec::with_capacity(n);
    let mut v: usize = 0;
    while v < n
        invariant
            n == row@.len(),
            marked@.len() == n,
            zero == E::from_u32_spec(0),
            forall|v: int| 0 <= v < n ==> #[trigger] marked@[v] == xs@.contains(v as usize),
            v <= n,
            r@ == restricted(row@, xs@, keep).take(v as int),
        decreases n - v,
    {
        if marked[v] == keep {
            r.push(row[v]);
        } else {
            r.push(zero);
        }
        proof {
            assert(r@ =~= restricted(row@, xs@, keep).take(v + 1));
        }
        v += 1;
    }
    proof {
        assert(restricted(row@, xs@, keep).take(n as int) =~= restricted(row@, xs@, keep));
    }
    r
}

/// The list of the parts of the first `t` terms of a polynomial: the keys are
/// distinct and have their places in the index; every term is in the part of
/// its key, and the parts hold nothing else.
pub open spec fn parts_ok<F: Ring, E: Exponent>(
    p: MultivariatePolynomial<F, E>,
    xs: Seq<usize>,
    inside: bool,
    list: Seq<(Vec<E>, MultivariatePolynomial<F, E>)>,
    places: Map<Seq<u32>, usize>,
    t: int,
) -> bool {
    &&& forall|i: int|
        0 <= i < list.len() ==> (#[trigger] list[i]).1.wf() && list[i].1.nvars == p.nvars
            && list[i].1.field == p.field && list[i].1.var_map is None && list[i].1.nterms > 0
    &&& forall|i: int, j: int|
        0 <= i < j < list.len() ==> (#[trigger] list[i]).0@ != (#[trigger] list[j]).0@
    &&& forall|k: Seq<u32>|
        #[trigger] places.dom().contains(k) ==> places[k] < list.len() && key_of(
            list[places[k] as int].0@,
        ) == k
    &&& forall|i: int|
        0 <= i < list.len() ==> places.dom().contains(key_of((#[trigger] list[i]).0@))
            && places[key_of(list[i].0@)] == i
    &&& forall|k: int|
        0 <= k < t ==> part_holds(p, xs, inside, list, #[trigger] p.rows()[k], p.coefficients@[k])
    &&& forall|i: int, y: Seq<E>|
        0 <= i < list.len() && #[trigger] list[i].1@.dom().contains(y) ==> part_from(
            p,
            xs,
            inside,
            t,
            list[i].0@,
            y,
        )
}

/// The term with the exponent vector `row` and the coefficient `c` is in the
/// part of its key.
pub open spec fn part_holds<F: Ring, E: Exponent>(
    p: MultivariatePolynomial<F, E>,
    xs: Seq<usize>,
    inside: bool,
    list: Seq<(Vec<E>, MultivariatePolynomial<F, E>)>,
    row: Seq<E>,
    c: F::Element,
) -> bool {
    exists|i: int|
        0 <= i < list.len() && (#[trigger] list[i]).0@ == restricted(row, xs, inside)
            && list[i].1@.dom().contains(restricted(row, xs, !inside)) && list[i].1@[restricted(
            row,
            xs,
            !inside,
        )] == c
}

/// One of the first `t` terms has the key `key` and the other exponents `y`.
pub open spec fn part_from<F: Ring, E: Exponent>(
    p: MultivariatePolynomial<F, E>,
    xs: Seq<usize>,
    inside: bool,
    t: int,
    key: Seq<E>,
    y: Seq<E>,
) -> bool {
    exists|k: int|
        0 <= k < t && restricted(#[trigger] p.rows()[k], xs, inside) == key && restricted(
            p.rows()[k],
            xs,
            !inside,
        ) == y
}

/// The part of the key of term `t` has no term yet with the other exponents of
/// term `t`.
pub proof fn lemma_part_fresh<F: Ring, E: Exponent>(
    p: MultivariatePolynomial<F, E>,
    xs: Seq<usize>,
    inside: bool,
    list: Seq<(Vec<E>, MultivariatePolynomial<F, E>)>,
    places: Map<Seq<u32>, usize>,
    t: int,
    i: int,
)
    requires
        p.wf(),
        parts_ok(p, xs, inside, list, places, t),
        0 <= t < p.nterms,
        0 <= i < list.len(),
        list[i].0@ == restricted(p.rows()[t], xs, inside),
    ensures
        !list[i].1@.dom().contains(restricted(p.rows()[t], xs, !inside)),
{
    let y = restricted(p.rows()[t], xs, !inside);
    p.lemma_rows();
    if list[i].1@.dom().contains(y) {
        assert(part_from(p, xs, inside, t, list[i].0@, y));
        let k = choose|k: int|
            0 <= k < t && restricted(#[trigger] p.rows()[k], xs, inside) == list[i].0@ && restricted(
                p.rows()[k],
                xs,
                !inside,
            ) == y;
        lemma_restricted(p.rows()[k], p.rows()[t], xs);
        crate::poly::monomial::lemma_lex_asymmetric(p.rows()[k], p.rows()[t]);
    }
}

/// The list of the parts after term `t` has been put into the part of its
/// key, which is at the place `i0`.
pub proof fn lemma_parts_step<F: Ring, E: Exponent>(
    p: MultivariatePolynomial<F, E>,
    xs: Seq<usize>,
    inside: bool,
    before: Seq<(Vec<E>, MultivariatePolynomial<F, E>)>,
    places0: Map<Seq<u32>, usize>,
    after: Seq<(Vec<E>, MultivariatePolynomial<F, E>)>,
    places1: Map<Seq<u32>, usize>,
    t: int,
    i0: int,
    fresh: bool,
)
    requires
        p.wf(),
        parts_ok(p, xs, inside, before, places0, t),
        0 <= t < p.nterms,
        0 <= i0 < after.len(),
        after.len() <= usize::MAX,
        after[i0].0@ == restricted(p.rows()[t], xs, inside),
        after[i0].1.wf(),
        after[i0].1.nvars == p.nvars,
        after[i0].1.field == p.field,
        after[i0].1.var_map is None,
        forall|j: int| 0 <= j < before.len() && j != i0 ==> #[trigger] after[j] == before[j],
        fresh ==> i0 == before.len() && after.len() == before.len() + 1 && !places0.dom().contains(
            key_of(after[i0].0@),
        ) && places1 == places0.insert(key_of(after[i0].0@), i0 as usize) && after[i0].1@
            == Map::<Seq<E>, F::Element>::empty().insert(
            restricted(p.rows()[t], xs, !inside),
            p.coefficients@[t],
        ),
        !fresh ==> i0 < before.len() && after.len() == before.len() && places1 == places0
            && after[i0].0@ == before[i0].0@ && after[i0].1@ == before[i0].1@.insert(
            restricted(p.rows()[t], xs, !inside),
            p.coefficients@[t],
        ),
    ensures
        parts_ok(p, xs, inside, after, places1, t + 1),
{
    let row = p.rows()[t];
    let kk = restricted(row, xs, inside);
    let y = restricted(row, xs, !inside);
    let c = p.coefficients@[t];
    p.lemma_rows();
    after[i0].1.lemma_rows();
    assert(after[i0].1@.dom().contains(y));
    assert forall|i: int| 0 <= i < after.len() implies (#[trigger] after[i]).1.wf() && after[i].1.nvars
        == p.nvars && after[i].1.field == p.field && after[i].1.var_map is None
        && after[i].1.nterms > 0 by {
        if i != i0 {
            assert(after[i] == before[i]);
        } else if after[i0].1.nterms == 0 {
            let k = after[i0].1.rows().index_of(y);
        }
    }
    assert forall|i: int, j: int| 0 <= i < j < after.len() implies (#[trigger] after[i]).0@ != (
    #[trigger] after[j]).0@ by {
        if j == i0 && fresh {
            assert(after[i] == before[i]);
            if before[i].0@ == kk {
                assert(places0.dom().contains(key_of(before[i].0@)));
            }
        } else {
            if i != i0 {
                assert(after[i] == before[i]);
            }
            if j != i0 {
                assert(after[j] == before[j]);
            }
            assert(before[i].0@ != before[j].0@);
        }
    }
    assert forall|k: Seq<u32>| #[trigger] places1.dom().contains(k) implies places1[k]
        < after.len() && key_of(after[places1[k] as int].0@) == k by {
        if fresh && k == key_of(kk) {
            assert(places1[k] == i0 as usize);
        } else {
            assert(places0.dom().contains(k));
            assert(places1[k] == places0[k]);
            let j = places0[k] as int;
            assert(key_of(before[j].0@) == k);
            if j != i0 {
                assert(after[j] == before[j]);
            } else {
                assert(after[i0].0@ == before[i0].0@);
            }
        }
    }
    assert forall|i: int| 0 <= i < after.len() implies places1.dom().contains(
        key_of((#[trigger] after[i]).0@),
    ) && places1[key_of(after[i].0@)] == i by {
        if i != i0 {
            assert(after[i] == before[i]);
            assert(places0.dom().contains(key_of(before[i].0@)));
            assert(places0[key_of(before[i].0@)] == i);
        } else if !fresh {
            assert(places0.dom().contains(key_of(before[i].0@)));
            assert(places0[key_of(before[i].0@)] == i);
        } else {
            assert(places1[key_of(kk)] == i0 as usize);
        }
    }
    assert forall|k: int| 0 <= k < t + 1 implies part_holds(
        p,
        xs,
        inside,
        after,
        #[trigger] p.rows()[k],
        p.coefficients@[k],
    ) by {
        if k < t {
            assert(part_holds(p, xs, inside, before, p.rows()[k], p.coefficients@[k]));
            let yk = restricted(p.rows()[k], xs, !inside);
            let i = choose|i: int|
                0 <= i < before.len() && (#[trigger] before[i]).0@ == restricted(
                    p.rows()[k],
                    xs,
                    inside,
                ) && before[i].1@.dom().contains(yk) && before[i].1@[yk] == p.coefficients@[k];
            if i == i0 {
                if yk == y {
                    lemma_restricted(p.rows()[k], row, xs);
                    crate::poly::monomial::lemma_lex_asymmetric(p.rows()[k], row);
                }
                assert(after[i].0@ == before[i].0@);
                assert(after[i].1@[yk] == before[i].1@[yk]);
            } else {
                assert(after[i] == before[i]);
            }
            assert(after[i].0@ == restricted(p.rows()[k], xs, inside));
        } else {
            assert(after[i0].0@ == restricted(p.rows()[k], xs, inside));
        }
    }
    assert forall|i: int, y2: Seq<E>|
        0 <= i < after.len() && #[trigger] after[i].1@.dom().contains(y2) implies part_from(
        p,
        xs,
        inside,
        t + 1,
        after[i].0@,
        y2,
    ) by {
        if i == i0 && y2 == y {
            assert(restricted(p.rows()[t], xs, inside) == after[i].0@);
        } else {
            if i == i0 {
                assert(!fresh);
                assert(before[i].1@.dom().contains(y2));
            } else {
                assert(after[i] == before[i]);
            }
            assert(part_from(p, xs, inside, t, before[i].0@, y2));
            let k = choose|k: int|
                0 <= k < t && restricted(#[trigger] p.rows()[k], xs, inside) == before[i].0@
                    && restricted(p.rows()[k], xs, !inside) == y2;
            assert(restricted(p.rows()[k], xs, inside) == after[i].0@);
        }
    }
}

/// When all terms are in the list of the parts, every part is the part of its
/// key, and every term is in a part.
pub proof fn lemma_parts_done<F: Ring, E: Exponent>(
    p: MultivariatePolynomial<F, E>,
    xs: Seq<usize>,
    inside: bool,
    list: Seq<(Vec<E>, MultivariatePolynomial<F, E>)>,
    places: Map<Seq<u32>, usize>,
)
    requires
        p.wf(),
        parts_ok(p, xs, inside, list, places, p.nterms as int),
    ensures
        forall|i: int|
            0 <= i < list.len() ==> (#[trigger] list[i]).1@ == part_of::<F, E>(
                p@,
                xs,
                inside,
                list[i].0@,
            ),
        forall|e: Seq<E>|
            #[trigger] p@.dom().contains(e) ==> part_holds(p, xs, inside, list, e, p@[e]),
{
    p.lemma_rows();
    assert forall|e: Seq<E>| #[trigger] p@.dom().contains(e) implies part_holds(
        p,
        xs,
        inside,
        list,
        e,
        p@[e],
    ) by {
        let k = p.rows().index_of(e);
        assert(part_holds(p, xs, inside, list, p.rows()[k], p.coefficients@[k]));
    }
    assert forall|i: int| 0 <= i < list.len() implies (#[trigger] list[i]).1@ == part_of::<F, E>(
        p@,
        xs,
        inside,
        list[i].0@,
    ) by {
        let q = list[i].1@;
        let target = part_of::<F, E>(p@, xs, inside, list[i].0@);
        assert forall|y: Seq<E>| target.dom().contains(y) implies q.dom().contains(y) && q[y]
            == target[y] by {
            let e = choose|e: Seq<E>|
                #[trigger] p@.dom().contains(e) && restricted(e, xs, inside) == list[i].0@
                    && restricted(e, xs, !inside) == y;
            assert(part_holds(p, xs, inside, list, e, p@[e]));
            let i2 = choose|i2: int|
                0 <= i2 < list.len() && (#[trigger] list[i2]).0@ == restricted(e, xs, inside)
                    && list[i2].1@.dom().contains(restricted(e, xs, !inside)) && list[i2].1@[restricted(
                    e,
                    xs,
                    !inside,
                )] == p@[e];
            if i2 < i {
                assert(list[i2].0@ != list[i].0@);
            } else if i < i2 {
                assert(list[i].0@ != list[i2].0@);
            }
        }
        assert forall|y: Seq<E>| q.dom().contains(y) implies target.dom().contains(y) by {
            assert(part_from(p, xs, inside, p.nterms as int, list[i].0@, y));
            let k = choose|k: int|
                0 <= k < p.nterms && restricted(#[trigger] p.rows()[k], xs, inside) == list[i].0@
                    && restricted(p.rows()[k], xs, !inside) == y;
            assert(p@.dom().contains(p.rows()[k]));
        }
        assert(q =~= target);
    }
}

impl<F: Ring, E: Exponent> MultivariatePolynomial<F, E> {
    /// Split the polynomial as a polynomial in `xs` if `inside` is true, else
    /// in the other variables: the list of the exponent vectors in those
    /// variables that the polynomial has, in the order in which they come up,
    /// each with the terms that have it, a polynomial in the rest of the
    /// variables. The polynomials of the list have no variable map.
    pub fn to_multivariate_polynomial_list(&self, xs: &[usize], inside: bool) -> (res: Vec<
        (Vec<E>, Self),
    >)
        requires
            self.wf(),
            forall|i: int| 0 <= i < xs@.len() ==> #[trigger] xs@[i] < self.nvars,
        ensures
            forall|i: int|
                0 <= i < res@.len() ==> (#[trigger] res@[i]).1.wf() && res@[i].1.nvars == self.nvars
                    && res@[i].1.field == self.field && res@[i].1.var_map is None
                    && res@[i].1.nterms > 0 && res@[i].1@ == part_of::<F, E>(
                    self@,
                    xs@,
                    inside,
                    res@[i].0@,
                ),
            forall|i: int, j: int|
                0 <= i < j < res@.len() ==> (#[trigger] res@[i]).0@ != (#[trigger] res@[j]).0@,
            forall|e: Seq<E>|
                #[trigger] self@.dom().contains(e) ==> part_holds(
                    *self,
                    xs@,
                    inside,
                    res@,
                    e,
                    self@[e],
                ),
    {
        let mut list: Vec<(Vec<E>, Self)> = Vec::new();
        let mut places = ExponentIndex::new();
        let ghost f = self.field;
        proof {
            self.lemma_rows();
        }
        let mut t: usize = 0;
        while t < self.nterms
            invariant
                self.wf(),
                f == self.field,
                forall|i: int| 0 <= i < xs@.len() ==> #[trigger] xs@[i] < self.nvars,
                t <= self.nterms,
                parts_ok(*self, xs@, inside, list@, places@, t as int),
            decreases self.nterms - t,
        {
            proof {
                self.lemma_rows();
            }
            let row = self.exponents(t);
            let key = restrict_exponents(row, xs, inside);
            let part = restrict_exponents(row, xs, !inside);
            let ghost before = list@;
            let ghost places0 = places@;
            let c = self.field.copy_element(&self.coefficients[t]);
            let ku = row_key(key.as_slice());
            proof {
                lemma_zero_add(f, self.coefficients@[t as int]);
            }
            match places.get(&ku) {
                Some(i) => {
                    proof {
                        lemma_key_of(before[i as int].0@, key@);
                        lemma_part_fresh(*self, xs@, inside, before, places0, t as int, i as int);
                    }
                    list[i].1.append_monomial(c, part.as_slice());
                    let len = list.len();
                    proof {
                        assert forall|j: int| 0 <= j < before.len() && j != i implies #[trigger] list@[j]
                            == before[j] by {}
                        lemma_parts_step(
                            *self,
                            xs@,
                            inside,
                            before,
                            places0,
                            list@,
                            places@,
                            t as int,
                            i as int,
                            false,
                        );
                    }
                },
                None => {
                    let poly = MultivariatePolynomial::from_monomial(c, part, self.field);
                    let n_before = list.len();
                    list.push((key, poly));
                    places.insert(&ku, n_before);
                    let len = list.len();
                    proof {
                        assert forall|j: int| 0 <= j < before.len() implies #[trigger] list@[j]
                            == before[j] by {}
                        lemma_parts_step(
                            *self,
                            xs@,
                            inside,
                            before,
                            places0,
                            list@,
                            places@,
                            t as int,
                            n_before as int,
                            true,
                        );
                    }
                },
            }
            t += 1;
        }
        proof {
            lemma_parts_done(*self, xs@, inside, list@, places@);
        }
        list
    }
}

} // verus!
