//! The sparse polynomial container: construction, queries and the insertion of
//! single terms.
use crate::poly::matrix::{
    filled, insert_row, lemma_row_bounds, lemma_rows_entries, lemma_rows_insert, lemma_rows_push,
    lemma_rows_remove, push_row, remove_range, rows_of,
};
use crate::poly::monomial::{
    compare_exponents, exponents_are_zero, lemma_lex_asymmetric, lemma_lex_irreflexive,
    lemma_lex_transitive, lex_le, lex_lt, zero_row, Relation,
};
use crate::poly::varmap::VarMap;
use crate::poly::Exponent;
use crate::representations::Identifier;
use crate::rings::Ring;
use vstd::prelude::*;
use vstd::slice::slice_subrange;

verus! {

/// Multivariate polynomial with a sparse degree and variable dense
/// representation.
///
/// The `i`-th monomial is stored as `coefficients[i]` and
/// `exponents[i * nvars .. (i + 1) * nvars]`. Terms are always expanded and
/// sorted by their exponents.
pub struct MultivariatePolynomial<F: Ring, E: Exponent> {
    pub coefficients: Vec<F::Element>,
    pub exponents: Vec<E>,
    pub nterms: usize,
    pub nvars: usize,
    pub field: F,
    pub var_map: Option<VarMap>,
}

/// View object for a term in a multivariate polynomial.
pub struct MonomialView<'a, F: Ring, E: Exponent> {
    pub coefficient: &'a F::Element,
    pub exponents: &'a [E],
}

/// Each row comes before every later row in the monomial order.
pub open spec fn increasing<E: Exponent>(rows: Seq<Seq<E>>) -> bool {
    forall|i: int, j: int| 0 <= i < j < rows.len() ==> lex_lt(#[trigger] rows[i], #[trigger] rows[j])
}

/// The coefficient that a map of terms gives to an exponent vector: zero where
/// it has no term.
pub open spec fn coeff_in<F: Ring, E: Exponent>(m: Map<Seq<E>, F::Element>, e: Seq<E>) -> F::Element {
    if m.dom().contains(e) {
        m[e]
    } else {
        F::zero_spec()
    }
}

/// The map of terms with the monomial `c * x^e` added.
pub open spec fn add_term<F: Ring, E: Exponent>(
    f: F,
    m: Map<Seq<E>, F::Element>,
    e: Seq<E>,
    c: F::Element,
) -> Map<Seq<E>, F::Element> {
    let s = f.add_spec(coeff_in::<F, E>(m, e), c);
    if s == F::zero_spec() {
        m.remove(e)
    } else {
        m.insert(e, s)
    }
}

/// The map from the exponent vectors of a list of terms to their coefficients.
pub open spec fn terms_view<F: Ring, E: Exponent>(
    rows: Seq<Seq<E>>,
    coeffs: Seq<F::Element>,
) -> Map<Seq<E>, F::Element> {
    Map::new(|e: Seq<E>| rows.contains(e), |e: Seq<E>| coeffs[rows.index_of(e)])
}

/// Increasing rows are distinct.
pub proof fn lemma_increasing_distinct<E: Exponent>(rows: Seq<Seq<E>>)
    requires
        increasing(rows),
    ensures
        rows.no_duplicates(),
{
    assert forall|i: int, j: int| 0 <= i < rows.len() && 0 <= j < rows.len() && i != j implies rows[i]
        != rows[j] by {
        if i < j {
            lemma_lex_asymmetric(rows[i], rows[j]);
        } else {
            lemma_lex_asymmetric(rows[j], rows[i]);
        }
    }
}

/// A list of terms with distinct rows gives each row its coefficient.
pub proof fn lemma_terms_view<F: Ring, E: Exponent>(rows: Seq<Seq<E>>, coeffs: Seq<F::Element>)
    requires
        rows.no_duplicates(),
        rows.len() == coeffs.len(),
    ensures
        forall|k: int|
            0 <= k < rows.len() ==> terms_view::<F, E>(rows, coeffs).dom().contains(
                #[trigger] rows[k],
            ) && terms_view::<F, E>(rows, coeffs)[rows[k]] == coeffs[k],
        forall|e: Seq<E>|
            terms_view::<F, E>(rows, coeffs).dom().contains(e) ==> 0 <= rows.index_of(e)
                < rows.len() && rows[rows.index_of(e)] == e,
{
    assert forall|k: int| 0 <= k < rows.len() implies terms_view::<F, E>(
        rows,
        coeffs,
    ).dom().contains(#[trigger] rows[k]) && terms_view::<F, E>(rows, coeffs)[rows[k]]
        == coeffs[k] by {
        assert(rows.contains(rows[k]));
    }
    assert forall|e: Seq<E>| terms_view::<F, E>(rows, coeffs).dom().contains(e) implies 0
        <= rows.index_of(e) < rows.len() && rows[rows.index_of(e)] == e by {
        assert(rows.contains(e));
    }
}

/// Appending a term with a new row inserts it into the view.
pub proof fn lemma_view_push<F: Ring, E: Exponent>(
    rows: Seq<Seq<E>>,
    coeffs: Seq<F::Element>,
    e: Seq<E>,
    c: F::Element,
)
    requires
        rows.push(e).no_duplicates(),
        rows.len() == coeffs.len(),
    ensures
        terms_view::<F, E>(rows.push(e), coeffs.push(c)) == terms_view::<F, E>(rows, coeffs).insert(
            e,
            c,
        ),
{
    assert(rows.insert(rows.len() as int, e) =~= rows.push(e));
    assert(coeffs.insert(rows.len() as int, c) =~= coeffs.push(c));
    lemma_view_insert::<F, E>(rows, coeffs, rows.len() as int, e, c);
}

/// Inserting a term with a new row inserts it into the view.
pub proof fn lemma_view_insert<F: Ring, E: Exponent>(
    rows: Seq<Seq<E>>,
    coeffs: Seq<F::Element>,
    p: int,
    e: Seq<E>,
    c: F::Element,
)
    requires
        0 <= p <= rows.len(),
        rows.insert(p, e).no_duplicates(),
        rows.len() == coeffs.len(),
    ensures
        terms_view::<F, E>(rows.insert(p, e), coeffs.insert(p, c)) == terms_view::<F, E>(
            rows,
            coeffs,
        ).insert(e, c),
{
    let rows2 = rows.insert(p, e);
    let coeffs2 = coeffs.insert(p, c);
    let a = terms_view::<F, E>(rows2, coeffs2);
    let b = terms_view::<F, E>(rows, coeffs).insert(e, c);
    assert forall|i: int, j: int| 0 <= i < rows.len() && 0 <= j < rows.len() && i != j implies rows[i]
        != rows[j] by {
        let i2 = if i < p { i } else { i + 1 };
        let j2 = if j < p { j } else { j + 1 };
        assert(rows2[i2] == rows[i]);
        assert(rows2[j2] == rows[j]);
    }
    lemma_terms_view::<F, E>(rows2, coeffs2);
    lemma_terms_view::<F, E>(rows, coeffs);
    assert(rows2[p] == e);
    assert forall|x: Seq<E>| a.dom().contains(x) <==> b.dom().contains(x) by {
        if a.dom().contains(x) {
            let i = rows2.index_of(x);
            if i < p {
                assert(rows[i] == x);
            } else if i > p {
                assert(rows[i - 1] == x);
            }
        }
        if b.dom().contains(x) && x != e {
            let i = rows.index_of(x);
            let i2 = if i < p { i } else { i + 1 };
            assert(rows2[i2] == x);
        }
    }
    assert forall|x: Seq<E>| a.dom().contains(x) implies a[x] == b[x] by {
        let i = rows2.index_of(x);
        if i < p {
            assert(rows[i] == x);
            assert(x != e);
        } else if i > p {
            assert(rows[i - 1] == x);
            assert(x != e);
        }
    }
    assert(a =~= b);
}

/// Removing a term removes its row from the view.
pub proof fn lemma_view_remove<F: Ring, E: Exponent>(
    rows: Seq<Seq<E>>,
    coeffs: Seq<F::Element>,
    p: int,
)
    requires
        0 <= p < rows.len(),
        rows.no_duplicates(),
        rows.len() == coeffs.len(),
    ensures
        terms_view::<F, E>(rows.remove(p), coeffs.remove(p)) == terms_view::<F, E>(
            rows,
            coeffs,
        ).remove(rows[p]),
{
    let rows2 = rows.remove(p);
    let coeffs2 = coeffs.remove(p);
    let a = terms_view::<F, E>(rows2, coeffs2);
    let b = terms_view::<F, E>(rows, coeffs).remove(rows[p]);
    assert forall|i: int, j: int|
        0 <= i < rows2.len() && 0 <= j < rows2.len() && i != j implies rows2[i] != rows2[j] by {
        let i2 = if i < p { i } else { i + 1 };
        let j2 = if j < p { j } else { j + 1 };
        assert(rows2[i] == rows[i2]);
        assert(rows2[j] == rows[j2]);
    }
    lemma_terms_view::<F, E>(rows2, coeffs2);
    lemma_terms_view::<F, E>(rows, coeffs);
    assert forall|x: Seq<E>| a.dom().contains(x) <==> b.dom().contains(x) by {
        if a.dom().contains(x) {
            let i = rows2.index_of(x);
            let i2 = if i < p { i } else { i + 1 };
            assert(rows[i2] == x);
        }
        if b.dom().contains(x) {
            let i = rows.index_of(x);
            let i2 = if i < p { i } else { i - 1 };
            assert(rows2[i2] == x);
        }
    }
    assert forall|x: Seq<E>| a.dom().contains(x) implies a[x] == b[x] by {
        let i = rows2.index_of(x);
        let i2 = if i < p { i } else { i + 1 };
        assert(rows[i2] == x);
    }
    assert(a =~= b);
}

/// Changing the coefficient of a term changes it in the view.
pub proof fn lemma_view_update<F: Ring, E: Exponent>(
    rows: Seq<Seq<E>>,
    coeffs: Seq<F::Element>,
    p: int,
    c: F::Element,
)
    requires
        0 <= p < rows.len(),
        rows.no_duplicates(),
        rows.len() == coeffs.len(),
    ensures
        terms_view::<F, E>(rows, coeffs.update(p, c)) == terms_view::<F, E>(rows, coeffs).insert(
            rows[p],
            c,
        ),
{
    let coeffs2 = coeffs.update(p, c);
    let a = terms_view::<F, E>(rows, coeffs2);
    let b = terms_view::<F, E>(rows, coeffs).insert(rows[p], c);
    lemma_terms_view::<F, E>(rows, coeffs2);
    lemma_terms_view::<F, E>(rows, coeffs);
    assert(a =~= b);
}

/// What a variable map holds, if there is one.
pub open spec fn var_map_view(m: Option<VarMap>) -> Option<Seq<Identifier>> {
    match m {
        Some(v) => Some(v@),
        None => None,
    }
}

/// The variables of `b` are those of `a`: `b` has the variable map of `a`,
/// or none.
pub open spec fn same_variables(a: Option<VarMap>, b: Option<VarMap>) -> bool {
    b is None || var_map_view(a) == var_map_view(b)
}

/// A copy of an optional variable map.
pub fn copy_var_map(m: &Option<VarMap>) -> (r: Option<VarMap>)
    ensures
        var_map_view(r) == var_map_view(*m),
{
    match m {
        Some(v) => Some(v.duplicate()),
        None => None,
    }
}

impl<F: Ring, E: Exponent> View for MultivariatePolynomial<F, E> {
    type V = Map<Seq<E>, F::Element>;

    /// The polynomial as a map from the exponent vectors of its terms to their
    /// coefficients.
    open spec fn view(&self) -> Map<Seq<E>, F::Element> {
        terms_view::<F, E>(self.rows(), self.coefficients@)
    }
}

impl<F: Ring, E: Exponent> MultivariatePolynomial<F, E> {
    /// The exponent vectors of the terms, in their order.
    pub open spec fn rows(&self) -> Seq<Seq<E>> {
        rows_of(self.exponents@, self.nvars as int, self.nterms as int)
    }

    /// The buffers have the lengths that the number of terms asks for, no
    /// coefficient is zero, and the exponent vectors are strictly increasing.
    pub open spec fn consistent(&self) -> bool {
        &&& self.coefficients@.len() == self.nterms
        &&& self.exponents@.len() == self.nterms * self.nvars
        &&& forall|k: int|
            0 <= k < self.nterms ==> #[trigger] self.coefficients@[k] != F::zero_spec()
        &&& increasing(self.rows())
    }

    /// The polynomial is consistent and its coefficients are elements of its
    /// ring.
    pub open spec fn wf(&self) -> bool {
        &&& self.consistent()
        &&& self.field.valid()
        &&& forall|k: int|
            0 <= k < self.nterms ==> self.field.contains(#[trigger] self.coefficients@[k])
    }

    /// The coefficient of the monomial with the exponent vector `e`.
    pub open spec fn coeff(&self, e: Seq<E>) -> F::Element {
        coeff_in::<F, E>(self@, e)
    }

    /// The rows have `nvars` entries each, taken from the flat buffer, and the
    /// view holds each of them with its coefficient.
    pub proof fn lemma_rows(&self)
        requires
            self.consistent(),
        ensures
            self.rows().len() == self.nterms,
            forall|k: int| 0 <= k < self.nterms ==> (#[trigger] self.rows()[k]).len() == self.nvars,
            forall|k: int, v: int|
                0 <= k < self.nterms && 0 <= v < self.nvars ==> #[trigger] self.rows()[k][v]
                    == self.exponents@[k * self.nvars + v],
            forall|k: int|
                0 <= k < self.nterms ==> self@.dom().contains(#[trigger] self.rows()[k])
                    && self@[self.rows()[k]] == self.coefficients@[k],
            forall|e: Seq<E>|
                self@.dom().contains(e) ==> 0 <= self.rows().index_of(e) < self.nterms
                    && self.rows()[self.rows().index_of(e)] == e && e.len() == self.nvars,
            forall|e: Seq<E>| self@.dom().contains(e) ==> self@[e] != F::zero_spec(),
    {
        let rows = self.rows();
        lemma_rows_entries(self.exponents@, self.nvars as int, self.nterms as int);
        lemma_increasing_distinct(rows);
        lemma_terms_view::<F, E>(rows, self.coefficients@);
    }

    /// Every coefficient, also that of a monomial without a term, is an element
    /// of the ring.
    pub proof fn lemma_coeff_contained(&self, e: Seq<E>)
        requires
            self.wf(),
        ensures
            self.field.contains(self.coeff(e)),
    {
        self.lemma_rows();
        self.field.lemma_constants();
    }

    /// Constructs a zero polynomial.
    #[inline]
    pub fn new(nvars: usize, field: F, cap: Option<usize>, var_map: Option<VarMap>) -> (r: Self)
        requires
            field.valid(),
        ensures
            r.wf(),
            r@ == Map::<Seq<E>, F::Element>::empty(),
            r.nterms == 0,
            r.nvars == nvars,
            r.field == field,
            r.var_map == var_map,
    {
        let c = match cap {
            Some(c) => c,
            None => 0,
        };
        let ce = if nvars == 0 {
            0
        } else if c <= usize::MAX / nvars {
            proof {
                assert(c * nvars <= usize::MAX) by (nonlinear_arith)
                    requires
                        c <= usize::MAX as int / nvars as int,
                        nvars > 0,
                ;
            }
            c * nvars
        } else {
            0
        };
        let r = Self {
            coefficients: Vec::with_capacity(c),
            exponents: Vec::with_capacity(ce),
            nterms: 0,
            nvars,
            field,
            var_map,
        };
        proof {
            assert(0 * nvars == 0) by (nonlinear_arith);
            assert(r@ =~= Map::<Seq<E>, F::Element>::empty());
        }
        r
    }

    /// Constructs a zero polynomial with the given capacity, inheriting the
    /// number of variables, the field and the variable map from `self`.
    #[inline]
    pub fn new_from(&self, cap: Option<usize>) -> (r: Self)
        requires
            self.field.valid(),
        ensures
            r.wf(),
            r@ == Map::<Seq<E>, F::Element>::empty(),
            r.nterms == 0,
            r.nvars == self.nvars,
            r.field == self.field,
            var_map_view(r.var_map) == var_map_view(self.var_map),
    {
        Self::new(self.nvars, self.field, cap, copy_var_map(&self.var_map))
    }

    /// Constructs a constant polynomial with the given number of variables.
    #[inline]
    pub fn from_constant(constant: F::Element, nvars: usize, field: F) -> (r: Self)
        requires
            field.valid(),
            field.contains(constant),
        ensures
            r.wf(),
            r@ == add_term(field, Map::<Seq<E>, F::Element>::empty(), zero_row::<E>(nvars as nat), constant),
            constant == F::zero_spec() ==> r@ == Map::<Seq<E>, F::Element>::empty(),
            constant != F::zero_spec() ==> r@ == Map::<Seq<E>, F::Element>::empty().insert(
                zero_row::<E>(nvars as nat),
                constant,
            ),
            r.nvars == nvars,
            r.field == field,
            r.var_map is None,
    {
        let zero = E::zero();
        proof {
            E::lemma_exponent(zero, 0);
        }
        let exponents = filled(zero, nvars);
        proof {
            assert(exponents@ =~= zero_row::<E>(nvars as nat));
        }
        Self::from_monomial(constant, exponents, field)
    }

    /// Constructs a polynomial with a single term.
    #[inline]
    pub fn from_monomial(coefficient: F::Element, exponents: Vec<E>, field: F) -> (r: Self)
        requires
            field.valid(),
            field.contains(coefficient),
        ensures
            r.wf(),
            r@ == add_term(field, Map::<Seq<E>, F::Element>::empty(), exponents@, coefficient),
            coefficient == F::zero_spec() ==> r@ == Map::<Seq<E>, F::Element>::empty(),
            coefficient != F::zero_spec() ==> r@ == Map::<Seq<E>, F::Element>::empty().insert(
                exponents@,
                coefficient,
            ),
            r.nvars == exponents@.len(),
            r.field == field,
            r.var_map is None,
    {
        proof {
            crate::rings::lemma_zero_add(field, coefficient);
            assert(Map::<Seq<E>, F::Element>::empty().remove(exponents@)
                =~= Map::<Seq<E>, F::Element>::empty());
        }
        if F::is_zero(&coefficient) {
            return Self::new(exponents.len(), field, None, None);
        }
        let nvars = exponents.len();
        let mut coefficients: Vec<F::Element> = Vec::new();
        coefficients.push(coefficient);
        let r = Self { coefficients, nvars, exponents, nterms: 1, field, var_map: None };
        proof {
            assert(1 * nvars == nvars) by (nonlinear_arith);
            assert(0 * nvars == 0) by (nonlinear_arith);
            lemma_rows_entries(r.exponents@, nvars as int, 1);
            assert(r.rows()[0] =~= exponents@);
            assert(r.consistent());
            r.lemma_rows();
            assert(r@ =~= Map::<Seq<E>, F::Element>::empty().insert(exponents@, coefficient)) by {
                assert forall|e: Seq<E>| r@.dom().contains(e) implies e == exponents@ by {
                    let i = r.rows().index_of(e);
                    assert(r.rows()[i] == e);
                }
                assert(r@.dom().contains(r.rows()[0]));
            }
        }
        r
    }

    /// Get the `i`th monomial.
    pub fn to_monomial_view(&self, i: usize) -> (r: MonomialView<'_, F, E>)
        requires
            self.consistent(),
            i < self.nterms,
        ensures
            *r.coefficient == self.coefficients@[i as int],
            r.exponents@ == self.rows()[i as int],
    {
        MonomialView { coefficient: &self.coefficients[i], exponents: self.exponents(i) }
    }

    /// Makes room for `cap` more terms.
    #[inline]
    pub fn reserve(&mut self, cap: usize)
        ensures
            final(self).coefficients@ == old(self).coefficients@,
            final(self).exponents@ == old(self).exponents@,
            final(self).nterms == old(self).nterms,
            final(self).nvars == old(self).nvars,
            final(self).field == old(self).field,
            final(self).var_map == old(self).var_map,
    {
        self.coefficients.reserve(cap);
        if self.nvars != 0 && cap <= usize::MAX / self.nvars {
            proof {
                assert(cap * self.nvars <= usize::MAX) by (nonlinear_arith)
                    requires
                        cap <= usize::MAX as int / self.nvars as int,
                        self.nvars > 0,
                ;
            }
            self.exponents.reserve(cap * self.nvars);
        }
    }

    /// The zero polynomial in no variables.
    #[inline]
    pub fn zero(field: F) -> (r: Self)
        requires
            field.valid(),
        ensures
            r.wf(),
            r@ == Map::<Seq<E>, F::Element>::empty(),
            r.nterms == 0,
            r.nvars == 0,
            r.field == field,
            r.var_map is None,
    {
        Self::new(0, field, None, None)
    }

    /// Whether the polynomial has no term.
    #[inline]
    pub fn is_zero(&self) -> (r: bool)
        ensures
            r == (self.nterms == 0),
            self.consistent() ==> r == (self@ == Map::<Seq<E>, F::Element>::empty()),
    {
        proof {
            if self.consistent() {
                self.lemma_rows();
                if self.nterms == 0 {
                    assert(self@ =~= Map::<Seq<E>, F::Element>::empty());
                } else {
                    assert(self@.dom().contains(self.rows()[0]));
                }
            }
        }
        self.nterms == 0
    }

    /// The constant polynomial one in no variables.
    #[inline]
    pub fn one(field: F) -> (r: Self)
        requires
            field.valid(),
        ensures
            r.wf(),
            r@ == add_term(
                field,
                Map::<Seq<E>, F::Element>::empty(),
                zero_row::<E>(0),
                field.one_spec(),
            ),
            r.nvars == 0,
            r.field == field,
            r.var_map is None,
    {
        proof {
            field.lemma_constants();
        }
        MultivariatePolynomial::from_constant(field.one(), 0, field)
    }

    /// Whether the polynomial is the constant one.
    #[inline]
    pub fn is_one(&self) -> (r: bool)
        requires
            self.wf(),
        ensures
            r == (self.nterms == 1 && self.coefficients@[0] == self.field.one_spec()
                && self.rows()[0] == zero_row::<E>(self.nvars as nat)),
    {
        if self.nterms != 1 {
            return false;
        }
        if !self.field.is_one(&self.coefficients[0]) {
            return false;
        }
        proof {
            self.lemma_rows();
        }
        let z = exponents_are_zero(self.exponents(0));
        proof {
            let row = self.rows()[0];
            let zr = zero_row::<E>(self.nvars as nat);
            if z {
                assert forall|v: int| 0 <= v < self.nvars implies row[v] == zr[v] by {
                    E::lemma_exponent(row[v], 0);
                }
                assert(row =~= zr);
            } else {
                let v = choose|v: int| 0 <= v < row.len() && row[v].to_u32_spec() != 0;
                E::lemma_exponent(row[v], 0);
                assert(zr[v].to_u32_spec() == 0);
            }
        }
        z
    }

    /// Returns the number of terms in the polynomial.
    #[inline]
    pub fn nterms(&self) -> (r: usize)
        ensures
            r == self.nterms,
    {
        self.nterms
    }

    /// Returns the number of variables in the polynomial.
    #[inline]
    pub fn nvars(&self) -> (r: usize)
        ensures
            r == self.nvars,
    {
        self.nvars
    }

    /// Returns true if the polynomial is constant.
    #[inline]
    pub fn is_constant(&self) -> (r: bool)
        requires
            self.consistent(),
        ensures
            r == (self.nterms == 0 || (self.nterms == 1 && self.rows()[0] == zero_row::<E>(
                self.nvars as nat,
            ))),
    {
        if self.is_zero() {
            return true;
        }
        proof {
            self.lemma_rows();
        }
        if self.nterms >= 2 {
            proof {
                // two rows differ, so they are not both the zero vector
                let zr = zero_row::<E>(self.nvars as nat);
                if self.rows()[0] == zr {
                    assert(lex_lt(self.rows()[0], self.rows()[1]));
                    let k = choose|k: int| crate::poly::monomial::lt_at(self.rows()[0], self.rows()[1], k);
                    E::lemma_exponent(self.rows()[1][k], 0);
                }
            }
            return false;
        }
        let z = exponents_are_zero(self.exponents(0));
        proof {
            let row = self.rows()[0];
            let zr = zero_row::<E>(self.nvars as nat);
            if z {
                assert forall|v: int| 0 <= v < self.nvars implies row[v] == zr[v] by {
                    E::lemma_exponent(row[v], 0);
                }
                assert(row =~= zr);
            } else {
                let v = choose|v: int| 0 <= v < row.len() && row[v].to_u32_spec() != 0;
                E::lemma_exponent(row[v], 0);
                assert(zr[v].to_u32_spec() == 0);
            }
        }
        z
    }

    /// Returns the coefficient of the `index`th monomial, starting from the
    /// back.
    #[inline]
    pub fn coefficient_back(&self, index: usize) -> (r: &F::Element)
        requires
            self.consistent(),
            index < self.nterms,
        ensures
            *r == self.coefficients@[self.nterms - index - 1],
    {
        &self.coefficients[self.nterms - index - 1]
    }

    /// Returns the slice for the exponents of the specified monomial.
    #[inline]
    pub fn exponents(&self, index: usize) -> (r: &[E])
        requires
            self.exponents@.len() == self.nterms * self.nvars,
            index < self.nterms,
        ensures
            r@ == self.rows()[index as int],
            r@.len() == self.nvars,
    {
        let len = self.exponents.len();
        proof {
            lemma_row_bounds(index as int, self.nterms as int, self.nvars as int);
        }
        slice_subrange(
            self.exponents.as_slice(),
            index * self.nvars,
            index * self.nvars + self.nvars,
        )
    }

    /// Returns the slice for the exponents of the specified monomial starting
    /// from the back.
    #[inline]
    pub fn exponents_back(&self, index: usize) -> (r: &[E])
        requires
            self.exponents@.len() == self.nterms * self.nvars,
            index < self.nterms,
        ensures
            r@ == self.rows()[self.nterms - index - 1],
            r@.len() == self.nvars,
    {
        self.exponents(self.nterms - index - 1)
    }

    /// The exponents of the leading monomial.
    pub fn last_exponents(&self) -> (r: &[E])
        requires
            self.exponents@.len() == self.nterms * self.nvars,
            self.nterms > 0,
        ensures
            r@ == self.rows()[self.nterms - 1],
            r@ == self.rows().last(),
            r@.len() == self.nvars,
    {
        self.exponents(self.nterms - 1)
    }

    /// Removes all terms.
    #[inline]
    pub fn clear(&mut self)
        requires
            old(self).field.valid(),
        ensures
            final(self).wf(),
            final(self)@ == Map::<Seq<E>, F::Element>::empty(),
            final(self).nterms == 0,
            final(self).nvars == old(self).nvars,
            final(self).field == old(self).field,
            final(self).var_map == old(self).var_map,
    {
        self.nterms = 0;
        self.coefficients.clear();
        self.exponents.clear();
        proof {
            assert(0 * self.nvars == 0) by (nonlinear_arith);
            assert(self@ =~= Map::<Seq<E>, F::Element>::empty());
        }
    }

    /// Append a monomial to the back. It merges with the last monomial if the
    /// exponents are equal. The caller guarantees that no term of the
    /// polynomial comes after the monomial in the monomial order.
    #[inline]
    pub fn append_monomial_back(&mut self, coefficient: F::Element, exponents: &[E])
        requires
            old(self).wf(),
            old(self).field.contains(coefficient),
            exponents@.len() == old(self).nvars,
            old(self).nterms > 0 ==> lex_le(old(self).rows().last(), exponents@),
        ensures
            final(self).wf(),
            final(self)@ == add_term(old(self).field, old(self)@, exponents@, coefficient),
            final(self).nvars == old(self).nvars,
            final(self).field == old(self).field,
            final(self).var_map == old(self).var_map,
    {
        proof {
            self.lemma_rows();
        }
        if F::is_zero(&coefficient) {
            proof {
                self.lemma_add_zero_term(exponents@);
            }
            return ;
        }
        if self.nterms > 0 {
            let rel = compare_exponents(exponents, self.last_exponents());
            if rel == Relation::Equal {
                self.merge_at(self.nterms - 1, coefficient);
                return ;
            }
            proof {
                assert(lex_lt(self.rows().last(), exponents@));
            }
        }
        self.push_back(coefficient, exponents);
    }

    /// Appends a monomial to the polynomial.
    pub fn append_monomial(&mut self, coefficient: F::Element, exponents: &[E])
        requires
            old(self).wf(),
            old(self).field.contains(coefficient),
            exponents@.len() == old(self).nvars,
        ensures
            final(self).wf(),
            final(self)@ == add_term(old(self).field, old(self)@, exponents@, coefficient),
            final(self).nvars == old(self).nvars,
            final(self).field == old(self).field,
            final(self).var_map == old(self).var_map,
    {
        proof {
            self.lemma_rows();
        }
        if F::is_zero(&coefficient) {
            proof {
                self.lemma_add_zero_term(exponents@);
            }
            return ;
        }
        // should we append to the back?
        if self.nterms == 0 {
            self.push_back(coefficient, exponents);
            return ;
        }
        if compare_exponents(self.last_exponents(), exponents) == Relation::Less {
            self.push_back(coefficient, exponents);
            return ;
        }
        // Binary search to find the insert-point.
        let mut l: usize = 0;
        let mut r: usize = self.nterms;
        while l < r
            invariant
                self.wf(),
                *self == *old(self),
                self.field.contains(coefficient),
                coefficient != F::zero_spec(),
                exponents@.len() == self.nvars,
                0 <= l <= r <= self.nterms,
                forall|i: int| 0 <= i < l ==> lex_lt(#[trigger] self.rows()[i], exponents@),
                forall|i: int| r <= i < self.nterms ==> lex_lt(exponents@, #[trigger] self.rows()[i]),
            decreases r - l,
        {
            let m = l + (r - l) / 2;
            proof {
                self.lemma_rows();
            }
            match compare_exponents(exponents, self.exponents(m)) {
                Relation::Equal => {
                    self.merge_at(m, coefficient);
                    return ;
                },
                Relation::Greater => {
                    proof {
                        assert forall|i: int| 0 <= i < m + 1 implies lex_lt(
                            #[trigger] self.rows()[i],
                            exponents@,
                        ) by {
                            if i < m {
                                lemma_lex_transitive(self.rows()[i], self.rows()[m as int], exponents@);
                            }
                        }
                    }
                    l = m + 1;
                },
                Relation::Less => {
                    proof {
                        assert forall|i: int| m <= i < self.nterms implies lex_lt(
                            exponents@,
                            #[trigger] self.rows()[i],
                        ) by {
                            if m < i {
                                lemma_lex_transitive(exponents@, self.rows()[m as int], self.rows()[i]);
                            }
                        }
                    }
                    r = m;
                },
            }
        }
        self.insert_at(l, coefficient, exponents);
    }

    /// Adding a monomial with the coefficient zero changes nothing.
    pub proof fn lemma_add_zero_term(&self, e: Seq<E>)
        requires
            self.wf(),
        ensures
            add_term(self.field, self@, e, F::zero_spec()) == self@,
    {
        self.lemma_rows();
        self.lemma_coeff_contained(e);
        self.field.lemma_add_zero(self.coeff(e));
        if self@.dom().contains(e) {
            assert(self@.insert(e, self@[e]) =~= self@);
        } else {
            assert(self@.remove(e) =~= self@);
        }
    }

    /// Appends a term that comes after all terms of the polynomial.
    pub(crate) fn push_back(&mut self, coefficient: F::Element, exponents: &[E])
        requires
            old(self).wf(),
            old(self).field.contains(coefficient),
            coefficient != F::zero_spec(),
            exponents@.len() == old(self).nvars,
            old(self).nterms > 0 ==> lex_lt(old(self).rows().last(), exponents@),
        ensures
            final(self).wf(),
            final(self)@ == add_term(old(self).field, old(self)@, exponents@, coefficient),
            final(self)@ == old(self)@.insert(exponents@, coefficient),
            final(self).rows() == old(self).rows().push(exponents@),
            final(self).coefficients@ == old(self).coefficients@.push(coefficient),
            final(self).nterms == old(self).nterms + 1,
            final(self).nvars == old(self).nvars,
            final(self).field == old(self).field,
            final(self).var_map == old(self).var_map,
    {
        let ghost rows = self.rows();
        let ghost coeffs = self.coefficients@;
        let ghost e = exponents@;
        proof {
            self.lemma_rows();
            lemma_rows_push(self.exponents@, self.nvars as int, self.nterms as int, e);
            // the new row is not among the old ones
            assert forall|i: int, j: int| 0 <= i < j < rows.push(e).len() implies lex_lt(
                #[trigger] rows.push(e)[i],
                #[trigger] rows.push(e)[j],
            ) by {
                if j == rows.len() && i < rows.len() - 1 {
                    lemma_lex_transitive(rows[i], rows.last(), e);
                }
            }
            lemma_increasing_distinct(rows.push(e));
            lemma_view_push::<F, E>(rows, coeffs, e, coefficient);
            if self@.dom().contains(e) {
                let i = rows.index_of(e);
                assert(rows.push(e)[i] == e);
                assert(rows.push(e)[rows.len() as int] == e);
            }
            crate::rings::lemma_zero_add(self.field, coefficient);
        }
        self.coefficients.push(coefficient);
        push_row(&mut self.exponents, exponents);
        let len = self.coefficients.len();
        self.nterms = len;
        proof {
            assert(self.rows() == rows.push(e));
            assert forall|k: int| 0 <= k < self.nterms implies #[trigger] self.coefficients@[k]
                != F::zero_spec() && self.field.contains(self.coefficients@[k]) by {
                if k < rows.len() {
                    assert(self.coefficients@[k] == coeffs[k]);
                }
            }
        }
    }

    /// Puts a term with a new exponent vector at the place `p`, between the
    /// terms that come before it and those that come after it.
    fn insert_at(&mut self, p: usize, coefficient: F::Element, exponents: &[E])
        requires
            old(self).wf(),
            old(self).field.contains(coefficient),
            coefficient != F::zero_spec(),
            exponents@.len() == old(self).nvars,
            p <= old(self).nterms,
            forall|i: int| 0 <= i < p ==> lex_lt(#[trigger] old(self).rows()[i], exponents@),
            forall|i: int|
                p <= i < old(self).nterms ==> lex_lt(exponents@, #[trigger] old(self).rows()[i]),
        ensures
            final(self).wf(),
            final(self)@ == add_term(old(self).field, old(self)@, exponents@, coefficient),
            final(self).nvars == old(self).nvars,
            final(self).field == old(self).field,
            final(self).var_map == old(self).var_map,
    {
        let ghost rows = self.rows();
        let ghost coeffs = self.coefficients@;
        let ghost e = exponents@;
        proof {
            self.lemma_rows();
            lemma_rows_insert(self.exponents@, self.nvars as int, self.nterms as int, p as int, e);
            let rows2 = rows.insert(p as int, e);
            assert forall|i: int, j: int| 0 <= i < j < rows2.len() implies lex_lt(
                #[trigger] rows2[i],
                #[trigger] rows2[j],
            ) by {
                let i0 = if i < p { i } else { i - 1 };
                let j0 = if j < p { j } else { j - 1 };
                if i != p {
                    assert(rows2[i] == rows[i0]);
                }
                if j != p {
                    assert(rows2[j] == rows[j0]);
                }
            }
            lemma_increasing_distinct(rows2);
            lemma_view_insert::<F, E>(rows, coeffs, p as int, e, coefficient);
            if self@.dom().contains(e) {
                let i = rows.index_of(e);
                lemma_lex_irreflexive(e);
            }
            crate::rings::lemma_zero_add(self.field, coefficient);
        }
        let len = self.exponents.len();
        proof {
            assert(p * self.nvars <= self.nterms * self.nvars) by (nonlinear_arith)
                requires
                    p <= self.nterms,
            ;
        }
        self.coefficients.insert(p, coefficient);
        insert_row(&mut self.exponents, p * self.nvars, exponents);
        let len = self.coefficients.len();
        self.nterms = len;
        proof {
            lemma_row_bounds(old(self).nterms as int, old(self).nterms + 1, self.nvars as int);
            assert(self.rows() == rows.insert(p as int, e));
            assert(self.coefficients@ == coeffs.insert(p as int, coefficient));
            assert forall|k: int| 0 <= k < self.nterms implies #[trigger] self.coefficients@[k]
                != F::zero_spec() && self.field.contains(self.coefficients@[k]) by {
                if k < p {
                    assert(self.coefficients@[k] == coeffs[k]);
                } else if k > p {
                    assert(self.coefficients@[k] == coeffs[k - 1]);
                }
            }
        }
    }

    /// Adds `coefficient` to the coefficient of the term at the place `p`, and
    /// removes the term if the sum is zero.
    fn merge_at(&mut self, p: usize, coefficient: F::Element)
        requires
            old(self).wf(),
            old(self).field.contains(coefficient),
            p < old(self).nterms,
        ensures
            final(self).wf(),
            final(self)@ == add_term(
                old(self).field,
                old(self)@,
                old(self).rows()[p as int],
                coefficient,
            ),
            final(self).nvars == old(self).nvars,
            final(self).field == old(self).field,
            final(self).var_map == old(self).var_map,
    {
        let ghost rows = self.rows();
        let ghost coeffs = self.coefficients@;
        proof {
            self.lemma_rows();
            lemma_increasing_distinct(rows);
            self.field.lemma_closed(coeffs[p as int], coefficient);
        }
        let s = self.field.add(&self.coefficients[p], &coefficient);
        if F::is_zero(&s) {
            // The coefficient becomes zero. Remove this monomial.
            let len = self.exponents.len();
            proof {
                lemma_rows_remove(self.exponents@, self.nvars as int, self.nterms as int, p as int);
                lemma_view_remove::<F, E>(rows, coeffs, p as int);
                let rows2 = rows.remove(p as int);
                assert forall|i: int, j: int| 0 <= i < j < rows2.len() implies lex_lt(
                    #[trigger] rows2[i],
                    #[trigger] rows2[j],
                ) by {
                    let i0 = if i < p { i } else { i + 1 };
                    let j0 = if j < p { j } else { j + 1 };
                    assert(rows2[i] == rows[i0]);
                    assert(rows2[j] == rows[j0]);
                }
                lemma_row_bounds(p as int, self.nterms as int, self.nvars as int);
            }
            self.coefficients.remove(p);
            remove_range(&mut self.exponents, p * self.nvars, self.nvars);
            self.nterms = self.nterms - 1;
            proof {
                lemma_row_bounds(self.nterms as int, old(self).nterms as int, self.nvars as int);
                assert(self.rows() == rows.remove(p as int));
                assert(self.coefficients@ == coeffs.remove(p as int));
                assert forall|k: int| 0 <= k < self.nterms implies #[trigger] self.coefficients@[k]
                    != F::zero_spec() && self.field.contains(self.coefficients@[k]) by {
                    if k < p {
                        assert(self.coefficients@[k] == coeffs[k]);
                    } else {
                        assert(self.coefficients@[k] == coeffs[k + 1]);
                    }
                }
            }
        } else {
            proof {
                lemma_view_update::<F, E>(rows, coeffs, p as int, s);
            }
            self.coefficients[p] = s;
            proof {
                assert(self.rows() == rows);
                assert(self.coefficients@ == coeffs.update(p as int, s));
                assert forall|k: int| 0 <= k < self.nterms implies #[trigger] self.coefficients@[k]
                    != F::zero_spec() && self.field.contains(self.coefficients@[k]) by {
                    if k != p {
                        assert(self.coefficients@[k] == coeffs[k]);
                    }
                }
            }
        }
    }

    /// Get the variable map.
    pub fn get_var_map(&self) -> (r: &Option<VarMap>)
        ensures
            *r == self.var_map,
    {
        &self.var_map
    }

    /// Grow the exponent list so the variable index fits in. Nothing has to
    /// be moved while the polynomial has at least `var` terms, which is the
    /// only case there is.
    pub fn grow_to(&mut self, var: usize)
        requires
            old(self).nterms >= var,
        ensures
            *final(self) == *old(self),
    {
    }

    /// Checks that the buffers have the right lengths, that no coefficient is
    /// zero and that the terms are sorted, with no exponent vector twice.
    pub fn check_consistency(&self) -> (r: bool)
        ensures
            r == self.consistent(),
    {
        if self.coefficients.len() != self.nterms {
            return false;
        }
        let n = self.nterms;
        let nv = self.nvars;
        if nv != 0 && self.exponents.len() / nv != n {
            proof {
                if self.exponents@.len() == n * nv {
                    vstd::arithmetic::div_mod::lemma_div_multiples_vanish(n as int, nv as int);
                }
            }
            return false;
        }
        if nv != 0 && self.exponents.len() % nv != 0 {
            proof {
                if self.exponents@.len() == n * nv {
                    vstd::arithmetic::div_mod::lemma_mod_multiples_basic(n as int, nv as int);
                }
            }
            return false;
        }
        if nv == 0 && self.exponents.len() != 0 {
            proof {
                assert(n * 0 == 0) by (nonlinear_arith);
            }
            return false;
        }
        proof {
            if nv == 0 {
                assert(n * 0 == 0) by (nonlinear_arith);
            } else {
                vstd::arithmetic::div_mod::lemma_fundamental_div_mod(
                    self.exponents@.len() as int,
                    nv as int,
                );
                assert(nv * n == n * nv) by (nonlinear_arith);
            }
            assert(self.exponents@.len() == n * nv);
            lemma_rows_entries(self.exponents@, nv as int, n as int);
        }
        let mut k: usize = 0;
        while k < n
            invariant
                n == self.nterms,
                n == self.coefficients@.len(),
                k <= n,
                forall|i: int| 0 <= i < k ==> #[trigger] self.coefficients@[i] != F::zero_spec(),
            decreases n - k,
        {
            if F::is_zero(&self.coefficients[k]) {
                return false;
            }
            k += 1;
        }
        let mut t: usize = 1;
        while t < n
            invariant
                n == self.nterms,
                nv == self.nvars,
                self.exponents@.len() == n * nv,
                1 <= t,
                forall|i: int| 0 < i < t && i < n ==> lex_lt(
                    #[trigger] self.rows()[i - 1],
                    self.rows()[i],
                ),
            decreases n - t,
        {
            match compare_exponents(self.exponents(t), self.exponents(t - 1)) {
                Relation::Greater => {},
                _ => {
                    proof {
                        assert(!lex_lt(self.rows()[t - 1], self.rows()[t as int]));
                    }
                    return false;
                },
            }
            t += 1;
        }
        proof {
            lemma_adjacent_increasing(self.rows());
        }
        true
    }
}

/// Rows of which each comes before the next are increasing.
pub proof fn lemma_adjacent_increasing<E: Exponent>(rows: Seq<Seq<E>>)
    requires
        forall|i: int| 0 < i < rows.len() ==> lex_lt(#[trigger] rows[i - 1], rows[i]),
    ensures
        increasing(rows),
{
    assert forall|i: int, j: int| 0 <= i < j < rows.len() implies lex_lt(
        #[trigger] rows[i],
        #[trigger] rows[j],
    ) by {
        lemma_adjacent_chain(rows, i, j);
    }
}

proof fn lemma_adjacent_chain<E: Exponent>(rows: Seq<Seq<E>>, i: int, j: int)
    requires
        forall|i: int| 0 < i < rows.len() ==> lex_lt(#[trigger] rows[i - 1], rows[i]),
        0 <= i < j < rows.len(),
    ensures
        lex_lt(rows[i], rows[j]),
    decreases j - i,
{
    assert(lex_lt(rows[j - 1], rows[j]));
    if i < j - 1 {
        lemma_adjacent_chain(rows, i, j - 1);
        lemma_lex_transitive(rows[i], rows[j - 1], rows[j]);
    }
}

} // verus!
