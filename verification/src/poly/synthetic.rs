//! Synthetic division of univariate polynomials.
//!
//! The powers of the variable are walked from the degree of the dividend down
//! to zero. For each power the coefficient of the dividend is taken, the
//! products of the quotient terms so far with the divisor terms are
//! subtracted, and what is left is divided by the leading coefficient of the
//! divisor. If that leaves a remainder in the ring, or the power is below the
//! degree of the divisor, what is left becomes a term of the remainder.
use crate::poly::division::built_down;
use crate::poly::heap_division::{
    accounted, div_data, division_holds, g_back, lemma_balance, lemma_built_down_view,
    lemma_product_push, lemma_reversed_result, lemma_sub_step, remainder_settled,
};
use crate::poly::monomial::{dominates, lex_lt, lt_at, row_add, row_sub, sum_fits};
use crate::poly::polynomial::{
    lemma_view_push, same_variables, var_map_view, MultivariatePolynomial,
};
use crate::poly::product::{
    all_in, lemma_pair_terms_contained, lemma_product_coeff_zero, lemma_row_sum_hit,
    lemma_row_sum_miss, lemma_sum_contained, pair_row, product_coeff, ring_sum, row_sums,
};
use crate::poly::Exponent;
use crate::rings::{lemma_mul_zero, lemma_neg_zero, EuclideanDomain, Ring};
use vstd::prelude::*;

verus! {

/// The exponent vector of the power `p` of the variable `var` among `nv`
/// variables.
pub open spec fn unit_row<E: Exponent>(nv: nat, var: int, p: u32) -> Seq<E> {
    Seq::new(
        nv,
        |v: int|
            if v == var {
                E::from_u32_spec(p)
            } else {
                E::from_u32_spec(0)
            },
    )
}

/// The exponent vector has no variable but `var`.
pub open spec fn is_unit<E: Exponent>(x: Seq<E>, var: int) -> bool {
    forall|v: int| 0 <= v < x.len() && v != var ==> (#[trigger] x[v]).to_u32_spec() == 0
}

/// The polynomial has no variable but `var`.
pub open spec fn univariate_in<F: Ring, E: Exponent>(
    p: MultivariatePolynomial<F, E>,
    var: int,
) -> bool {
    forall|k: int| 0 <= k < p.nterms ==> is_unit(#[trigger] p.rows()[k], var)
}

/// The exponent of the variable `var` in term `k`.
pub open spec fn exp_at<F: Ring, E: Exponent>(
    p: MultivariatePolynomial<F, E>,
    k: int,
    var: int,
) -> u32 {
    p.rows()[k][var].to_u32_spec()
}

/// The first variable with a non-zero exponent, or the first variable if there
/// is none.
pub open spec fn main_var<E: Exponent>(x: Seq<E>) -> int {
    if exists|v: int| first_nonzero(x, v) {
        choose|v: int| first_nonzero(x, v)
    } else {
        0
    }
}

/// `v` is the first place with a non-zero exponent.
pub open spec fn first_nonzero<E: Exponent>(x: Seq<E>, v: int) -> bool {
    &&& 0 <= v < x.len()
    &&& x[v].to_u32_spec() != 0
    &&& forall|w: int| 0 <= w < v ==> (#[trigger] x[w]).to_u32_spec() == 0
}

/// An exponent vector with no variable but `var` is the power of `var` with
/// its exponent.
pub proof fn lemma_is_unit<E: Exponent>(x: Seq<E>, var: int)
    requires
        is_unit(x, var),
        0 <= var < x.len(),
    ensures
        x == unit_row::<E>(x.len(), var, x[var].to_u32_spec()),
        x[var].to_u32_spec() <= E::max_spec(),
{
    let u = unit_row::<E>(x.len(), var, x[var].to_u32_spec());
    assert forall|v: int| 0 <= v < x.len() implies x[v] == u[v] by {
        E::lemma_exponent(x[v], 0);
    }
    assert(x =~= u);
    E::lemma_exponent(x[var], 0);
}

/// The powers of a variable: their exponent vectors have no other variable,
/// are distinct, and are ordered and added like the exponents.
pub proof fn lemma_unit_rows<E: Exponent>(nv: nat, var: int, p1: u32, p2: u32)
    requires
        0 <= var < nv,
        p1 <= E::max_spec(),
        p2 <= E::max_spec(),
    ensures
        is_unit(unit_row::<E>(nv, var, p1), var),
        unit_row::<E>(nv, var, p1)[var].to_u32_spec() == p1,
        unit_row::<E>(nv, var, p1) == unit_row::<E>(nv, var, p2) ==> p1 == p2,
        lex_lt(unit_row::<E>(nv, var, p1), unit_row::<E>(nv, var, p2)) <==> p1 < p2,
        sum_fits(unit_row::<E>(nv, var, p1), unit_row::<E>(nv, var, p2)) <==> p1 + p2
            <= E::max_spec(),
        p1 + p2 <= E::max_spec() ==> row_add(
            unit_row::<E>(nv, var, p1),
            unit_row::<E>(nv, var, p2),
        ) == unit_row::<E>(nv, var, (p1 + p2) as u32),
        dominates(unit_row::<E>(nv, var, p1), unit_row::<E>(nv, var, p2)) <==> p2 <= p1,
{
    let u1 = unit_row::<E>(nv, var, p1);
    let u2 = unit_row::<E>(nv, var, p2);
    // the zero exponent
    let any = E::from_u32_spec(0);
    E::lemma_exponent(any, 0);
    E::lemma_exponent(any, p1);
    E::lemma_exponent(any, p2);
    assert forall|v: int| 0 <= v < nv implies (#[trigger] u1[v]).to_u32_spec() == (if v == var {
        p1
    } else {
        0u32
    }) && (#[trigger] u2[v]).to_u32_spec() == (if v == var {
        p2
    } else {
        0u32
    }) by {}
    if u1 == u2 {
        assert(u1[var] == u2[var]);
    }
    if p1 < p2 {
        assert(lt_at(u1, u2, var));
    }
    if lex_lt(u1, u2) {
        let k = choose|k: int| lt_at(u1, u2, k);
        assert(u1[k].to_u32_spec() < u2[k].to_u32_spec());
        assert(k == var);
    }
    if sum_fits(u1, u2) {
        assert(u1[var].to_u32_spec() + u2[var].to_u32_spec() <= E::max_spec());
    }
    if p1 + p2 <= E::max_spec() {
        assert(sum_fits(u1, u2)) by {
            assert forall|v: int| 0 <= v < u1.len() implies #[trigger] u1[v].to_u32_spec()
                + u2[v].to_u32_spec() <= E::max_spec() by {}
        }
        assert(row_add(u1, u2) =~= unit_row::<E>(nv, var, (p1 + p2) as u32));
    }
    if dominates(u1, u2) {
        assert(u2[var].to_u32_spec() <= u1[var].to_u32_spec());
    }
    if p2 <= p1 {
        assert(dominates(u1, u2)) by {
            assert forall|v: int| 0 <= v < u1.len() implies #[trigger] u2[v].to_u32_spec()
                <= u1[v].to_u32_spec() by {}
        }
    }
}

/// The terms of a polynomial in one variable are powers of the variable with
/// increasing exponents.
pub proof fn lemma_univariate_rows<F: Ring, E: Exponent>(p: MultivariatePolynomial<F, E>, var: int)
    requires
        p.consistent(),
        univariate_in(p, var),
        0 <= var < p.nvars,
    ensures
        forall|k: int|
            0 <= k < p.nterms ==> #[trigger] p.rows()[k] == unit_row::<E>(
                p.nvars as nat,
                var,
                exp_at(p, k, var),
            ) && exp_at(p, k, var) <= E::max_spec(),
        forall|k1: int, k2: int|
            0 <= k1 < k2 < p.nterms ==> #[trigger] exp_at(p, k1, var) < #[trigger] exp_at(
                p,
                k2,
                var,
            ),
{
    p.lemma_rows();
    assert forall|k: int| 0 <= k < p.nterms implies #[trigger] p.rows()[k] == unit_row::<E>(
        p.nvars as nat,
        var,
        exp_at(p, k, var),
    ) && exp_at(p, k, var) <= E::max_spec() by {
        lemma_is_unit(p.rows()[k], var);
    }
    assert forall|k1: int, k2: int| 0 <= k1 < k2 < p.nterms implies #[trigger] exp_at(p, k1, var)
        < #[trigger] exp_at(p, k2, var) by {
        assert(lex_lt(p.rows()[k1], p.rows()[k2]));
        lemma_unit_rows::<E>(p.nvars as nat, var, exp_at(p, k1, var), exp_at(p, k2, var));
    }
}

/// No term of the quotient times the leading monomial of the divisor, whose
/// degree is `m`, has the power of a term of the remainder.
pub open spec fn apart<F: Ring, E: Exponent>(
    q: MultivariatePolynomial<F, E>,
    r: MultivariatePolynomial<F, E>,
    var: int,
    m: u32,
) -> bool {
    forall|i: int, t: int|
        0 <= i < q.nterms && 0 <= t < r.nterms ==> #[trigger] exp_at(q, i, var) + m
            != #[trigger] exp_at(r, t, var)
}

/// Where the remainder has a term that the leading monomial of the divisor
/// divides, the quotient has no term for the quotient of the two monomials:
/// a coefficient goes to the quotient or to the remainder, never in parts to
/// both.
pub open spec fn remainder_whole<F: Ring, E: Exponent>(
    q: MultivariatePolynomial<F, E>,
    r: MultivariatePolynomial<F, E>,
    g: MultivariatePolynomial<F, E>,
) -> bool {
    forall|x: Seq<E>|
        #[trigger] r@.dom().contains(x) && dominates(x, g_back(g, 0)) ==> !q@.dom().contains(
            row_sub(x, g_back(g, 0)),
        )
}

/// The lists of the quotient and the remainder while the powers above `low`
/// are worked off: their terms are powers of the variable, the dividend is
/// accounted for at every power above `low`, and the terms of the remainder
/// are below the degree `m` of the divisor or have a coefficient that the
/// leading coefficient of the divisor does not divide.
pub open spec fn synthetic_ok<F: EuclideanDomain, E: Exponent>(
    a: MultivariatePolynomial<F, E>,
    g: MultivariatePolynomial<F, E>,
    q: MultivariatePolynomial<F, E>,
    r: MultivariatePolynomial<F, E>,
    var: int,
    top: u32,
    m: u32,
    low: int,
) -> bool {
    &&& div_data(a, g, q, r)
    &&& univariate_in(a, var)
    &&& univariate_in(g, var)
    &&& univariate_in(q, var)
    &&& univariate_in(r, var)
    &&& 0 <= var < a.nvars
    &&& top <= E::max_spec()
    &&& m == exp_at(g, g.nterms - 1, var)
    &&& -1 <= low <= top
    &&& forall|k: int| 0 <= k < a.nterms ==> #[trigger] exp_at(a, k, var) <= top
    &&& forall|i: int|
        0 <= i < q.nterms ==> low < #[trigger] exp_at(q, i, var) + m && exp_at(q, i, var) + m
            <= top
    &&& forall|t: int|
        0 <= t < r.nterms ==> low < #[trigger] exp_at(r, t, var) && exp_at(r, t, var) <= top
            && (exp_at(r, t, var) < m || g.field.rem_spec(
            r.coefficients@[t],
            g.coefficients@[g.nterms - 1],
        ) != F::zero_spec())
    &&& forall|p: u32|
        low < p <= E::max_spec() ==> accounted(
            a,
            q,
            g,
            r,
            #[trigger] unit_row::<E>(a.nvars as nat, var, p),
        )
}

/// What term `i` of the quotient adds to the coefficient of the power `p` in
/// the product with the divisor: the product with the divisor term `j` if their
/// exponents add up to `p`, nothing if no divisor term is such.
pub proof fn lemma_synthetic_row<F: EuclideanDomain, E: Exponent>(
    q: MultivariatePolynomial<F, E>,
    g: MultivariatePolynomial<F, E>,
    var: int,
    i: int,
    p: u32,
)
    requires
        g.wf(),
        g.nterms > 0,
        built_down(q),
        q.nvars == g.nvars,
        q.field == g.field,
        univariate_in(g, var),
        univariate_in(q, var),
        0 <= var < g.nvars,
        0 <= i < q.nterms,
        p <= E::max_spec(),
        exp_at(q, i, var) + exp_at(g, g.nterms - 1, var) <= E::max_spec(),
    ensures
        forall|j: int|
            0 <= j < g.nterms && exp_at(q, i, var) + #[trigger] exp_at(g, j, var) == p
                ==> row_sums(q, g, unit_row::<E>(g.nvars as nat, var, p))[i] == g.field.mul_spec(
                q.coefficients@[i],
                g.coefficients@[j],
            ),
        (forall|j: int| 0 <= j < g.nterms ==> exp_at(q, i, var) + #[trigger] exp_at(g, j, var) != p)
            ==> row_sums(q, g, unit_row::<E>(g.nvars as nat, var, p))[i] == F::zero_spec(),
        forall|j: int|
            0 <= j < g.nterms ==> sum_fits(q.rows()[i], #[trigger] g.rows()[j]) && pair_row(
                q,
                g,
                i,
                j,
            ) == unit_row::<E>(g.nvars as nat, var, (exp_at(q, i, var) + exp_at(g, j, var)) as u32),
{
    let nv = g.nvars as nat;
    let e = unit_row::<E>(nv, var, p);
    let qe = exp_at(q, i, var);
    lemma_univariate_rows(g, var);
    crate::poly::matrix::lemma_rows_entries(q.exponents@, q.nvars as int, q.nterms as int);
    lemma_is_unit(q.rows()[i], var);
    assert forall|j: int| 0 <= j < g.nterms implies sum_fits(q.rows()[i], #[trigger] g.rows()[j])
        && pair_row(q, g, i, j) == unit_row::<E>(nv, var, (qe + exp_at(g, j, var)) as u32) by {
        if j < g.nterms - 1 {
            assert(exp_at(g, j, var) < exp_at(g, g.nterms - 1, var));
        }
        lemma_unit_rows::<E>(nv, var, qe, exp_at(g, j, var));
    }
    assert forall|j: int| 0 <= j < g.nterms && qe + #[trigger] exp_at(g, j, var) == p implies row_sums(
        q,
        g,
        e,
    )[i] == g.field.mul_spec(q.coefficients@[i], g.coefficients@[j]) by {
        assert(sum_fits(q.rows()[i], g.rows()[j]));
        lemma_row_sum_hit(q, g, i, j, e);
    }
    if forall|j: int| 0 <= j < g.nterms ==> qe + #[trigger] exp_at(g, j, var) != p {
        assert forall|j: int|
            0 <= j < g.nterms && sum_fits(q.rows()[i], g.rows()[j]) implies #[trigger] pair_row(
            q,
            g,
            i,
            j,
        ) != e by {
            assert(sum_fits(q.rows()[i], g.rows()[j]));
            if j < g.nterms - 1 {
                assert(exp_at(g, j, var) < exp_at(g, g.nterms - 1, var));
            }
            assert(qe + exp_at(g, j, var) != p);
            lemma_unit_rows::<E>(nv, var, (qe + exp_at(g, j, var)) as u32, p);
        }
        lemma_row_sum_miss(q, g, i, e);
    }
}

/// Before any power is worked off, the dividend is accounted for above its
/// degree.
pub proof fn lemma_synthetic_start<F: EuclideanDomain, E: Exponent>(
    a: MultivariatePolynomial<F, E>,
    g: MultivariatePolynomial<F, E>,
    q: MultivariatePolynomial<F, E>,
    r: MultivariatePolynomial<F, E>,
    var: int,
    top: u32,
)
    requires
        div_data(a, g, q, r),
        q.nterms == 0,
        r.nterms == 0,
        univariate_in(a, var),
        univariate_in(g, var),
        0 <= var < a.nvars,
        a.nterms > 0,
        top == exp_at(a, a.nterms - 1, var),
    ensures
        synthetic_ok(a, g, q, r, var, top, exp_at(g, g.nterms - 1, var), top as int),
{
    let f = g.field;
    let nv = a.nvars as nat;
    a.lemma_rows();
    lemma_univariate_rows(a, var);
    lemma_built_down_view(r);
    f.lemma_constants();
    assert forall|k: int| 0 <= k < a.nterms implies #[trigger] exp_at(a, k, var) <= top by {
        if k < a.nterms - 1 {
            assert(exp_at(a, k, var) < exp_at(a, a.nterms - 1, var));
        }
    }
    assert forall|p: u32| top < p <= E::max_spec() implies accounted(
        a,
        q,
        g,
        r,
        #[trigger] unit_row::<E>(nv, var, p),
    ) by {
        let e = unit_row::<E>(nv, var, p);
        if a@.dom().contains(e) {
            let k = a.rows().index_of(e);
            assert(exp_at(a, k, var) <= top);
            lemma_unit_rows::<E>(nv, var, exp_at(a, k, var), p);
        }
        lemma_product_coeff_zero(q, g, e);
        f.lemma_add_zero(F::zero_spec());
    }
}

/// When the power `p` has been worked off and what is left of its
/// coefficient has become a quotient term.
pub proof fn lemma_synthetic_quotient<F: EuclideanDomain, E: Exponent>(
    a: MultivariatePolynomial<F, E>,
    g: MultivariatePolynomial<F, E>,
    q: MultivariatePolynomial<F, E>,
    q2: MultivariatePolynomial<F, E>,
    r: MultivariatePolynomial<F, E>,
    var: int,
    top: u32,
    m: u32,
    p: u32,
)
    requires
        synthetic_ok(a, g, q, r, var, top, m, p as int),
        div_data(a, g, q2, r),
        m <= p,
        q2.nterms == q.nterms + 1,
        q2.rows() == q.rows().push(unit_row::<E>(a.nvars as nat, var, (p - m) as u32)),
        q2.coefficients@ == q.coefficients@.push(q2.coefficients@[q.nterms as int]),
        a.coeff(unit_row::<E>(a.nvars as nat, var, p)) == g.field.add_spec(
            product_coeff(q, g, unit_row::<E>(a.nvars as nat, var, p)),
            g.field.mul_spec(q2.coefficients@[q.nterms as int], g.coefficients@[g.nterms - 1]),
        ),
    ensures
        synthetic_ok(a, g, q2, r, var, top, m, p - 1),
{
    let f = g.field;
    let nv = a.nvars as nat;
    let s = q.nterms as int;
    let d = g.nterms as int;
    lemma_built_down_view(r);
    lemma_univariate_rows(g, var);
    f.lemma_constants();
    lemma_unit_rows::<E>(nv, var, (p - m) as u32, 0);
    assert(exp_at(q2, s, var) == p - m);
    assert forall|i: int| 0 <= i < q2.nterms implies is_unit(#[trigger] q2.rows()[i], var) by {
        if i < s {
            assert(q2.rows()[i] == q.rows()[i]);
        }
    }
    assert forall|i: int| 0 <= i < q2.nterms implies p - 1 < #[trigger] exp_at(q2, i, var) + m
        && exp_at(q2, i, var) + m <= top by {
        if i < s {
            assert(q2.rows()[i] == q.rows()[i]);
            assert(p < exp_at(q, i, var) + m);
        }
    }
    assert forall|p2: u32| p - 1 < p2 <= E::max_spec() implies accounted(
        a,
        q2,
        g,
        r,
        #[trigger] unit_row::<E>(nv, var, p2),
    ) by {
        let e = unit_row::<E>(nv, var, p2);
        lemma_product_push(q, q2, g, e);
        lemma_synthetic_row(q2, g, var, s, p2);
        lemma_pair_terms_contained(q, g, e);
        if p2 == p {
            assert(exp_at(q2, s, var) + exp_at(g, d - 1, var) == p);
            if r@.dom().contains(e) {
                let t = r.rows().index_of(e);
                lemma_is_unit(r.rows()[t], var);
                lemma_unit_rows::<E>(nv, var, exp_at(r, t, var), p);
            }
            f.lemma_closed(q2.coefficients@[s], g.coefficients@[d - 1]);
            f.lemma_closed(
                product_coeff(q, g, e),
                f.mul_spec(q2.coefficients@[s], g.coefficients@[d - 1]),
            );
            f.lemma_add_zero(product_coeff(q2, g, e));
        } else {
            assert forall|j: int| 0 <= j < g.nterms implies exp_at(q2, s, var) + #[trigger] exp_at(
                g,
                j,
                var,
            ) != p2 by {
                if j < d - 1 {
                    assert(exp_at(g, j, var) < exp_at(g, d - 1, var));
                }
            }
            f.lemma_add_zero(product_coeff(q, g, e));
            assert(accounted(a, q, g, r, e));
        }
    }
}

/// When the power `p` has been worked off and what is left of its
/// coefficient has become a remainder term.
pub proof fn lemma_synthetic_remainder<F: EuclideanDomain, E: Exponent>(
    a: MultivariatePolynomial<F, E>,
    g: MultivariatePolynomial<F, E>,
    q: MultivariatePolynomial<F, E>,
    r: MultivariatePolynomial<F, E>,
    r2: MultivariatePolynomial<F, E>,
    var: int,
    top: u32,
    m: u32,
    p: u32,
)
    requires
        synthetic_ok(a, g, q, r, var, top, m, p as int),
        div_data(a, g, q, r2),
        r2.nterms == r.nterms + 1,
        r2.rows() == r.rows().push(unit_row::<E>(a.nvars as nat, var, p)),
        r2.coefficients@ == r.coefficients@.push(r2.coefficients@[r.nterms as int]),
        p < m || g.field.rem_spec(r2.coefficients@[r.nterms as int], g.coefficients@[g.nterms - 1])
            != F::zero_spec(),
        a.coeff(unit_row::<E>(a.nvars as nat, var, p)) == g.field.add_spec(
            product_coeff(q, g, unit_row::<E>(a.nvars as nat, var, p)),
            r2.coefficients@[r.nterms as int],
        ),
    ensures
        synthetic_ok(a, g, q, r2, var, top, m, p - 1),
{
    let f = g.field;
    let nv = a.nvars as nat;
    let e = unit_row::<E>(nv, var, p);
    let c = r2.coefficients@[r.nterms as int];
    lemma_built_down_view(r);
    lemma_built_down_view(r2);
    lemma_view_push::<F, E>(r.rows(), r.coefficients@, e, c);
    lemma_unit_rows::<E>(nv, var, p, 0);
    assert forall|t: int| 0 <= t < r2.nterms implies is_unit(#[trigger] r2.rows()[t], var) by {
        if t < r.nterms {
            assert(r2.rows()[t] == r.rows()[t]);
        }
    }
    assert forall|t: int| 0 <= t < r2.nterms implies p - 1 < #[trigger] exp_at(r2, t, var)
        && exp_at(r2, t, var) <= top && (exp_at(r2, t, var) < m || g.field.rem_spec(
        r2.coefficients@[t],
        g.coefficients@[g.nterms - 1],
    ) != F::zero_spec()) by {
        if t < r.nterms {
            assert(r2.rows()[t] == r.rows()[t]);
            assert(r2.coefficients@[t] == r.coefficients@[t]);
            assert(p < exp_at(r, t, var));
        }
    }
    assert forall|p2: u32| p - 1 < p2 <= E::max_spec() implies accounted(
        a,
        q,
        g,
        r2,
        #[trigger] unit_row::<E>(nv, var, p2),
    ) by {
        let e2 = unit_row::<E>(nv, var, p2);
        if p2 != p {
            lemma_unit_rows::<E>(nv, var, p2, p);
            assert(accounted(a, q, g, r, e2));
        }
    }
}

/// When all powers are worked off, the dividend is accounted for everywhere,
/// and the product of the quotient and the divisor is within range.
pub proof fn lemma_synthetic_done<F: EuclideanDomain, E: Exponent>(
    a: MultivariatePolynomial<F, E>,
    g: MultivariatePolynomial<F, E>,
    q: MultivariatePolynomial<F, E>,
    r: MultivariatePolynomial<F, E>,
    var: int,
    top: u32,
    m: u32,
)
    requires
        synthetic_ok(a, g, q, r, var, top, m, -1),
    ensures
        forall|x: Seq<E>| accounted(a, q, g, r, x),
        forall|i: int, j: int|
            0 <= i < q.nterms && 0 <= j < g.nterms ==> sum_fits(
                #[trigger] q.rows()[i],
                #[trigger] g.rows()[j],
            ),
{
    let f = g.field;
    let nv = a.nvars as nat;
    a.lemma_rows();
    lemma_built_down_view(r);
    lemma_univariate_rows(g, var);
    f.lemma_constants();
    assert forall|i: int, j: int| 0 <= i < q.nterms && 0 <= j < g.nterms implies sum_fits(
        #[trigger] q.rows()[i],
        #[trigger] g.rows()[j],
    ) by {
        assert(exp_at(q, i, var) + m <= top);
        lemma_synthetic_row(q, g, var, i, 0);
    }
    assert forall|x: Seq<E>| accounted(a, q, g, r, x) by {
        if x.len() == nv && is_unit(x, var) {
            lemma_is_unit(x, var);
            assert(accounted(a, q, g, r, unit_row::<E>(nv, var, x[var].to_u32_spec())));
        } else {
            // no term and no product has another variable
            if a@.dom().contains(x) {
                let k = a.rows().index_of(x);
                assert(is_unit(a.rows()[k], var));
            }
            if r@.dom().contains(x) {
                let t = r.rows().index_of(x);
                assert(is_unit(r.rows()[t], var));
                crate::poly::matrix::lemma_rows_entries(r.exponents@, r.nvars as int, r.nterms as int);
            }
            assert forall|i: int, j: int|
                0 <= i < q.nterms && 0 <= j < g.nterms && sum_fits(q.rows()[i], g.rows()[j])
                    implies #[trigger] pair_row(q, g, i, j) != x by {
                assert(exp_at(q, i, var) + m <= top);
                lemma_synthetic_row(q, g, var, i, 0);
                if j < g.nterms - 1 {
                    assert(exp_at(g, j, var) < exp_at(g, g.nterms - 1, var));
                }
                lemma_unit_rows::<E>(nv, var, (exp_at(q, i, var) + exp_at(g, j, var)) as u32, 0);
            }
            lemma_product_coeff_zero(q, g, x);
            f.lemma_add_zero(F::zero_spec());
        }
    }
}

impl<F: EuclideanDomain, E: Exponent> MultivariatePolynomial<F, E> {
    /// Synthetic division for univariate polynomials: both polynomials have
    /// no variable but the one of the leading monomial of `self`.
    ///
    /// What is left of a coefficient that the leading coefficient of the
    /// divisor does not divide becomes a term of the remainder.
    pub fn synthetic_division(&self, div: &Self) -> (res: (Self, Self))
        requires
            self.wf(),
            div.wf(),
            self.field == div.field,
            same_variables(self.var_map, div.var_map),
            self.nvars == div.nvars,
            self.nvars > 0,
            self.nterms > 0,
            div.nterms > 0,
            univariate_in(*self, main_var(self.rows().last())),
            univariate_in(*div, main_var(self.rows().last())),
        ensures
            res.0.wf(),
            res.1.wf(),
            res.0.nvars == self.nvars,
            res.1.nvars == self.nvars,
            res.0.field == self.field,
            res.1.field == self.field,
            var_map_view(res.0.var_map) == var_map_view(self.var_map),
            var_map_view(res.1.var_map) == var_map_view(self.var_map),
            division_holds(*self, *div, res.0, res.1),
            remainder_settled(res.1, *div),
            remainder_whole(res.0, res.1, *div),
    {
        let n = self.nterms;
        let d = div.nterms;
        let nv = self.nvars;
        let ghost a = *self;
        let ghost g = *div;
        let ghost f = self.field;
        let mut dividendpos = n - 1;  // work from the back
        let norm = div.coefficient_back(0);
        let mut q = self.new_from(Some(n));
        let mut r = self.new_from(None);
        proof {
            self.lemma_rows();
            div.lemma_rows();
        }
        // determine the variable
        let mut var: usize = 0;
        let last = self.last_exponents();
        let mut i: usize = 0;
        let mut found = false;
        while i < nv && !found
            invariant
                last@ == self.rows().last(),
                last@.len() == nv,
                i <= nv,
                nv > 0,
                !found ==> var == 0 && forall|w: int|
                    0 <= w < i ==> (#[trigger] last@[w]).to_u32_spec() == 0,
                found ==> first_nonzero(last@, var as int),
            decreases nv - i, (if found { 0int } else { 1int }),
        {
            if !last[i].is_zero() {
                var = i;
                found = true;
            } else {
                i += 1;
            }
        }
        proof {
            // the variable is the main variable of the leading monomial
            if found {
                let v2 = main_var(last@);
                assert(first_nonzero(last@, v2));
                if v2 < var {
                    assert(last@[v2].to_u32_spec() == 0);
                }
                if var < v2 {
                    assert(last@[var as int].to_u32_spec() == 0);
                }
            } else {
                if exists|v: int| first_nonzero(last@, v) {
                    let v = choose|v: int| first_nonzero(last@, v);
                    assert(last@[v].to_u32_spec() == 0);
                }
            }
            assert(var as int == main_var(last@));
            lemma_univariate_rows(a, var as int);
            lemma_univariate_rows(g, var as int);
        }
        let m = div.last_exponents()[var].to_u32();
        let top = last[var].to_u32();
        let mut pow = top;
        let mut done = false;
        let ghost mut low: int = top as int;
        proof {
            q.lemma_rows();
            r.lemma_rows();
            assert(built_down(q));
            assert(built_down(r));
            lemma_synthetic_start(a, g, q, r, var as int, top);
        }
        while !done
            invariant
                a == *self,
                g == *div,
                f == a.field,
                n == a.nterms,
                d == g.nterms,
                nv == a.nvars,
                *norm == g.coefficients@[d - 1],
                a.wf(),
                synthetic_ok(a, g, q, r, var as int, top, m, low),
                apart(q, r, var as int, m),
                var_map_view(q.var_map) == var_map_view(a.var_map),
                var_map_view(r.var_map) == var_map_view(a.var_map),
                !done ==> low == pow,
                done ==> low == -1,
                pow <= top,
                dividendpos < n,
                forall|k: int| dividendpos < k < n ==> low < #[trigger] exp_at(a, k, var as int),
            decreases pow, (if done { 0int } else { 1int }),
        {
            let ghost e = unit_row::<E>(nv as nat, var as int, pow);
            proof {
                self.lemma_rows();
                div.lemma_rows();
                lemma_univariate_rows(a, var as int);
                lemma_univariate_rows(g, var as int);
                lemma_built_down_view(r);
                f.lemma_constants();
            }
            // find the power in the dividend if it exists
            let mut coeff = F::zero();
            let mut searching = true;
            while searching
                invariant
                    a == *self,
                    n == a.nterms,
                    nv == a.nvars,
                    var < nv,
                    a.wf(),
                    univariate_in(a, var as int),
                    dividendpos < n,
                    pow <= E::max_spec(),
                    e == unit_row::<E>(nv as nat, var as int, pow),
                    forall|k: int| dividendpos < k < n ==> pow < #[trigger] exp_at(a, k, var as int),
                    !searching ==> coeff == a.coeff(e),
                    searching ==> coeff == F::zero_spec(),
                decreases dividendpos, (if searching { 1int } else { 0int }),
            {
                proof {
                    self.lemma_rows();
                    lemma_univariate_rows(a, var as int);
                }
                let x = self.exponents(dividendpos)[var].to_u32();
                if x == pow {
                    coeff = self.field.copy_element(&self.coefficients[dividendpos]);
                    searching = false;
                    proof {
                        assert(a.rows()[dividendpos as int] == e);
                        assert(a@.dom().contains(a.rows()[dividendpos as int]));
                    }
                } else if dividendpos == 0 || x < pow {
                    searching = false;
                    proof {
                        // no term of the dividend has the power
                        if a@.dom().contains(e) {
                            let k = a.rows().index_of(e);
                            lemma_unit_rows::<E>(nv as nat, var as int, exp_at(a, k, var as int), pow);
                            if k < dividendpos {
                                assert(exp_at(a, k, var as int) < exp_at(
                                    a,
                                    dividendpos as int,
                                    var as int,
                                ));
                            } else if k > dividendpos {
                                assert(pow < exp_at(a, k, var as int));
                            }
                        }
                    }
                } else {
                    dividendpos -= 1;
                }
            }
            let ghost c_start = coeff;
            // subtract the products of the quotient terms with the divisor terms
            let mut qindex: usize = 0;  // starting from highest
            let mut bindex: usize = 0;  // starting from lowest
            proof {
                self.lemma_coeff_contained(e);
                lemma_neg_zero(f);
                f.lemma_add_zero(coeff);
                assert(row_sums(q, g, e).take(0) =~= Seq::<F::Element>::empty());
                lemma_pair_terms_contained(q, g, e);
            }
            while qindex < q.nterms
                invariant
                    a == *self,
                    g == *div,
                    f == g.field,
                    f == a.field,
                    d == g.nterms,
                    nv == g.nvars,
                    synthetic_ok(a, g, q, r, var as int, top, m, low),
                    apart(q, r, var as int, m),
                    low == pow,
                    e == unit_row::<E>(nv as nat, var as int, pow),
                    qindex <= q.nterms,
                    bindex < d,
                    all_in(f, row_sums(q, g, e)),
                    f.contains(c_start),
                    f.contains(coeff),
                    coeff == f.add_spec(
                        c_start,
                        f.neg_spec(ring_sum(f, row_sums(q, g, e).take(qindex as int))),
                    ),
                    forall|j: int|
                        0 <= j < bindex && qindex < q.nterms ==> #[trigger] exp_at(g, j, var as int)
                            + exp_at(q, qindex as int, var as int) < pow,
                decreases q.nterms - qindex,
            {
                proof {
                    div.lemma_rows();
                    lemma_univariate_rows(g, var as int);
                    crate::poly::matrix::lemma_rows_entries(
                        q.exponents@,
                        q.nvars as int,
                        q.nterms as int,
                    );
                    lemma_is_unit(q.rows()[qindex as int], var as int);
                    assert(exp_at(q, qindex as int, var as int) + m <= top);
                }
                let qe = q.exponents(qindex)[var].to_u32();
                while bindex + 1 < d && div.exponents(bindex)[var].to_u32() + qe < pow
                    invariant
                        g == *div,
                        d == g.nterms,
                        g.wf(),
                        var < g.nvars,
                        univariate_in(g, var as int),
                        bindex < d,
                        qe + m <= E::max_spec(),
                        m == exp_at(g, d - 1, var as int),
                        forall|j: int| 0 <= j < bindex ==> #[trigger] exp_at(g, j, var as int) + qe < pow,
                    decreases d - bindex,
                {
                    bindex += 1;
                    proof {
                        div.lemma_rows();
                        lemma_univariate_rows(g, var as int);
                        if bindex < d - 1 {
                            assert(exp_at(g, bindex as int, var as int) < exp_at(
                                g,
                                d - 1,
                                var as int,
                            ));
                        }
                    }
                }
                proof {
                    if bindex < d - 1 {
                        assert(exp_at(g, bindex as int, var as int) < exp_at(g, d - 1, var as int));
                    }
                    lemma_synthetic_row(q, g, var as int, qindex as int, pow);
                    let rs = row_sums(q, g, e);
                    assert(rs.take(qindex + 1).drop_last() =~= rs.take(qindex as int));
                    assert(rs.take(qindex + 1).last() == rs[qindex as int]);
                    assert(all_in(f, rs.take(qindex as int))) by {
                        assert forall|i: int| 0 <= i < rs.take(qindex as int).len() implies f.contains(
                            #[trigger] rs.take(qindex as int)[i],
                        ) by {
                            assert(rs.take(qindex as int)[i] == rs[i]);
                        }
                    }
                    lemma_sum_contained(f, rs.take(qindex as int));
                    lemma_sub_step(f, c_start, ring_sum(f, rs.take(qindex as int)), rs[qindex as int]);
                }
                if div.exponents(bindex)[var].to_u32() + qe == pow {
                    proof {
                        f.lemma_mul_commutative(
                            g.coefficients@[bindex as int],
                            q.coefficients@[qindex as int],
                        );
                        f.lemma_closed(
                            g.coefficients@[bindex as int],
                            q.coefficients@[qindex as int],
                        );
                        let prod = f.mul_spec(
                            g.coefficients@[bindex as int],
                            q.coefficients@[qindex as int],
                        );
                        f.lemma_closed(prod, prod);
                        f.lemma_closed(coeff, f.neg_spec(prod));
                    }
                    let prod = self.field.mul(&div.coefficients[bindex], &q.coefficients[qindex]);
                    let minus = self.field.neg(&prod);
                    coeff = self.field.add(&coeff, &minus);
                } else {
                    proof {
                        // no divisor term has the power with this quotient term
                        assert forall|j: int| 0 <= j < d implies exp_at(
                            q,
                            qindex as int,
                            var as int,
                        ) + #[trigger] exp_at(g, j, var as int) != pow by {
                            if j > bindex {
                                assert(exp_at(g, bindex as int, var as int) < exp_at(g, j, var as int));
                            }
                        }
                        let rs = row_sums(q, g, e);
                        assert(rs[qindex as int] == F::zero_spec());
                        lemma_sum_contained(f, rs.take(qindex as int));
                        f.lemma_add_zero(ring_sum(f, rs.take(qindex as int)));
                    }
                }
                proof {
                    if qindex + 1 < q.nterms {
                        // the exponents of the quotient terms decrease
                        let rows = q.rows();
                        assert(lex_lt(rows[qindex + 1], rows[qindex as int]));
                        lemma_is_unit(rows[qindex + 1], var as int);
                        lemma_unit_rows::<E>(
                            nv as nat,
                            var as int,
                            exp_at(q, qindex + 1, var as int),
                            exp_at(q, qindex as int, var as int),
                        );
                    }
                }
                qindex += 1;
            }
            proof {
                assert(row_sums(q, g, e).take(q.nterms as int) =~= row_sums(q, g, e));
                lemma_balance(f, c_start, product_coeff(q, g, e));
                assert(a.coeff(e) == f.add_spec(product_coeff(q, g, e), coeff));
                lemma_unit_rows::<E>(nv as nat, var as int, pow, 0);
            }
            if !F::is_zero(&coeff) {
                // can the division be performed? if not, add to rest
                let mut divides = false;
                let mut quot = F::zero();
                if pow >= m {
                    proof {
                        self.field.lemma_quot_rem(coeff, *norm);
                    }
                    let qr = self.field.quot_rem(&coeff, norm);
                    if F::is_zero(&qr.1) {
                        divides = true;
                        quot = qr.0;
                    }
                }
                let zero = E::zero();
                proof {
                    E::lemma_exponent(zero, 0);
                }
                let mut row = crate::poly::matrix::filled(zero, nv);
                if divides {
                    row[var] = E::from_u32(pow - m);
                    let ghost q0 = q;
                    proof {
                        assert(row@ =~= unit_row::<E>(nv as nat, var as int, (pow - m) as u32));
                        let lcv = g.coefficients@[d - 1];
                        f.lemma_closed(quot, lcv);
                        f.lemma_add_zero(f.mul_spec(quot, lcv));
                        if quot == F::zero_spec() {
                            lemma_mul_zero(f, lcv);
                        }
                        if q.nterms > 0 {
                            let t = q.nterms - 1;
                            crate::poly::matrix::lemma_rows_entries(
                                q.exponents@,
                                q.nvars as int,
                                q.nterms as int,
                            );
                            lemma_is_unit(q.rows()[t], var as int);
                            assert(pow < exp_at(q, t, var as int) + m);
                            lemma_unit_rows::<E>(
                                nv as nat,
                                var as int,
                                (pow - m) as u32,
                                exp_at(q, t, var as int),
                            );
                        }
                    }
                    q.push_down(quot, row.as_slice());
                    proof {
                        lemma_synthetic_quotient(a, g, q0, q, r, var as int, top, m, pow);
                        assert forall|i: int, t: int|
                            0 <= i < q.nterms && 0 <= t < r.nterms implies #[trigger] exp_at(
                            q,
                            i,
                            var as int,
                        ) + m != #[trigger] exp_at(r, t, var as int) by {
                            if i < q0.nterms {
                                assert(q.rows()[i] == q0.rows()[i]);
                                assert(exp_at(q0, i, var as int) + m != exp_at(r, t, var as int));
                            } else {
                                assert(q.rows()[i] == row@);
                                E::lemma_exponent(zero, (pow - m) as u32);
                                assert(pow < exp_at(r, t, var as int));
                            }
                        }
                    }
                } else {
                    row[var] = E::from_u32(pow);
                    let ghost r0 = r;
                    proof {
                        assert(row@ =~= e);
                        if r.nterms > 0 {
                            let t = r.nterms - 1;
                            crate::poly::matrix::lemma_rows_entries(
                                r.exponents@,
                                r.nvars as int,
                                r.nterms as int,
                            );
                            lemma_is_unit(r.rows()[t], var as int);
                            assert(pow < exp_at(r, t, var as int));
                            lemma_unit_rows::<E>(nv as nat, var as int, pow, exp_at(r, t, var as int));
                        }
                    }
                    r.push_down(coeff, row.as_slice());
                    proof {
                        lemma_synthetic_remainder(a, g, q, r0, r, var as int, top, m, pow);
                        assert forall|i: int, t: int|
                            0 <= i < q.nterms && 0 <= t < r.nterms implies #[trigger] exp_at(
                            q,
                            i,
                            var as int,
                        ) + m != #[trigger] exp_at(r, t, var as int) by {
                            if t < r0.nterms {
                                assert(r.rows()[t] == r0.rows()[t]);
                                assert(exp_at(q, i, var as int) + m != exp_at(r0, t, var as int));
                            } else {
                                assert(r.rows()[t] == row@);
                                E::lemma_exponent(zero, pow);
                                assert(pow < exp_at(q, i, var as int) + m);
                            }
                        }
                    }
                }
            } else {
                proof {
                    // nothing is left of the coefficient
                    f.lemma_add_zero(product_coeff(q, g, e));
                    if r@.dom().contains(e) {
                        let t = r.rows().index_of(e);
                        lemma_is_unit(r.rows()[t], var as int);
                        lemma_unit_rows::<E>(nv as nat, var as int, exp_at(r, t, var as int), pow);
                    }
                    assert(accounted(a, q, g, r, e));
                    assert forall|p: u32| pow - 1 < p <= E::max_spec() implies accounted(
                        a,
                        q,
                        g,
                        r,
                        #[trigger] unit_row::<E>(nv as nat, var as int, p),
                    ) by {}
                }
            }
            proof {
                low = pow - 1;
            }
            if pow == 0 {
                done = true;
            } else {
                pow = pow - 1;
            }
        }
        let ghost q_down = q;
        let ghost r_down = r;
        let q_up = q.reverse();
        let r_up = r.reverse();
        proof {
            lemma_synthetic_done(a, g, q_down, r_down, var as int, top, m);
            lemma_reversed_result(a, g, q_down, r_down, q_up, r_up);
            lemma_built_down_view(r_down);
            lemma_univariate_rows(g, var as int);
            assert forall|x: Seq<E>| #[trigger] r_up@.dom().contains(x) implies !dominates(
                x,
                g_back(g, 0),
            ) || f.rem_spec(r_up@[x], g.coefficients@.last()) != F::zero_spec() by {
                let t = r_down.rows().index_of(x);
                crate::poly::matrix::lemma_rows_entries(
                    r_down.exponents@,
                    r_down.nvars as int,
                    r_down.nterms as int,
                );
                lemma_is_unit(r_down.rows()[t], var as int);
                lemma_unit_rows::<E>(nv as nat, var as int, exp_at(r_down, t, var as int), m);
            }
            q_up.lemma_rows();
            r_up.lemma_rows();
            assert forall|x: Seq<E>| #[trigger] r_up@.dom().contains(x) && dominates(
                x,
                g_back(g, 0),
            ) implies !q_up@.dom().contains(row_sub(x, g_back(g, 0))) by {
                let y = row_sub(x, g_back(g, 0));
                if q_up@.dom().contains(y) {
                    let t = r_down.rows().index_of(x);
                    let i2 = q_up.rows().index_of(y);
                    let i = q_down.nterms - 1 - i2;
                    assert(q_down.rows()[i] == y);
                    crate::poly::monomial::lemma_row_sub_values(x, g_back(g, 0));
                    assert(y[var as int].to_u32_spec() == x[var as int].to_u32_spec() - g_back(
                        g,
                        0,
                    )[var as int].to_u32_spec());
                    assert(exp_at(q_down, i, var as int) + m == exp_at(r_down, t, var as int));
                }
            }
        }
        (q_up, r_up)
    }
}

} // verus!
