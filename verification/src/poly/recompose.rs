//! A polynomial is the sum of its coefficients in one variable, each times
//! its power of the variable.
use crate::poly::arith::{add_view, monomial_mul_view};
use crate::poly::monomial::{dominates, lemma_row_sub_values, row_sub};
use crate::poly::polynomial::MultivariatePolynomial;
use crate::poly::project::{coefficient_of_power, lemma_zero_at, univariate_list, with_exp, zero_at};
use crate::poly::synthetic::unit_row;
use crate::poly::Exponent;
use crate::rings::Ring;
use vstd::prelude::*;

verus! {

/// The sum of the first `n` items of the list, each multiplied by its power
/// of the variable `x` among `nv` variables.
pub open spec fn recomposed<F: Ring, E: Exponent>(
    f: F,
    list: Seq<(MultivariatePolynomial<F, E>, E)>,
    nv: nat,
    x: int,
    n: int,
) -> Map<Seq<E>, F::Element>
    decreases n,
{
    if n <= 0 {
        Map::empty()
    } else {
        add_view(
            f,
            recomposed(f, list, nv, x, n - 1),
            monomial_mul_view(
                f,
                list[n - 1].0@,
                f.one_spec(),
                unit_row::<E>(nv, x, list[n - 1].1.to_u32_spec()),
            ),
        )
    }
}

/// The terms of the map in which the variable `x` has the power of one of the
/// first `n` items of the list.
pub open spec fn with_listed_power<F: Ring, E: Exponent>(
    m: Map<Seq<E>, F::Element>,
    list: Seq<(MultivariatePolynomial<F, E>, E)>,
    x: int,
    n: int,
) -> Map<Seq<E>, F::Element> {
    Map::new(
        |e: Seq<E>| m.dom().contains(e) && exists|i: int| 0 <= i < n && (#[trigger] list[i]).1 == e[x],
        |e: Seq<E>| m[e],
    )
}

/// The coefficient of the power `d` of the variable `x` in the polynomial,
/// times that power.
pub open spec fn power_part<F: Ring, E: Exponent>(
    p: MultivariatePolynomial<F, E>,
    x: int,
    d: E,
) -> Map<Seq<E>, F::Element> {
    monomial_mul_view(
        p.field,
        coefficient_of_power::<F, E>(p@, x, d.to_u32_spec()),
        p.field.one_spec(),
        unit_row::<E>(p.nvars as nat, x, d.to_u32_spec()),
    )
}

/// The numbers of the exponent vector of a power of a variable.
proof fn lemma_unit_row<E: Exponent>(nv: nat, x: int, d: E)
    ensures
        unit_row::<E>(nv, x, d.to_u32_spec()).len() == nv,
        forall|v: int|
            0 <= v < nv ==> (#[trigger] unit_row::<E>(nv, x, d.to_u32_spec())[v]).to_u32_spec() == (
            if v == x {
                d.to_u32_spec()
            } else {
                0
            }),
{
    E::lemma_exponent(d, 0);
}

/// A term of the polynomial with the power `d` of the variable is a term of
/// the coefficient of that power times the power.
proof fn lemma_power_part_holds<F: Ring, E: Exponent>(
    p: MultivariatePolynomial<F, E>,
    x: int,
    d: E,
    e: Seq<E>,
)
    requires
        p.wf(),
        0 <= x < p.nvars,
        p@.dom().contains(e),
        e[x] == d,
    ensures
        power_part(p, x, d).dom().contains(e),
        power_part(p, x, d)[e] == p@[e],
{
    let f = p.field;
    let unit = unit_row::<E>(p.nvars as nat, x, d.to_u32_spec());
    p.lemma_rows();
    lemma_unit_row::<E>(p.nvars as nat, x, d);
    assert(dominates(e, unit));
    lemma_row_sub_values(e, unit);
    lemma_zero_at(e, x);
    let y = row_sub(e, unit);
    assert forall|v: int| 0 <= v < e.len() implies y[v] == zero_at(e, x)[v] by {
        E::lemma_exponent(e[v], 0);
    }
    assert(y =~= zero_at(e, x));
    f.lemma_mul_one(p@[e]);
}

/// A term of the coefficient of the power `d` of the variable times that
/// power is a term of the polynomial with that power.
proof fn lemma_power_part_found<F: Ring, E: Exponent>(
    p: MultivariatePolynomial<F, E>,
    x: int,
    d: E,
    e: Seq<E>,
)
    requires
        p.wf(),
        0 <= x < p.nvars,
        power_part(p, x, d).dom().contains(e),
    ensures
        p@.dom().contains(e),
        e[x] == d,
{
    let unit = unit_row::<E>(p.nvars as nat, x, d.to_u32_spec());
    p.lemma_rows();
    lemma_unit_row::<E>(e.len(), x, d);
    lemma_row_sub_values(e, unit);
    let y = row_sub(e, unit);
    let z = with_exp(y, x, d.to_u32_spec());
    assert(p@.dom().contains(z));
    assert(z.len() == p.nvars);
    assert(e.len() == p.nvars);
    assert(y[x].to_u32_spec() == 0);
    assert(e[x].to_u32_spec() == d.to_u32_spec());
    E::lemma_exponent(e[x], 0);
    E::lemma_exponent(d, 0);
    assert forall|v: int| 0 <= v < e.len() implies z[v] == e[v] by {
        E::lemma_exponent(e[v], 0);
    }
    assert(z =~= e);
}

/// A coefficient of the list times its power of the variable: the terms of
/// the polynomial that have that power.
proof fn lemma_power_part<F: Ring, E: Exponent>(
    p: MultivariatePolynomial<F, E>,
    x: int,
    d: E,
    e: Seq<E>,
)
    requires
        p.wf(),
        0 <= x < p.nvars,
    ensures
        power_part(p, x, d).dom().contains(e) <==> p@.dom().contains(e) && e[x] == d,
        p@.dom().contains(e) && e[x] == d ==> power_part(p, x, d)[e] == p@[e],
{
    if p@.dom().contains(e) && e[x] == d {
        lemma_power_part_holds(p, x, d, e);
    }
    if power_part(p, x, d).dom().contains(e) {
        lemma_power_part_found(p, x, d, e);
    }
}

/// The sum of the first `n` items of the list, each times its power, is made
/// up of the terms of the polynomial with those powers.
proof fn lemma_recomposed<F: Ring, E: Exponent>(
    p: MultivariatePolynomial<F, E>,
    x: int,
    list: Seq<(MultivariatePolynomial<F, E>, E)>,
    n: int,
)
    requires
        p.wf(),
        0 <= x < p.nvars,
        univariate_list(p, x, list),
        0 <= n <= list.len(),
    ensures
        recomposed(p.field, list, p.nvars as nat, x, n) == with_listed_power(p@, list, x, n),
    decreases n,
{
    let f = p.field;
    let nv = p.nvars as nat;
    let target = with_listed_power(p@, list, x, n);
    if n == 0 {
        assert(recomposed(f, list, nv, x, n) =~= target);
    } else {
        lemma_recomposed(p, x, list, n - 1);
        let before = with_listed_power(p@, list, x, n - 1);
        let part = power_part(p, x, list[n - 1].1);
        let sum = add_view(f, before, part);
        assert(list[n - 1].0@ == coefficient_of_power::<F, E>(p@, x, list[n - 1].1.to_u32_spec()));
        p.lemma_rows();
        f.lemma_constants();
        assert forall|e: Seq<E>| sum.dom().contains(e) <==> target.dom().contains(e) by {
            lemma_power_part(p, x, list[n - 1].1, e);
            if before.dom().contains(e) {
                let i = choose|i: int| 0 <= i < n - 1 && (#[trigger] list[i]).1 == e[x];
                assert(list[i].1.to_u32_spec() < list[n - 1].1.to_u32_spec());
                f.lemma_add_zero(p@[e]);
            }
            if part.dom().contains(e) {
                assert(list[n - 1].1 == e[x]);
                if before.dom().contains(e) {
                    let i = choose|i: int| 0 <= i < n - 1 && (#[trigger] list[i]).1 == e[x];
                    assert(list[i].1.to_u32_spec() < list[n - 1].1.to_u32_spec());
                }
                crate::rings::lemma_zero_add(f, p@[e]);
            }
            if target.dom().contains(e) {
                let i = choose|i: int| 0 <= i < n && (#[trigger] list[i]).1 == e[x];
                if i < n - 1 {
                    assert(before.dom().contains(e));
                }
            }
        }
        assert forall|e: Seq<E>| sum.dom().contains(e) implies sum[e] == target[e] by {
            lemma_power_part(p, x, list[n - 1].1, e);
            if before.dom().contains(e) {
                let i = choose|i: int| 0 <= i < n - 1 && (#[trigger] list[i]).1 == e[x];
                assert(list[i].1.to_u32_spec() < list[n - 1].1.to_u32_spec());
                f.lemma_add_zero(p@[e]);
            } else {
                crate::rings::lemma_zero_add(f, p@[e]);
            }
        }
        assert(sum =~= target);
    }
}

/// The list of the coefficients in one variable gives the polynomial back:
/// the sum of the coefficients, each times its power of the variable, is the
/// polynomial.
pub proof fn law_recomposed<F: Ring, E: Exponent>(
    p: MultivariatePolynomial<F, E>,
    x: int,
    list: Seq<(MultivariatePolynomial<F, E>, E)>,
)
    requires
        p.wf(),
        0 <= x < p.nvars,
        univariate_list(p, x, list),
    ensures
        recomposed(p.field, list, p.nvars as nat, x, list.len() as int) == p@,
{
    lemma_recomposed(p, x, list, list.len() as int);
    assert(with_listed_power(p@, list, x, list.len() as int) =~= p@);
}

} // verus!
