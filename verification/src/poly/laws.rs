//! The ring laws of polynomial arithmetic, stated over the views of
//! well-formed polynomials.
use crate::poly::arith::{add_view, sub_view};
use crate::poly::monomial::{
    dominates, lemma_lex_asymmetric, lemma_row_add_cancel, lemma_row_add_values,
    lemma_row_add_zero, lemma_row_sub_values, row_sub, sum_fits, zero_row,
};
use crate::poly::polynomial::{coeff_in, MultivariatePolynomial};
use crate::poly::product::{
    can_multiply, lemma_pair_terms_contained, lemma_row_sum_hit, lemma_row_sum_miss, lemma_sum_add,
    lemma_sum_equal, lemma_sum_interchange, mul_view, pair_row, pair_term, pair_terms,
    product_coeff, row_sums, table_columns, table_rows,
};
use crate::poly::Exponent;
use crate::rings::{lemma_mul_zero, lemma_zero_add, Ring};
use vstd::prelude::*;

verus! {

/// The coefficient that a sum gives to a monomial is the sum of the
/// coefficients.
pub proof fn lemma_add_view_coeff<F: Ring, E: Exponent>(
    f: F,
    a: Map<Seq<E>, F::Element>,
    b: Map<Seq<E>, F::Element>,
    e: Seq<E>,
)
    requires
        f.valid(),
    ensures
        coeff_in::<F, E>(add_view(f, a, b), e) == f.add_spec(
            coeff_in::<F, E>(a, e),
            coeff_in::<F, E>(b, e),
        ),
{
    if !a.dom().contains(e) && !b.dom().contains(e) {
        f.lemma_constants();
        f.lemma_add_zero(F::zero_spec());
    }
}

/// Addition is commutative: `a + b = b + a`.
pub proof fn law_add_commutative<F: Ring, E: Exponent>(
    a: MultivariatePolynomial<F, E>,
    b: MultivariatePolynomial<F, E>,
)
    requires
        a.wf(),
        b.wf(),
        a.field == b.field,
    ensures
        add_view(a.field, a@, b@) == add_view(a.field, b@, a@),
{
    let f = a.field;
    assert forall|e: Seq<E>| #[trigger]
        f.add_spec(coeff_in::<F, E>(a@, e), coeff_in::<F, E>(b@, e)) == f.add_spec(
            coeff_in::<F, E>(b@, e),
            coeff_in::<F, E>(a@, e),
        ) by {
        a.lemma_coeff_contained(e);
        b.lemma_coeff_contained(e);
        f.lemma_add_commutative(a.coeff(e), b.coeff(e));
    }
    assert(add_view(f, a@, b@) =~= add_view(f, b@, a@));
}

/// Addition is associative: `(a + b) + c = a + (b + c)`.
pub proof fn law_add_associative<F: Ring, E: Exponent>(
    a: MultivariatePolynomial<F, E>,
    b: MultivariatePolynomial<F, E>,
    c: MultivariatePolynomial<F, E>,
)
    requires
        a.wf(),
        b.wf(),
        c.wf(),
        a.field == b.field,
        b.field == c.field,
    ensures
        add_view(a.field, add_view(a.field, a@, b@), c@) == add_view(
            a.field,
            a@,
            add_view(a.field, b@, c@),
        ),
{
    let f = a.field;
    let l = add_view(f, add_view(f, a@, b@), c@);
    let r = add_view(f, a@, add_view(f, b@, c@));
    assert forall|e: Seq<E>|
        f.add_spec(coeff_in::<F, E>(add_view(f, a@, b@), e), coeff_in::<F, E>(c@, e)) == f.add_spec(
            coeff_in::<F, E>(a@, e),
            coeff_in::<F, E>(add_view(f, b@, c@), e),
        ) by {
        a.lemma_coeff_contained(e);
        b.lemma_coeff_contained(e);
        c.lemma_coeff_contained(e);
        lemma_add_view_coeff(f, a@, b@, e);
        lemma_add_view_coeff(f, b@, c@, e);
        f.lemma_add_associative(a.coeff(e), b.coeff(e), c.coeff(e));
    }
    assert forall|e: Seq<E>| l.dom().contains(e) <==> r.dom().contains(e) by {
        a.lemma_rows();
        b.lemma_rows();
        c.lemma_rows();
        a.lemma_coeff_contained(e);
        b.lemma_coeff_contained(e);
        c.lemma_coeff_contained(e);
        lemma_add_view_coeff(f, a@, b@, e);
        lemma_add_view_coeff(f, b@, c@, e);
        f.lemma_add_associative(a.coeff(e), b.coeff(e), c.coeff(e));
        f.lemma_constants();
        lemma_zero_add(f, c.coeff(e));
        f.lemma_add_zero(a.coeff(e));
        if !a@.dom().contains(e) && !b@.dom().contains(e) && !c@.dom().contains(e) {
            f.lemma_add_zero(F::zero_spec());
        }
    }
    assert(l =~= r);
}

/// The zero polynomial is neutral: `a + 0 = a`.
pub proof fn law_add_zero<F: Ring, E: Exponent>(a: MultivariatePolynomial<F, E>)
    requires
        a.wf(),
    ensures
        add_view(a.field, a@, Map::<Seq<E>, F::Element>::empty()) == a@,
{
    let f = a.field;
    let z = Map::<Seq<E>, F::Element>::empty();
    a.lemma_rows();
    assert forall|e: Seq<E>| #[trigger]
        f.add_spec(coeff_in::<F, E>(a@, e), coeff_in::<F, E>(z, e)) == coeff_in::<F, E>(a@, e) by {
        a.lemma_coeff_contained(e);
        f.lemma_add_zero(a.coeff(e));
    }
    assert forall|e: Seq<E>| add_view(f, a@, z).dom().contains(e) <==> a@.dom().contains(e) by {
        assert(f.add_spec(coeff_in::<F, E>(a@, e), coeff_in::<F, E>(z, e)) == coeff_in::<F, E>(a@, e));
    }
    assert forall|e: Seq<E>| a@.dom().contains(e) implies add_view(f, a@, z)[e] == a@[e] by {
        assert(f.add_spec(coeff_in::<F, E>(a@, e), coeff_in::<F, E>(z, e)) == coeff_in::<F, E>(a@, e));
    }
    assert(add_view(f, a@, z) =~= a@);
}

/// A polynomial minus itself is zero: `a - a = 0`.
pub proof fn law_sub_self<F: Ring, E: Exponent>(a: MultivariatePolynomial<F, E>)
    requires
        a.wf(),
    ensures
        sub_view(a.field, a@, a@) == Map::<Seq<E>, F::Element>::empty(),
{
    let f = a.field;
    a.lemma_rows();
    assert forall|e: Seq<E>| !sub_view(f, a@, a@).dom().contains(e) by {
        if a@.dom().contains(e) {
            f.lemma_add_neg(a@[e]);
        }
    }
    assert(sub_view(f, a@, a@) =~= Map::<Seq<E>, F::Element>::empty());
}

/// Two polynomials over one ring in the same variables.
pub open spec fn same_shape<F: Ring, E: Exponent>(
    a: MultivariatePolynomial<F, E>,
    b: MultivariatePolynomial<F, E>,
) -> bool {
    &&& a.wf()
    &&& b.wf()
    &&& a.field == b.field
    &&& a.nvars == b.nvars
}

/// Whether two exponent vectors add up within range does not depend on their
/// order.
pub proof fn lemma_sum_fits_symmetric<E: Exponent>(a: Seq<E>, b: Seq<E>)
    requires
        sum_fits(a, b),
    ensures
        sum_fits(b, a),
{
    assert forall|v: int| 0 <= v < b.len() implies #[trigger] b[v].to_u32_spec()
        + a[v].to_u32_spec() <= E::max_spec() by {
        assert(a[v].to_u32_spec() + b[v].to_u32_spec() <= E::max_spec());
    }
}

/// What term `i` of `a` adds to the coefficient of `x^e` in the product with
/// `b`: its coefficient times the coefficient that `b` has for the monomial
/// that is left of `x^e` when the monomial of term `i` is divided out of it.
pub proof fn lemma_row_sum_lookup<F: Ring, E: Exponent>(
    a: MultivariatePolynomial<F, E>,
    b: MultivariatePolynomial<F, E>,
    i: int,
    e: Seq<E>,
)
    requires
        same_shape(a, b),
        0 <= i < a.nterms,
    ensures
        row_sums(a, b, e)[i] == (if dominates(e, a.rows()[i]) {
            a.field.mul_spec(a.coefficients@[i], b.coeff(row_sub(e, a.rows()[i])))
        } else {
            F::zero_spec()
        }),
{
    let f = a.field;
    let r = a.rows()[i];
    a.lemma_rows();
    b.lemma_rows();
    if exists|j: int|
        0 <= j < b.nterms && sum_fits(r, b.rows()[j]) && #[trigger] pair_row(a, b, i, j) == e {
        let j = choose|j: int|
            0 <= j < b.nterms && sum_fits(r, b.rows()[j]) && #[trigger] pair_row(a, b, i, j) == e;
        lemma_row_sum_hit(a, b, i, j, e);
        // the row of b is what is left of e
        assert(sum_fits(r, b.rows()[j]));
        lemma_row_add_values(r, b.rows()[j]);
        assert(dominates(e, r)) by {
            assert forall|v: int| 0 <= v < e.len() implies #[trigger] r[v].to_u32_spec()
                <= e[v].to_u32_spec() by {
                assert(e[v].to_u32_spec() == r[v].to_u32_spec() + b.rows()[j][v].to_u32_spec());
            }
        }
        lemma_row_sub_values(e, r);
        crate::poly::monomial::lemma_row_add_commutative(row_sub(e, r), r);
        crate::poly::monomial::lemma_row_add_commutative(r, b.rows()[j]);
        assert(sum_fits(b.rows()[j], r)) by {
            assert forall|v: int| 0 <= v < r.len() implies #[trigger] b.rows()[j][v].to_u32_spec()
                + r[v].to_u32_spec() <= E::max_spec() by {
                assert(r[v].to_u32_spec() + b.rows()[j][v].to_u32_spec() <= E::max_spec());
            }
        }
        lemma_row_add_cancel(b.rows()[j], row_sub(e, r), r);
        assert(b@.dom().contains(b.rows()[j]));
    } else {
        lemma_row_sum_miss(a, b, i, e);
        if dominates(e, r) {
            let x = row_sub(e, r);
            if b@.dom().contains(x) {
                let j = b.rows().index_of(x);
                lemma_row_sub_values(e, r);
                crate::poly::monomial::lemma_row_add_commutative(x, r);
                lemma_sum_fits_symmetric(x, r);
                assert(pair_row(a, b, i, j) == e);
            }
            lemma_mul_zero(f, a.coefficients@[i]);
        }
    }
}

/// Multiplication distributes over addition: `a * (b + c) = a * b + a * c`,
/// where `d` is the sum `b + c`.
pub proof fn law_distributive<F: Ring, E: Exponent>(
    a: MultivariatePolynomial<F, E>,
    b: MultivariatePolynomial<F, E>,
    c: MultivariatePolynomial<F, E>,
    d: MultivariatePolynomial<F, E>,
)
    requires
        can_multiply(a, b),
        can_multiply(a, c),
        can_multiply(a, d),
        d@ == add_view(a.field, b@, c@),
    ensures
        mul_view(a, d) == add_view(a.field, mul_view(a, b), mul_view(a, c)),
{
    let f = a.field;
    assert forall|e: Seq<E>| product_coeff(a, d, e) == f.add_spec(
        product_coeff(a, b, e),
        product_coeff(a, c, e),
    ) by {
        lemma_pair_terms_contained(a, b, e);
        lemma_pair_terms_contained(a, c, e);
        lemma_pair_terms_contained(a, d, e);
        assert forall|i: int| 0 <= i < a.nterms implies #[trigger] row_sums(a, d, e)[i]
            == f.add_spec(row_sums(a, b, e)[i], row_sums(a, c, e)[i]) by {
            lemma_row_sum_lookup(a, b, i, e);
            lemma_row_sum_lookup(a, c, i, e);
            lemma_row_sum_lookup(a, d, i, e);
            if dominates(e, a.rows()[i]) {
                let x = row_sub(e, a.rows()[i]);
                lemma_add_view_coeff(f, b@, c@, x);
                b.lemma_coeff_contained(x);
                c.lemma_coeff_contained(x);
                f.lemma_distributive(a.coefficients@[i], b.coeff(x), c.coeff(x));
            } else {
                f.lemma_constants();
                f.lemma_add_zero(F::zero_spec());
            }
        }
        lemma_sum_add(f, row_sums(a, b, e), row_sums(a, c, e), row_sums(a, d, e));
    }
    let l = mul_view(a, d);
    let r = add_view(f, mul_view(a, b), mul_view(a, c));
    assert forall|e: Seq<E>| l.dom().contains(e) <==> r.dom().contains(e) by {
        assert(product_coeff(a, d, e) == f.add_spec(product_coeff(a, b, e), product_coeff(a, c, e)));
        if !mul_view(a, b).dom().contains(e) && !mul_view(a, c).dom().contains(e) {
            f.lemma_constants();
            f.lemma_add_zero(F::zero_spec());
        }
    }
    assert forall|e: Seq<E>| l.dom().contains(e) implies l[e] == r[e] by {
        assert(product_coeff(a, d, e) == f.add_spec(product_coeff(a, b, e), product_coeff(a, c, e)));
    }
    assert(l =~= r);
}

/// The coefficient of a monomial in a product does not depend on the order of
/// the factors.
pub proof fn lemma_product_coeff_commutative<F: Ring, E: Exponent>(
    a: MultivariatePolynomial<F, E>,
    b: MultivariatePolynomial<F, E>,
    e: Seq<E>,
)
    requires
        same_shape(a, b),
    ensures
        product_coeff(a, b, e) == product_coeff(b, a, e),
{
    let f = a.field;
    a.lemma_rows();
    b.lemma_rows();
    let m = |i: int, j: int| pair_term(a, b, i, j, e);
    let n = a.nterms as nat;
    let k = b.nterms as nat;
    f.lemma_constants();
    assert forall|i: int, j: int| 0 <= i < n && 0 <= j < k implies f.contains(#[trigger] m(i, j)) by {
        f.lemma_closed(a.coefficients@[i], b.coefficients@[j]);
    }
    lemma_sum_interchange(f, m, n, k);
    assert forall|i: int| 0 <= i < n implies #[trigger] row_sums(a, b, e)[i] == table_rows(
        f,
        m,
        n,
        k,
    )[i] by {
        assert(pair_terms(a, b, i, e) =~= Seq::new(k, |j: int| m(i, j)));
    }
    lemma_sum_equal(f, row_sums(a, b, e), table_rows(f, m, n, k));
    assert forall|j: int| 0 <= j < k implies #[trigger] row_sums(b, a, e)[j] == table_columns(
        f,
        m,
        n,
        k,
    )[j] by {
        assert forall|i: int| 0 <= i < n implies #[trigger] pair_term(b, a, j, i, e) == m(i, j) by {
            crate::poly::monomial::lemma_row_add_commutative(a.rows()[i], b.rows()[j]);
            f.lemma_mul_commutative(a.coefficients@[i], b.coefficients@[j]);
            if sum_fits(a.rows()[i], b.rows()[j]) {
                lemma_sum_fits_symmetric(a.rows()[i], b.rows()[j]);
            }
            if sum_fits(b.rows()[j], a.rows()[i]) {
                lemma_sum_fits_symmetric(b.rows()[j], a.rows()[i]);
            }
        }
        assert(pair_terms(b, a, j, e) =~= Seq::new(n, |i: int| m(i, j)));
    }
    lemma_sum_equal(f, row_sums(b, a, e), table_columns(f, m, n, k));
}

/// Multiplication is commutative: `a * b = b * a`.
pub proof fn law_mul_commutative<F: Ring, E: Exponent>(
    a: MultivariatePolynomial<F, E>,
    b: MultivariatePolynomial<F, E>,
)
    requires
        can_multiply(a, b),
    ensures
        can_multiply(b, a),
        mul_view(a, b) == mul_view(b, a),
{
    a.lemma_rows();
    b.lemma_rows();
    assert forall|j: int, i: int| 0 <= j < b.nterms && 0 <= i < a.nterms implies sum_fits(
        #[trigger] b.rows()[j],
        #[trigger] a.rows()[i],
    ) by {
        assert(sum_fits(a.rows()[i], b.rows()[j]));
        assert forall|v: int| 0 <= v < b.rows()[j].len() implies #[trigger] b.rows()[j][v].to_u32_spec()
            + a.rows()[i][v].to_u32_spec() <= E::max_spec() by {
            assert(a.rows()[i][v].to_u32_spec() + b.rows()[j][v].to_u32_spec() <= E::max_spec());
        }
    }
    assert forall|e: Seq<E>| product_coeff(a, b, e) == product_coeff(b, a, e) by {
        lemma_product_coeff_commutative(a, b, e);
    }
    assert(mul_view(a, b) =~= mul_view(b, a));
}

/// The constant one is neutral: `a * 1 = a`, where `u` is the constant one in
/// the variables of `a`.
pub proof fn law_mul_one<F: Ring, E: Exponent>(
    a: MultivariatePolynomial<F, E>,
    u: MultivariatePolynomial<F, E>,
)
    requires
        a.wf(),
        u.wf(),
        a.field == u.field,
        a.nvars == u.nvars,
        u.nterms == 1,
        u.rows()[0] == zero_row::<E>(u.nvars as nat),
        u.coefficients@[0] == u.field.one_spec(),
    ensures
        can_multiply(a, u),
        mul_view(a, u) == a@,
{
    let f = a.field;
    a.lemma_rows();
    u.lemma_rows();
    assert forall|i: int, j: int| 0 <= i < a.nterms && 0 <= j < u.nterms implies sum_fits(
        #[trigger] a.rows()[i],
        #[trigger] u.rows()[j],
    ) by {
        lemma_row_add_zero(a.rows()[i]);
    }
    assert forall|e: Seq<E>| product_coeff(a, u, e) == a.coeff(e) by {
        lemma_pair_terms_contained(a, u, e);
        if a@.dom().contains(e) {
            let i = a.rows().index_of(e);
            lemma_row_add_zero(a.rows()[i]);
            assert(pair_row(a, u, i, 0) == e);
            lemma_row_sum_hit(a, u, i, 0, e);
            f.lemma_mul_one(a.coefficients@[i]);
            assert forall|k: int| 0 <= k < a.nterms && k != i implies #[trigger] row_sums(a, u, e)[k]
                == F::zero_spec() by {
                assert forall|j: int| 0 <= j < u.nterms implies #[trigger] pair_row(a, u, k, j)
                    != e by {
                    lemma_row_add_zero(a.rows()[k]);
                    if k < i {
                        lemma_lex_asymmetric(a.rows()[k], a.rows()[i]);
                    } else {
                        lemma_lex_asymmetric(a.rows()[i], a.rows()[k]);
                    }
                }
                lemma_row_sum_miss(a, u, k, e);
            }
            crate::poly::product::lemma_sum_single(f, row_sums(a, u, e), i);
        } else {
            assert forall|k: int, j: int| 0 <= k < a.nterms && 0 <= j < u.nterms implies #[trigger] pair_row(
                a,
                u,
                k,
                j,
            ) != e by {
                lemma_row_add_zero(a.rows()[k]);
                assert(a@.dom().contains(a.rows()[k]));
            }
            crate::poly::product::lemma_product_coeff_zero(a, u, e);
        }
    }
    assert forall|e: Seq<E>| mul_view(a, u).dom().contains(e) <==> a@.dom().contains(e) by {
        assert(product_coeff(a, u, e) == a.coeff(e));
    }
    assert forall|e: Seq<E>| a@.dom().contains(e) implies mul_view(a, u)[e] == a@[e] by {
        assert(product_coeff(a, u, e) == a.coeff(e));
    }
    assert(mul_view(a, u) =~= a@);
}

} // verus!
