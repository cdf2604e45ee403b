//! What the product of two polynomials is: the coefficient of a monomial in
//! the product is the sum, over all pairs of terms whose exponent vectors add
//! up to the monomial's, of the products of their coefficients.
use crate::poly::monomial::{
    lemma_lex_asymmetric, lemma_row_add_monotone, lex_lt, row_add, sum_fits,
};
use crate::poly::polynomial::MultivariatePolynomial;
use crate::poly::Exponent;
use crate::rings::{lemma_zero_add, Ring};
use vstd::prelude::*;

verus! {

/// The sum of a list of ring elements, added up from the left.
pub open spec fn ring_sum<F: Ring>(f: F, s: Seq<F::Element>) -> F::Element
    decreases s.len(),
{
    if s.len() == 0 {
        F::zero_spec()
    } else {
        f.add_spec(ring_sum(f, s.drop_last()), s.last())
    }
}

/// Every item of the list is an element of the ring.
pub open spec fn all_in<F: Ring>(f: F, s: Seq<F::Element>) -> bool {
    forall|i: int| 0 <= i < s.len() ==> f.contains(#[trigger] s[i])
}

/// A sum of ring elements is a ring element.
pub proof fn lemma_sum_contained<F: Ring>(f: F, s: Seq<F::Element>)
    requires
        f.valid(),
        all_in(f, s),
    ensures
        f.contains(ring_sum(f, s)),
    decreases s.len(),
{
    if s.len() == 0 {
        f.lemma_constants();
    } else {
        lemma_sum_contained(f, s.drop_last());
        f.lemma_closed(ring_sum(f, s.drop_last()), s.last());
    }
}

/// A sum of zeros is zero.
pub proof fn lemma_sum_zeros<F: Ring>(f: F, s: Seq<F::Element>)
    requires
        f.valid(),
        forall|i: int| 0 <= i < s.len() ==> #[trigger] s[i] == F::zero_spec(),
    ensures
        ring_sum(f, s) == F::zero_spec(),
    decreases s.len(),
{
    if s.len() > 0 {
        lemma_sum_zeros(f, s.drop_last());
        f.lemma_constants();
        f.lemma_add_zero(F::zero_spec());
    }
}

/// An item can be taken out of a sum and added at the end.
pub proof fn lemma_sum_remove<F: Ring>(f: F, s: Seq<F::Element>, k: int)
    requires
        f.valid(),
        all_in(f, s),
        0 <= k < s.len(),
    ensures
        ring_sum(f, s) == f.add_spec(ring_sum(f, s.remove(k)), s[k]),
    decreases s.len(),
{
    if k == s.len() - 1 {
        assert(s.remove(k) =~= s.drop_last());
    } else {
        let dl = s.drop_last();
        let x = ring_sum(f, dl.remove(k));
        lemma_sum_remove(f, dl, k);
        assert(s.remove(k).drop_last() =~= dl.remove(k));
        assert(s.remove(k).last() == s.last());
        assert(all_in(f, dl.remove(k))) by {
            assert forall|i: int| 0 <= i < dl.remove(k).len() implies f.contains(
                #[trigger] dl.remove(k)[i],
            ) by {
                if i < k {
                    assert(dl.remove(k)[i] == s[i]);
                } else {
                    assert(dl.remove(k)[i] == s[i + 1]);
                }
            }
        }
        lemma_sum_contained(f, dl.remove(k));
        // (x + s[k]) + last == (x + last) + s[k]
        f.lemma_add_associative(x, s[k], s.last());
        f.lemma_add_commutative(s[k], s.last());
        f.lemma_add_associative(x, s.last(), s[k]);
    }
}

/// A sum in which all items but one are zero is that item.
pub proof fn lemma_sum_single<F: Ring>(f: F, s: Seq<F::Element>, k: int)
    requires
        f.valid(),
        0 <= k < s.len(),
        f.contains(s[k]),
        forall|i: int| 0 <= i < s.len() && i != k ==> #[trigger] s[i] == F::zero_spec(),
    ensures
        ring_sum(f, s) == s[k],
{
    f.lemma_constants();
    assert(all_in(f, s));
    lemma_sum_remove(f, s, k);
    assert forall|i: int| 0 <= i < s.remove(k).len() implies #[trigger] s.remove(k)[i]
        == F::zero_spec() by {
        if i < k {
            assert(s.remove(k)[i] == s[i]);
        } else {
            assert(s.remove(k)[i] == s[i + 1]);
        }
    }
    lemma_sum_zeros(f, s.remove(k));
    lemma_zero_add(f, s[k]);
}

/// A sum does not change when its items are spread over a longer list in any
/// order, with zeros in between: if `dense[idx[k]] == vals[k]` for distinct
/// places `idx[k]`, and `dense` is zero at all other places, the sums of
/// `vals` and of `dense` are equal.
pub proof fn lemma_sparse_sum<F: Ring>(
    f: F,
    idx: Seq<int>,
    vals: Seq<F::Element>,
    dense: Seq<F::Element>,
)
    requires
        f.valid(),
        all_in(f, dense),
        idx.len() == vals.len(),
        idx.no_duplicates(),
        forall|k: int|
            0 <= k < idx.len() ==> 0 <= #[trigger] idx[k] < dense.len() && dense[idx[k]] == vals[k],
        forall|i: int|
            0 <= i < dense.len() && !idx.contains(i) ==> #[trigger] dense[i] == F::zero_spec(),
    ensures
        ring_sum(f, vals) == ring_sum(f, dense),
    decreases dense.len(),
{
    if dense.len() == 0 {
        if idx.len() > 0 {
            assert(0 <= idx[0] < dense.len());
        }
    } else {
        let last = dense.len() - 1;
        let d2 = dense.drop_last();
        if idx.contains(last) {
            let k = choose|k: int| 0 <= k < idx.len() && idx[k] == last;
            let idx2 = idx.remove(k);
            let vals2 = vals.remove(k);
            assert forall|i: int| 0 <= i < idx2.len() implies 0 <= #[trigger] idx2[i] < d2.len()
                && d2[idx2[i]] == vals2[i] by {
                let i0 = if i < k { i } else { i + 1 };
                assert(idx2[i] == idx[i0]);
                assert(vals2[i] == vals[i0]);
                assert(idx[i0] != idx[k]);
            }
            assert forall|i: int, j: int|
                0 <= i < idx2.len() && 0 <= j < idx2.len() && i != j implies idx2[i] != idx2[j] by {
                let i0 = if i < k { i } else { i + 1 };
                let j0 = if j < k { j } else { j + 1 };
                assert(idx2[i] == idx[i0]);
                assert(idx2[j] == idx[j0]);
            }
            assert forall|i: int| 0 <= i < d2.len() && !idx2.contains(i) implies #[trigger] d2[i]
                == F::zero_spec() by {
                if idx.contains(i) {
                    let t = choose|t: int| 0 <= t < idx.len() && idx[t] == i;
                    let t2 = if t < k { t } else { t - 1 };
                    assert(idx2[t2] == i);
                }
                assert(d2[i] == dense[i]);
            }
            assert(all_in(f, d2)) by {
                assert forall|i: int| 0 <= i < d2.len() implies f.contains(#[trigger] d2[i]) by {
                    assert(d2[i] == dense[i]);
                }
            }
            lemma_sparse_sum(f, idx2, vals2, d2);
            assert(all_in(f, vals)) by {
                assert forall|i: int| 0 <= i < vals.len() implies f.contains(#[trigger] vals[i]) by {
                    assert(dense[idx[i]] == vals[i]);
                }
            }
            lemma_sum_remove(f, vals, k);
        } else {
            assert forall|i: int| 0 <= i < idx.len() implies 0 <= #[trigger] idx[i] < d2.len()
                && d2[idx[i]] == vals[i] by {
                assert(idx.contains(idx[i]));
            }
            assert forall|i: int| 0 <= i < d2.len() && !idx.contains(i) implies #[trigger] d2[i]
                == F::zero_spec() by {
                assert(d2[i] == dense[i]);
            }
            assert(all_in(f, d2)) by {
                assert forall|i: int| 0 <= i < d2.len() implies f.contains(#[trigger] d2[i]) by {
                    assert(d2[i] == dense[i]);
                }
            }
            lemma_sparse_sum(f, idx, vals, d2);
            lemma_sum_contained(f, d2);
            f.lemma_add_zero(ring_sum(f, d2));
        }
    }
}

/// The sum of a list of sums is the sum of the two lists' sums.
pub proof fn lemma_sum_add<F: Ring>(f: F, s: Seq<F::Element>, t: Seq<F::Element>, u: Seq<F::Element>)
    requires
        f.valid(),
        all_in(f, s),
        all_in(f, t),
        s.len() == t.len(),
        u.len() == s.len(),
        forall|i: int| 0 <= i < u.len() ==> #[trigger] u[i] == f.add_spec(s[i], t[i]),
    ensures
        ring_sum(f, u) == f.add_spec(ring_sum(f, s), ring_sum(f, t)),
    decreases s.len(),
{
    if s.len() == 0 {
        f.lemma_constants();
        f.lemma_add_zero(F::zero_spec());
    } else {
        let s2 = s.drop_last();
        let t2 = t.drop_last();
        let u2 = u.drop_last();
        assert(all_in(f, s2)) by {
            assert forall|i: int| 0 <= i < s2.len() implies f.contains(#[trigger] s2[i]) by {
                assert(s2[i] == s[i]);
            }
        }
        assert(all_in(f, t2)) by {
            assert forall|i: int| 0 <= i < t2.len() implies f.contains(#[trigger] t2[i]) by {
                assert(t2[i] == t[i]);
            }
        }
        assert forall|i: int| 0 <= i < u2.len() implies #[trigger] u2[i] == f.add_spec(
            s2[i],
            t2[i],
        ) by {
            assert(u2[i] == u[i]);
        }
        lemma_sum_add(f, s2, t2, u2);
        lemma_sum_contained(f, s2);
        lemma_sum_contained(f, t2);
        let a = ring_sum(f, s2);
        let b = ring_sum(f, t2);
        let x = s.last();
        let y = t.last();
        assert(u.last() == f.add_spec(x, y));
        // (a + b) + (x + y) == (a + x) + (b + y)
        f.lemma_closed(x, y);
        f.lemma_closed(b, x);
        f.lemma_closed(a, x);
        f.lemma_closed(b, y);
        f.lemma_add_associative(a, b, f.add_spec(x, y));
        f.lemma_add_associative(b, x, y);
        f.lemma_add_commutative(b, x);
        f.lemma_add_associative(x, b, y);
        f.lemma_add_associative(a, x, f.add_spec(b, y));
    }
}

/// The sum of a list of multiples is the multiple of the list's sum.
pub proof fn lemma_sum_scale<F: Ring>(f: F, c: F::Element, s: Seq<F::Element>, u: Seq<F::Element>)
    requires
        f.valid(),
        f.contains(c),
        all_in(f, s),
        u.len() == s.len(),
        forall|i: int| 0 <= i < u.len() ==> #[trigger] u[i] == f.mul_spec(c, s[i]),
    ensures
        ring_sum(f, u) == f.mul_spec(c, ring_sum(f, s)),
    decreases s.len(),
{
    if s.len() == 0 {
        crate::rings::lemma_mul_zero(f, c);
    } else {
        let s2 = s.drop_last();
        let u2 = u.drop_last();
        assert(all_in(f, s2)) by {
            assert forall|i: int| 0 <= i < s2.len() implies f.contains(#[trigger] s2[i]) by {
                assert(s2[i] == s[i]);
            }
        }
        assert forall|i: int| 0 <= i < u2.len() implies #[trigger] u2[i] == f.mul_spec(c, s2[i]) by {
            assert(u2[i] == u[i]);
        }
        lemma_sum_scale(f, c, s2, u2);
        lemma_sum_contained(f, s2);
        f.lemma_distributive(c, ring_sum(f, s2), s.last());
    }
}

/// A sum does not depend on the direction in which it is added up.
pub proof fn lemma_sum_reverse<F: Ring>(f: F, s: Seq<F::Element>)
    requires
        f.valid(),
        all_in(f, s),
    ensures
        ring_sum(f, s.reverse()) == ring_sum(f, s),
    decreases s.len(),
{
    if s.len() > 0 {
        let r = s.reverse();
        let dl = s.drop_last();
        assert(all_in(f, r)) by {
            assert forall|i: int| 0 <= i < r.len() implies f.contains(#[trigger] r[i]) by {
                assert(r[i] == s[s.len() - 1 - i]);
            }
        }
        assert(all_in(f, dl)) by {
            assert forall|i: int| 0 <= i < dl.len() implies f.contains(#[trigger] dl[i]) by {
                assert(dl[i] == s[i]);
            }
        }
        lemma_sum_remove(f, r, 0);
        assert(r.remove(0) =~= dl.reverse());
        lemma_sum_reverse(f, dl);
    } else {
        assert(s.reverse() =~= s);
    }
}

/// Equal lists have equal sums, item by item.
pub proof fn lemma_sum_equal<F: Ring>(f: F, s: Seq<F::Element>, t: Seq<F::Element>)
    requires
        s.len() == t.len(),
        forall|i: int| 0 <= i < s.len() ==> #[trigger] s[i] == t[i],
    ensures
        ring_sum(f, s) == ring_sum(f, t),
{
    assert(s =~= t);
}

/// The sums of the rows of a table of ring elements with `n` rows and `k`
/// columns.
pub open spec fn table_rows<F: Ring>(
    f: F,
    m: spec_fn(int, int) -> F::Element,
    n: nat,
    k: nat,
) -> Seq<F::Element> {
    Seq::new(n, |i: int| ring_sum(f, Seq::new(k, |j: int| m(i, j))))
}

/// The sums of the columns of a table of ring elements with `n` rows and `k`
/// columns.
pub open spec fn table_columns<F: Ring>(
    f: F,
    m: spec_fn(int, int) -> F::Element,
    n: nat,
    k: nat,
) -> Seq<F::Element> {
    Seq::new(k, |j: int| ring_sum(f, Seq::new(n, |i: int| m(i, j))))
}

/// A table of ring elements adds up to the same by rows and by columns.
pub proof fn lemma_sum_interchange<F: Ring>(
    f: F,
    m: spec_fn(int, int) -> F::Element,
    n: nat,
    k: nat,
)
    requires
        f.valid(),
        forall|i: int, j: int| 0 <= i < n && 0 <= j < k ==> f.contains(#[trigger] m(i, j)),
    ensures
        ring_sum(f, table_rows(f, m, n, k)) == ring_sum(f, table_columns(f, m, n, k)),
    decreases n,
{
    let columns = table_columns(f, m, n, k);
    if n == 0 {
        assert forall|j: int| 0 <= j < columns.len() implies #[trigger] columns[j]
            == F::zero_spec() by {
            assert(Seq::new(n, |i: int| m(i, j)).len() == 0);
        }
        lemma_sum_zeros(f, columns);
    } else {
        let n1 = (n - 1) as nat;
        lemma_sum_interchange(f, m, n1, k);
        let rows = table_rows(f, m, n, k);
        let before = table_columns(f, m, n1, k);
        let bottom = Seq::new(k, |j: int| m(n1 as int, j));
        assert(rows.drop_last() =~= table_rows(f, m, n1, k));
        assert(rows.last() == ring_sum(f, bottom));
        assert forall|j: int| 0 <= j < k implies f.contains(#[trigger] before[j]) && columns[j]
            == f.add_spec(before[j], bottom[j]) by {
            let column = Seq::new(n, |i: int| m(i, j));
            assert(column.drop_last() =~= Seq::new(n1, |i: int| m(i, j)));
            assert(column.last() == m(n1 as int, j));
            lemma_sum_contained(f, column.drop_last());
        }
        lemma_sum_add(f, before, bottom, columns);
    }
}

/// The exponent vector of the product of term `i` of `a` and term `j` of `b`.
pub open spec fn pair_row<F: Ring, E: Exponent>(
    a: MultivariatePolynomial<F, E>,
    b: MultivariatePolynomial<F, E>,
    i: int,
    j: int,
) -> Seq<E> {
    row_add(a.rows()[i], b.rows()[j])
}

/// What the pair of term `i` of `a` and term `j` of `b` adds to the
/// coefficient of `x^e` in the product. A pair whose exponents do not add up
/// within range has no product.
pub open spec fn pair_term<F: Ring, E: Exponent>(
    a: MultivariatePolynomial<F, E>,
    b: MultivariatePolynomial<F, E>,
    i: int,
    j: int,
    e: Seq<E>,
) -> F::Element {
    if sum_fits(a.rows()[i], b.rows()[j]) && pair_row(a, b, i, j) == e {
        a.field.mul_spec(a.coefficients@[i], b.coefficients@[j])
    } else {
        F::zero_spec()
    }
}

/// What the pairs of term `i` of `a` with each term of `b` add to the
/// coefficient of `x^e`.
pub open spec fn pair_terms<F: Ring, E: Exponent>(
    a: MultivariatePolynomial<F, E>,
    b: MultivariatePolynomial<F, E>,
    i: int,
    e: Seq<E>,
) -> Seq<F::Element> {
    Seq::new(b.nterms as nat, |j: int| pair_term(a, b, i, j, e))
}

/// What each term of `a` adds to the coefficient of `x^e` in the product.
pub open spec fn row_sums<F: Ring, E: Exponent>(
    a: MultivariatePolynomial<F, E>,
    b: MultivariatePolynomial<F, E>,
    e: Seq<E>,
) -> Seq<F::Element> {
    Seq::new(a.nterms as nat, |i: int| ring_sum(a.field, pair_terms(a, b, i, e)))
}

/// The coefficient of `x^e` in the product of `a` and `b`: the sum over all
/// pairs of a term of `a` and a term of `b`.
pub open spec fn product_coeff<F: Ring, E: Exponent>(
    a: MultivariatePolynomial<F, E>,
    b: MultivariatePolynomial<F, E>,
    e: Seq<E>,
) -> F::Element {
    ring_sum(a.field, row_sums(a, b, e))
}

/// The product of two polynomials as a map of terms.
pub open spec fn mul_view<F: Ring, E: Exponent>(
    a: MultivariatePolynomial<F, E>,
    b: MultivariatePolynomial<F, E>,
) -> Map<Seq<E>, F::Element> {
    Map::new(
        |e: Seq<E>| product_coeff(a, b, e) != F::zero_spec(),
        |e: Seq<E>| product_coeff(a, b, e),
    )
}

/// The exponents of every term of `a` and every term of `b` add up within
/// range.
pub open spec fn product_fits<F: Ring, E: Exponent>(
    a: MultivariatePolynomial<F, E>,
    b: MultivariatePolynomial<F, E>,
) -> bool {
    forall|i: int, j: int|
        0 <= i < a.nterms && 0 <= j < b.nterms ==> sum_fits(
            #[trigger] a.rows()[i],
            #[trigger] b.rows()[j],
        )
}

/// The two polynomials can be multiplied: they are well formed, over one
/// ring, in the same variables, and their product is within range.
pub open spec fn can_multiply<F: Ring, E: Exponent>(
    a: MultivariatePolynomial<F, E>,
    b: MultivariatePolynomial<F, E>,
) -> bool {
    &&& a.wf()
    &&& b.wf()
    &&& a.field == b.field
    &&& a.nvars == b.nvars
    &&& product_fits(a, b)
}

/// Polynomials that can be multiplied can be paired.
pub proof fn lemma_can_pair<F: Ring, E: Exponent>(
    a: MultivariatePolynomial<F, E>,
    b: MultivariatePolynomial<F, E>,
)
    requires
        can_multiply(a, b),
    ensures
        can_pair(a, b),
{
}

/// The products of a term with the terms of the other polynomial are
/// increasing, and so are the products of the terms of a polynomial with one
/// term of the other.
pub proof fn lemma_pair_rows_increasing<F: Ring, E: Exponent>(
    a: MultivariatePolynomial<F, E>,
    b: MultivariatePolynomial<F, E>,
)
    requires
        can_multiply(a, b),
    ensures
        forall|i: int, j: int|
            0 <= i < a.nterms && 0 <= j < b.nterms ==> (#[trigger] pair_row(a, b, i, j)).len()
                == a.nvars,
        forall|i: int, j1: int, j2: int|
            0 <= i < a.nterms && 0 <= j1 < j2 < b.nterms ==> lex_lt(
                #[trigger] pair_row(a, b, i, j1),
                #[trigger] pair_row(a, b, i, j2),
            ),
        forall|i1: int, i2: int, j: int|
            0 <= i1 < i2 < a.nterms && 0 <= j < b.nterms ==> lex_lt(
                #[trigger] pair_row(a, b, i1, j),
                #[trigger] pair_row(a, b, i2, j),
            ),
{
    a.lemma_rows();
    b.lemma_rows();
    assert forall|i: int, j1: int, j2: int|
        0 <= i < a.nterms && 0 <= j1 < j2 < b.nterms implies lex_lt(
        #[trigger] pair_row(a, b, i, j1),
        #[trigger] pair_row(a, b, i, j2),
    ) by {
        assert(sum_fits(a.rows()[i], b.rows()[j1]));
        assert(sum_fits(a.rows()[i], b.rows()[j2]));
        assert(sum_fits(b.rows()[j1], a.rows()[i]));
        assert(sum_fits(b.rows()[j2], a.rows()[i]));
        lemma_row_add_monotone(b.rows()[j1], b.rows()[j2], a.rows()[i]);
    }
    assert forall|i1: int, i2: int, j: int|
        0 <= i1 < i2 < a.nterms && 0 <= j < b.nterms implies lex_lt(
        #[trigger] pair_row(a, b, i1, j),
        #[trigger] pair_row(a, b, i2, j),
    ) by {
        assert(sum_fits(a.rows()[i1], b.rows()[j]));
        assert(sum_fits(a.rows()[i2], b.rows()[j]));
        lemma_row_add_monotone(a.rows()[i1], a.rows()[i2], b.rows()[j]);
    }
}

/// All that the pairs add to a coefficient are ring elements.
pub proof fn lemma_pair_terms_contained<F: Ring, E: Exponent>(
    a: MultivariatePolynomial<F, E>,
    b: MultivariatePolynomial<F, E>,
    e: Seq<E>,
)
    requires
        can_pair(a, b),
    ensures
        forall|i: int| 0 <= i < a.nterms ==> all_in(a.field, #[trigger] pair_terms(a, b, i, e)),
        all_in(a.field, row_sums(a, b, e)),
        a.field.contains(product_coeff(a, b, e)),
{
    let f = a.field;
    f.lemma_constants();
    assert forall|i: int| 0 <= i < a.nterms implies all_in(f, #[trigger] pair_terms(a, b, i, e)) by {
        assert forall|j: int| 0 <= j < b.nterms implies f.contains(
            #[trigger] pair_terms(a, b, i, e)[j],
        ) by {
            f.lemma_closed(a.coefficients@[i], b.coefficients@[j]);
        }
    }
    assert forall|i: int| 0 <= i < a.nterms implies f.contains(#[trigger] row_sums(a, b, e)[i]) by {
        assert(all_in(f, pair_terms(a, b, i, e)));
        lemma_sum_contained(f, pair_terms(a, b, i, e));
    }
    lemma_sum_contained(f, row_sums(a, b, e));
}

/// The first polynomial may be a list of terms in any order: all that is
/// asked of it is that its coefficients are elements of the ring of the
/// second, which is well formed.
pub open spec fn can_pair<F: Ring, E: Exponent>(
    a: MultivariatePolynomial<F, E>,
    b: MultivariatePolynomial<F, E>,
) -> bool {
    &&& b.wf()
    &&& a.field == b.field
    &&& a.nvars == b.nvars
    &&& a.coefficients@.len() == a.nterms
    &&& forall|k: int| 0 <= k < a.nterms ==> a.field.contains(#[trigger] a.coefficients@[k])
}

/// If the pair of term `i` with term `j` has the exponent vector `e`, it is
/// all that term `i` adds to the coefficient of `x^e`.
pub proof fn lemma_row_sum_hit<F: Ring, E: Exponent>(
    a: MultivariatePolynomial<F, E>,
    b: MultivariatePolynomial<F, E>,
    i: int,
    j: int,
    e: Seq<E>,
)
    requires
        can_pair(a, b),
        0 <= i < a.nterms,
        0 <= j < b.nterms,
        sum_fits(a.rows()[i], b.rows()[j]),
        pair_row(a, b, i, j) == e,
    ensures
        row_sums(a, b, e)[i] == a.field.mul_spec(a.coefficients@[i], b.coefficients@[j]),
{
    let f = a.field;
    let s = pair_terms(a, b, i, e);
    b.lemma_rows();
    f.lemma_closed(a.coefficients@[i], b.coefficients@[j]);
    assert forall|k: int| 0 <= k < s.len() && k != j implies #[trigger] s[k] == F::zero_spec() by {
        if sum_fits(a.rows()[i], b.rows()[k]) {
            crate::poly::monomial::lemma_row_add_commutative(a.rows()[i], b.rows()[k]);
            crate::poly::monomial::lemma_row_add_commutative(a.rows()[i], b.rows()[j]);
            if k < j {
                lemma_row_add_monotone(b.rows()[k], b.rows()[j], a.rows()[i]);
                lemma_lex_asymmetric(pair_row(a, b, i, k), pair_row(a, b, i, j));
            } else {
                lemma_row_add_monotone(b.rows()[j], b.rows()[k], a.rows()[i]);
                lemma_lex_asymmetric(pair_row(a, b, i, j), pair_row(a, b, i, k));
            }
        }
    }
    lemma_sum_single(f, s, j);
}

/// If no pair of term `i` has the exponent vector `e`, term `i` adds nothing
/// to the coefficient of `x^e`.
pub proof fn lemma_row_sum_miss<F: Ring, E: Exponent>(
    a: MultivariatePolynomial<F, E>,
    b: MultivariatePolynomial<F, E>,
    i: int,
    e: Seq<E>,
)
    requires
        a.field.valid(),
        0 <= i < a.nterms,
        forall|j: int|
            0 <= j < b.nterms && sum_fits(a.rows()[i], b.rows()[j]) ==> #[trigger] pair_row(
                a,
                b,
                i,
                j,
            ) != e,
    ensures
        row_sums(a, b, e)[i] == F::zero_spec(),
{
    lemma_sum_zeros(a.field, pair_terms(a, b, i, e));
}

/// If no pair has the exponent vector `e`, the coefficient of `x^e` in the
/// product is zero.
pub proof fn lemma_product_coeff_zero<F: Ring, E: Exponent>(
    a: MultivariatePolynomial<F, E>,
    b: MultivariatePolynomial<F, E>,
    e: Seq<E>,
)
    requires
        a.field.valid(),
        forall|i: int, j: int|
            0 <= i < a.nterms && 0 <= j < b.nterms && sum_fits(a.rows()[i], b.rows()[j])
                ==> #[trigger] pair_row(a, b, i, j) != e,
    ensures
        product_coeff(a, b, e) == F::zero_spec(),
{
    assert forall|i: int| 0 <= i < a.nterms implies #[trigger] row_sums(a, b, e)[i]
        == F::zero_spec() by {
        lemma_row_sum_miss(a, b, i, e);
    }
    lemma_sum_zeros(a.field, row_sums(a, b, e));
}

} // verus!
