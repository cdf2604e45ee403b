//! Heap division, after "Sparse polynomial division using a heap" by
//! Monagan, Pearce (2011).
//!
//! The monomials of the dividend and of the products of quotient terms with
//! divisor terms are worked off from the largest to the smallest. The heap
//! holds the exponent vectors that still have to be looked at, each once; a
//! cache holds, for each of them, the pairs of a quotient term and a divisor
//! term with that exponent vector.
//!
//! While the quotient has fewer terms than the divisor, every quotient term
//! has a pair of its own in the heap, which moves on through the divisor
//! terms. The quotient terms that come later share one pair per divisor
//! term, which moves on through the quotient terms, and rests while the
//! quotient term that it needs does not exist yet.
use crate::poly::arith::add_view;
use crate::poly::cache::{MonomialCache, Pending};
use crate::poly::division::{
    built_down, decreasing, key_dominates, key_minus, row_key, sum_key,
};
use crate::poly::heap::{before, ExponentHeap};
use crate::poly::matrix::filled;
use crate::poly::monomial::{
    compare_exponents, dominates, key_of, lemma_key_of, lemma_lex_asymmetric,
    lemma_lex_irreflexive, lemma_lex_le_lt, lemma_lex_lt_le, lemma_lex_total,
    lemma_lex_transitive, lemma_rank_bound, lemma_rank_monotone, lemma_row_add_monotone_both,
    lemma_row_sub_values, lex_le, lex_lt, rank, rank_bound, row_add, row_of, row_sub, sum_fits,
    Relation,
};
use crate::poly::mul::{heap_matches, key_to_exponents, with_pending};
use crate::poly::polynomial::{
    coeff_in, lemma_terms_view, lemma_view_push, same_variables, var_map_view,
    MultivariatePolynomial,
};
use crate::poly::product::{
    all_in, can_multiply, lemma_pair_terms_contained, lemma_product_coeff_zero, lemma_row_sum_hit,
    lemma_row_sum_miss, lemma_sparse_sum, lemma_sum_contained, lemma_sum_reverse, mul_view,
    pair_row, pair_terms, product_coeff, ring_sum, row_sums,
};
use crate::poly::Exponent;
use crate::rings::{
    divides, divides_all, lemma_mul_zero, lemma_neg_add, lemma_neg_zero, lemma_zero_add,
    EuclideanDomain, Ring,
};
use crate::poly::unique::{
    accounts_after, at_or_after, divides_into, lemma_division_coeff, lemma_forced_coefficient,
    lemma_partial,
};
use vstd::prelude::*;
use vstd::slice::slice_to_vec;

verus! {

/// The exponent vector of the `j`-th term of the divisor, counted from the
/// leading term.
pub open spec fn g_back<F: Ring, E: Exponent>(g: MultivariatePolynomial<F, E>, j: int) -> Seq<E> {
    g.rows()[g.nterms - 1 - j]
}

/// The exponent vector of the product of quotient term `i` and the `j`-th
/// divisor term from the leading one.
pub open spec fn dpair_row<F: Ring, E: Exponent>(
    q: MultivariatePolynomial<F, E>,
    g: MultivariatePolynomial<F, E>,
    i: int,
    j: int,
) -> Seq<E> {
    row_add(q.rows()[i], g_back(g, j))
}

/// The exponents of quotient term `i` and of the `j`-th divisor term from the
/// leading one add up within range.
pub open spec fn dpair_fits<F: Ring, E: Exponent>(
    q: MultivariatePolynomial<F, E>,
    g: MultivariatePolynomial<F, E>,
    i: int,
    j: int,
) -> bool {
    sum_fits(q.rows()[i], g_back(g, j))
}

/// The numbers of the exponent vector of a pair's product.
pub open spec fn dpair_key<F: Ring, E: Exponent>(
    q: MultivariatePolynomial<F, E>,
    g: MultivariatePolynomial<F, E>,
    i: int,
    j: int,
) -> Seq<u32> {
    key_of(dpair_row(q, g, i, j))
}

/// The pair of quotient term `i` and divisor term `j` has been worked off.
/// Of the first quotient terms, fewer than the divisor has terms without the
/// leading one, each keeps count of its own pairs in `nextj`; the later ones
/// are counted per divisor term in `index`.
pub open spec fn pair_done(d: int, nextj: Seq<int>, index: Seq<usize>, i: int, j: int) -> bool {
    if i < d - 1 {
        j < nextj[i]
    } else {
        i < index[j]
    }
}

/// The counts are in step with each other: `qn` is the number of quotient
/// terms, `d` the number of divisor terms.
pub open spec fn div_frontier(
    qn: int,
    d: int,
    nextj: Seq<int>,
    index: Seq<usize>,
    inheap: Seq<bool>,
) -> bool {
    &&& nextj.len() == qn
    &&& index.len() == d
    &&& inheap.len() == d
    &&& forall|i: int| 0 <= i < qn && i < d - 1 ==> 1 <= #[trigger] nextj[i] <= d
    &&& qn < d ==> forall|j: int| 0 <= j < d ==> !(#[trigger] inheap[j])
    &&& qn >= d ==> {
        &&& forall|j: int| 1 <= j < d ==> d - 1 <= #[trigger] index[j] <= qn
        &&& forall|j: int| 2 <= j < d ==> #[trigger] index[j] <= index[j - 1]
        &&& forall|j: int| 1 <= j < d && #[trigger] inheap[j] ==> index[j] < qn
        &&& forall|j: int|
            1 <= j < d && !(#[trigger] inheap[j]) && index[j] < qn ==> j >= 2 && index[j - 1]
                == index[j]
    }
}

/// The pair `p` waits under `key`: it is the next pair of its quotient term
/// or of its divisor term, and `key` stands for the exponent vector of its
/// product, which is within range.
pub open spec fn entry_ok<F: Ring, E: Exponent>(
    q: MultivariatePolynomial<F, E>,
    g: MultivariatePolynomial<F, E>,
    nextj: Seq<int>,
    index: Seq<usize>,
    inheap: Seq<bool>,
    key: Seq<u32>,
    p: Pending,
) -> bool {
    let d = g.nterms as int;
    &&& p.0 < q.nterms
    &&& 1 <= p.1 < d
    &&& dpair_fits(q, g, p.0 as int, p.1 as int)
    &&& key == dpair_key(q, g, p.0 as int, p.1 as int)
    &&& (p.2 ==> p.0 < d - 1 && nextj[p.0 as int] == p.1)
    &&& (!p.2 ==> p.0 >= d - 1 && index[p.1 as int] == p.0 && inheap[p.1 as int])
}

/// From the place `from` on, the pairs of the list wait under `key`, and no
/// two of them are pairs of one quotient term.
pub open spec fn entries_ok<F: Ring, E: Exponent>(
    q: MultivariatePolynomial<F, E>,
    g: MultivariatePolynomial<F, E>,
    nextj: Seq<int>,
    index: Seq<usize>,
    inheap: Seq<bool>,
    key: Seq<u32>,
    l: Seq<Pending>,
    from: int,
) -> bool {
    &&& forall|k: int|
        from <= k < l.len() ==> entry_ok(q, g, nextj, index, inheap, key, #[trigger] l[k])
    &&& forall|k1: int, k2: int|
        from <= k1 < k2 < l.len() ==> (#[trigger] l[k1]).0 != (#[trigger] l[k2]).0
}

/// Every list of the cache holds pairs that wait under its key, no list is
/// empty, and all keys come before `bound`.
pub open spec fn waiting_ok<F: Ring, E: Exponent>(
    q: MultivariatePolynomial<F, E>,
    g: MultivariatePolynomial<F, E>,
    nextj: Seq<int>,
    index: Seq<usize>,
    inheap: Seq<bool>,
    c: Map<Seq<u32>, Seq<Pending>>,
    bound: Option<Seq<u32>>,
) -> bool {
    forall|key: Seq<u32>| #[trigger]
        c.dom().contains(key) ==> {
            &&& c[key].len() > 0
            &&& entries_ok(q, g, nextj, index, inheap, key, c[key], 0)
            &&& (bound matches Some(b) ==> lex_lt(key, b))
        }
}

/// From the place `from` on, the list holds the pair `(i, j)`.
pub open spec fn entry_listed(l: Seq<Pending>, from: int, i: int, j: int) -> bool {
    exists|k: int| from <= k < l.len() && (#[trigger] l[k]).0 == i && l[k].1 == j
}

/// The pair `(i, j)` waits in the cache, or in the rest of the list of `cur`
/// that is worked off.
pub open spec fn pair_listed<F: Ring, E: Exponent>(
    q: MultivariatePolynomial<F, E>,
    g: MultivariatePolynomial<F, E>,
    c: Map<Seq<u32>, Seq<Pending>>,
    cur: Seq<u32>,
    l: Seq<Pending>,
    from: int,
    i: int,
    j: int,
) -> bool {
    let key = dpair_key(q, g, i, j);
    ||| (c.dom().contains(key) && entry_listed(c[key], 0, i, j))
    ||| (key == cur && entry_listed(l, from, i, j))
}

/// The next pair of each of the first quotient terms waits, but for the term
/// `skip`.
pub open spec fn rows_listed<F: Ring, E: Exponent>(
    q: MultivariatePolynomial<F, E>,
    g: MultivariatePolynomial<F, E>,
    nextj: Seq<int>,
    c: Map<Seq<u32>, Seq<Pending>>,
    cur: Seq<u32>,
    l: Seq<Pending>,
    from: int,
    skip: int,
) -> bool {
    forall|i: int|
        0 <= i < q.nterms && i < g.nterms - 1 && i != skip && #[trigger] nextj[i] < g.nterms
            ==> pair_listed(q, g, c, cur, l, from, i, nextj[i])
}

/// The next pair of each divisor term that is marked as in the heap waits,
/// but for the divisor term `skip`.
pub open spec fn cols_listed<F: Ring, E: Exponent>(
    q: MultivariatePolynomial<F, E>,
    g: MultivariatePolynomial<F, E>,
    index: Seq<usize>,
    inheap: Seq<bool>,
    c: Map<Seq<u32>, Seq<Pending>>,
    cur: Seq<u32>,
    l: Seq<Pending>,
    from: int,
    skip: int,
) -> bool {
    forall|j: int|
        1 <= j < g.nterms && j != skip && #[trigger] inheap[j] ==> pair_listed(
            q,
            g,
            c,
            cur,
            l,
            from,
            index[j] as int,
            j,
        )
}

/// The pair is within range and does not come before `bound`.
pub open spec fn pair_above<F: Ring, E: Exponent>(
    q: MultivariatePolynomial<F, E>,
    g: MultivariatePolynomial<F, E>,
    bound: Seq<u32>,
    i: int,
    j: int,
) -> bool {
    dpair_fits(q, g, i, j) && lex_le(bound, dpair_key(q, g, i, j))
}

/// The pair is within range and comes after `bound`.
pub open spec fn pair_after<F: Ring, E: Exponent>(
    q: MultivariatePolynomial<F, E>,
    g: MultivariatePolynomial<F, E>,
    bound: Seq<u32>,
    i: int,
    j: int,
) -> bool {
    dpair_fits(q, g, i, j) && lex_lt(bound, dpair_key(q, g, i, j))
}

/// The pairs that are worked off are within range and do not come before
/// `bound`.
pub open spec fn done_ok<F: Ring, E: Exponent>(
    q: MultivariatePolynomial<F, E>,
    g: MultivariatePolynomial<F, E>,
    nextj: Seq<int>,
    index: Seq<usize>,
    bound: Seq<u32>,
) -> bool {
    forall|i: int, j: int|
        0 <= i < q.nterms && 1 <= j < g.nterms && #[trigger] pair_done(
            g.nterms as int,
            nextj,
            index,
            i,
            j,
        ) ==> pair_above(q, g, bound, i, j)
}

/// The products of the quotient terms with the leading term of the divisor
/// are within range and do not come before `bound`.
pub open spec fn leads_ok<F: Ring, E: Exponent>(
    q: MultivariatePolynomial<F, E>,
    g: MultivariatePolynomial<F, E>,
    bound: Seq<u32>,
) -> bool {
    forall|i: int| 0 <= i < q.nterms ==> #[trigger] pair_above(q, g, bound, i, 0)
}

/// The quotient so far and the divisor: the divisor is a polynomial with at
/// least one term, the quotient a list of terms built from the largest
/// monomial down, in the same variables.
pub open spec fn div_setup<F: Ring, E: Exponent>(
    q: MultivariatePolynomial<F, E>,
    g: MultivariatePolynomial<F, E>,
) -> bool {
    &&& g.wf()
    &&& g.nterms > 0
    &&& built_down(q)
    &&& q.nvars == g.nvars
    &&& q.field == g.field
}

/// The state of the heap division between two steps.
pub open spec fn chains_ok<F: Ring, E: Exponent>(
    q: MultivariatePolynomial<F, E>,
    g: MultivariatePolynomial<F, E>,
    nextj: Seq<int>,
    index: Seq<usize>,
    inheap: Seq<bool>,
    c: Map<Seq<u32>, Seq<Pending>>,
    bound: Option<Seq<u32>>,
    cur: Seq<u32>,
    l: Seq<Pending>,
    from: int,
) -> bool {
    &&& div_setup(q, g)
    &&& div_frontier(q.nterms as int, g.nterms as int, nextj, index, inheap)
    &&& waiting_ok(q, g, nextj, index, inheap, c, bound)
    &&& entries_ok(q, g, nextj, index, inheap, cur, l, from)
    &&& rows_listed(q, g, nextj, c, cur, l, from, -1)
    &&& cols_listed(q, g, index, inheap, c, cur, l, from, -1)
}

/// The rows of the divisor, counted from the leading term, are decreasing,
/// and so are the rows of the quotient.
pub proof fn lemma_div_rows<F: Ring, E: Exponent>(
    q: MultivariatePolynomial<F, E>,
    g: MultivariatePolynomial<F, E>,
)
    requires
        div_setup(q, g),
    ensures
        forall|i: int| 0 <= i < q.nterms ==> (#[trigger] q.rows()[i]).len() == q.nvars,
        forall|j: int| 0 <= j < g.nterms ==> (#[trigger] g_back(g, j)).len() == g.nvars,
        forall|j1: int, j2: int|
            0 <= j1 < j2 < g.nterms ==> lex_lt(#[trigger] g_back(g, j2), #[trigger] g_back(g, j1)),
        forall|i1: int, i2: int|
            0 <= i1 < i2 < q.nterms ==> lex_lt(#[trigger] q.rows()[i2], #[trigger] q.rows()[i1]),
{
    g.lemma_rows();
    crate::poly::matrix::lemma_rows_entries(q.exponents@, q.nvars as int, q.nterms as int);
    assert forall|j1: int, j2: int| 0 <= j1 < j2 < g.nterms implies lex_lt(
        #[trigger] g_back(g, j2),
        #[trigger] g_back(g, j1),
    ) by {
        assert(lex_lt(g.rows()[g.nterms - 1 - j2], g.rows()[g.nterms - 1 - j1]));
    }
}

/// A pair does not come after a pair of an earlier quotient term and an
/// earlier divisor term, and has the same exponent vector only if it is the
/// same pair.
pub proof fn lemma_dpair_order<F: Ring, E: Exponent>(
    q: MultivariatePolynomial<F, E>,
    g: MultivariatePolynomial<F, E>,
    i0: int,
    j0: int,
    i: int,
    j: int,
)
    requires
        div_setup(q, g),
        0 <= i0 <= i < q.nterms,
        0 <= j0 <= j < g.nterms,
        dpair_fits(q, g, i0, j0),
        dpair_fits(q, g, i, j),
    ensures
        lex_le(dpair_key(q, g, i, j), dpair_key(q, g, i0, j0)),
        dpair_key(q, g, i, j) == dpair_key(q, g, i0, j0) ==> i == i0 && j == j0,
        dpair_key(q, g, i, j).len() == q.nvars,
{
    lemma_div_rows(q, g);
    let a = q.rows()[i0];
    let a2 = q.rows()[i];
    let b = g_back(g, j0);
    let b2 = g_back(g, j);
    if i0 < i {
        lemma_lex_asymmetric(a2, a);
    }
    if j0 < j {
        lemma_lex_asymmetric(b2, b);
    }
    lemma_row_add_monotone_both(a2, a, b2, b);
    lemma_key_of(row_add(a2, b2), row_add(a, b));
    crate::poly::monomial::lemma_row_add_values(a2, b2);
}

/// A divisor term that rests although the quotient term that it needs
/// exists has a divisor term before it that is in the heap and needs the
/// same quotient term.
pub proof fn lemma_engaged_column(
    qn: int,
    d: int,
    nextj: Seq<int>,
    index: Seq<usize>,
    inheap: Seq<bool>,
    j: int,
) -> (j0: int)
    requires
        div_frontier(qn, d, nextj, index, inheap),
        qn >= d,
        1 <= j < d,
        index[j] < qn,
    ensures
        1 <= j0 <= j,
        inheap[j0],
        index[j0] == index[j],
        !inheap[j] ==> j0 < j,
    decreases j,
{
    if inheap[j] {
        j
    } else {
        assert(j >= 2 && index[j - 1] == index[j]);
        lemma_engaged_column(qn, d, nextj, index, inheap, j - 1)
    }
}

/// For every pair within range that is not worked off, a pair waits that does
/// not come before it, and that has the same exponent vector only if it is
/// the pair itself.
pub proof fn lemma_dominating<F: Ring, E: Exponent>(
    q: MultivariatePolynomial<F, E>,
    g: MultivariatePolynomial<F, E>,
    nextj: Seq<int>,
    index: Seq<usize>,
    inheap: Seq<bool>,
    c: Map<Seq<u32>, Seq<Pending>>,
    bound: Option<Seq<u32>>,
    cur: Seq<u32>,
    l: Seq<Pending>,
    from: int,
    i: int,
    j: int,
) -> (w: (int, int))
    requires
        chains_ok(q, g, nextj, index, inheap, c, bound, cur, l, from),
        0 <= i < q.nterms,
        1 <= j < g.nterms,
        !pair_done(g.nterms as int, nextj, index, i, j),
        dpair_fits(q, g, i, j),
    ensures
        0 <= w.0 <= i,
        1 <= w.1 <= j,
        pair_listed(q, g, c, cur, l, from, w.0, w.1),
        dpair_fits(q, g, w.0, w.1),
        lex_le(dpair_key(q, g, i, j), dpair_key(q, g, w.0, w.1)),
        dpair_key(q, g, i, j) == dpair_key(q, g, w.0, w.1) ==> w.0 == i && w.1 == j,
{
    let d = g.nterms as int;
    let w = if i < d - 1 {
        (i, nextj[i])
    } else {
        let j0 = lemma_engaged_column(q.nterms as int, d, nextj, index, inheap, j);
        (index[j0] as int, j0)
    };
    assert(pair_listed(q, g, c, cur, l, from, w.0, w.1));
    lemma_listed_fits(q, g, nextj, index, inheap, c, bound, cur, l, from, w.0, w.1);
    lemma_dpair_order(q, g, w.0, w.1, i, j);
    w
}

/// A pair that waits is within range.
pub proof fn lemma_listed_fits<F: Ring, E: Exponent>(
    q: MultivariatePolynomial<F, E>,
    g: MultivariatePolynomial<F, E>,
    nextj: Seq<int>,
    index: Seq<usize>,
    inheap: Seq<bool>,
    c: Map<Seq<u32>, Seq<Pending>>,
    bound: Option<Seq<u32>>,
    cur: Seq<u32>,
    l: Seq<Pending>,
    from: int,
    i: int,
    j: int,
)
    requires
        chains_ok(q, g, nextj, index, inheap, c, bound, cur, l, from),
        pair_listed(q, g, c, cur, l, from, i, j),
    ensures
        0 <= i < q.nterms,
        1 <= j < g.nterms,
        dpair_fits(q, g, i, j),
{
    let key = dpair_key(q, g, i, j);
    if c.dom().contains(key) && entry_listed(c[key], 0, i, j) {
        let k = choose|k: int| 0 <= k < c[key].len() && (#[trigger] c[key][k]).0 == i && c[key][k].1 == j;
        assert(entry_ok(q, g, nextj, index, inheap, key, c[key][k]));
    } else {
        let k = choose|k: int| from <= k < l.len() && (#[trigger] l[k]).0 == i && l[k].1 == j;
        assert(entry_ok(q, g, nextj, index, inheap, cur, l[k]));
    }
}

/// When no pair waits, every pair is worked off.
pub proof fn lemma_all_done<F: Ring, E: Exponent>(
    q: MultivariatePolynomial<F, E>,
    g: MultivariatePolynomial<F, E>,
    nextj: Seq<int>,
    index: Seq<usize>,
    inheap: Seq<bool>,
    bound: Option<Seq<u32>>,
    i: int,
    j: int,
)
    requires
        chains_ok(
            q,
            g,
            nextj,
            index,
            inheap,
            Map::<Seq<u32>, Seq<Pending>>::empty(),
            bound,
            Seq::<u32>::empty(),
            Seq::<Pending>::empty(),
            0,
        ),
        0 <= i < q.nterms,
        1 <= j < g.nterms,
    ensures
        pair_done(g.nterms as int, nextj, index, i, j),
{
    let d = g.nterms as int;
    let c = Map::<Seq<u32>, Seq<Pending>>::empty();
    let l = Seq::<Pending>::empty();
    if i < d - 1 {
        if nextj[i] < d {
            assert(pair_listed(q, g, c, Seq::<u32>::empty(), l, 0, i, nextj[i]));
        }
    } else {
        if index[j] < q.nterms {
            let j0 = lemma_engaged_column(q.nterms as int, d, nextj, index, inheap, j);
            assert(pair_listed(q, g, c, Seq::<u32>::empty(), l, 0, index[j0] as int, j0));
        }
    }
}

/// No pair of quotient term `i` waits in the list of `key`.
pub open spec fn no_entry_of_term(c: Map<Seq<u32>, Seq<Pending>>, key: Seq<u32>, i: int) -> bool {
    c.dom().contains(key) ==> forall|k: int| 0 <= k < c[key].len() ==> (#[trigger] c[key][k]).0 != i
}

/// The pairs that wait are not touched when the count of a quotient term
/// changes of which no pair waits.
pub proof fn lemma_frame_row<F: Ring, E: Exponent>(
    q: MultivariatePolynomial<F, E>,
    g: MultivariatePolynomial<F, E>,
    nextj: Seq<int>,
    index: Seq<usize>,
    inheap: Seq<bool>,
    c: Map<Seq<u32>, Seq<Pending>>,
    bound: Option<Seq<u32>>,
    cur: Seq<u32>,
    l: Seq<Pending>,
    from: int,
    i: int,
    v: int,
)
    requires
        waiting_ok(q, g, nextj, index, inheap, c, bound),
        entries_ok(q, g, nextj, index, inheap, cur, l, from),
        0 <= from,
        nextj.len() == q.nterms,
        0 <= i < nextj.len(),
        forall|key: Seq<u32>| no_entry_of_term(c, key, i),
        forall|k: int| from <= k < l.len() ==> (#[trigger] l[k]).0 != i,
    ensures
        waiting_ok(q, g, nextj.update(i, v), index, inheap, c, bound),
        entries_ok(q, g, nextj.update(i, v), index, inheap, cur, l, from),
{
    let nextj2 = nextj.update(i, v);
    assert forall|key: Seq<u32>| #[trigger] c.dom().contains(key) implies c[key].len() > 0
        && entries_ok(q, g, nextj2, index, inheap, key, c[key], 0) && (bound matches Some(b)
        ==> lex_lt(key, b)) by {
        assert(entries_ok(q, g, nextj, index, inheap, key, c[key], 0));
        assert(no_entry_of_term(c, key, i));
        assert forall|k: int| 0 <= k < c[key].len() implies entry_ok(
            q,
            g,
            nextj2,
            index,
            inheap,
            key,
            #[trigger] c[key][k],
        ) by {
            assert(entry_ok(q, g, nextj, index, inheap, key, c[key][k]));
        }
    }
    assert forall|k: int| from <= k < l.len() implies entry_ok(
        q,
        g,
        nextj2,
        index,
        inheap,
        cur,
        #[trigger] l[k],
    ) by {
        assert(entry_ok(q, g, nextj, index, inheap, cur, l[k]));
    }
}

/// No pair of the divisor term `j` that moves on through the quotient terms
/// waits in the cache or in the rest of the list.
pub open spec fn no_entry_of_column(
    c: Map<Seq<u32>, Seq<Pending>>,
    l: Seq<Pending>,
    from: int,
    j: int,
) -> bool {
    &&& forall|key: Seq<u32>, k: int|
        #![trigger c[key][k]]
        c.dom().contains(key) && 0 <= k < c[key].len() ==> c[key][k].2 || c[key][k].1 != j
    &&& forall|k: int| from <= k < l.len() ==> (#[trigger] l[k]).2 || l[k].1 != j
}

/// The pairs that wait are not touched when the counts of divisor terms
/// change of which no pair waits.
pub proof fn lemma_frame_cols<F: Ring, E: Exponent>(
    q: MultivariatePolynomial<F, E>,
    g: MultivariatePolynomial<F, E>,
    nextj: Seq<int>,
    index: Seq<usize>,
    inheap: Seq<bool>,
    index2: Seq<usize>,
    inheap2: Seq<bool>,
    c: Map<Seq<u32>, Seq<Pending>>,
    bound: Option<Seq<u32>>,
    cur: Seq<u32>,
    l: Seq<Pending>,
    from: int,
)
    requires
        waiting_ok(q, g, nextj, index, inheap, c, bound),
        entries_ok(q, g, nextj, index, inheap, cur, l, from),
        0 <= from,
        index.len() == g.nterms,
        inheap.len() == g.nterms,
        index2.len() == index.len(),
        inheap2.len() == inheap.len(),
        forall|j: int|
            0 <= j < index.len() && (index2[j] != index[j] || inheap2[j] != inheap[j])
                ==> #[trigger] no_entry_of_column(c, l, from, j),
    ensures
        waiting_ok(q, g, nextj, index2, inheap2, c, bound),
        entries_ok(q, g, nextj, index2, inheap2, cur, l, from),
{
    assert forall|key: Seq<u32>| #[trigger] c.dom().contains(key) implies c[key].len() > 0
        && entries_ok(q, g, nextj, index2, inheap2, key, c[key], 0) && (bound matches Some(b)
        ==> lex_lt(key, b)) by {
        assert(entries_ok(q, g, nextj, index, inheap, key, c[key], 0));
        assert forall|k: int| 0 <= k < c[key].len() implies entry_ok(
            q,
            g,
            nextj,
            index2,
            inheap2,
            key,
            #[trigger] c[key][k],
        ) by {
            let e = c[key][k];
            assert(entry_ok(q, g, nextj, index, inheap, key, e));
            if !e.2 {
                let j = e.1 as int;
                if index2[j] != index[j] || inheap2[j] != inheap[j] {
                    assert(no_entry_of_column(c, l, from, j));
                    assert(c[key][k].2 || c[key][k].1 != j);
                }
            }
        }
    }
    assert forall|k: int| from <= k < l.len() implies entry_ok(
        q,
        g,
        nextj,
        index2,
        inheap2,
        cur,
        #[trigger] l[k],
    ) by {
        let e = l[k];
        assert(entry_ok(q, g, nextj, index, inheap, cur, e));
        if !e.2 {
            let j = e.1 as int;
            if index2[j] != index[j] || inheap2[j] != inheap[j] {
                assert(no_entry_of_column(c, l, from, j));
            }
        }
    }
}

/// Putting a pair into the cache that is due: it waits from then on, and all
/// that waited goes on waiting.
pub proof fn lemma_add_waiting<F: Ring, E: Exponent>(
    q: MultivariatePolynomial<F, E>,
    g: MultivariatePolynomial<F, E>,
    nextj: Seq<int>,
    index: Seq<usize>,
    inheap: Seq<bool>,
    c: Map<Seq<u32>, Seq<Pending>>,
    bound: Option<Seq<u32>>,
    cur: Seq<u32>,
    l: Seq<Pending>,
    from: int,
    p: Pending,
    skip_row: int,
    skip_col: int,
)
    requires
        div_setup(q, g),
        waiting_ok(q, g, nextj, index, inheap, c, bound),
        rows_listed(q, g, nextj, c, cur, l, from, skip_row),
        cols_listed(q, g, index, inheap, c, cur, l, from, skip_col),
        entry_ok(q, g, nextj, index, inheap, dpair_key(q, g, p.0 as int, p.1 as int), p),
        bound matches Some(b) ==> lex_lt(dpair_key(q, g, p.0 as int, p.1 as int), b),
        no_entry_of_term(c, dpair_key(q, g, p.0 as int, p.1 as int), p.0 as int),
        skip_row != -1 ==> p.2 && skip_row == p.0,
        skip_col != -1 ==> !p.2 && skip_col == p.1,
    ensures
        ({
            let c2 = with_pending(c, dpair_key(q, g, p.0 as int, p.1 as int), p);
            &&& waiting_ok(q, g, nextj, index, inheap, c2, bound)
            &&& rows_listed(q, g, nextj, c2, cur, l, from, -1)
            &&& cols_listed(q, g, index, inheap, c2, cur, l, from, -1)
        }),
{
    let key = dpair_key(q, g, p.0 as int, p.1 as int);
    let c2 = with_pending(c, key, p);
    let old_list = if c.dom().contains(key) {
        c[key]
    } else {
        Seq::<Pending>::empty()
    };
    let new_list = old_list.push(p);
    assert(c2[key] == new_list);
    assert forall|k2: Seq<u32>| #[trigger] c2.dom().contains(k2) implies c2[k2].len() > 0
        && entries_ok(q, g, nextj, index, inheap, k2, c2[k2], 0) && (bound matches Some(b)
        ==> lex_lt(k2, b)) by {
        if k2 == key {
            if c.dom().contains(key) {
                assert(entries_ok(q, g, nextj, index, inheap, key, c[key], 0));
            }
            assert forall|k: int| 0 <= k < new_list.len() implies entry_ok(
                q,
                g,
                nextj,
                index,
                inheap,
                key,
                #[trigger] new_list[k],
            ) by {
                if k < old_list.len() {
                    assert(new_list[k] == old_list[k]);
                    assert(entry_ok(q, g, nextj, index, inheap, key, old_list[k]));
                }
            }
            assert forall|k1: int, k2: int| 0 <= k1 < k2 < new_list.len() implies (
            #[trigger] new_list[k1]).0 != (#[trigger] new_list[k2]).0 by {
                assert(new_list[k1] == old_list[k1]);
                if k2 < old_list.len() {
                    assert(new_list[k2] == old_list[k2]);
                } else {
                    assert(c[key][k1].0 != p.0);
                }
            }
        } else {
            assert(c.dom().contains(k2));
            assert(c2[k2] == c[k2]);
        }
    }
    // what waited goes on waiting
    assert forall|i: int, j: int| pair_listed(q, g, c, cur, l, from, i, j) implies pair_listed(
        q,
        g,
        c2,
        cur,
        l,
        from,
        i,
        j,
    ) by {
        let k2 = dpair_key(q, g, i, j);
        if c.dom().contains(k2) && entry_listed(c[k2], 0, i, j) {
            let k = choose|k: int| 0 <= k < c[k2].len() && (#[trigger] c[k2][k]).0 == i && c[k2][k].1 == j;
            if k2 == key {
                assert(new_list[k] == old_list[k]);
                assert(new_list[k].0 == i && new_list[k].1 == j);
            } else {
                assert(c2[k2] == c[k2]);
            }
        }
    }
    assert(new_list[old_list.len() as int] == p);
    assert(entry_listed(new_list, 0, p.0 as int, p.1 as int));
    assert(pair_listed(q, g, c2, cur, l, from, p.0 as int, p.1 as int));
    assert forall|i: int|
        0 <= i < q.nterms && i < g.nterms - 1 && i != -1 && #[trigger] nextj[i]
            < g.nterms implies pair_listed(q, g, c2, cur, l, from, i, nextj[i]) by {
        if i != skip_row {
            assert(pair_listed(q, g, c, cur, l, from, i, nextj[i]));
        }
    }
    assert forall|j: int| 1 <= j < g.nterms && j != -1 && #[trigger] inheap[j] implies pair_listed(
        q,
        g,
        c2,
        cur,
        l,
        from,
        index[j] as int,
        j,
    ) by {
        if j != skip_col {
            assert(pair_listed(q, g, c, cur, l, from, index[j] as int, j));
        }
    }
}

/// Going on from the place `t` of the list to the next: a pair that waits
/// in the rest of the list, but is not the pair at `t`, waits in the rest
/// after `t`.
pub proof fn lemma_listed_tail<F: Ring, E: Exponent>(
    q: MultivariatePolynomial<F, E>,
    g: MultivariatePolynomial<F, E>,
    c: Map<Seq<u32>, Seq<Pending>>,
    cur: Seq<u32>,
    l: Seq<Pending>,
    t: int,
    i: int,
    j: int,
)
    requires
        0 <= t < l.len(),
        pair_listed(q, g, c, cur, l, t, i, j),
        l[t].0 != i || l[t].1 != j,
    ensures
        pair_listed(q, g, c, cur, l, t + 1, i, j),
{
    let key = dpair_key(q, g, i, j);
    if !(c.dom().contains(key) && entry_listed(c[key], 0, i, j)) {
        let k = choose|k: int| t <= k < l.len() && (#[trigger] l[k]).0 == i && l[k].1 == j;
        assert(k != t);
        assert(l[k].0 == i && l[k].1 == j);
    }
}

/// Working off a pair of a quotient term that has pairs of its own: the term
/// moves on to the next divisor term, and its next pair is put into the cache
/// if there is one.
pub proof fn lemma_step_row<F: Ring, E: Exponent>(
    q: MultivariatePolynomial<F, E>,
    g: MultivariatePolynomial<F, E>,
    nextj: Seq<int>,
    index: Seq<usize>,
    inheap: Seq<bool>,
    c: Map<Seq<u32>, Seq<Pending>>,
    cur: Seq<u32>,
    l: Seq<Pending>,
    t: int,
)
    requires
        chains_ok(q, g, nextj, index, inheap, c, Some(cur), cur, l, t),
        done_ok(q, g, nextj, index, cur),
        0 <= t < l.len(),
        l[t].2,
        l[t].1 + 1 < g.nterms ==> dpair_fits(q, g, l[t].0 as int, l[t].1 + 1),
    ensures
        ({
            let qi = l[t].0 as int;
            let gi = l[t].1 as int;
            let nextj2 = nextj.update(qi, gi + 1);
            let c2 = if gi + 1 < g.nterms {
                with_pending(c, dpair_key(q, g, qi, gi + 1), (l[t].0, (gi + 1) as usize, true))
            } else {
                c
            };
            &&& chains_ok(q, g, nextj2, index, inheap, c2, Some(cur), cur, l, t + 1)
            &&& done_ok(q, g, nextj2, index, cur)
        }),
{
    let d = g.nterms as int;
    let qi = l[t].0 as int;
    let gi = l[t].1 as int;
    let nextj2 = nextj.update(qi, gi + 1);
    assert(entry_ok(q, g, nextj, index, inheap, cur, l[t]));
    // no other pair of the term waits
    assert forall|key: Seq<u32>| no_entry_of_term(c, key, qi) by {
        if c.dom().contains(key) {
            assert forall|k: int| 0 <= k < c[key].len() implies (#[trigger] c[key][k]).0 != qi by {
                if c[key][k].0 == qi {
                    assert(entries_ok(q, g, nextj, index, inheap, key, c[key], 0));
                    assert(entry_ok(q, g, nextj, index, inheap, key, c[key][k]));
                    assert(key == cur);
                    lemma_lex_irreflexive(cur);
                }
            }
        }
    }
    assert forall|k: int| t + 1 <= k < l.len() implies (#[trigger] l[k]).0 != qi by {
        assert(l[t].0 != l[k].0);
    }
    assert(entries_ok(q, g, nextj, index, inheap, cur, l, t + 1));
    lemma_frame_row(q, g, nextj, index, inheap, c, Some(cur), cur, l, t + 1, qi, gi + 1);
    // the pairs of the other terms go on waiting
    assert forall|i: int|
        0 <= i < q.nterms && i < d - 1 && i != qi && #[trigger] nextj2[i] < d implies pair_listed(
        q,
        g,
        c,
        cur,
        l,
        t + 1,
        i,
        nextj2[i],
    ) by {
        assert(nextj[i] == nextj2[i]);
        lemma_listed_tail(q, g, c, cur, l, t, i, nextj[i]);
    }
    assert forall|j: int| 1 <= j < d && j != -1 && #[trigger] inheap[j] implies pair_listed(
        q,
        g,
        c,
        cur,
        l,
        t + 1,
        index[j] as int,
        j,
    ) by {
        assert(pair_listed(q, g, c, cur, l, t, index[j] as int, j));
        if index[j] as int == qi && j == gi {
            // the divisor terms move on through later quotient terms only
            lemma_listed_fits(q, g, nextj, index, inheap, c, Some(cur), cur, l, t, qi, gi);
            let key = dpair_key(q, g, qi, gi);
            if c.dom().contains(key) && entry_listed(c[key], 0, qi, gi) {
                lemma_lex_irreflexive(cur);
            } else {
                let k = choose|k: int| t <= k < l.len() && (#[trigger] l[k]).0 == qi && l[k].1 == gi;
                if k != t {
                    assert(l[t].0 != l[k].0);
                }
            }
        } else {
            lemma_listed_tail(q, g, c, cur, l, t, index[j] as int, j);
        }
    }
    // the pairs that are worked off
    assert forall|i: int, j: int|
        0 <= i < q.nterms && 1 <= j < d && #[trigger] pair_done(
            d,
            nextj2,
            index,
            i,
            j,
        ) implies pair_above(q, g, cur, i, j) by {
        assert(nextj2[qi] == gi + 1);
        if i == qi && j == gi {
            assert(dpair_key(q, g, i, j) == cur);
        } else {
            if i != qi {
                assert(nextj2[i] == nextj[i]);
            }
            assert(pair_done(d, nextj, index, i, j));
        }
    }
    assert(div_frontier(q.nterms as int, d, nextj2, index, inheap));
    if gi + 1 < d {
        let p = (l[t].0, (gi + 1) as usize, true);
        lemma_dpair_order(q, g, qi, gi, qi, gi + 1);
        lemma_lex_total(dpair_key(q, g, qi, gi + 1), cur);
        assert(rows_listed(q, g, nextj2, c, cur, l, t + 1, qi));
        lemma_add_waiting(q, g, nextj2, index, inheap, c, Some(cur), cur, l, t + 1, p, qi, -1);
    } else {
        assert(rows_listed(q, g, nextj2, c, cur, l, t + 1, -1));
    }
}

/// Two pairs of one quotient term with the same exponent vector are pairs
/// with the same divisor term.
pub proof fn lemma_same_term_same_key<F: Ring, E: Exponent>(
    q: MultivariatePolynomial<F, E>,
    g: MultivariatePolynomial<F, E>,
    i: int,
    j1: int,
    j2: int,
)
    requires
        div_setup(q, g),
        0 <= i < q.nterms,
        0 <= j1 < g.nterms,
        0 <= j2 < g.nterms,
        dpair_fits(q, g, i, j1),
        dpair_fits(q, g, i, j2),
        dpair_key(q, g, i, j1) == dpair_key(q, g, i, j2),
    ensures
        j1 == j2,
{
    if j1 < j2 {
        lemma_dpair_order(q, g, i, j1, i, j2);
    } else if j2 < j1 {
        lemma_dpair_order(q, g, i, j2, i, j1);
    }
}

/// The state after a pair of a divisor term has been worked off: the counts
/// and the marks.
pub open spec fn col_step_index(index: Seq<usize>, qi: int, gi: int) -> Seq<usize> {
    index.update(gi, (qi + 1) as usize)
}

/// The marks after the divisor term has moved on, or come to rest.
pub open spec fn col_step_inheap1(inheap: Seq<bool>, qn: int, qi: int, gi: int) -> Seq<bool> {
    if qi + 1 < qn {
        inheap
    } else {
        inheap.update(gi, false)
    }
}

/// Whether the next divisor term is taken up again.
pub open spec fn col_step_engage(
    index: Seq<usize>,
    inheap: Seq<bool>,
    qn: int,
    d: int,
    qi: int,
    gi: int,
) -> bool {
    gi + 1 < d && !col_step_inheap1(inheap, qn, qi, gi)[gi + 1] && index[gi + 1] < qn
}

/// The marks after the step.
pub open spec fn col_step_inheap2(
    index: Seq<usize>,
    inheap: Seq<bool>,
    qn: int,
    d: int,
    qi: int,
    gi: int,
) -> Seq<bool> {
    if col_step_engage(index, inheap, qn, d, qi, gi) {
        col_step_inheap1(inheap, qn, qi, gi).update(gi + 1, true)
    } else {
        col_step_inheap1(inheap, qn, qi, gi)
    }
}

/// The cache after the divisor term has moved on.
pub open spec fn col_step_cache1<F: Ring, E: Exponent>(
    q: MultivariatePolynomial<F, E>,
    g: MultivariatePolynomial<F, E>,
    c: Map<Seq<u32>, Seq<Pending>>,
    qi: int,
    gi: int,
) -> Map<Seq<u32>, Seq<Pending>> {
    if qi + 1 < q.nterms {
        with_pending(c, dpair_key(q, g, qi + 1, gi), ((qi + 1) as usize, gi as usize, false))
    } else {
        c
    }
}

/// The cache after the step.
pub open spec fn col_step_cache2<F: Ring, E: Exponent>(
    q: MultivariatePolynomial<F, E>,
    g: MultivariatePolynomial<F, E>,
    index: Seq<usize>,
    inheap: Seq<bool>,
    c: Map<Seq<u32>, Seq<Pending>>,
    qi: int,
    gi: int,
) -> Map<Seq<u32>, Seq<Pending>> {
    let c1 = col_step_cache1(q, g, c, qi, gi);
    if col_step_engage(index, inheap, q.nterms as int, g.nterms as int, qi, gi) {
        with_pending(c1, dpair_key(q, g, qi, gi + 1), (qi as usize, (gi + 1) as usize, false))
    } else {
        c1
    }
}

/// Working off a pair of a divisor term that moves on through the quotient
/// terms: the divisor term moves on to the next quotient term, or comes to
/// rest if that does not exist yet; and the next divisor term is taken up
/// again if it rests although its quotient term exists.
pub proof fn lemma_step_col<F: Ring, E: Exponent>(
    q: MultivariatePolynomial<F, E>,
    g: MultivariatePolynomial<F, E>,
    nextj: Seq<int>,
    index: Seq<usize>,
    inheap: Seq<bool>,
    c: Map<Seq<u32>, Seq<Pending>>,
    cur: Seq<u32>,
    l: Seq<Pending>,
    t: int,
)
    requires
        chains_ok(q, g, nextj, index, inheap, c, Some(cur), cur, l, t),
        done_ok(q, g, nextj, index, cur),
        0 <= t < l.len(),
        !l[t].2,
        l[t].0 + 1 < q.nterms ==> dpair_fits(q, g, l[t].0 + 1, l[t].1 as int),
        col_step_engage(
            index,
            inheap,
            q.nterms as int,
            g.nterms as int,
            l[t].0 as int,
            l[t].1 as int,
        ) ==> dpair_fits(q, g, l[t].0 as int, l[t].1 + 1),
    ensures
        ({
            let qi = l[t].0 as int;
            let gi = l[t].1 as int;
            let index2 = col_step_index(index, qi, gi);
            let inheap2 = col_step_inheap2(index, inheap, q.nterms as int, g.nterms as int, qi, gi);
            let c2 = col_step_cache2(q, g, index, inheap, c, qi, gi);
            &&& chains_ok(q, g, nextj, index2, inheap2, c2, Some(cur), cur, l, t + 1)
            &&& done_ok(q, g, nextj, index2, cur)
            &&& col_step_engage(index, inheap, q.nterms as int, g.nterms as int, qi, gi)
                ==> index[gi + 1] == qi
        }),
{
    let d = g.nterms as int;
    let qn = q.nterms as int;
    let qi = l[t].0 as int;
    let gi = l[t].1 as int;
    let index2 = col_step_index(index, qi, gi);
    let inheap1 = col_step_inheap1(inheap, qn, qi, gi);
    let engage = col_step_engage(index, inheap, qn, d, qi, gi);
    let inheap2 = col_step_inheap2(index, inheap, qn, d, qi, gi);
    let c1 = col_step_cache1(q, g, c, qi, gi);
    let c2 = col_step_cache2(q, g, index, inheap, c, qi, gi);
    let bound = Some(cur);
    assert(entry_ok(q, g, nextj, index, inheap, cur, l[t]));
    assert(qn >= d);
    // no other pair of the divisor term waits
    assert(no_entry_of_column(c, l, t + 1, gi)) by {
        assert forall|key: Seq<u32>, k: int|
            #![trigger c[key][k]]
            c.dom().contains(key) && 0 <= k < c[key].len() implies c[key][k].2 || c[key][k].1
            != gi by {
            if !c[key][k].2 && c[key][k].1 == gi {
                assert(entries_ok(q, g, nextj, index, inheap, key, c[key], 0));
                assert(entry_ok(q, g, nextj, index, inheap, key, c[key][k]));
                assert(key == cur);
                lemma_lex_irreflexive(cur);
            }
        }
        assert forall|k: int| t + 1 <= k < l.len() implies (#[trigger] l[k]).2 || l[k].1 != gi by {
            if !l[k].2 && l[k].1 == gi {
                assert(entry_ok(q, g, nextj, index, inheap, cur, l[k]));
                assert(l[t].0 != l[k].0);
            }
        }
    }
    // the divisor term before it is ahead
    if gi >= 2 {
        if index[gi - 1] <= qi {
            assert(index[gi - 1] == qi);
            let j0 = lemma_engaged_column(qn, d, nextj, index, inheap, gi - 1);
            assert(pair_listed(q, g, c, cur, l, t, qi, j0));
            lemma_listed_fits(q, g, nextj, index, inheap, c, bound, cur, l, t, qi, j0);
            lemma_dpair_order(q, g, qi, j0, qi, gi);
            let key = dpair_key(q, g, qi, j0);
            if c.dom().contains(key) && entry_listed(c[key], 0, qi, j0) {
                lemma_lex_asymmetric(key, cur);
            }
            assert(false);
        }
    }
    // the counts after the step are in step with each other
    if gi + 1 < d && !inheap[gi + 1] && index[gi + 1] < qn {
        assert(index[gi] == index[gi + 1]);
    }
    assert(div_frontier(qn, d, nextj, index2, inheap2)) by {
        assert forall|j: int| 1 <= j < d implies d - 1 <= #[trigger] index2[j] <= qn by {
            assert(d - 1 <= index[j] <= qn);
        }
        assert forall|j: int| 2 <= j < d implies #[trigger] index2[j] <= index2[j - 1] by {
            assert(index[j] <= index[j - 1]);
        }
        assert forall|j: int| 1 <= j < d && #[trigger] inheap2[j] implies index2[j] < qn by {
            if j != gi && j != gi + 1 {
                assert(inheap[j]);
            }
            if j == gi + 1 && !engage {
                assert(inheap[j]);
            }
        }
        assert forall|j: int|
            1 <= j < d && !(#[trigger] inheap2[j]) && index2[j] < qn implies j >= 2 && index2[j
            - 1] == index2[j] by {
            if j != gi && j != gi + 1 {
                assert(!inheap[j]);
                assert(index[j] < qn);
                assert(j >= 2 && index[j - 1] == index[j]);
            }
        }
    }
    // what waits is not touched by the changes
    assert(entries_ok(q, g, nextj, index, inheap, cur, l, t + 1));
    assert forall|j: int|
        0 <= j < index.len() && (index2[j] != index[j] || inheap1[j] != inheap[j])
            implies #[trigger] no_entry_of_column(c, l, t + 1, j) by {
        assert(j == gi);
    }
    lemma_frame_cols(q, g, nextj, index, inheap, index2, inheap1, c, bound, cur, l, t + 1);
    // the other pairs go on waiting
    assert forall|i: int|
        0 <= i < q.nterms && i < d - 1 && i != -1 && #[trigger] nextj[i] < d implies pair_listed(
        q,
        g,
        c,
        cur,
        l,
        t + 1,
        i,
        nextj[i],
    ) by {
        lemma_listed_tail(q, g, c, cur, l, t, i, nextj[i]);
    }
    assert forall|j: int| 1 <= j < d && j != gi && #[trigger] inheap1[j] implies pair_listed(
        q,
        g,
        c,
        cur,
        l,
        t + 1,
        index2[j] as int,
        j,
    ) by {
        assert(inheap[j]);
        lemma_listed_tail(q, g, c, cur, l, t, index[j] as int, j);
    }
    // the divisor term moves on
    if qi + 1 < qn {
        let p = ((qi + 1) as usize, gi as usize, false);
        let key = dpair_key(q, g, qi + 1, gi);
        lemma_dpair_order(q, g, qi, gi, qi + 1, gi);
        lemma_lex_total(key, cur);
        assert(no_entry_of_term(c, key, qi + 1)) by {
            if c.dom().contains(key) {
                assert forall|k: int| 0 <= k < c[key].len() implies (#[trigger] c[key][k]).0 != qi
                    + 1 by {
                    if c[key][k].0 == qi + 1 {
                        assert(entries_ok(q, g, nextj, index, inheap, key, c[key], 0));
                        assert(entry_ok(q, g, nextj, index, inheap, key, c[key][k]));
                        lemma_same_term_same_key(q, g, qi + 1, gi, c[key][k].1 as int);
                    }
                }
            }
        }
        lemma_add_waiting(q, g, nextj, index2, inheap1, c, bound, cur, l, t + 1, p, -1, gi);
    } else {
        assert(cols_listed(q, g, index2, inheap1, c, cur, l, t + 1, -1));
    }
    // the next divisor term is taken up again
    if engage {
        let p = (qi as usize, (gi + 1) as usize, false);
        let key = dpair_key(q, g, qi, gi + 1);
        assert(!inheap[gi + 1]);
        assert(no_entry_of_column(c1, l, t + 1, gi + 1)) by {
            assert forall|key: Seq<u32>, k: int|
                #![trigger c1[key][k]]
                c1.dom().contains(key) && 0 <= k < c1[key].len() implies c1[key][k].2
                || c1[key][k].1 != gi + 1 by {
                assert(entries_ok(q, g, nextj, index2, inheap1, key, c1[key], 0));
                assert(entry_ok(q, g, nextj, index2, inheap1, key, c1[key][k]));
            }
            assert forall|k: int| t + 1 <= k < l.len() implies (#[trigger] l[k]).2 || l[k].1 != gi
                + 1 by {
                assert(entry_ok(q, g, nextj, index2, inheap1, cur, l[k]));
            }
        }
        assert forall|j: int|
            0 <= j < index2.len() && (index2[j] != index2[j] || inheap2[j] != inheap1[j])
                implies #[trigger] no_entry_of_column(c1, l, t + 1, j) by {
            assert(j == gi + 1);
        }
        lemma_frame_cols(q, g, nextj, index2, inheap1, index2, inheap2, c1, bound, cur, l, t + 1);
        assert(cols_listed(q, g, index2, inheap2, c1, cur, l, t + 1, gi + 1));
        lemma_dpair_order(q, g, qi, gi, qi, gi + 1);
        lemma_lex_total(key, cur);
        assert(no_entry_of_term(c1, key, qi)) by {
            if c1.dom().contains(key) {
                assert forall|k: int| 0 <= k < c1[key].len() implies (#[trigger] c1[key][k]).0
                    != qi by {
                    if c1[key][k].0 == qi {
                        assert(entries_ok(q, g, nextj, index2, inheap1, key, c1[key], 0));
                        assert(entry_ok(q, g, nextj, index2, inheap1, key, c1[key][k]));
                        lemma_same_term_same_key(q, g, qi, gi + 1, c1[key][k].1 as int);
                    }
                }
            }
        }
        lemma_add_waiting(q, g, nextj, index2, inheap2, c1, bound, cur, l, t + 1, p, -1, gi + 1);
    }
    // the pairs that are worked off
    assert forall|i: int, j: int|
        0 <= i < q.nterms && 1 <= j < d && #[trigger] pair_done(
            d,
            nextj,
            index2,
            i,
            j,
        ) implies pair_above(q, g, cur, i, j) by {
        if i == qi && j == gi {
            assert(dpair_key(q, g, i, j) == cur);
        } else {
            assert(pair_done(d, nextj, index, i, j));
        }
    }
}

/// The counts after a quotient term has been added.
pub open spec fn new_step_nextj(nextj: Seq<int>, d: int) -> Seq<int> {
    nextj.push(
        if nextj.len() + 1 < d {
            1int
        } else {
            0int
        },
    )
}

/// The counts per divisor term after a quotient term has been added: when the
/// quotient gets as many terms as the divisor, all divisor terms start at
/// the new quotient term.
pub open spec fn new_step_index(index: Seq<usize>, qn: int, d: int) -> Seq<usize> {
    if qn + 1 == d {
        Seq::new(d as nat, |j: int| qn as usize)
    } else {
        index
    }
}

/// Whether a pair of the new quotient term is put into the cache.
pub open spec fn new_step_adds(inheap: Seq<bool>, qn: int, d: int) -> bool {
    d >= 2 && (qn + 1 <= d || !inheap[1])
}

/// The marks after a quotient term has been added.
pub open spec fn new_step_inheap(inheap: Seq<bool>, qn: int, d: int) -> Seq<bool> {
    if d >= 2 && qn + 1 >= d {
        inheap.update(1, true)
    } else {
        inheap
    }
}

/// The cache after the quotient term `q2.nterms - 1` has been added.
pub open spec fn new_step_cache<F: Ring, E: Exponent>(
    q2: MultivariatePolynomial<F, E>,
    g: MultivariatePolynomial<F, E>,
    inheap: Seq<bool>,
    c: Map<Seq<u32>, Seq<Pending>>,
) -> Map<Seq<u32>, Seq<Pending>> {
    let s = q2.nterms - 1;
    if new_step_adds(inheap, s, g.nterms as int) {
        with_pending(c, dpair_key(q2, g, s, 1), (s as usize, 1usize, s + 1 < g.nterms))
    } else {
        c
    }
}

/// Adding a quotient term keeps the counts in step with each other.
pub proof fn lemma_step_new_frontier<F: Ring, E: Exponent>(
    q: MultivariatePolynomial<F, E>,
    q2: MultivariatePolynomial<F, E>,
    g: MultivariatePolynomial<F, E>,
    nextj: Seq<int>,
    index: Seq<usize>,
    inheap: Seq<bool>,
    c: Map<Seq<u32>, Seq<Pending>>,
    cur: Seq<u32>,
    l: Seq<Pending>,
)
    requires
        chains_ok(q, g, nextj, index, inheap, c, Some(cur), cur, l, l.len() as int),
        done_ok(q, g, nextj, index, cur),
        leads_ok(q, g, cur),
        div_setup(q2, g),
        q2.nterms == q.nterms + 1,
        q2.rows() == q.rows().push(q2.rows()[q.nterms as int]),
        dpair_fits(q2, g, q.nterms as int, 0),
        dpair_key(q2, g, q.nterms as int, 0) == cur,
        g.nterms >= 2 ==> dpair_fits(q2, g, q.nterms as int, 1),
    ensures
        div_frontier(
            q.nterms + 1,
            g.nterms as int,
            new_step_nextj(nextj, g.nterms as int),
            new_step_index(index, q.nterms as int, g.nterms as int),
            new_step_inheap(inheap, q.nterms as int, g.nterms as int),
        ),
        q.nterms + 1 == g.nterms ==> forall|j: int| 0 <= j < g.nterms ==> !(#[trigger] inheap[j]),
        g.nterms >= 2 && q.nterms + 1 > g.nterms && !inheap[1] ==> index[1] == q.nterms,
{
    let qn = q.nterms as int;
    let d = g.nterms as int;
    let nextj2 = new_step_nextj(nextj, d);
    let index2 = new_step_index(index, qn, d);
    let inheap2 = new_step_inheap(inheap, qn, d);
    assert forall|i: int| 0 <= i < qn implies #[trigger] q2.rows()[i] == q.rows()[i] by {}
    assert forall|i: int, j: int| 0 <= i < qn && 0 <= j < d implies #[trigger] dpair_key(
        q2,
        g,
        i,
        j,
    ) == dpair_key(q, g, i, j) && dpair_fits(q2, g, i, j) == dpair_fits(q, g, i, j) by {
        assert(q2.rows()[i] == q.rows()[i]);
    }
    // before the quotient has as many terms as the divisor, no divisor term is marked
    if qn + 1 == d {
        assert forall|j: int| 0 <= j < d implies !(#[trigger] inheap[j]) by {}
    }
    if d >= 2 && qn + 1 > d && !inheap[1] {
        assert(index[1] == qn);
    }
    assert(div_frontier(qn + 1, d, nextj2, index2, inheap2)) by {
        assert forall|i: int| 0 <= i < qn + 1 && i < d - 1 implies 1 <= #[trigger] nextj2[i]
            <= d by {
            if i < qn {
                assert(nextj2[i] == nextj[i]);
            }
        }
        if qn + 1 >= d {
            assert forall|j: int| 1 <= j < d implies d - 1 <= #[trigger] index2[j] <= qn + 1 by {
                if qn + 1 > d {
                    assert(d - 1 <= index[j] <= qn);
                }
            }
            assert forall|j: int| 2 <= j < d implies #[trigger] index2[j] <= index2[j - 1] by {
                if qn + 1 > d {
                    assert(index[j] <= index[j - 1]);
                }
            }
            assert forall|j: int| 1 <= j < d && #[trigger] inheap2[j] implies index2[j] < qn
                + 1 by {
                if qn + 1 > d {
                    if j != 1 || inheap[1] {
                        assert(inheap[j]);
                    }
                } else {
                    if j != 1 {
                        assert(inheap[j]);
                    }
                }
            }
            assert forall|j: int|
                1 <= j < d && !(#[trigger] inheap2[j]) && index2[j] < qn + 1 implies j >= 2
                && index2[j - 1] == index2[j] by {
                if qn + 1 > d {
                    assert(!inheap[j]);
                    assert(j != 1);
                    if index[j] < qn {
                        assert(j >= 2 && index[j - 1] == index[j]);
                    } else {
                        assert(index[j] <= index[j - 1]);
                        assert(index[j - 1] <= qn);
                    }
                }
            }
        }
    }
}

/// Adding a quotient term: the pairs that are worked off, and the products
/// with the leading term of the divisor, are within range and do not come
/// before the monomial at hand.
pub proof fn lemma_step_new_done<F: Ring, E: Exponent>(
    q: MultivariatePolynomial<F, E>,
    q2: MultivariatePolynomial<F, E>,
    g: MultivariatePolynomial<F, E>,
    nextj: Seq<int>,
    index: Seq<usize>,
    inheap: Seq<bool>,
    c: Map<Seq<u32>, Seq<Pending>>,
    cur: Seq<u32>,
    l: Seq<Pending>,
)
    requires
        chains_ok(q, g, nextj, index, inheap, c, Some(cur), cur, l, l.len() as int),
        done_ok(q, g, nextj, index, cur),
        leads_ok(q, g, cur),
        div_setup(q2, g),
        q2.nterms == q.nterms + 1,
        q2.rows() == q.rows().push(q2.rows()[q.nterms as int]),
        dpair_fits(q2, g, q.nterms as int, 0),
        dpair_key(q2, g, q.nterms as int, 0) == cur,
        g.nterms >= 2 ==> dpair_fits(q2, g, q.nterms as int, 1),
    ensures
        done_ok(
            q2,
            g,
            new_step_nextj(nextj, g.nterms as int),
            new_step_index(index, q.nterms as int, g.nterms as int),
            cur,
        ),
        leads_ok(q2, g, cur),
{
    let qn = q.nterms as int;
    let d = g.nterms as int;
    let nextj2 = new_step_nextj(nextj, d);
    let index2 = new_step_index(index, qn, d);
    let inheap2 = new_step_inheap(inheap, qn, d);
    assert forall|i: int| 0 <= i < qn implies #[trigger] q2.rows()[i] == q.rows()[i] by {}
    assert forall|i: int, j: int| 0 <= i < qn && 0 <= j < d implies #[trigger] dpair_key(
        q2,
        g,
        i,
        j,
    ) == dpair_key(q, g, i, j) && dpair_fits(q2, g, i, j) == dpair_fits(q, g, i, j) by {
        assert(q2.rows()[i] == q.rows()[i]);
    }
    assert forall|i: int, j: int|
        0 <= i < q2.nterms && 1 <= j < d && #[trigger] pair_done(
            d,
            nextj2,
            index2,
            i,
            j,
        ) implies pair_above(q2, g, cur, i, j) by {
        if i < qn {
            if i < d - 1 {
                assert(nextj2[i] == nextj[i]);
            } else {
                assert(qn >= d);
            }
            assert(pair_done(d, nextj, index, i, j));
            assert(pair_above(q, g, cur, i, j));
            assert(dpair_key(q2, g, i, j) == dpair_key(q, g, i, j));
        } else {
            if qn + 1 > d {
                assert(index[j] <= qn);
            }
        }
    }
    assert forall|i: int| 0 <= i < q2.nterms implies #[trigger] pair_above(q2, g, cur, i, 0) by {
        if i < qn {
            assert(pair_above(q, g, cur, i, 0));
            assert(dpair_key(q2, g, i, 0) == dpair_key(q, g, i, 0));
        }
    }
}

/// The quotient term whose first pair is not listed yet when a quotient term
/// is added: the new term, while the quotient has fewer terms than the
/// divisor; none else.
pub open spec fn new_step_skip_row(qn: int, d: int) -> int {
    if d >= 2 && qn + 1 < d {
        qn
    } else {
        -1
    }
}

/// The divisor term whose pair is not listed yet when a quotient term is
/// added: the first after the leading one, if it rests and the quotient has
/// as many terms as the divisor; none else.
pub open spec fn new_step_skip_col(inheap: Seq<bool>, qn: int, d: int) -> int {
    if d >= 2 && qn + 1 >= d && !inheap[1] {
        1
    } else {
        -1
    }
}

/// Adding a quotient term: the pairs that wait go on waiting.
pub proof fn lemma_step_new_waiting<F: Ring, E: Exponent>(
    q: MultivariatePolynomial<F, E>,
    q2: MultivariatePolynomial<F, E>,
    g: MultivariatePolynomial<F, E>,
    nextj: Seq<int>,
    index: Seq<usize>,
    inheap: Seq<bool>,
    c: Map<Seq<u32>, Seq<Pending>>,
    cur: Seq<u32>,
    l: Seq<Pending>,
)
    requires
        chains_ok(q, g, nextj, index, inheap, c, Some(cur), cur, l, l.len() as int),
        done_ok(q, g, nextj, index, cur),
        leads_ok(q, g, cur),
        div_setup(q2, g),
        q2.nterms == q.nterms + 1,
        q2.rows() == q.rows().push(q2.rows()[q.nterms as int]),
        dpair_fits(q2, g, q.nterms as int, 0),
        dpair_key(q2, g, q.nterms as int, 0) == cur,
        g.nterms >= 2 ==> dpair_fits(q2, g, q.nterms as int, 1),
    ensures
        waiting_ok(
            q2,
            g,
            new_step_nextj(nextj, g.nterms as int),
            new_step_index(index, q.nterms as int, g.nterms as int),
            new_step_inheap(inheap, q.nterms as int, g.nterms as int),
            c,
            Some(cur),
        ),
{
    let qn = q.nterms as int;
    let d = g.nterms as int;
    let s = qn;
    let nextj2 = new_step_nextj(nextj, d);
    let index2 = new_step_index(index, qn, d);
    let inheap2 = new_step_inheap(inheap, qn, d);
    let bound = Some(cur);
    let e = Seq::<Pending>::empty();
    assert forall|i: int| 0 <= i < qn implies #[trigger] q2.rows()[i] == q.rows()[i] by {}
    assert forall|i: int, j: int| 0 <= i < qn && 0 <= j < d implies #[trigger] dpair_key(
        q2,
        g,
        i,
        j,
    ) == dpair_key(q, g, i, j) && dpair_fits(q2, g, i, j) == dpair_fits(q, g, i, j) by {
        assert(q2.rows()[i] == q.rows()[i]);
    }
    lemma_step_new_frontier(q, q2, g, nextj, index, inheap, c, cur, l);
    // the pairs that wait go on waiting
    assert forall|key: Seq<u32>, k: int|
        #![trigger c[key][k]]
        c.dom().contains(key) && 0 <= k < c[key].len() implies entry_ok(
        q2,
        g,
        nextj2,
        index2,
        inheap,
        key,
        c[key][k],
    ) && (c[key][k].2 || c[key][k].1 != 1 || inheap[1]) by {
        assert(entries_ok(q, g, nextj, index, inheap, key, c[key], 0));
        let p = c[key][k];
        assert(entry_ok(q, g, nextj, index, inheap, key, p));
        assert(dpair_key(q2, g, p.0 as int, p.1 as int) == dpair_key(q, g, p.0 as int, p.1 as int));
        assert(nextj2[p.0 as int] == nextj[p.0 as int]);
    }
    assert(waiting_ok(q2, g, nextj2, index2, inheap2, c, bound)) by {
        assert forall|key: Seq<u32>| #[trigger] c.dom().contains(key) implies c[key].len() > 0
            && entries_ok(q2, g, nextj2, index2, inheap2, key, c[key], 0) && (bound matches Some(
            b,
        ) ==> lex_lt(key, b)) by {
            assert(entries_ok(q, g, nextj, index, inheap, key, c[key], 0));
            assert forall|k: int| 0 <= k < c[key].len() implies entry_ok(
                q2,
                g,
                nextj2,
                index2,
                inheap2,
                key,
                #[trigger] c[key][k],
            ) by {
                assert(entry_ok(q2, g, nextj2, index2, inheap, key, c[key][k]));
            }
        }
    }
}

/// Adding a quotient term: the pairs that were listed stay listed, but for
/// the first pair of the new term.
pub proof fn lemma_step_new_listed<F: Ring, E: Exponent>(
    q: MultivariatePolynomial<F, E>,
    q2: MultivariatePolynomial<F, E>,
    g: MultivariatePolynomial<F, E>,
    nextj: Seq<int>,
    index: Seq<usize>,
    inheap: Seq<bool>,
    c: Map<Seq<u32>, Seq<Pending>>,
    cur: Seq<u32>,
    l: Seq<Pending>,
)
    requires
        chains_ok(q, g, nextj, index, inheap, c, Some(cur), cur, l, l.len() as int),
        done_ok(q, g, nextj, index, cur),
        leads_ok(q, g, cur),
        div_setup(q2, g),
        q2.nterms == q.nterms + 1,
        q2.rows() == q.rows().push(q2.rows()[q.nterms as int]),
        dpair_fits(q2, g, q.nterms as int, 0),
        dpair_key(q2, g, q.nterms as int, 0) == cur,
        g.nterms >= 2 ==> dpair_fits(q2, g, q.nterms as int, 1),
    ensures
        rows_listed(
            q2,
            g,
            new_step_nextj(nextj, g.nterms as int),
            c,
            cur,
            Seq::<Pending>::empty(),
            0,
            new_step_skip_row(q.nterms as int, g.nterms as int),
        ),
        cols_listed(
            q2,
            g,
            new_step_index(index, q.nterms as int, g.nterms as int),
            new_step_inheap(inheap, q.nterms as int, g.nterms as int),
            c,
            cur,
            Seq::<Pending>::empty(),
            0,
            new_step_skip_col(inheap, q.nterms as int, g.nterms as int),
        ),
{
    let qn = q.nterms as int;
    let d = g.nterms as int;
    let s = qn;
    let nextj2 = new_step_nextj(nextj, d);
    let index2 = new_step_index(index, qn, d);
    let inheap2 = new_step_inheap(inheap, qn, d);
    let bound = Some(cur);
    let e = Seq::<Pending>::empty();
    assert forall|i: int| 0 <= i < qn implies #[trigger] q2.rows()[i] == q.rows()[i] by {}
    assert forall|i: int, j: int| 0 <= i < qn && 0 <= j < d implies #[trigger] dpair_key(
        q2,
        g,
        i,
        j,
    ) == dpair_key(q, g, i, j) && dpair_fits(q2, g, i, j) == dpair_fits(q, g, i, j) by {
        assert(q2.rows()[i] == q.rows()[i]);
    }
    lemma_step_new_frontier(q, q2, g, nextj, index, inheap, c, cur, l);
    assert forall|i: int, j: int| pair_listed(q, g, c, cur, l, l.len() as int, i, j) && 0 <= i < qn
        && 0 <= j < d implies pair_listed(q2, g, c, cur, e, 0, i, j) by {
        assert(dpair_key(q2, g, i, j) == dpair_key(q, g, i, j));
    }
    let skip_row = new_step_skip_row(qn, d);
    let skip_col = new_step_skip_col(inheap, qn, d);
    assert(rows_listed(q2, g, nextj2, c, cur, e, 0, skip_row)) by {
        assert forall|i: int|
            0 <= i < q2.nterms && i < d - 1 && i != skip_row && #[trigger] nextj2[i]
                < d implies pair_listed(q2, g, c, cur, e, 0, i, nextj2[i]) by {
            assert(i < qn);
            assert(nextj2[i] == nextj[i]);
            assert(pair_listed(q, g, c, cur, l, l.len() as int, i, nextj[i]));
        }
    }
    assert(cols_listed(q2, g, index2, inheap2, c, cur, e, 0, skip_col)) by {
        assert forall|j: int| 1 <= j < d && j != skip_col && #[trigger] inheap2[j] implies pair_listed(
            q2,
            g,
            c,
            cur,
            e,
            0,
            index2[j] as int,
            j,
        ) by {
            assert(inheap[j]);
            assert(qn >= d);
            assert(index2[j] == index[j]);
            assert(pair_listed(q, g, c, cur, l, l.len() as int, index[j] as int, j));
        }
    }
}

/// Adding a quotient term: its first pair is put into the cache, as a pair of
/// its own while the quotient has fewer terms than the divisor, as the pair
/// of the first divisor term after the leading one else, if that rests.
pub proof fn lemma_step_new<F: Ring, E: Exponent>(
    q: MultivariatePolynomial<F, E>,
    q2: MultivariatePolynomial<F, E>,
    g: MultivariatePolynomial<F, E>,
    nextj: Seq<int>,
    index: Seq<usize>,
    inheap: Seq<bool>,
    c: Map<Seq<u32>, Seq<Pending>>,
    cur: Seq<u32>,
    l: Seq<Pending>,
)
    requires
        chains_ok(q, g, nextj, index, inheap, c, Some(cur), cur, l, l.len() as int),
        done_ok(q, g, nextj, index, cur),
        leads_ok(q, g, cur),
        div_setup(q2, g),
        q2.nterms == q.nterms + 1,
        q2.rows() == q.rows().push(q2.rows()[q.nterms as int]),
        dpair_fits(q2, g, q.nterms as int, 0),
        dpair_key(q2, g, q.nterms as int, 0) == cur,
        g.nterms >= 2 ==> dpair_fits(q2, g, q.nterms as int, 1),
    ensures
        ({
            let qn = q.nterms as int;
            let d = g.nterms as int;
            let nextj2 = new_step_nextj(nextj, d);
            let index2 = new_step_index(index, qn, d);
            let inheap2 = new_step_inheap(inheap, qn, d);
            let c2 = new_step_cache(q2, g, inheap, c);
            &&& chains_ok(
                q2,
                g,
                nextj2,
                index2,
                inheap2,
                c2,
                Some(cur),
                cur,
                Seq::<Pending>::empty(),
                0,
            )
            &&& done_ok(q2, g, nextj2, index2, cur)
            &&& leads_ok(q2, g, cur)
        }),
{
    let qn = q.nterms as int;
    let d = g.nterms as int;
    let s = qn;
    let nextj2 = new_step_nextj(nextj, d);
    let index2 = new_step_index(index, qn, d);
    let inheap2 = new_step_inheap(inheap, qn, d);
    let c2 = new_step_cache(q2, g, inheap, c);
    let bound = Some(cur);
    let e = Seq::<Pending>::empty();
    assert forall|i: int| 0 <= i < qn implies #[trigger] q2.rows()[i] == q.rows()[i] by {}
    assert forall|i: int, j: int| 0 <= i < qn && 0 <= j < d implies #[trigger] dpair_key(
        q2,
        g,
        i,
        j,
    ) == dpair_key(q, g, i, j) && dpair_fits(q2, g, i, j) == dpair_fits(q, g, i, j) by {
        assert(q2.rows()[i] == q.rows()[i]);
    }
    lemma_step_new_frontier(q, q2, g, nextj, index, inheap, c, cur, l);
    lemma_step_new_waiting(q, q2, g, nextj, index, inheap, c, cur, l);
    lemma_step_new_listed(q, q2, g, nextj, index, inheap, c, cur, l);
    let skip_row = new_step_skip_row(qn, d);
    let skip_col = new_step_skip_col(inheap, qn, d);
    if new_step_adds(inheap, qn, d) {
        let p = (s as usize, 1usize, s + 1 < d);
        let key = dpair_key(q2, g, s, 1);
        lemma_dpair_order(q2, g, s, 0, s, 1);
        lemma_lex_total(key, cur);
        assert(no_entry_of_term(c, key, s)) by {
            if c.dom().contains(key) {
                assert forall|k: int| 0 <= k < c[key].len() implies (#[trigger] c[key][k]).0
                    != s by {
                    assert(entry_ok(q2, g, nextj2, index2, inheap, key, c[key][k]));
                    assert(entries_ok(q, g, nextj, index, inheap, key, c[key], 0));
                    assert(entry_ok(q, g, nextj, index, inheap, key, c[key][k]));
                }
            }
        }
        lemma_add_waiting(q2, g, nextj2, index2, inheap2, c, bound, cur, e, 0, p, skip_row, skip_col);
    }
    lemma_step_new_done(q, q2, g, nextj, index, inheap, c, cur, l);
}

/// The exponent vector of the `k`-th term of the dividend, counted from the
/// leading term.
pub open spec fn a_back<F: Ring, E: Exponent>(a: MultivariatePolynomial<F, E>, k: int) -> Seq<E> {
    a.rows()[a.nterms - 1 - k]
}

/// The coefficient of `x^e` in the dividend is the coefficient in the product
/// of the quotient so far and the divisor plus the coefficient in the
/// remainder so far.
pub open spec fn accounted<F: Ring, E: Exponent>(
    a: MultivariatePolynomial<F, E>,
    q: MultivariatePolynomial<F, E>,
    g: MultivariatePolynomial<F, E>,
    r: MultivariatePolynomial<F, E>,
    e: Seq<E>,
) -> bool {
    a.coeff(e) == a.field.add_spec(product_coeff(q, g, e), r.coeff(e))
}

/// The dividend, the divisor and the lists of the quotient and the remainder.
pub open spec fn div_data<F: Ring, E: Exponent>(
    a: MultivariatePolynomial<F, E>,
    g: MultivariatePolynomial<F, E>,
    q: MultivariatePolynomial<F, E>,
    r: MultivariatePolynomial<F, E>,
) -> bool {
    &&& a.wf()
    &&& div_setup(q, g)
    &&& built_down(r)
    &&& a.field == g.field
    &&& a.nvars == g.nvars
    &&& r.field == g.field
    &&& r.nvars == g.nvars
}

/// All that comes after `bound`, and `bound` itself unless `strict`, is
/// settled: the dividend's terms up to the `k`-th from the leading one are
/// used up and no others, the terms of the remainder so far are not divisible
/// by the leading monomial of the divisor, and the dividend is accounted for.
pub open spec fn settled<F: Ring, E: Exponent>(
    a: MultivariatePolynomial<F, E>,
    g: MultivariatePolynomial<F, E>,
    q: MultivariatePolynomial<F, E>,
    r: MultivariatePolynomial<F, E>,
    k: int,
    bound: Seq<u32>,
    strict: bool,
) -> bool {
    &&& bound.len() == a.nvars
    &&& 0 <= k <= a.nterms
    &&& forall|k2: int| k <= k2 < a.nterms ==> lex_lt(key_of(#[trigger] a_back(a, k2)), bound)
    &&& forall|k2: int| 0 <= k2 < k ==> lex_le(bound, key_of(#[trigger] a_back(a, k2)))
    &&& forall|t: int|
        0 <= t < r.nterms ==> !dominates(#[trigger] r.rows()[t], g_back(g, 0)) && (lex_lt(
            bound,
            key_of(r.rows()[t]),
        ) || (!strict && key_of(r.rows()[t]) == bound))
    &&& forall|x: Seq<E>|
        lex_lt(bound, #[trigger] key_of(x)) || (!strict && key_of(x) == bound) ==> accounted(
            a,
            q,
            g,
            r,
            x,
        )
}

/// The rows of a list that is built from the largest monomial down are
/// distinct, and its view holds each of them with its coefficient.
pub proof fn lemma_built_down_view<F: Ring, E: Exponent>(r: MultivariatePolynomial<F, E>)
    requires
        built_down(r),
    ensures
        r.rows().no_duplicates(),
        r.rows().len() == r.nterms,
        forall|t: int|
            0 <= t < r.nterms ==> r@.dom().contains(#[trigger] r.rows()[t]) && r@[r.rows()[t]]
                == r.coefficients@[t],
        forall|e: Seq<E>|
            r@.dom().contains(e) ==> 0 <= r.rows().index_of(e) < r.nterms
                && r.rows()[r.rows().index_of(e)] == e,
        forall|e: Seq<E>| r.field.contains(r.coeff(e)),
{
    let rows = r.rows();
    assert forall|i: int, j: int| 0 <= i < rows.len() && 0 <= j < rows.len() && i != j implies rows[i]
        != rows[j] by {
        if i < j {
            lemma_lex_asymmetric(rows[j], rows[i]);
        } else {
            lemma_lex_asymmetric(rows[i], rows[j]);
        }
    }
    lemma_terms_view::<F, E>(rows, r.coefficients@);
    r.field.lemma_constants();
}

/// The products of the coefficients of the pairs of a list.
pub open spec fn drained<F: Ring, E: Exponent>(
    q: MultivariatePolynomial<F, E>,
    g: MultivariatePolynomial<F, E>,
    l: Seq<Pending>,
) -> Seq<F::Element> {
    Seq::new(
        l.len(),
        |k: int|
            g.field.mul_spec(q.coefficients@[l[k].0 as int], g.coefficients@[g.nterms - 1 - l[k].1]),
    )
}

/// The list holds every pair with the exponent vector that `cur` stands for
/// once, and no other pair.
pub open spec fn drain_list_ok<F: Ring, E: Exponent>(
    q: MultivariatePolynomial<F, E>,
    g: MultivariatePolynomial<F, E>,
    cur: Seq<u32>,
    l: Seq<Pending>,
) -> bool {
    &&& forall|k: int|
        0 <= k < l.len() ==> (#[trigger] l[k]).0 < q.nterms && 1 <= l[k].1 < g.nterms
            && dpair_fits(q, g, l[k].0 as int, l[k].1 as int) && dpair_key(
            q,
            g,
            l[k].0 as int,
            l[k].1 as int,
        ) == cur
    &&& forall|k1: int, k2: int|
        0 <= k1 < k2 < l.len() ==> (#[trigger] l[k1]).0 != (#[trigger] l[k2]).0
    &&& forall|i: int, j: int|
        0 <= i < q.nterms && 1 <= j < g.nterms && dpair_fits(q, g, i, j) && #[trigger] dpair_key(
            q,
            g,
            i,
            j,
        ) == cur ==> entry_listed(l, 0, i, j)
}

/// The products of the pairs of a list that holds every pair with one
/// exponent vector once add up to the coefficient of the product of the
/// quotient so far and the divisor.
pub proof fn lemma_drained<F: Ring, E: Exponent>(
    q: MultivariatePolynomial<F, E>,
    g: MultivariatePolynomial<F, E>,
    cur: Seq<u32>,
    l: Seq<Pending>,
    e: Seq<E>,
)
    requires
        div_setup(q, g),
        drain_list_ok(q, g, cur, l),
        key_of(e) == cur,
        e.len() == g.nvars,
        forall|i: int| 0 <= i < q.nterms && dpair_fits(q, g, i, 0) ==> #[trigger] dpair_key(q, g, i, 0) != cur,
    ensures
        ring_sum(g.field, drained(q, g, l)) == product_coeff(q, g, e),
        all_in(g.field, drained(q, g, l)),
{
    let f = g.field;
    let d = g.nterms as int;
    let idx = Seq::new(l.len(), |k: int| l[k].0 as int);
    let vals = drained(q, g, l);
    let dense = row_sums(q, g, e);
    lemma_div_rows(q, g);
    lemma_pair_terms_contained(q, g, e);
    assert forall|k: int| 0 <= k < idx.len() implies 0 <= #[trigger] idx[k] < dense.len()
        && dense[idx[k]] == vals[k] by {
        let i = l[k].0 as int;
        let j = l[k].1 as int;
        assert(dpair_key(q, g, i, j) == cur);
        crate::poly::monomial::lemma_row_add_values(q.rows()[i], g_back(g, j));
        lemma_key_of(dpair_row(q, g, i, j), e);
        lemma_row_sum_hit(q, g, i, d - 1 - j, e);
    }
    assert forall|k1: int, k2: int|
        0 <= k1 < idx.len() && 0 <= k2 < idx.len() && k1 != k2 implies idx[k1] != idx[k2] by {
        if k1 < k2 {
            assert(l[k1].0 != l[k2].0);
        } else {
            assert(l[k2].0 != l[k1].0);
        }
    }
    assert forall|i: int| 0 <= i < dense.len() && !idx.contains(i) implies #[trigger] dense[i]
        == F::zero_spec() by {
        assert forall|j2: int|
            0 <= j2 < g.nterms && sum_fits(q.rows()[i], g.rows()[j2]) implies #[trigger] pair_row(
            q,
            g,
            i,
            j2,
        ) != e by {
            let j = d - 1 - j2;
            if pair_row(q, g, i, j2) == e {
                assert(dpair_key(q, g, i, j) == cur);
                if j >= 1 {
                    assert(entry_listed(l, 0, i, j));
                    let k = choose|k: int| 0 <= k < l.len() && (#[trigger] l[k]).0 == i && l[k].1 == j;
                    assert(idx[k] == i);
                }
            }
        }
        lemma_row_sum_miss(q, g, i, e);
    }
    lemma_sparse_sum(f, idx, vals, dense);
    assert forall|k: int| 0 <= k < vals.len() implies f.contains(#[trigger] vals[k]) by {
        assert(dense[idx[k]] == vals[k]);
    }
}

/// When the monomial has been chosen that is worked off next: it is the
/// largest that is left in the dividend and in the cache, all that comes
/// after it is settled, and its list in the cache holds every pair with its
/// exponent vector.
pub proof fn lemma_chosen<F: Ring, E: Exponent>(
    a: MultivariatePolynomial<F, E>,
    g: MultivariatePolynomial<F, E>,
    q: MultivariatePolynomial<F, E>,
    r: MultivariatePolynomial<F, E>,
    nextj: Seq<int>,
    index: Seq<usize>,
    inheap: Seq<bool>,
    c: Map<Seq<u32>, Seq<Pending>>,
    last: Option<Seq<u32>>,
    k: int,
    k2: int,
    m: Seq<u32>,
)
    requires
        div_data(a, g, q, r),
        chains_ok(q, g, nextj, index, inheap, c, last, Seq::<u32>::empty(), Seq::<Pending>::empty(), 0),
        last matches Some(b) ==> settled(a, g, q, r, k, b, false) && done_ok(q, g, nextj, index, b)
            && leads_ok(q, g, b) && lex_lt(m, b),
        last is None ==> k == 0 && q.nterms == 0 && r.nterms == 0,
        0 <= k <= a.nterms,
        m.len() == a.nvars,
        forall|key: Seq<u32>| #[trigger] c.dom().contains(key) ==> !lex_lt(m, key),
        k2 == k || k2 == k + 1,
        k2 == k + 1 ==> k < a.nterms && key_of(a_back(a, k)) == m,
        k2 == k ==> (k < a.nterms ==> lex_lt(key_of(a_back(a, k)), m)),
        k2 == k ==> c.dom().contains(m),
    ensures
        settled(a, g, q, r, k2, m, true),
        done_ok(q, g, nextj, index, m),
        forall|i: int| 0 <= i < q.nterms ==> #[trigger] pair_after(q, g, m, i, 0),
        key_of(row_of::<E>(m)) == m,
        a.coeff(row_of::<E>(m)) == (if k2 == k + 1 {
            a.coefficients@[a.nterms - 1 - k]
        } else {
            F::zero_spec()
        }),
        c.dom().contains(m) ==> drain_list_ok(q, g, m, c[m]),
        !c.dom().contains(m) ==> product_coeff(q, g, row_of::<E>(m)) == F::zero_spec(),
        waiting_ok(q, g, nextj, index, inheap, c.remove(m), Some(m)),
        c.dom().contains(m) ==> chains_ok(
            q,
            g,
            nextj,
            index,
            inheap,
            c.remove(m),
            Some(m),
            m,
            c[m],
            0,
        ),
        !c.dom().contains(m) ==> chains_ok(
            q,
            g,
            nextj,
            index,
            inheap,
            c,
            Some(m),
            m,
            Seq::<Pending>::empty(),
            0,
        ),
{
    let f = a.field;
    let d = g.nterms as int;
    let n = a.nterms as int;
    let el = Seq::<Pending>::empty();
    let ek = Seq::<u32>::empty();
    a.lemma_rows();
    g.lemma_rows();
    lemma_div_rows(q, g);
    lemma_built_down_view(r);
    f.lemma_constants();
    // the dividend's terms come in decreasing order from the leading one
    assert forall|k1: int, k3: int| 0 <= k1 < k3 < n implies lex_lt(
        key_of(#[trigger] a_back(a, k3)),
        key_of(#[trigger] a_back(a, k1)),
    ) by {
        assert(lex_lt(a.rows()[n - 1 - k3], a.rows()[n - 1 - k1]));
        lemma_key_of(a_back(a, k3), a_back(a, k1));
    }
    // every key of the cache is at most m
    assert forall|key: Seq<u32>| #[trigger] c.dom().contains(key) implies lex_le(key, m) by {
        assert(entries_ok(q, g, nextj, index, inheap, key, c[key], 0));
        assert(entry_ok(q, g, nextj, index, inheap, key, c[key][0]));
        lemma_dpair_order(q, g, c[key][0].0 as int, c[key][0].1 as int, c[key][0].0 as int, c[key][0].1 as int);
        lemma_lex_total(key, m);
    }
    // a pair that is not worked off does not come after m
    assert forall|i: int, j: int|
        0 <= i < q.nterms && 1 <= j < d && dpair_fits(q, g, i, j) && !pair_done(
            d,
            nextj,
            index,
            i,
            j,
        ) implies lex_le(#[trigger] dpair_key(q, g, i, j), m) && (dpair_key(q, g, i, j) == m
        ==> c.dom().contains(m) && entry_listed(c[m], 0, i, j)) by {
        let w = lemma_dominating(q, g, nextj, index, inheap, c, last, ek, el, 0, i, j);
        let kw = dpair_key(q, g, w.0, w.1);
        assert(c.dom().contains(kw));
        if dpair_key(q, g, i, j) != kw {
            lemma_lex_lt_le(dpair_key(q, g, i, j), kw, m);
        }
        if dpair_key(q, g, i, j) == m {
            if kw != m {
                lemma_lex_asymmetric(m, kw);
            }
        }
    }
    // the pairs that are worked off come after m
    assert forall|i: int, j: int|
        0 <= i < q.nterms && 1 <= j < d && #[trigger] pair_done(
            d,
            nextj,
            index,
            i,
            j,
        ) implies pair_above(q, g, m, i, j) && dpair_key(q, g, i, j) != m by {
        assert(pair_above(q, g, last->0, i, j));
        lemma_lex_lt_le(m, last->0, dpair_key(q, g, i, j));
        lemma_lex_asymmetric(m, dpair_key(q, g, i, j));
    }
    assert forall|i: int| 0 <= i < q.nterms implies #[trigger] pair_after(q, g, m, i, 0) by {
        assert(pair_above(q, g, last->0, i, 0));
        lemma_lex_lt_le(m, last->0, dpair_key(q, g, i, 0));
    }
    // the monomials between m and the last one are in no pair and in no term
    assert forall|x: Seq<E>| lex_lt(m, #[trigger] key_of(x)) implies accounted(a, q, g, r, x) by {
        if last is Some && lex_le(last->0, key_of(x)) {
        } else {
            lemma_lex_asymmetric(m, key_of(x));
            if last is Some {
                lemma_lex_total(last->0, key_of(x));
            }
            if a@.dom().contains(x) {
                let i = a.rows().index_of(x);
                let k1 = n - 1 - i;
                assert(a_back(a, k1) == x);
                if k1 < k {
                    assert(lex_le(last->0, key_of(a_back(a, k1))));
                } else {
                    if k1 > k {
                        assert(lex_lt(key_of(a_back(a, k1)), key_of(a_back(a, k))));
                        if k2 == k {
                            lemma_lex_transitive(key_of(x), key_of(a_back(a, k)), m);
                        }
                    }
                    lemma_lex_irreflexive(m);
                }
            }
            assert forall|i: int, j2: int|
                0 <= i < q.nterms && 0 <= j2 < g.nterms && sum_fits(q.rows()[i], g.rows()[j2])
                    implies #[trigger] pair_row(q, g, i, j2) != x by {
                let j = d - 1 - j2;
                if pair_row(q, g, i, j2) == x {
                    assert(dpair_key(q, g, i, j) == key_of(x));
                    if j == 0 {
                        assert(pair_above(q, g, last->0, i, 0));
                    } else if pair_done(d, nextj, index, i, j) {
                        assert(pair_above(q, g, last->0, i, j));
                    } else {
                        assert(lex_le(dpair_key(q, g, i, j), m));
                        if dpair_key(q, g, i, j) != m {
                            lemma_lex_transitive(dpair_key(q, g, i, j), m, key_of(x));
                        }
                        lemma_lex_irreflexive(key_of(x));
                    }
                }
            }
            lemma_product_coeff_zero(q, g, x);
            if r@.dom().contains(x) {
                let t = r.rows().index_of(x);
                assert(lex_le(last->0, key_of(r.rows()[t])));
            }
            f.lemma_add_zero(F::zero_spec());
        }
    }
    // the coefficient of the monomial in the dividend
    let e = row_of::<E>(m);
    if k2 == k + 1 {
        lemma_key_of(a_back(a, k), e);
        assert(e == a_back(a, k));
        assert(a@.dom().contains(a.rows()[n - 1 - k]));
    } else {
        let p = c[m][0];
        assert(entries_ok(q, g, nextj, index, inheap, m, c[m], 0));
        assert(entry_ok(q, g, nextj, index, inheap, m, p));
        lemma_key_of(dpair_row(q, g, p.0 as int, p.1 as int), e);
        assert(key_of(e) == m);
        if a@.dom().contains(e) {
            let i = a.rows().index_of(e);
            let k1 = n - 1 - i;
            assert(a_back(a, k1) == e);
            if k1 < k {
                assert(lex_le(last->0, key_of(a_back(a, k1))));
                lemma_lex_lt_le(m, last->0, key_of(a_back(a, k1)));
            } else if k1 > k {
                assert(lex_lt(key_of(a_back(a, k1)), key_of(a_back(a, k))));
                lemma_lex_transitive(key_of(a_back(a, k1)), key_of(a_back(a, k)), m);
            }
            lemma_lex_irreflexive(m);
        }
    }
    assert(settled(a, g, q, r, k2, m, true)) by {
        assert forall|k3: int| k2 <= k3 < n implies lex_lt(key_of(#[trigger] a_back(a, k3)), m) by {
            if k2 == k + 1 {
                assert(lex_lt(key_of(a_back(a, k3)), key_of(a_back(a, k))));
            } else if k3 > k {
                assert(lex_lt(key_of(a_back(a, k3)), key_of(a_back(a, k))));
                lemma_lex_transitive(key_of(a_back(a, k3)), key_of(a_back(a, k)), m);
            }
        }
        assert forall|k3: int| 0 <= k3 < k2 implies lex_le(m, key_of(#[trigger] a_back(a, k3))) by {
            if k3 < k {
                assert(lex_le(last->0, key_of(a_back(a, k3))));
                lemma_lex_lt_le(m, last->0, key_of(a_back(a, k3)));
            }
        }
        assert forall|t: int| 0 <= t < r.nterms implies !dominates(
            #[trigger] r.rows()[t],
            g_back(g, 0),
        ) && (lex_lt(m, key_of(r.rows()[t])) || (!true && key_of(r.rows()[t]) == m)) by {
            assert(lex_le(last->0, key_of(r.rows()[t])));
            lemma_lex_lt_le(m, last->0, key_of(r.rows()[t]));
        }
    }
    // the list of the monomial
    if c.dom().contains(m) {
        let l = c[m];
        assert(entries_ok(q, g, nextj, index, inheap, m, l, 0));
        assert forall|k1: int| 0 <= k1 < l.len() implies (#[trigger] l[k1]).0 < q.nterms && 1
            <= l[k1].1 < g.nterms && dpair_fits(q, g, l[k1].0 as int, l[k1].1 as int) && dpair_key(
            q,
            g,
            l[k1].0 as int,
            l[k1].1 as int,
        ) == m by {
            assert(entry_ok(q, g, nextj, index, inheap, m, l[k1]));
        }
        assert forall|i: int, j: int|
            0 <= i < q.nterms && 1 <= j < g.nterms && dpair_fits(q, g, i, j) && #[trigger] dpair_key(
                q,
                g,
                i,
                j,
            ) == m implies entry_listed(l, 0, i, j) by {
            if pair_done(d, nextj, index, i, j) {
                assert(dpair_key(q, g, i, j) != m);
            }
        }
    } else {
        let e = row_of::<E>(m);
        assert forall|i: int, j2: int|
            0 <= i < q.nterms && 0 <= j2 < g.nterms && sum_fits(q.rows()[i], g.rows()[j2])
                implies #[trigger] pair_row(q, g, i, j2) != e by {
            let j = d - 1 - j2;
            if pair_row(q, g, i, j2) == e {
                assert(dpair_row(q, g, i, j) == e);
                assert(dpair_key(q, g, i, j) == m);
                assert(dpair_fits(q, g, i, j));
                if j == 0 {
                    assert(pair_after(q, g, m, i, 0));
                    lemma_lex_irreflexive(m);
                } else if pair_done(d, nextj, index, i, j) {
                    assert(dpair_key(q, g, i, j) != m);
                } else {
                    assert(lex_le(dpair_key(q, g, i, j), m));
                    assert(c.dom().contains(m));
                }
            }
        }
        lemma_product_coeff_zero(q, g, e);
    }
    // what stays in the cache comes before m
    let c2 = c.remove(m);
    assert forall|key: Seq<u32>| #[trigger] c2.dom().contains(key) implies c2[key].len() > 0
        && entries_ok(q, g, nextj, index, inheap, key, c2[key], 0) && lex_lt(key, m) by {
        assert(c.dom().contains(key));
        assert(lex_le(key, m));
    }
    if c.dom().contains(m) {
        let l = c[m];
        assert forall|i: int, j: int| pair_listed(q, g, c, ek, el, 0, i, j) implies pair_listed(
            q,
            g,
            c2,
            m,
            l,
            0,
            i,
            j,
        ) by {
            let key = dpair_key(q, g, i, j);
            if key != m {
                assert(c2.dom().contains(key));
                assert(c2[key] == c[key]);
            }
        }
        assert forall|i: int|
            0 <= i < q.nterms && i < g.nterms - 1 && i != -1 && #[trigger] nextj[i]
                < g.nterms implies pair_listed(q, g, c2, m, l, 0, i, nextj[i]) by {
            assert(pair_listed(q, g, c, ek, el, 0, i, nextj[i]));
        }
        assert forall|j: int| 1 <= j < g.nterms && j != -1 && #[trigger] inheap[j] implies pair_listed(
            q,
            g,
            c2,
            m,
            l,
            0,
            index[j] as int,
            j,
        ) by {
            assert(pair_listed(q, g, c, ek, el, 0, index[j] as int, j));
        }
    } else {
        assert(c2 =~= c);
        assert forall|i: int, j: int| pair_listed(q, g, c, ek, el, 0, i, j) implies pair_listed(
            q,
            g,
            c,
            m,
            el,
            0,
            i,
            j,
        ) by {}
        assert forall|i: int|
            0 <= i < q.nterms && i < g.nterms - 1 && i != -1 && #[trigger] nextj[i]
                < g.nterms implies pair_listed(q, g, c, m, el, 0, i, nextj[i]) by {
            assert(pair_listed(q, g, c, ek, el, 0, i, nextj[i]));
        }
        assert forall|j: int| 1 <= j < g.nterms && j != -1 && #[trigger] inheap[j] implies pair_listed(
            q,
            g,
            c,
            m,
            el,
            0,
            index[j] as int,
            j,
        ) by {
            assert(pair_listed(q, g, c, ek, el, 0, index[j] as int, j));
        }
    }
}

/// Subtracting one more item from a difference: `(c0 - s) - p == c0 - (s + p)`.
pub proof fn lemma_sub_step<F: Ring>(f: F, c0: F::Element, s: F::Element, p: F::Element)
    requires
        f.valid(),
        f.contains(c0),
        f.contains(s),
        f.contains(p),
    ensures
        f.add_spec(f.add_spec(c0, f.neg_spec(s)), f.neg_spec(p)) == f.add_spec(
            c0,
            f.neg_spec(f.add_spec(s, p)),
        ),
{
    f.lemma_closed(s, p);
    f.lemma_closed(p, s);
    f.lemma_add_associative(c0, f.neg_spec(s), f.neg_spec(p));
    lemma_neg_add(f, s, p);
}

/// What is left when `pc` is taken from `c0`, together with `pc`, is `c0`.
pub proof fn lemma_balance<F: Ring>(f: F, c0: F::Element, pc: F::Element)
    requires
        f.valid(),
        f.contains(c0),
        f.contains(pc),
    ensures
        c0 == f.add_spec(pc, f.add_spec(c0, f.neg_spec(pc))),
{
    let c = f.add_spec(c0, f.neg_spec(pc));
    f.lemma_closed(pc, pc);
    f.lemma_closed(c0, f.neg_spec(pc));
    f.lemma_add_commutative(pc, c);
    f.lemma_add_associative(c0, f.neg_spec(pc), pc);
    f.lemma_add_commutative(f.neg_spec(pc), pc);
    f.lemma_add_neg(pc);
    f.lemma_add_zero(c0);
}

/// The coefficient in the product of the quotient and the divisor after a
/// quotient term has been added: what the new term adds comes on top.
pub proof fn lemma_product_push<F: Ring, E: Exponent>(
    q: MultivariatePolynomial<F, E>,
    q2: MultivariatePolynomial<F, E>,
    g: MultivariatePolynomial<F, E>,
    x: Seq<E>,
)
    requires
        div_setup(q, g),
        div_setup(q2, g),
        q2.nterms == q.nterms + 1,
        q2.rows() == q.rows().push(q2.rows()[q.nterms as int]),
        q2.coefficients@ == q.coefficients@.push(q2.coefficients@[q.nterms as int]),
    ensures
        product_coeff(q2, g, x) == g.field.add_spec(
            product_coeff(q, g, x),
            row_sums(q2, g, x)[q.nterms as int],
        ),
{
    let s = q.nterms as int;
    assert forall|i: int| 0 <= i < s implies #[trigger] row_sums(q2, g, x)[i] == row_sums(q, g, x)[i] by {
        assert(q2.rows()[i] == q.rows()[i]);
        assert(q2.coefficients@[i] == q.coefficients@[i]);
        assert(pair_terms(q2, g, i, x) =~= pair_terms(q, g, i, x));
    }
    assert(row_sums(q2, g, x).drop_last() =~= row_sums(q, g, x));
}

/// The division is settled at the monomial that was worked off, when a
/// quotient term has been added for it.
pub proof fn lemma_settle_quotient<F: Ring, E: Exponent>(
    a: MultivariatePolynomial<F, E>,
    g: MultivariatePolynomial<F, E>,
    q: MultivariatePolynomial<F, E>,
    q2: MultivariatePolynomial<F, E>,
    r: MultivariatePolynomial<F, E>,
    k: int,
    m: Seq<u32>,
)
    requires
        div_data(a, g, q, r),
        div_setup(q2, g),
        settled(a, g, q, r, k, m, true),
        key_of(row_of::<E>(m)) == m,
        q2.nterms == q.nterms + 1,
        q2.rows() == q.rows().push(q2.rows()[q.nterms as int]),
        q2.coefficients@ == q.coefficients@.push(q2.coefficients@[q.nterms as int]),
        dpair_fits(q2, g, q.nterms as int, 0),
        dpair_key(q2, g, q.nterms as int, 0) == m,
        a.coeff(row_of::<E>(m)) == a.field.add_spec(
            product_coeff(q, g, row_of::<E>(m)),
            g.field.mul_spec(q2.coefficients@[q.nterms as int], g.coefficients@[g.nterms - 1]),
        ),
    ensures
        settled(a, g, q2, r, k, m, false),
{
    let f = g.field;
    let s = q.nterms as int;
    let d = g.nterms as int;
    let e = row_of::<E>(m);
    lemma_div_rows(q2, g);
    lemma_built_down_view(r);
    f.lemma_constants();
    assert forall|x: Seq<E>| lex_lt(m, #[trigger] key_of(x)) || key_of(x) == m implies accounted(
        a,
        q2,
        g,
        r,
        x,
    ) by {
        lemma_product_push(q, q2, g, x);
        lemma_pair_terms_contained(q, g, x);
        if key_of(x) == m {
            lemma_key_of(x, e);
            assert(x == e);
            lemma_key_of(dpair_row(q2, g, s, 0), e);
            lemma_row_sum_hit(q2, g, s, d - 1, e);
            if r@.dom().contains(e) {
                let t = r.rows().index_of(e);
                assert(lex_lt(m, key_of(r.rows()[t])));
                lemma_lex_irreflexive(m);
            }
            f.lemma_closed(q2.coefficients@[s], g.coefficients@[d - 1]);
            f.lemma_closed(
                product_coeff(q, g, e),
                f.mul_spec(q2.coefficients@[s], g.coefficients@[d - 1]),
            );
            f.lemma_add_zero(product_coeff(q2, g, e));
        } else {
            assert forall|j2: int|
                0 <= j2 < g.nterms && sum_fits(q2.rows()[s], g.rows()[j2]) implies #[trigger] pair_row(
                q2,
                g,
                s,
                j2,
            ) != x by {
                let j = d - 1 - j2;
                if pair_row(q2, g, s, j2) == x {
                    lemma_dpair_order(q2, g, s, 0, s, j);
                    lemma_lex_le_lt(dpair_key(q2, g, s, j), m, key_of(x));
                    lemma_lex_irreflexive(key_of(x));
                }
            }
            lemma_row_sum_miss(q2, g, s, x);
            f.lemma_add_zero(product_coeff(q, g, x));
            assert(accounted(a, q, g, r, x));
        }
    }
}

/// The division is settled at the monomial that was worked off, when a
/// remainder term has been added for it.
pub proof fn lemma_settle_remainder<F: Ring, E: Exponent>(
    a: MultivariatePolynomial<F, E>,
    g: MultivariatePolynomial<F, E>,
    q: MultivariatePolynomial<F, E>,
    r: MultivariatePolynomial<F, E>,
    r2: MultivariatePolynomial<F, E>,
    k: int,
    m: Seq<u32>,
)
    requires
        div_data(a, g, q, r),
        div_data(a, g, q, r2),
        settled(a, g, q, r, k, m, true),
        key_of(row_of::<E>(m)) == m,
        r2.nterms == r.nterms + 1,
        r2.rows() == r.rows().push(row_of::<E>(m)),
        r2.coefficients@ == r.coefficients@.push(r2.coefficients@[r.nterms as int]),
        !dominates(row_of::<E>(m), g_back(g, 0)),
        a.coeff(row_of::<E>(m)) == a.field.add_spec(
            product_coeff(q, g, row_of::<E>(m)),
            r2.coefficients@[r.nterms as int],
        ),
    ensures
        settled(a, g, q, r2, k, m, false),
{
    let f = g.field;
    let e = row_of::<E>(m);
    let c = r2.coefficients@[r.nterms as int];
    lemma_built_down_view(r);
    lemma_built_down_view(r2);
    lemma_view_push::<F, E>(r.rows(), r.coefficients@, e, c);
    assert(r2@ == r@.insert(e, c));
    assert forall|t: int| 0 <= t < r2.nterms implies !dominates(
        #[trigger] r2.rows()[t],
        g_back(g, 0),
    ) && (lex_lt(m, key_of(r2.rows()[t])) || (!false && key_of(r2.rows()[t]) == m)) by {
        if t < r.nterms {
            assert(r2.rows()[t] == r.rows()[t]);
        }
    }
    assert forall|x: Seq<E>| lex_lt(m, #[trigger] key_of(x)) || key_of(x) == m implies accounted(
        a,
        q,
        g,
        r2,
        x,
    ) by {
        if key_of(x) == m {
            lemma_key_of(x, e);
            assert(x == e);
        } else {
            if x == e {
                lemma_lex_irreflexive(m);
            }
            assert(accounted(a, q, g, r, x));
        }
    }
}

/// The division is settled at the monomial that was worked off, when nothing
/// is left of its coefficient.
pub proof fn lemma_settle_zero<F: Ring, E: Exponent>(
    a: MultivariatePolynomial<F, E>,
    g: MultivariatePolynomial<F, E>,
    q: MultivariatePolynomial<F, E>,
    r: MultivariatePolynomial<F, E>,
    k: int,
    m: Seq<u32>,
)
    requires
        div_data(a, g, q, r),
        settled(a, g, q, r, k, m, true),
        key_of(row_of::<E>(m)) == m,
        a.coeff(row_of::<E>(m)) == product_coeff(q, g, row_of::<E>(m)),
    ensures
        settled(a, g, q, r, k, m, false),
{
    let f = g.field;
    let e = row_of::<E>(m);
    lemma_built_down_view(r);
    assert forall|x: Seq<E>| lex_lt(m, #[trigger] key_of(x)) || key_of(x) == m implies accounted(
        a,
        q,
        g,
        r,
        x,
    ) by {
        if key_of(x) == m {
            lemma_key_of(x, e);
            assert(x == e);
            if r@.dom().contains(e) {
                let t = r.rows().index_of(e);
                assert(lex_lt(m, key_of(r.rows()[t])));
                lemma_lex_irreflexive(m);
            }
            lemma_pair_terms_contained(q, g, e);
            f.lemma_add_zero(product_coeff(q, g, e));
        }
    }
}

/// The quotient times the divisor plus the remainder is the dividend.
pub open spec fn division_holds<F: Ring, E: Exponent>(
    a: MultivariatePolynomial<F, E>,
    g: MultivariatePolynomial<F, E>,
    q: MultivariatePolynomial<F, E>,
    r: MultivariatePolynomial<F, E>,
) -> bool {
    &&& can_multiply(q, g)
    &&& add_view(a.field, mul_view(q, g), r@) == a@
}

/// No term of the remainder is divisible by the leading monomial of the
/// divisor.
pub open spec fn remainder_reduced<F: Ring, E: Exponent>(
    r: MultivariatePolynomial<F, E>,
    g: MultivariatePolynomial<F, E>,
) -> bool {
    forall|x: Seq<E>| #[trigger] r@.dom().contains(x) ==> !dominates(x, g_back(g, 0))
}

/// Every term of the remainder that the leading monomial of the divisor
/// divides has a coefficient that the leading coefficient of the divisor does
/// not divide.
pub open spec fn remainder_settled<F: EuclideanDomain, E: Exponent>(
    r: MultivariatePolynomial<F, E>,
    g: MultivariatePolynomial<F, E>,
) -> bool {
    forall|x: Seq<E>|
        #[trigger] r@.dom().contains(x) ==> !dominates(x, g_back(g, 0)) || r.field.rem_spec(
            r@[x],
            g.coefficients@.last(),
        ) != F::zero_spec()
}

/// A quotient and a remainder that were built from the largest monomial down
/// and account for the dividend everywhere make up the dividend when they
/// are put into increasing order.
pub proof fn lemma_reversed_result<F: Ring, E: Exponent>(
    a: MultivariatePolynomial<F, E>,
    g: MultivariatePolynomial<F, E>,
    q: MultivariatePolynomial<F, E>,
    r: MultivariatePolynomial<F, E>,
    q_up: MultivariatePolynomial<F, E>,
    r_up: MultivariatePolynomial<F, E>,
)
    requires
        div_data(a, g, q, r),
        forall|x: Seq<E>| accounted(a, q, g, r, x),
        forall|i: int, j: int|
            0 <= i < q.nterms && 0 <= j < g.nterms ==> sum_fits(
                #[trigger] q.rows()[i],
                #[trigger] g.rows()[j],
            ),
        q_up.wf(),
        q_up.rows() == q.rows().reverse(),
        q_up.coefficients@ == q.coefficients@.reverse(),
        q_up.nterms == q.nterms,
        q_up.nvars == q.nvars,
        q_up.field == q.field,
        r_up.wf(),
        r_up.rows() == r.rows().reverse(),
        r_up.coefficients@ == r.coefficients@.reverse(),
        r_up.nterms == r.nterms,
    ensures
        division_holds(a, g, q_up, r_up),
        r_up@ == r@,
{
    let f = g.field;
    let d = g.nterms as int;
    let qn = q.nterms as int;
    a.lemma_rows();
    g.lemma_rows();
    q_up.lemma_rows();
    r_up.lemma_rows();
    lemma_div_rows(q, g);
    lemma_built_down_view(r);
    f.lemma_constants();
    // the quotient in increasing order has the same products
    assert forall|x: Seq<E>| product_coeff(q_up, g, x) == product_coeff(q, g, x) by {
        lemma_pair_terms_contained(q, g, x);
        assert forall|i: int| 0 <= i < qn implies #[trigger] row_sums(q_up, g, x)[i] == row_sums(
            q,
            g,
            x,
        )[qn - 1 - i] by {
            assert(q_up.rows()[i] == q.rows()[qn - 1 - i]);
            assert(q_up.coefficients@[i] == q.coefficients@[qn - 1 - i]);
            assert(pair_terms(q_up, g, i, x) =~= pair_terms(q, g, qn - 1 - i, x));
        }
        assert(row_sums(q_up, g, x) =~= row_sums(q, g, x).reverse());
        lemma_sum_reverse(f, row_sums(q, g, x));
    }
    // the remainder in increasing order has the same terms
    assert(r_up@ =~= r@) by {
        assert forall|x: Seq<E>| r_up@.dom().contains(x) <==> r@.dom().contains(x) by {
            if r_up@.dom().contains(x) {
                let t = r_up.rows().index_of(x);
                assert(r.rows()[r.nterms - 1 - t] == x);
            }
            if r@.dom().contains(x) {
                let t = r.rows().index_of(x);
                assert(r_up.rows()[r.nterms - 1 - t] == x);
            }
        }
        assert forall|x: Seq<E>| r_up@.dom().contains(x) implies r_up@[x] == r@[x] by {
            let t = r_up.rows().index_of(x);
            assert(r.rows()[r.nterms - 1 - t] == x);
            assert(r_up.coefficients@[t] == r.coefficients@[r.nterms - 1 - t]);
        }
    }
    // the product is within range
    assert forall|i: int, j2: int| 0 <= i < q_up.nterms && 0 <= j2 < g.nterms implies sum_fits(
        #[trigger] q_up.rows()[i],
        #[trigger] g.rows()[j2],
    ) by {
        assert(q_up.rows()[i] == q.rows()[qn - 1 - i]);
    }
    let sum = add_view(f, mul_view(q_up, g), r_up@);
    assert forall|x: Seq<E>| #[trigger] a.coeff(x) == f.add_spec(
        coeff_in::<F, E>(mul_view(q_up, g), x),
        coeff_in::<F, E>(r_up@, x),
    ) by {
        assert(accounted(a, q, g, r, x));
        assert(product_coeff(q_up, g, x) == product_coeff(q, g, x));
    }
    assert forall|x: Seq<E>| sum.dom().contains(x) <==> a@.dom().contains(x) by {
        assert(a.coeff(x) == f.add_spec(
            coeff_in::<F, E>(mul_view(q_up, g), x),
            coeff_in::<F, E>(r_up@, x),
        ));
        if !mul_view(q_up, g).dom().contains(x) && !r_up@.dom().contains(x) {
            f.lemma_add_zero(F::zero_spec());
        }
    }
    assert forall|x: Seq<E>| sum.dom().contains(x) implies sum[x] == a@[x] by {
        assert(a.coeff(x) == f.add_spec(
            coeff_in::<F, E>(mul_view(q_up, g), x),
            coeff_in::<F, E>(r_up@, x),
        ));
    }
    assert(sum =~= a@);
}

/// When neither the dividend nor the cache has anything left, the quotient
/// and the remainder, put into increasing order, make up the dividend.
pub proof fn lemma_division_done<F: Ring, E: Exponent>(
    a: MultivariatePolynomial<F, E>,
    g: MultivariatePolynomial<F, E>,
    q: MultivariatePolynomial<F, E>,
    r: MultivariatePolynomial<F, E>,
    q_up: MultivariatePolynomial<F, E>,
    r_up: MultivariatePolynomial<F, E>,
    nextj: Seq<int>,
    index: Seq<usize>,
    inheap: Seq<bool>,
    last: Option<Seq<u32>>,
)
    requires
        div_data(a, g, q, r),
        chains_ok(
            q,
            g,
            nextj,
            index,
            inheap,
            Map::<Seq<u32>, Seq<Pending>>::empty(),
            last,
            Seq::<u32>::empty(),
            Seq::<Pending>::empty(),
            0,
        ),
        last matches Some(b) ==> settled(a, g, q, r, a.nterms as int, b, false) && done_ok(
            q,
            g,
            nextj,
            index,
            b,
        ) && leads_ok(q, g, b),
        last is None ==> a.nterms == 0 && q.nterms == 0 && r.nterms == 0,
        q_up.wf(),
        q_up.rows() == q.rows().reverse(),
        q_up.coefficients@ == q.coefficients@.reverse(),
        q_up.nterms == q.nterms,
        q_up.nvars == q.nvars,
        q_up.field == q.field,
        r_up.wf(),
        r_up.rows() == r.rows().reverse(),
        r_up.coefficients@ == r.coefficients@.reverse(),
        r_up.nterms == r.nterms,
    ensures
        division_holds(a, g, q_up, r_up),
        remainder_reduced(r_up, g),
{
    let f = g.field;
    let d = g.nterms as int;
    let qn = q.nterms as int;
    let n = a.nterms as int;
    a.lemma_rows();
    g.lemma_rows();
    q_up.lemma_rows();
    r_up.lemma_rows();
    lemma_div_rows(q, g);
    lemma_built_down_view(r);
    f.lemma_constants();
    // every pair is worked off
    assert forall|i: int, j: int| 0 <= i < qn && 1 <= j < d implies #[trigger] pair_above(
        q,
        g,
        last->0,
        i,
        j,
    ) by {
        lemma_all_done(q, g, nextj, index, inheap, last, i, j);
        assert(pair_done(d, nextj, index, i, j));
    }
    // the dividend is accounted for everywhere
    assert forall|x: Seq<E>| accounted(a, q, g, r, x) by {
        if last is Some && lex_le(last->0, key_of(x)) {
        } else {
            if a@.dom().contains(x) {
                let i = a.rows().index_of(x);
                assert(a_back(a, n - 1 - i) == x);
                assert(lex_le(last->0, key_of(a_back(a, n - 1 - i))));
            }
            assert forall|i: int, j2: int|
                0 <= i < q.nterms && 0 <= j2 < g.nterms && sum_fits(q.rows()[i], g.rows()[j2])
                    implies #[trigger] pair_row(q, g, i, j2) != x by {
                let j = d - 1 - j2;
                if pair_row(q, g, i, j2) == x {
                    assert(dpair_key(q, g, i, j) == key_of(x));
                    if j == 0 {
                        assert(pair_above(q, g, last->0, i, 0));
                    } else {
                        assert(pair_above(q, g, last->0, i, j));
                    }
                }
            }
            lemma_product_coeff_zero(q, g, x);
            if r@.dom().contains(x) {
                let t = r.rows().index_of(x);
                assert(!dominates(r.rows()[t], g_back(g, 0)));
            }
            f.lemma_add_zero(F::zero_spec());
        }
    }
    assert forall|i: int, j2: int| 0 <= i < q.nterms && 0 <= j2 < g.nterms implies sum_fits(
        #[trigger] q.rows()[i],
        #[trigger] g.rows()[j2],
    ) by {
        let j = d - 1 - j2;
        if j == 0 {
            assert(pair_above(q, g, last->0, i, 0));
        } else {
            assert(pair_above(q, g, last->0, i, j));
        }
    }
    lemma_reversed_result(a, g, q, r, q_up, r_up);
    assert forall|x: Seq<E>| #[trigger] r_up@.dom().contains(x) implies !dominates(x, g_back(g, 0)) by {
        let t = r.rows().index_of(x);
        assert(!dominates(r.rows()[t], g_back(g, 0)));
    }
}

/// When the list that was worked off is used up, all that waits waits in the
/// cache.
pub proof fn lemma_chains_rest<F: Ring, E: Exponent>(
    q: MultivariatePolynomial<F, E>,
    g: MultivariatePolynomial<F, E>,
    nextj: Seq<int>,
    index: Seq<usize>,
    inheap: Seq<bool>,
    c: Map<Seq<u32>, Seq<Pending>>,
    bound: Option<Seq<u32>>,
    cur: Seq<u32>,
    l: Seq<Pending>,
)
    requires
        chains_ok(q, g, nextj, index, inheap, c, bound, cur, l, l.len() as int),
    ensures
        chains_ok(
            q,
            g,
            nextj,
            index,
            inheap,
            c,
            bound,
            Seq::<u32>::empty(),
            Seq::<Pending>::empty(),
            0,
        ),
{
    let ek = Seq::<u32>::empty();
    let el = Seq::<Pending>::empty();
    assert forall|i: int, j: int| pair_listed(q, g, c, cur, l, l.len() as int, i, j) implies pair_listed(
        q,
        g,
        c,
        ek,
        el,
        0,
        i,
        j,
    ) by {}
    assert forall|i: int|
        0 <= i < q.nterms && i < g.nterms - 1 && i != -1 && #[trigger] nextj[i]
            < g.nterms implies pair_listed(q, g, c, ek, el, 0, i, nextj[i]) by {
        assert(pair_listed(q, g, c, cur, l, l.len() as int, i, nextj[i]));
    }
    assert forall|j: int| 1 <= j < g.nterms && j != -1 && #[trigger] inheap[j] implies pair_listed(
        q,
        g,
        c,
        ek,
        el,
        0,
        index[j] as int,
        j,
    ) by {
        assert(pair_listed(q, g, c, cur, l, l.len() as int, index[j] as int, j));
    }
}

/// Puts a pair into the cache, and its exponent vector into the heap if the
/// cache had no list for it.
fn schedule(cache: &mut MonomialCache, h: &mut ExponentHeap, key: Vec<u32>, entry: Pending)
    requires
        old(h).wf(),
        key@.len() == old(h).width(),
        heap_matches(old(h)@, old(cache)@),
    ensures
        final(h).wf(),
        final(h).width() == old(h).width(),
        final(h).smallest_first() == old(h).smallest_first(),
        final(cache)@ == with_pending(old(cache)@, key@, entry),
        heap_matches(final(h)@, final(cache)@),
{
    let fresh = cache.add(&key, entry);
    if fresh {
        h.push(key);
    }
    proof {
        broadcast use vstd::multiset::group_multiset_axioms;

        assert(heap_matches(h@, cache@));
    }
}

impl<F: Ring, E: Exponent> MultivariatePolynomial<F, E> {
    /// Puts the pairs into the cache that follow the pair at the place `t` of
    /// the list that is worked off. `self` is the quotient so far. Tells
    /// whether the exponents stayed within range.
    fn work_off(
        &self,
        div: &Self,
        cache: &mut MonomialCache,
        h: &mut ExponentHeap,
        index: &mut Vec<usize>,
        inheap: &mut Vec<bool>,
        entry: Pending,
        Ghost(nextj): Ghost<Seq<int>>,
        Ghost(cur): Ghost<Seq<u32>>,
        Ghost(l): Ghost<Seq<Pending>>,
        Ghost(t): Ghost<int>,
    ) -> (r: (bool, Ghost<Seq<int>>))
        requires
            chains_ok(
                *self,
                *div,
                nextj,
                old(index)@,
                old(inheap)@,
                old(cache)@,
                Some(cur),
                cur,
                l,
                t,
            ),
            done_ok(*self, *div, nextj, old(index)@, cur),
            0 <= t < l.len(),
            entry == l[t],
            old(h).wf(),
            old(h).width() == self.nvars,
            heap_matches(old(h)@, old(cache)@),
        ensures
            final(h).wf(),
            final(h).width() == old(h).width(),
            final(h).smallest_first() == old(h).smallest_first(),
            r.0 ==> chains_ok(
                *self,
                *div,
                r.1@,
                final(index)@,
                final(inheap)@,
                final(cache)@,
                Some(cur),
                cur,
                l,
                t + 1,
            ) && done_ok(*self, *div, r.1@, final(index)@, cur) && heap_matches(
                final(h)@,
                final(cache)@,
            ),
            !r.0 ==> out_of_range(*self, *div),
    {
        let qi = entry.0;
        let gi = entry.1;
        let d = div.nterms;
        let ghost q = *self;
        let ghost g = *div;
        let ghost index0 = index@;
        let ghost inheap0 = inheap@;
        let ghost c0 = cache@;
        proof {
            assert(entry_ok(q, g, nextj, index0, inheap0, cur, l[t]));
            lemma_div_rows(q, g);
        }
        let len = self.coefficients.len();
        if entry.2 {
            if gi + 1 < d {
                match sum_key(self.exponents(qi), div.exponents_back(gi + 1)) {
                    None => {
                        proof {
                            assert(!dpair_fits(q, g, qi as int, gi + 1));
                        }
                        return (false, Ghost(nextj));
                    },
                    Some(key) => {
                        proof {
                            lemma_step_row(q, g, nextj, index0, inheap0, c0, cur, l, t);
                        }
                        schedule(cache, h, key, (qi, gi + 1, true));
                    },
                }
            } else {
                proof {
                    lemma_step_row(q, g, nextj, index0, inheap0, c0, cur, l, t);
                }
            }
            (true, Ghost(nextj.update(qi as int, gi + 1)))
        } else {
            let moves = qi + 1 < self.nterms;
            let mut key1: Vec<u32> = Vec::new();
            if moves {
                match sum_key(self.exponents(qi + 1), div.exponents_back(gi)) {
                    None => {
                        proof {
                            assert(!dpair_fits(q, g, qi + 1, gi as int));
                        }
                        return (false, Ghost(nextj));
                    },
                    Some(key) => {
                        key1 = key;
                    },
                }
            }
            index[gi] = qi + 1;
            if moves {
                schedule(cache, h, key1, (qi + 1, gi, false));
            } else {
                inheap[gi] = false;
            }
            let ghost inheap1 = inheap@;
            proof {
                assert(inheap1 =~= col_step_inheap1(inheap0, q.nterms as int, qi as int, gi as int));
                assert(index@ =~= col_step_index(index0, qi as int, gi as int));
                assert(cache@ == col_step_cache1(q, g, c0, qi as int, gi as int));
            }
            // also executed when the divisor term has come to rest
            if gi + 1 < d && !inheap[gi + 1] {
                let t2 = index[gi + 1];
                if t2 < self.nterms {
                    match sum_key(self.exponents(qi), div.exponents_back(gi + 1)) {
                        None => {
                            proof {
                                assert(!dpair_fits(q, g, qi as int, gi + 1));
                            }
                            return (false, Ghost(nextj));
                        },
                        Some(key) => {
                            inheap[gi + 1] = true;
                            schedule(cache, h, key, (qi, gi + 1, false));
                        },
                    }
                }
            }
            proof {
                let engage = col_step_engage(
                    index0,
                    inheap0,
                    q.nterms as int,
                    d as int,
                    qi as int,
                    gi as int,
                );
                assert(inheap@ =~= col_step_inheap2(
                    index0,
                    inheap0,
                    q.nterms as int,
                    d as int,
                    qi as int,
                    gi as int,
                ));
                assert(cache@ == col_step_cache2(q, g, index0, inheap0, c0, qi as int, gi as int));
                lemma_step_col(q, g, nextj, index0, inheap0, c0, cur, l, t);
            }
            (true, Ghost(nextj))
        }
    }

    /// Puts the first pair of a quotient term into the cache that has just
    /// been added. `self` is the quotient with the new term. Tells whether the
    /// exponents stayed within range.
    fn take_up(
        &self,
        div: &Self,
        cache: &mut MonomialCache,
        h: &mut ExponentHeap,
        index: &mut Vec<usize>,
        inheap: &mut Vec<bool>,
        Ghost(q): Ghost<Self>,
        Ghost(nextj): Ghost<Seq<int>>,
        Ghost(cur): Ghost<Seq<u32>>,
        Ghost(l): Ghost<Seq<Pending>>,
    ) -> (r: (bool, Ghost<Seq<int>>))
        requires
            chains_ok(
                q,
                *div,
                nextj,
                old(index)@,
                old(inheap)@,
                old(cache)@,
                Some(cur),
                cur,
                l,
                l.len() as int,
            ),
            done_ok(q, *div, nextj, old(index)@, cur),
            leads_ok(q, *div, cur),
            div_setup(*self, *div),
            self.nterms == q.nterms + 1,
            self.rows() == q.rows().push(self.rows()[q.nterms as int]),
            dpair_fits(*self, *div, q.nterms as int, 0),
            dpair_key(*self, *div, q.nterms as int, 0) == cur,
            old(h).wf(),
            old(h).width() == self.nvars,
            heap_matches(old(h)@, old(cache)@),
        ensures
            final(h).wf(),
            final(h).width() == old(h).width(),
            final(h).smallest_first() == old(h).smallest_first(),
            r.0 ==> chains_ok(
                *self,
                *div,
                r.1@,
                final(index)@,
                final(inheap)@,
                final(cache)@,
                Some(cur),
                cur,
                Seq::<Pending>::empty(),
                0,
            ) && done_ok(*self, *div, r.1@, final(index)@, cur) && leads_ok(*self, *div, cur)
                && heap_matches(final(h)@, final(cache)@),
            !r.0 ==> out_of_range(*self, *div),
    {
        let d = div.nterms;
        let s = self.nterms - 1;
        let ghost g = *div;
        let ghost index0 = index@;
        let ghost inheap0 = inheap@;
        let ghost c0 = cache@;
        let len = self.coefficients.len();
        proof {
            lemma_div_rows(*self, g);
        }
        if d == 1 {
            proof {
                lemma_step_new(q, *self, g, nextj, index0, inheap0, c0, cur, l);
            }
            return (true, Ghost(new_step_nextj(nextj, d as int)));
        }
        match sum_key(self.exponents(s), div.exponents_back(1)) {
            None => {
                proof {
                    assert(!dpair_fits(*self, g, s as int, 1));
                }
                (false, Ghost(nextj))
            },
            Some(key) => {
                proof {
                    lemma_step_new(q, *self, g, nextj, index0, inheap0, c0, cur, l);
                }
                if self.nterms < d {
                    // using quotient heap
                    schedule(cache, h, key, (s, 1, true));
                } else if self.nterms > d {
                    // using divisor heap
                    if !inheap[1] {
                        inheap[1] = true;
                        schedule(cache, h, key, (s, 1, false));
                    }
                } else {
                    // switch to divisor heap
                    *index = filled(s, d);
                    inheap[1] = true;
                    schedule(cache, h, key, (s, 1, false));
                }
                proof {
                    assert(index@ =~= new_step_index(index0, q.nterms as int, d as int));
                    assert(inheap@ =~= new_step_inheap(inheap0, q.nterms as int, d as int));
                }
                (true, Ghost(new_step_nextj(nextj, d as int)))
            },
        }
    }
}

/// The leading monomial of the divisor is divisible by each of its
/// monomials, as it is in a polynomial in one variable.
pub open spec fn lead_dominates<F: Ring, E: Exponent>(g: MultivariatePolynomial<F, E>) -> bool {
    forall|j: int| 0 <= j < g.nterms ==> dominates(g_back(g, 0), #[trigger] g_back(g, j))
}

/// Where the leading monomial of the divisor is divisible by each of its
/// monomials, a quotient term whose product with the leading term is within
/// range has all its products within range.
pub proof fn lemma_led_fits<F: Ring, E: Exponent>(
    q: MultivariatePolynomial<F, E>,
    g: MultivariatePolynomial<F, E>,
    i: int,
    j: int,
)
    requires
        lead_dominates(g),
        0 <= j < g.nterms,
        dpair_fits(q, g, i, 0),
    ensures
        dpair_fits(q, g, i, j),
{
    let x = q.rows()[i];
    let top = g_back(g, 0);
    let y = g_back(g, j);
    assert(dominates(top, y));
    assert forall|v: int| 0 <= v < x.len() implies #[trigger] x[v].to_u32_spec()
        + y[v].to_u32_spec() <= E::max_spec() by {
        assert(x[v].to_u32_spec() + top[v].to_u32_spec() <= E::max_spec());
        assert(y[v].to_u32_spec() <= top[v].to_u32_spec());
    }
}

/// Some product of a quotient term and a divisor term is out of range.
pub open spec fn out_of_range<F: Ring, E: Exponent>(
    q: MultivariatePolynomial<F, E>,
    g: MultivariatePolynomial<F, E>,
) -> bool {
    exists|i: int, j: int|
        0 <= i < q.nterms && 0 <= j < g.nterms && !#[trigger] dpair_fits(q, g, i, j)
}

/// A division that is carried out cleanly: the quotient `q` times the
/// divisor plus the terms `r` of the remainder is the dividend, and no term
/// of the remainder is divisible by the leading monomial of the divisor.
pub open spec fn clean_division<F: Ring, E: Exponent>(
    a: MultivariatePolynomial<F, E>,
    g: MultivariatePolynomial<F, E>,
    q: MultivariatePolynomial<F, E>,
    r: Map<Seq<E>, F::Element>,
) -> bool {
    &&& divides_into(a, g, q, r)
    &&& forall|x: Seq<E>| #[trigger] r.dom().contains(x) ==> !dominates(x, g_back(g, 0))
}

/// The division of `a` by `g` can be carried out cleanly.
pub open spec fn divides_cleanly<F: Ring, E: Exponent>(
    a: MultivariatePolynomial<F, E>,
    g: MultivariatePolynomial<F, E>,
) -> bool {
    exists|q: MultivariatePolynomial<F, E>, r: Map<Seq<E>, F::Element>|
        clean_division(a, g, q, r)
}

/// A list of quotient terms has the same products with the divisor when it
/// is put into increasing order.
pub proof fn lemma_reversed_products<F: Ring, E: Exponent>(
    g: MultivariatePolynomial<F, E>,
    q: MultivariatePolynomial<F, E>,
    q_up: MultivariatePolynomial<F, E>,
    x: Seq<E>,
)
    requires
        div_setup(q, g),
        q_up.rows() == q.rows().reverse(),
        q_up.coefficients@ == q.coefficients@.reverse(),
        q_up.nterms == q.nterms,
        q_up.field == q.field,
    ensures
        product_coeff(q_up, g, x) == product_coeff(q, g, x),
{
    let f = g.field;
    let qn = q.nterms as int;
    lemma_div_rows(q, g);
    lemma_pair_terms_contained(q, g, x);
    assert forall|i: int| 0 <= i < qn implies #[trigger] row_sums(q_up, g, x)[i] == row_sums(
        q,
        g,
        x,
    )[qn - 1 - i] by {
        assert(q_up.rows()[i] == q.rows()[qn - 1 - i]);
        assert(q_up.coefficients@[i] == q.coefficients@[qn - 1 - i]);
        assert(pair_terms(q_up, g, i, x) =~= pair_terms(q, g, qn - 1 - i, x));
    }
    assert(row_sums(q_up, g, x) =~= row_sums(q, g, x).reverse());
    lemma_sum_reverse(f, row_sums(q, g, x));
}

/// Where the division is given up, it cannot be carried out cleanly: `c` is
/// what is left of the coefficient of the monomial `m` when the products of
/// the quotient so far are taken off, the leading monomial of the divisor
/// divides `m`, and the leading coefficient does not divide `c`. Any clean
/// division would have the quotient so far above `m`, and so the same `c` to
/// divide.
pub proof fn lemma_not_clean<F: EuclideanDomain, E: Exponent>(
    a: MultivariatePolynomial<F, E>,
    g: MultivariatePolynomial<F, E>,
    q: MultivariatePolynomial<F, E>,
    r: MultivariatePolynomial<F, E>,
    q_up: MultivariatePolynomial<F, E>,
    k: int,
    m: Seq<u32>,
    c: F::Element,
    q2: MultivariatePolynomial<F, E>,
    r2: Map<Seq<E>, F::Element>,
)
    requires
        div_data(a, g, q, r),
        settled(a, g, q, r, k, m, true),
        forall|i: int| 0 <= i < q.nterms ==> #[trigger] pair_after(q, g, m, i, 0),
        key_of(row_of::<E>(m)) == m,
        a.coeff(row_of::<E>(m)) == a.field.add_spec(product_coeff(q, g, row_of::<E>(m)), c),
        a.field.contains(c),
        dominates(row_of::<E>(m), g_back(g, 0)),
        a.field.rem_spec(c, g.coefficients@.last()) != F::zero_spec(),
        q_up.wf(),
        q_up.rows() == q.rows().reverse(),
        q_up.coefficients@ == q.coefficients@.reverse(),
        q_up.nterms == q.nterms,
        q_up.nvars == q.nvars,
        q_up.field == q.field,
    ensures
        !clean_division(a, g, q2, r2),
{
    if clean_division(a, g, q2, r2) {
        let f = g.field;
        let e = row_of::<E>(m);
        let top = g_back(g, 0);
        let qn = q.nterms as int;
        g.lemma_rows();
        q_up.lemma_rows();
        q2.lemma_rows();
        lemma_div_rows(q, g);
        lemma_built_down_view(r);
        // the quotient so far accounts for the dividend after the monomial
        assert forall|x: Seq<E>| #[trigger] lex_lt(e, x) implies f.add_spec(
            product_coeff(q_up, g, x),
            coeff_in::<F, E>(r@, x),
        ) == a.coeff(x) by {
            lemma_key_of(e, x);
            lemma_reversed_products(g, q, q_up, x);
            assert(accounted(a, q, g, r, x));
        }
        assert forall|x: Seq<E>| #[trigger] r@.dom().contains(x) implies !dominates(x, top) by {
            let t = r.rows().index_of(x);
            assert(!dominates(r.rows()[t], top));
        }
        assert forall|i: int| 0 <= i < q_up.nterms implies sum_fits(
            #[trigger] q_up.rows()[i],
            top,
        ) by {
            assert(q_up.rows()[i] == q.rows()[qn - 1 - i]);
            assert(pair_after(q, g, m, qn - 1 - i, 0));
        }
        assert(accounts_after(a, g, q_up, r@, e, true));
        // and so does the clean division
        assert forall|x: Seq<E>| #[trigger] lex_lt(e, x) implies f.add_spec(
            product_coeff(q2, g, x),
            coeff_in::<F, E>(r2, x),
        ) == a.coeff(x) by {
            lemma_division_coeff(a, g, q2, r2, x);
        }
        assert forall|i: int| 0 <= i < q2.nterms implies sum_fits(#[trigger] q2.rows()[i], top) by {
            assert(sum_fits(q2.rows()[i], g.rows()[g.nterms - 1]));
        }
        assert(accounts_after(a, g, q2, r2, e, true));
        lemma_division_coeff(a, g, q2, r2, e);
        // the quotient so far has no term for the monomial over the leading one
        let x0 = row_sub(e, top);
        lemma_row_sub_values(e, top);
        if q_up@.dom().contains(x0) {
            let t = q_up.rows().index_of(x0);
            assert(q.rows()[qn - 1 - t] == x0);
            assert(pair_after(q, g, m, qn - 1 - t, 0));
            assert(dpair_key(q, g, qn - 1 - t, 0) == m);
            lemma_lex_irreflexive(m);
        }
        lemma_reversed_products(g, q, q_up, e);
        lemma_forced_coefficient(a, g, q2, r2, q_up, r@, e, c);
        f.lemma_quot_rem(c, g.coefficients@.last());
    }
}

/// A division as far as it has come at the monomial `e`: the quotient `q`
/// and the terms `r` account for the dividend after `e`, and at `e` unless
/// `strict`, and the quotient has no terms but those that this takes.
pub open spec fn partial_division<F: Ring, E: Exponent>(
    a: MultivariatePolynomial<F, E>,
    g: MultivariatePolynomial<F, E>,
    q: MultivariatePolynomial<F, E>,
    r: Map<Seq<E>, F::Element>,
    e: Seq<E>,
    strict: bool,
) -> bool {
    &&& accounts_after(a, g, q, r, e, strict)
    &&& forall|i: int|
        0 <= i < q.nterms ==> at_or_after(e, #[trigger] dpair_row(q, g, i, 0), strict)
}

/// The division of `a` by `g` runs out of range: as far as it has come at
/// some monomial, a product of a term of its quotient and a term of the
/// divisor has an exponent out of range.
pub open spec fn runs_out_of_range<F: Ring, E: Exponent>(
    a: MultivariatePolynomial<F, E>,
    g: MultivariatePolynomial<F, E>,
) -> bool {
    exists|q: MultivariatePolynomial<F, E>, r: Map<Seq<E>, F::Element>, e: Seq<E>, strict: bool|
        #[trigger] partial_division(a, g, q, r, e, strict) && out_of_range(q, g)
}

/// The lists of the quotient and the remainder between two steps make up a
/// division as far as it has come, with the quotient put into increasing
/// order.
pub proof fn lemma_partial_state<F: EuclideanDomain, E: Exponent>(
    a: MultivariatePolynomial<F, E>,
    g: MultivariatePolynomial<F, E>,
    q: MultivariatePolynomial<F, E>,
    r: MultivariatePolynomial<F, E>,
    q_up: MultivariatePolynomial<F, E>,
    k: int,
    m: Seq<u32>,
    strict: bool,
)
    requires
        div_data(a, g, q, r),
        settled(a, g, q, r, k, m, strict),
        strict ==> forall|i: int| 0 <= i < q.nterms ==> #[trigger] pair_after(q, g, m, i, 0),
        !strict ==> forall|i: int| 0 <= i < q.nterms ==> #[trigger] pair_above(q, g, m, i, 0),
        key_of(row_of::<E>(m)) == m,
        q_up.wf(),
        q_up.rows() == q.rows().reverse(),
        q_up.coefficients@ == q.coefficients@.reverse(),
        q_up.nterms == q.nterms,
        q_up.nvars == q.nvars,
        q_up.field == q.field,
    ensures
        partial_division(a, g, q_up, r@, row_of::<E>(m), strict),
        out_of_range(q, g) ==> out_of_range(q_up, g),
{
    let f = g.field;
    let e = row_of::<E>(m);
    let top = g_back(g, 0);
    let qn = q.nterms as int;
    g.lemma_rows();
    q_up.lemma_rows();
    lemma_div_rows(q, g);
    lemma_built_down_view(r);
    assert forall|x: Seq<E>| #[trigger] at_or_after(e, x, strict) implies f.add_spec(
        product_coeff(q_up, g, x),
        coeff_in::<F, E>(r@, x),
    ) == a.coeff(x) by {
        lemma_key_of(e, x);
        lemma_reversed_products(g, q, q_up, x);
        assert(accounted(a, q, g, r, x));
    }
    assert forall|x: Seq<E>| #[trigger] r@.dom().contains(x) implies !dominates(x, top) by {
        let t = r.rows().index_of(x);
        assert(!dominates(r.rows()[t], top));
    }
    assert forall|i: int| 0 <= i < q.nterms implies #[trigger] dpair_fits(q, g, i, 0) by {
        if strict {
            assert(pair_after(q, g, m, i, 0));
        } else {
            assert(pair_above(q, g, m, i, 0));
        }
    }
    assert forall|i: int| 0 <= i < q_up.nterms implies sum_fits(#[trigger] q_up.rows()[i], top) by {
        assert(q_up.rows()[i] == q.rows()[qn - 1 - i]);
        assert(dpair_fits(q, g, qn - 1 - i, 0));
    }
    assert(accounts_after(a, g, q_up, r@, e, strict));
    assert forall|i: int| 0 <= i < q_up.nterms implies at_or_after(
        e,
        #[trigger] dpair_row(q_up, g, i, 0),
        strict,
    ) by {
        let i2 = qn - 1 - i;
        assert(q_up.rows()[i] == q.rows()[i2]);
        assert(dpair_row(q_up, g, i, 0) == dpair_row(q, g, i2, 0));
        lemma_key_of(e, dpair_row(q, g, i2, 0));
        if strict {
            assert(pair_after(q, g, m, i2, 0));
        } else {
            assert(pair_above(q, g, m, i2, 0));
        }
    }
    if out_of_range(q, g) {
        let (i, j) = choose|i: int, j: int|
            0 <= i < q.nterms && 0 <= j < g.nterms && !#[trigger] dpair_fits(q, g, i, j);
        assert(q_up.rows()[qn - 1 - i] == q.rows()[i]);
        assert(!dpair_fits(q_up, g, qn - 1 - i, j));
    }
}

/// Where a product of a term of the quotient so far and a term of the
/// divisor is out of range, the division cannot be carried out cleanly: any
/// clean division would have the terms of the quotient so far, and so the
/// same product.
pub proof fn lemma_range_not_clean<F: EuclideanDomain, E: Exponent>(
    a: MultivariatePolynomial<F, E>,
    g: MultivariatePolynomial<F, E>,
    q: MultivariatePolynomial<F, E>,
    r: MultivariatePolynomial<F, E>,
    q_up: MultivariatePolynomial<F, E>,
    k: int,
    m: Seq<u32>,
    strict: bool,
    q2: MultivariatePolynomial<F, E>,
    r2: Map<Seq<E>, F::Element>,
)
    requires
        div_data(a, g, q, r),
        settled(a, g, q, r, k, m, strict),
        strict ==> forall|i: int| 0 <= i < q.nterms ==> #[trigger] pair_after(q, g, m, i, 0),
        !strict ==> forall|i: int| 0 <= i < q.nterms ==> #[trigger] pair_above(q, g, m, i, 0),
        key_of(row_of::<E>(m)) == m,
        q_up.wf(),
        q_up.rows() == q.rows().reverse(),
        q_up.coefficients@ == q.coefficients@.reverse(),
        q_up.nterms == q.nterms,
        q_up.nvars == q.nvars,
        q_up.field == q.field,
        out_of_range(q, g),
    ensures
        !clean_division(a, g, q2, r2),
{
    if clean_division(a, g, q2, r2) {
        let f = g.field;
        let e = row_of::<E>(m);
        let top = g_back(g, 0);
        let qn = q.nterms as int;
        g.lemma_rows();
        q_up.lemma_rows();
        q2.lemma_rows();
        lemma_div_rows(q, g);
        lemma_built_down_view(r);
        assert forall|x: Seq<E>| #[trigger] at_or_after(e, x, strict) implies f.add_spec(
            product_coeff(q_up, g, x),
            coeff_in::<F, E>(r@, x),
        ) == a.coeff(x) by {
            lemma_key_of(e, x);
            lemma_reversed_products(g, q, q_up, x);
            assert(accounted(a, q, g, r, x));
        }
        assert forall|x: Seq<E>| #[trigger] r@.dom().contains(x) implies !dominates(x, top) by {
            let t = r.rows().index_of(x);
            assert(!dominates(r.rows()[t], top));
        }
        assert forall|i: int| 0 <= i < q.nterms implies #[trigger] dpair_fits(q, g, i, 0) by {
            if strict {
                assert(pair_after(q, g, m, i, 0));
            } else {
                assert(pair_above(q, g, m, i, 0));
            }
        }
        assert forall|i: int| 0 <= i < q.nterms implies at_or_after(
            e,
            #[trigger] dpair_row(q, g, i, 0),
            strict,
        ) by {
            lemma_key_of(e, dpair_row(q, g, i, 0));
            if strict {
                assert(pair_after(q, g, m, i, 0));
            } else {
                assert(pair_above(q, g, m, i, 0));
            }
        }
        assert forall|i: int| 0 <= i < q_up.nterms implies sum_fits(
            #[trigger] q_up.rows()[i],
            top,
        ) by {
            assert(q_up.rows()[i] == q.rows()[qn - 1 - i]);
            assert(dpair_fits(q, g, qn - 1 - i, 0));
        }
        assert(accounts_after(a, g, q_up, r@, e, strict));
        assert forall|x: Seq<E>| #[trigger] at_or_after(e, x, strict) implies f.add_spec(
            product_coeff(q2, g, x),
            coeff_in::<F, E>(r2, x),
        ) == a.coeff(x) by {
            lemma_division_coeff(a, g, q2, r2, x);
        }
        assert forall|i: int| 0 <= i < q2.nterms implies sum_fits(#[trigger] q2.rows()[i], top) by {
            assert(sum_fits(q2.rows()[i], g.rows()[g.nterms - 1]));
        }
        assert(accounts_after(a, g, q2, r2, e, strict));
        // the clean quotient has the term whose product is out of range
        let (i, j) = choose|i: int, j: int|
            0 <= i < q.nterms && 0 <= j < g.nterms && !#[trigger] dpair_fits(q, g, i, j);
        let x = q.rows()[i];
        assert(dpair_fits(q, g, i, 0));
        assert(sum_fits(x, top));
        assert(at_or_after(e, dpair_row(q, g, i, 0), strict));
        assert(row_add(x, top) == dpair_row(q, g, i, 0));
        assert(lex_le(e, row_add(x, top)));
        lemma_partial(a, g, q2, r2, q_up, r@, e, strict, x);
        assert(q_up.rows()[qn - 1 - i] == x);
        assert(q_up.coeff(x) == q.coefficients@[i]);
        assert(q2@.dom().contains(x));
        let i2 = q2.rows().index_of(x);
        assert(sum_fits(q2.rows()[i2], g.rows()[g.nterms - 1 - j]));
    }
}

/// The result of a division that could not be carried out cleanly in the
/// ring: no quotient, and the whole dividend as the remainder.
pub open spec fn division_failed<F: Ring, E: Exponent>(
    a: MultivariatePolynomial<F, E>,
    q: MultivariatePolynomial<F, E>,
    r: MultivariatePolynomial<F, E>,
) -> bool {
    q.nterms == 0 && r@ == a@
}

/// A pair of a quotient and a remainder that the division may give: both are
/// polynomials in the variables and over the ring of the dividend; the
/// quotient times the divisor plus the remainder is the dividend; and no term
/// of the remainder is divisible by the leading monomial of the divisor,
/// unless the division could not be carried out cleanly.
pub open spec fn division_result<F: Ring, E: Exponent>(
    a: MultivariatePolynomial<F, E>,
    g: MultivariatePolynomial<F, E>,
    q: MultivariatePolynomial<F, E>,
    r: MultivariatePolynomial<F, E>,
) -> bool {
    &&& q.wf()
    &&& r.wf()
    &&& q.nvars == a.nvars
    &&& r.nvars == a.nvars
    &&& q.field == a.field
    &&& r.field == a.field
    &&& var_map_view(q.var_map) == var_map_view(a.var_map)
    &&& var_map_view(r.var_map) == var_map_view(a.var_map)
    &&& division_holds(a, g, q, r)
    &&& (remainder_reduced(r, g) || division_failed(a, q, r))
}

/// No quotient and the dividend as the remainder make up the dividend.
pub proof fn lemma_division_failed<F: Ring, E: Exponent>(
    a: MultivariatePolynomial<F, E>,
    g: MultivariatePolynomial<F, E>,
    q: MultivariatePolynomial<F, E>,
    r: MultivariatePolynomial<F, E>,
)
    requires
        a.wf(),
        g.wf(),
        q.wf(),
        r.wf(),
        a.field == g.field,
        q.field == g.field,
        q.nvars == g.nvars,
        q.nterms == 0,
        r@ == a@,
    ensures
        division_holds(a, g, q, r),
{
    crate::poly::mul::lemma_mul_view_zero(q, g);
    q.lemma_rows();
    assert(q@ =~= Map::<Seq<E>, F::Element>::empty());
    crate::poly::laws::law_add_zero(a);
    crate::poly::laws::law_add_commutative(q, a);
}

impl<F: EuclideanDomain, E: Exponent> MultivariatePolynomial<F, E> {
    /// Heap division for multivariate polynomials, using a cache so that only
    /// unique monomial exponents appear in the heap.
    /// Reference: "Sparse polynomial division using a heap" by Monagan, Pearce
    /// (2011).
    ///
    /// If a coefficient cannot be divided by the leading coefficient of the
    /// divisor without remainder, the division is given up: the result is no
    /// quotient and the dividend as the remainder. There is no result if an
    /// exponent of a product of a quotient term and a divisor term is out of
    /// range. Neither happens where the division can be carried out cleanly:
    /// then the result is that division, which is the only one. There is a
    /// result wherever no product of a term of the quotient, as far as the
    /// division comes, and a term of the divisor is out of range.
    pub fn heap_division(&self, div: &Self) -> (res: Option<(Self, Self)>)
        requires
            self.wf(),
            div.wf(),
            self.field == div.field,
            same_variables(self.var_map, div.var_map) || self.nterms == 0,
            self.nvars == div.nvars,
            div.nterms > 0,
        ensures
            res matches Some(qr) ==> division_result(*self, *div, qr.0, qr.1),
            res matches Some(qr) ==> divides_all(self.field, div.coefficients@.last())
                ==> remainder_reduced(qr.1, *div),
            divides_cleanly(*self, *div) ==> (res matches Some(qr) && remainder_reduced(
                qr.1,
                *div,
            )),
            lead_dominates(*div) ==> res is Some,
            res is None ==> runs_out_of_range(*self, *div),
    {
        let n = self.nterms;
        let d = div.nterms;
        let nv = self.nvars;
        let ghost a = *self;
        let ghost g = *div;
        let ghost f = self.field;
        let ghost ek = Seq::<u32>::empty();
        let ghost el = Seq::<Pending>::empty();
        let mut q = self.new_from(Some(n));
        let mut r = self.new_from(None);
        let mut inheap: Vec<bool> = filled(false, d);
        let mut index: Vec<usize> = filled(0usize, d);
        let mut cache = MonomialCache::with_capacity(n);
        let mut h = ExponentHeap::new(nv, false, n);
        let lead = div.last_exponents();
        let mut k: usize = 0;
        let ghost mut nextj: Seq<int> = Seq::empty();
        let ghost mut last: Option<Seq<u32>> = None;
        proof {
            broadcast use vstd::multiset::group_multiset_axioms;

            q.lemma_rows();
            r.lemma_rows();
            div.lemma_rows();
            assert(built_down(q));
            assert(built_down(r));
            assert(heap_matches(h@, cache@));
            assert(chains_ok(q, g, nextj, index@, inheap@, cache@, last, ek, el, 0));
        }
        while !h.is_empty() || k < n
            invariant
                a == *self,
                g == *div,
                f == a.field,
                n == a.nterms,
                d == g.nterms,
                nv == a.nvars,
                ek == Seq::<u32>::empty(),
                el == Seq::<Pending>::empty(),
                lead@ == g_back(g, 0),
                g.wf(),
                div_data(a, g, q, r),
                var_map_view(q.var_map) == var_map_view(a.var_map),
                var_map_view(r.var_map) == var_map_view(a.var_map),
                k <= n,
                h.wf(),
                h.width() == nv,
                !h.smallest_first(),
                heap_matches(h@, cache@),
                chains_ok(q, g, nextj, index@, inheap@, cache@, last, ek, el, 0),
                last matches Some(b) ==> settled(a, g, q, r, k as int, b, false) && done_ok(
                    q,
                    g,
                    nextj,
                    index@,
                    b,
                ) && leads_ok(q, g, b),
                last is None ==> k == 0 && q.nterms == 0 && r.nterms == 0,
            decreases
                    (match last {
                        Some(b) => rank(b) as int,
                        None => (rank_bound(nv as nat) + 1) as int,
                    }),
        {
            let ghost k0 = k as int;
            let ghost c_head = cache@;
            let ghost h_head = h@;
            // the next monomial: of the dividend, or of the heap
            proof {
                h.lemma_items();
            }
            let top: Option<Vec<u32>> = match h.peek() {
                Some(t) => Some(slice_to_vec(t.as_slice())),
                None => None,
            };
            let mut m: Vec<u32> = Vec::new();
            let mut take = false;
            if k < n {
                let dk = row_key(self.exponents_back(k));
                let take_it = match &top {
                    None => true,
                    Some(t) => compare_exponents(dk.as_slice(), t.as_slice()) != Relation::Less,
                };
                if take_it {
                    take = true;
                    m = dk;
                }
            }
            if !take {
                match &top {
                    Some(t) => {
                        m = slice_to_vec(t.as_slice());
                    },
                    None => {
                        proof {
                            assert(false);
                        }
                    },
                }
            }
            let mut c = if take {
                self.field.copy_element(self.coefficient_back(k))
            } else {
                F::zero()
            };
            if take {
                k += 1;
            }
            let drain = match &top {
                Some(t) => compare_exponents(m.as_slice(), t.as_slice()) == Relation::Equal,
                None => false,
            };
            let ghost e = row_of::<E>(m@);
            let ghost c_start = c;
            proof {
                broadcast use vstd::multiset::group_multiset_axioms;

                self.lemma_rows();
                lemma_div_rows(q, g);
                // the keys of the cache are vectors of the right length in the heap
                assert forall|key: Seq<u32>| #[trigger] c_head.dom().contains(key) implies h_head.contains(
                    key,
                ) && key.len() == nv by {
                    assert(h_head.count(key) == 1);
                    assert(entries_ok(q, g, nextj, index@, inheap@, key, c_head[key], 0));
                    let p = c_head[key][0];
                    assert(entry_ok(q, g, nextj, index@, inheap@, key, p));
                    lemma_dpair_order(q, g, p.0 as int, p.1 as int, p.0 as int, p.1 as int);
                }
                if !take {
                    assert(h_head.count(m@) > 0);
                    assert(c_head.dom().contains(m@));
                }
                assert(m@.len() == nv);
                // no key of the cache comes after the monomial
                assert forall|key: Seq<u32>| #[trigger] c_head.dom().contains(key) implies !lex_lt(
                    m@,
                    key,
                ) by {
                    assert(h_head.contains(key));
                    assert(top is Some);
                    assert(!before(false, key, top->0@));
                    crate::poly::heap::lemma_not_before_chain(false, m@, top->0@, key);
                }
                if last is Some {
                    if !take {
                        assert(lex_lt(m@, last->0));
                    } else {
                        assert(lex_lt(key_of(a_back(a, k0)), last->0));
                    }
                    lemma_rank_monotone(m@, last->0);
                }
                lemma_rank_bound(m@);
                lemma_chosen(a, g, q, r, nextj, index@, inheap@, c_head, last, k0, k as int, m@);
                f.lemma_constants();
                if take {
                    assert(f.contains(a.coefficients@[n - 1 - k0]));
                }
            }
            if drain {
                let popped = h.pop();
                let list = cache.remove(&m).unwrap();
                let ghost l = list@;
                proof {
                    broadcast use vstd::multiset::group_multiset_axioms;

                    // what left the heap is the monomial
                    let x = popped->0@;
                    assert(h_head.contains(m@));
                    lemma_lex_total(x, m@);
                    assert(x == m@);
                    assert(heap_matches(h@, cache@));
                    assert(forall|i: int|
                        0 <= i < q.nterms && dpair_fits(q, g, i, 0) ==> #[trigger] dpair_key(q, g, i, 0)
                            != m@) by {
                        assert forall|i: int|
                            0 <= i < q.nterms && dpair_fits(q, g, i, 0) implies #[trigger] dpair_key(
                            q,
                            g,
                            i,
                            0,
                        ) != m@ by {
                            assert(pair_after(q, g, m@, i, 0));
                            lemma_lex_irreflexive(m@);
                        }
                    }
                    lemma_drained(q, g, m@, l, e);
                    lemma_neg_zero(f);
                    f.lemma_add_zero(c);
                    assert(drained(q, g, l).take(0) =~= Seq::<F::Element>::empty());
                }
                let mut t: usize = 0;
                while t < list.len()
                    invariant
                        a == *self,
                        g == *div,
                        f == a.field,
                        d == g.nterms,
                        nv == a.nvars,
                        div_data(a, g, q, r),
                        l == list@,
                        t <= l.len(),
                        h.wf(),
                        h.width() == nv,
                        !h.smallest_first(),
                        heap_matches(h@, cache@),
                        chains_ok(q, g, nextj, index@, inheap@, cache@, Some(m@), m@, l, t as int),
                        done_ok(q, g, nextj, index@, m@),
                        drain_list_ok(q, g, m@, l),
                        forall|i: int| 0 <= i < q.nterms ==> #[trigger] pair_after(q, g, m@, i, 0),
                        settled(a, g, q, r, k as int, m@, true),
                        key_of(row_of::<E>(m@)) == m@,
                        all_in(f, drained(q, g, l)),
                        f.contains(c_start),
                        f.contains(c),
                        c == f.add_spec(
                            c_start,
                            f.neg_spec(ring_sum(f, drained(q, g, l).take(t as int))),
                        ),
                    decreases l.len() - t,
                {
                    let entry = list[t];
                    let ghost dp = drained(q, g, l);
                    proof {
                        assert(entry_ok(q, g, nextj, index@, inheap@, m@, l[t as int]));
                        div.lemma_rows();
                        assert(dp.take(t + 1).drop_last() =~= dp.take(t as int));
                        assert(dp.take(t + 1).last() == dp[t as int]);
                        assert(all_in(f, dp.take(t as int))) by {
                            assert forall|i: int| 0 <= i < dp.take(t as int).len() implies f.contains(
                                #[trigger] dp.take(t as int)[i],
                            ) by {
                                assert(dp.take(t as int)[i] == dp[i]);
                            }
                        }
                        lemma_sum_contained(f, dp.take(t as int));
                        assert(f.contains(dp[t as int]));
                        lemma_sub_step(f, c_start, ring_sum(f, dp.take(t as int)), dp[t as int]);
                        f.lemma_closed(dp[t as int], dp[t as int]);
                        f.lemma_closed(c, f.neg_spec(dp[t as int]));
                    }
                    let prod = self.field.mul(&q.coefficients[entry.0], div.coefficient_back(entry.1));
                    c = self.field.sub(&c, &prod);
                    let worked = q.work_off(
                        div,
                        &mut cache,
                        &mut h,
                        &mut index,
                        &mut inheap,
                        entry,
                        Ghost(nextj),
                        Ghost(m@),
                        Ghost(l),
                        Ghost(t as int),
                    );
                    if !worked.0 {
                        let ghost q_down = q;
                        let q_up = q.reverse();
                        proof {
                            let (i, j) = choose|i: int, j: int|
                                0 <= i < q_down.nterms && 0 <= j < g.nterms && !#[trigger] dpair_fits(
                                    q_down,
                                    g,
                                    i,
                                    j,
                                );
                            assert(pair_after(q_down, g, m@, i, 0));
                            if lead_dominates(g) {
                                lemma_led_fits(q_down, g, i, j);
                            }
                            assert forall|q2: Self, r2: Map<Seq<E>, F::Element>| !clean_division(a, g, q2, r2) by {
                                lemma_range_not_clean(
                                    a,
                                    g,
                                    q_down,
                                    r,
                                    q_up,
                                    k as int,
                                    m@,
                                    true,
                                    q2,
                                    r2,
                                );
                            }
                            lemma_partial_state(a, g, q_down, r, q_up, k as int, m@, true);
                            assert(partial_division(a, g, q_up, r@, row_of::<E>(m@), true));
                        }
                        return None;
                    }
                    proof {
                        nextj = worked.1@;
                    }
                    t += 1;
                }
                proof {
                    assert(drained(q, g, l).take(l.len() as int) =~= drained(q, g, l));
                    lemma_pair_terms_contained(q, g, e);
                    lemma_balance(f, c_start, product_coeff(q, g, e));
                }
            } else {
                proof {
                    broadcast use vstd::multiset::group_multiset_axioms;

                    // the monomial is not in the cache
                    if c_head.dom().contains(m@) {
                        assert(h_head.contains(m@));
                        assert(top is Some);
                        assert(!before(false, m@, top->0@));
                        lemma_lex_total(m@, top->0@);
                        assert(false);
                    }
                    lemma_zero_add(f, c);
                }
            }
            proof {
                // what is left of the coefficient, and what the products took
                assert(a.coeff(e) == f.add_spec(product_coeff(q, g, e), c));
                lemma_pair_terms_contained(q, g, e);
                lemma_built_down_view(r);
            }
            let ghost l_done: Seq<Pending> = if drain {
                c_head[m@]
            } else {
                el
            };
            if F::is_zero(&c) {
                proof {
                    f.lemma_add_zero(product_coeff(q, g, e));
                    lemma_settle_zero(a, g, q, r, k as int, m@);
                    lemma_chains_rest(q, g, nextj, index@, inheap@, cache@, Some(m@), m@, l_done);
                    assert forall|i: int| 0 <= i < q.nterms implies #[trigger] pair_above(
                        q,
                        g,
                        m@,
                        i,
                        0,
                    ) by {
                        assert(pair_after(q, g, m@, i, 0));
                    }
                }
            } else if key_dominates::<E>(&m, lead) {
                let lc = div.coefficient_back(0);
                proof {
                    div.lemma_rows();
                    self.field.lemma_quot_rem(c, *lc);
                }
                let (quot, rem) = self.field.quot_rem(&c, lc);
                if !F::is_zero(&rem) {
                    // the division cannot be carried out cleanly in this ring
                    let q_none = self.new_from(None);
                    let r_all = self.duplicate();
                    let ghost q_down = q;
                    let q_up = q.reverse();
                    proof {
                        lemma_division_failed(a, g, q_none, r_all);
                        assert(!divides(f, *lc, c));
                        assert(dominates(e, lead@)) by {
                            assert forall|v: int| 0 <= v < e.len() implies #[trigger] lead@[v].to_u32_spec()
                                <= e[v].to_u32_spec() by {
                                assert(key_of(e)[v] == m@[v]);
                                assert(key_of(lead@)[v].to_u32_spec() <= m@[v].to_u32_spec());
                            }
                        }
                        assert forall|q2: Self, r2: Map<Seq<E>, F::Element>| !clean_division(a, g, q2, r2) by {
                            lemma_not_clean(a, g, q_down, r, q_up, k as int, m@, c, q2, r2);
                        }
                    }
                    return Some((q_none, r_all));
                }
                proof {
                    // the numbers of the monomial are within range
                    assert forall|v: int| 0 <= v < m@.len() implies #[trigger] m@[v]
                        <= E::max_spec() by {
                        assert(key_of(e)[v] == m@[v]);
                        E::lemma_exponent(e[v], 0);
                    }
                }
                let row = key_minus::<E>(&m, lead);
                let ghost q0 = q;
                proof {
                    let lcv = g.coefficients@[d - 1];
                    f.lemma_closed(quot, lcv);
                    f.lemma_add_zero(f.mul_spec(quot, lcv));
                    assert(f.mul_spec(quot, lcv) == c);
                    if quot == F::zero_spec() {
                        lemma_mul_zero(f, lcv);
                    }
                    // the monomial is the product of the new term and the leading term
                    assert(dominates(e, lead@)) by {
                        assert forall|v: int| 0 <= v < e.len() implies #[trigger] lead@[v].to_u32_spec()
                            <= e[v].to_u32_spec() by {
                            assert(key_of(e)[v] == m@[v]);
                            assert(key_of(lead@)[v].to_u32_spec() <= m@[v].to_u32_spec());
                        }
                    }
                    lemma_row_sub_values(e, lead@);
                    // the new term comes after the quotient terms so far
                    if q.nterms > 0 {
                        let prev = q.rows().last();
                        assert(pair_after(q, g, m@, q.nterms - 1, 0));
                        lemma_lex_total(row@, prev);
                        if !lex_lt(row@, prev) {
                            lemma_row_add_monotone_both(prev, row@, lead@, lead@);
                            lemma_key_of(row_add(prev, lead@), row_add(row@, lead@));
                            lemma_lex_asymmetric(m@, dpair_key(q, g, q.nterms - 1, 0));
                        }
                    }
                }
                q.push_down(quot, row.as_slice());
                proof {
                    assert(q.rows()[q0.nterms as int] == row@);
                    assert(dpair_row(q, g, q0.nterms as int, 0) == e);
                    lemma_settle_quotient(a, g, q0, q, r, k as int, m@);
                    assert forall|i: int| 0 <= i < q0.nterms implies #[trigger] pair_above(
                        q0,
                        g,
                        m@,
                        i,
                        0,
                    ) by {
                        assert(pair_after(q0, g, m@, i, 0));
                    }
                }
                let taken = q.take_up(
                    div,
                    &mut cache,
                    &mut h,
                    &mut index,
                    &mut inheap,
                    Ghost(q0),
                    Ghost(nextj),
                    Ghost(m@),
                    Ghost(l_done),
                );
                if !taken.0 {
                    let ghost q_down = q;
                    let q_up = q.reverse();
                    proof {
                        assert forall|i: int| 0 <= i < q_down.nterms implies #[trigger] pair_above(
                            q_down,
                            g,
                            m@,
                            i,
                            0,
                        ) by {
                            if i < q0.nterms {
                                assert(pair_above(q0, g, m@, i, 0));
                                assert(q_down.rows()[i] == q0.rows()[i]);
                            }
                        }
                        let (i, j) = choose|i: int, j: int|
                            0 <= i < q_down.nterms && 0 <= j < g.nterms && !#[trigger] dpair_fits(
                                q_down,
                                g,
                                i,
                                j,
                            );
                        assert(pair_above(q_down, g, m@, i, 0));
                        if lead_dominates(g) {
                            lemma_led_fits(q_down, g, i, j);
                        }
                        assert forall|q2: Self, r2: Map<Seq<E>, F::Element>| !clean_division(a, g, q2, r2) by {
                            lemma_range_not_clean(
                                a,
                                g,
                                q_down,
                                r,
                                q_up,
                                k as int,
                                m@,
                                false,
                                q2,
                                r2,
                            );
                        }
                        lemma_partial_state(a, g, q_down, r, q_up, k as int, m@, false);
                        assert(partial_division(a, g, q_up, r@, row_of::<E>(m@), false));
                    }
                    return None;
                }
                proof {
                    nextj = taken.1@;
                    lemma_chains_rest(q, g, nextj, index@, inheap@, cache@, Some(m@), m@, el);
                }
            } else {
                proof {
                    assert forall|v: int| 0 <= v < m@.len() implies #[trigger] m@[v]
                        <= E::max_spec() by {
                        assert(key_of(e)[v] == m@[v]);
                        E::lemma_exponent(e[v], 0);
                    }
                }
                let row = key_to_exponents::<E>(&m);
                let ghost r0 = r;
                proof {
                    if r.nterms > 0 {
                        let t = r.nterms - 1;
                        assert(lex_lt(m@, key_of(r.rows()[t])));
                        lemma_key_of(row@, r.rows()[t]);
                    }
                    assert(!dominates(e, lead@)) by {
                        if dominates(e, lead@) {
                            assert forall|v: int| 0 <= v < m@.len() implies #[trigger] key_of(
                                lead@,
                            )[v].to_u32_spec() <= m@[v].to_u32_spec() by {
                                assert(key_of(e)[v] == m@[v]);
                                assert(lead@[v].to_u32_spec() <= e[v].to_u32_spec());
                            }
                        }
                    }
                }
                r.push_down(c, row.as_slice());
                proof {
                    lemma_settle_remainder(a, g, q, r0, r, k as int, m@);
                    lemma_chains_rest(q, g, nextj, index@, inheap@, cache@, Some(m@), m@, l_done);
                    assert forall|i: int| 0 <= i < q.nterms implies #[trigger] pair_above(
                        q,
                        g,
                        m@,
                        i,
                        0,
                    ) by {
                        assert(pair_after(q, g, m@, i, 0));
                    }
                }
            }
            proof {
                last = Some(m@);
            }
        }
        proof {
            broadcast use vstd::multiset::group_multiset_axioms;

            assert forall|key: Seq<u32>| !cache@.dom().contains(key) by {
                assert(h@.count(key) == 0);
            }
            assert(cache@ =~= Map::<Seq<u32>, Seq<Pending>>::empty());
        }
        // q and r have the highest monomials first
        let ghost q_down = q;
        let ghost r_down = r;
        let q_up = q.reverse();
        let r_up = r.reverse();
        proof {
            lemma_division_done(a, g, q_down, r_down, q_up, r_up, nextj, index@, inheap@, last);
        }
        Some((q_up, r_up))
    }
}

} // verus!
