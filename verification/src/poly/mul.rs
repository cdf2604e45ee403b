//! Multiplication with a heap.
//!
//! This is a variation of the heap method described in "Sparse polynomial
//! division using a heap" by Monagan, Pearce (2011). A heap hands out the
//! exponent vectors of the result in increasing order. A hash map from the
//! exponent vector to the list of all pairs of terms that have it
//! keeps every exponent vector only once in the heap, so that all products
//! with one exponent vector are summed when it leaves the heap. Then the
//! pairs are put in that have to be considered next.
use crate::poly::cache::{no_entries, MonomialCache, Pending};
use crate::poly::heap::{before, ExponentHeap};
use crate::poly::monomial::{
    key_of, lemma_key_of, lemma_lex_irreflexive, lemma_lex_le_lt, lemma_lex_total,
    lemma_lex_transitive, lemma_rank_bound, lemma_rank_monotone, lemma_row_add_values, lex_le,
    lex_lt, rank, rank_bound, row_add, row_of, sum_fits,
};
use crate::poly::polynomial::{same_variables, var_map_view, MultivariatePolynomial};
use crate::poly::product::{
    can_multiply, lemma_pair_rows_increasing, lemma_pair_terms_contained, lemma_product_coeff_zero,
    lemma_row_sum_hit, lemma_row_sum_miss, lemma_sparse_sum, lemma_sum_zeros, mul_view, pair_row,
    pair_terms, product_coeff, product_fits, ring_sum, row_sums,
};
use crate::poly::Exponent;
use crate::rings::Ring;
use vstd::multiset::Multiset;
use vstd::prelude::*;

verus! {

/// How far the rows of pairs have been worked off: of the pairs of term `i`
/// of the first polynomial, the first `next[i]` are done, and the terms before
/// `started` have been taken up. A term is taken up as soon as the first pair
/// of the term before it is done; `settled` says that this has happened
/// wherever it is due.
pub open spec fn frontier_ok(n: int, m: int, next: Seq<int>, started: int, settled: bool) -> bool {
    &&& next.len() == n
    &&& 1 <= started <= n
    &&& forall|i: int| 0 <= i < n ==> 0 <= #[trigger] next[i] <= m
    &&& forall|i: int| started <= i < n ==> #[trigger] next[i] == 0
    &&& forall|i: int| 0 <= i < started - 1 ==> #[trigger] next[i] >= 1
    &&& settled && started < n ==> next[started - 1] == 0
}

/// The pair `p` is the next pair of its row, and `key` stands for the exponent
/// vector of its product.
pub open spec fn pending_ok<F: Ring, E: Exponent>(
    a: MultivariatePolynomial<F, E>,
    b: MultivariatePolynomial<F, E>,
    next: Seq<int>,
    started: int,
    key: Seq<u32>,
    p: Pending,
) -> bool {
    &&& 0 <= p.0 < started
    &&& next[p.0 as int] == p.1
    &&& p.1 < b.nterms
    &&& key_of(pair_row(a, b, p.0 as int, p.1 as int)) == key
}

/// From the place `from` on, the list holds next pairs of distinct rows, all
/// with the exponent vector that `key` stands for.
pub open spec fn list_ok<F: Ring, E: Exponent>(
    a: MultivariatePolynomial<F, E>,
    b: MultivariatePolynomial<F, E>,
    next: Seq<int>,
    started: int,
    key: Seq<u32>,
    l: Seq<Pending>,
    from: int,
) -> bool {
    &&& forall|k: int|
        from <= k < l.len() ==> pending_ok(a, b, next, started, key, #[trigger] l[k])
    &&& forall|k1: int, k2: int|
        from <= k1 < k2 < l.len() ==> (#[trigger] l[k1]).0 != (#[trigger] l[k2]).0
}

/// Every list of the cache holds next pairs of distinct rows with the
/// exponent vector that its key stands for, and none is empty.
pub open spec fn cache_ok<F: Ring, E: Exponent>(
    a: MultivariatePolynomial<F, E>,
    b: MultivariatePolynomial<F, E>,
    next: Seq<int>,
    started: int,
    c: Map<Seq<u32>, Seq<Pending>>,
) -> bool {
    forall|key: Seq<u32>| #[trigger]
        c.dom().contains(key) ==> c[key].len() > 0 && list_ok(a, b, next, started, key, c[key], 0)
}

/// From the place `from` on, the list holds a pair of the row `i`.
pub open spec fn listed(l: Seq<Pending>, from: int, i: int) -> bool {
    exists|k: int| from <= k < l.len() && (#[trigger] l[k]).0 == i
}

/// The next pair of every row that has been taken up, but for the row `skip`,
/// waits in the cache or in the rest of the list that is worked off.
pub open spec fn all_listed<F: Ring, E: Exponent>(
    a: MultivariatePolynomial<F, E>,
    b: MultivariatePolynomial<F, E>,
    next: Seq<int>,
    started: int,
    c: Map<Seq<u32>, Seq<Pending>>,
    cur: Seq<u32>,
    l: Seq<Pending>,
    from: int,
    skip: int,
) -> bool {
    forall|i: int|
        0 <= i < started && i != skip && #[trigger] next[i] < b.nterms ==> {
            let key = key_of(pair_row(a, b, i, next[i]));
            ||| (c.dom().contains(key) && listed(c[key], 0, i))
            ||| (key == cur && listed(l, from, i))
        }
}

/// The pairs that are done have exponent vectors up to the one that `bound`
/// stands for.
pub open spec fn done_up_to<F: Ring, E: Exponent>(
    a: MultivariatePolynomial<F, E>,
    b: MultivariatePolynomial<F, E>,
    next: Seq<int>,
    bound: Seq<u32>,
) -> bool {
    forall|i: int, j: int|
        0 <= i < a.nterms && 0 <= j < next[i] ==> lex_le(
            key_of(#[trigger] pair_row(a, b, i, j)),
            bound,
        )
}

/// Every key of the cache comes after `cur`.
pub open spec fn keys_after(c: Map<Seq<u32>, Seq<Pending>>, cur: Seq<u32>) -> bool {
    forall|key: Seq<u32>| #[trigger] c.dom().contains(key) ==> lex_lt(cur, key)
}

/// The heap holds the keys of the cache, each once.
pub open spec fn heap_matches(h: Multiset<Seq<u32>>, c: Map<Seq<u32>, Seq<Pending>>) -> bool {
    forall|key: Seq<u32>|
        #[trigger] h.count(key) == (if c.dom().contains(key) {
            1nat
        } else {
            0nat
        })
}

/// The cache with the pair `p` appended to the list of `key`.
pub open spec fn with_pending(
    c: Map<Seq<u32>, Seq<Pending>>,
    key: Seq<u32>,
    p: Pending,
) -> Map<Seq<u32>, Seq<Pending>> {
    c.insert(
        key,
        (if c.dom().contains(key) {
            c[key]
        } else {
            Seq::<Pending>::empty()
        }).push(p),
    )
}

/// Working off the pair at the place `t` of the list: its row moves on by
/// one, and what waits for other rows is not touched.
pub proof fn lemma_consume<F: Ring, E: Exponent>(
    a: MultivariatePolynomial<F, E>,
    b: MultivariatePolynomial<F, E>,
    next: Seq<int>,
    started: int,
    c: Map<Seq<u32>, Seq<Pending>>,
    cur: Seq<u32>,
    l: Seq<Pending>,
    t: int,
)
    requires
        can_multiply(a, b),
        frontier_ok(a.nterms as int, b.nterms as int, next, started, true),
        cache_ok(a, b, next, started, c),
        keys_after(c, cur),
        list_ok(a, b, next, started, cur, l, t),
        all_listed(a, b, next, started, c, cur, l, t, -1),
        done_up_to(a, b, next, cur),
        0 <= t < l.len(),
    ensures
        ({
            let i = l[t].0 as int;
            let next2 = next.update(i, next[i] + 1);
            &&& frontier_ok(a.nterms as int, b.nterms as int, next2, started, false)
            &&& (next[i] == 0 ==> i == started - 1)
            &&& (started < a.nterms && next[i] != 0 ==> next2[started - 1] == 0)
            &&& cache_ok(a, b, next2, started, c)
            &&& list_ok(a, b, next2, started, cur, l, t + 1)
            &&& all_listed(a, b, next2, started, c, cur, l, t + 1, i)
            &&& done_up_to(a, b, next2, cur)
            &&& !listed(l, t + 1, i)
            &&& forall|key: Seq<u32>| #[trigger] c.dom().contains(key) ==> !listed(c[key], 0, i)
        }),
{
    let i = l[t].0 as int;
    let j = l[t].1 as int;
    let next2 = next.update(i, next[i] + 1);
    assert(pending_ok(a, b, next, started, cur, l[t]));
    // no other entry is one of row i
    assert forall|key: Seq<u32>| #[trigger] c.dom().contains(key) implies !listed(c[key], 0, i) by {
        if listed(c[key], 0, i) {
            let k = choose|k: int| 0 <= k < c[key].len() && (#[trigger] c[key][k]).0 == i;
            assert(pending_ok(a, b, next, started, key, c[key][k]));
            assert(key == cur);
            lemma_lex_irreflexive(cur);
        }
    }
    if listed(l, t + 1, i) {
        let k = choose|k: int| t + 1 <= k < l.len() && (#[trigger] l[k]).0 == i;
        assert(l[t].0 != l[k].0);
    }
    assert forall|key: Seq<u32>| #[trigger] c.dom().contains(key) implies c[key].len() > 0
        && list_ok(a, b, next2, started, key, c[key], 0) by {
        assert(list_ok(a, b, next, started, key, c[key], 0));
        assert forall|k: int| 0 <= k < c[key].len() implies pending_ok(
            a,
            b,
            next2,
            started,
            key,
            #[trigger] c[key][k],
        ) by {
            assert(pending_ok(a, b, next, started, key, c[key][k]));
            if c[key][k].0 == i {
                assert(listed(c[key], 0, i));
            }
        }
    }
    assert forall|k: int| t + 1 <= k < l.len() implies pending_ok(
        a,
        b,
        next2,
        started,
        cur,
        #[trigger] l[k],
    ) by {
        assert(pending_ok(a, b, next, started, cur, l[k]));
        assert(l[t].0 != l[k].0);
    }
    assert forall|i2: int|
        0 <= i2 < started && i2 != i && #[trigger] next2[i2] < b.nterms implies {
        let key = key_of(pair_row(a, b, i2, next2[i2]));
        ||| (c.dom().contains(key) && listed(c[key], 0, i2))
        ||| (key == cur && listed(l, t + 1, i2))
    } by {
        assert(next[i2] == next2[i2]);
        let key = key_of(pair_row(a, b, i2, next[i2]));
        if !(c.dom().contains(key) && listed(c[key], 0, i2)) {
            assert(listed(l, t, i2));
            let k = choose|k: int| t <= k < l.len() && (#[trigger] l[k]).0 == i2;
            assert(k != t);
            assert(l[k].0 == i2);
        }
    }
    assert forall|i2: int, j2: int| 0 <= i2 < a.nterms && 0 <= j2 < next2[i2] implies lex_le(
        key_of(#[trigger] pair_row(a, b, i2, j2)),
        cur,
    ) by {
        if i2 == i && j2 == j {
        } else {
            assert(0 <= j2 < next[i2]);
        }
    }
}

/// Putting the next pair of a row into the cache that has none waiting.
pub proof fn lemma_add_pending<F: Ring, E: Exponent>(
    a: MultivariatePolynomial<F, E>,
    b: MultivariatePolynomial<F, E>,
    next: Seq<int>,
    started: int,
    c: Map<Seq<u32>, Seq<Pending>>,
    cur: Seq<u32>,
    l: Seq<Pending>,
    from: int,
    p: Pending,
)
    requires
        can_multiply(a, b),
        cache_ok(a, b, next, started, c),
        keys_after(c, cur),
        all_listed(a, b, next, started, c, cur, l, from, p.0 as int),
        pending_ok(a, b, next, started, key_of(pair_row(a, b, p.0 as int, p.1 as int)), p),
        lex_lt(cur, key_of(pair_row(a, b, p.0 as int, p.1 as int))),
        forall|key: Seq<u32>| #[trigger] c.dom().contains(key) ==> !listed(c[key], 0, p.0 as int),
    ensures
        ({
            let key = key_of(pair_row(a, b, p.0 as int, p.1 as int));
            let c2 = with_pending(c, key, p);
            &&& cache_ok(a, b, next, started, c2)
            &&& keys_after(c2, cur)
            &&& all_listed(a, b, next, started, c2, cur, l, from, -1)
        }),
{
    let key = key_of(pair_row(a, b, p.0 as int, p.1 as int));
    let c2 = with_pending(c, key, p);
    let old_list = if c.dom().contains(key) {
        c[key]
    } else {
        Seq::<Pending>::empty()
    };
    let new_list = old_list.push(p);
    assert(c2[key] == new_list);
    assert forall|k2: Seq<u32>| #[trigger] c2.dom().contains(k2) implies c2[k2].len() > 0
        && list_ok(a, b, next, started, k2, c2[k2], 0) by {
        if k2 == key {
            if c.dom().contains(key) {
                assert(list_ok(a, b, next, started, key, c[key], 0));
            }
            assert forall|k: int| 0 <= k < new_list.len() implies pending_ok(
                a,
                b,
                next,
                started,
                key,
                #[trigger] new_list[k],
            ) by {
                if k < old_list.len() {
                    assert(new_list[k] == old_list[k]);
                    assert(pending_ok(a, b, next, started, key, old_list[k]));
                }
            }
            assert forall|k1: int, k2: int| 0 <= k1 < k2 < new_list.len() implies (
            #[trigger] new_list[k1]).0 != (#[trigger] new_list[k2]).0 by {
                assert(new_list[k1] == old_list[k1]);
                if k2 < old_list.len() {
                    assert(new_list[k2] == old_list[k2]);
                } else {
                    if old_list[k1].0 == p.0 {
                        assert(listed(c[key], 0, p.0 as int));
                    }
                }
            }
        } else {
            assert(c.dom().contains(k2));
            assert(c2[k2] == c[k2]);
        }
    }
    assert forall|k2: Seq<u32>| #[trigger] c2.dom().contains(k2) implies lex_lt(cur, k2) by {
        if k2 != key {
            assert(c.dom().contains(k2));
        }
    }
    assert forall|i: int| 0 <= i < started && i != -1 && #[trigger] next[i] < b.nterms implies {
        let k2 = key_of(pair_row(a, b, i, next[i]));
        ||| (c2.dom().contains(k2) && listed(c2[k2], 0, i))
        ||| (k2 == cur && listed(l, from, i))
    } by {
        let k2 = key_of(pair_row(a, b, i, next[i]));
        if i == p.0 {
            assert(k2 == key);
            assert(new_list[old_list.len() as int].0 == i);
        } else {
            if c.dom().contains(k2) && listed(c[k2], 0, i) {
                let k = choose|k: int| 0 <= k < c[k2].len() && (#[trigger] c[k2][k]).0 == i;
                if k2 == key {
                    assert(new_list[k] == old_list[k]);
                    assert(new_list[k].0 == i);
                } else {
                    assert(c2[k2] == c[k2]);
                }
            }
        }
    }
}

/// A pair that is not done does not come before any key of the cache that no
/// key comes before; and if it has the exponent vector of such a key, it is
/// the next pair of a row that has been taken up.
pub proof fn lemma_not_done_bound<F: Ring, E: Exponent>(
    a: MultivariatePolynomial<F, E>,
    b: MultivariatePolynomial<F, E>,
    next: Seq<int>,
    started: int,
    c: Map<Seq<u32>, Seq<Pending>>,
    cur: Seq<u32>,
    i: int,
    j: int,
)
    requires
        can_multiply(a, b),
        frontier_ok(a.nterms as int, b.nterms as int, next, started, true),
        cache_ok(a, b, next, started, c),
        all_listed(a, b, next, started, c, cur, Seq::<Pending>::empty(), 0, -1),
        forall|key: Seq<u32>| #[trigger] c.dom().contains(key) ==> !lex_lt(key, cur),
        0 <= i < a.nterms,
        next[i] <= j < b.nterms,
    ensures
        !lex_lt(key_of(pair_row(a, b, i, j)), cur),
        key_of(pair_row(a, b, i, j)) == cur ==> i < started && j == next[i],
{
    lemma_pair_rows_increasing(a, b);
    let k = key_of(pair_row(a, b, i, j));
    // a pair that waits in the cache and does not come after the pair (i, j)
    let i0 = if i < started { i } else { started - 1 };
    let j0 = next[i0];
    assert(j0 < b.nterms);
    let k0 = key_of(pair_row(a, b, i0, j0));
    assert(c.dom().contains(k0)) by {
        assert(!listed(Seq::<Pending>::empty(), 0, i0));
    }
    assert(!lex_lt(k0, cur));
    if i0 != i || j0 != j {
        // the pair that waits comes before the pair (i, j)
        if i0 != i {
            assert(lex_lt(pair_row(a, b, i0, 0), pair_row(a, b, i, 0)));
            if j > 0 {
                assert(lex_lt(pair_row(a, b, i, 0), pair_row(a, b, i, j)));
                lemma_lex_transitive(pair_row(a, b, i0, 0), pair_row(a, b, i, 0), pair_row(a, b, i, j));
            }
        } else {
            assert(lex_lt(pair_row(a, b, i, j0), pair_row(a, b, i, j)));
        }
        lemma_key_of(pair_row(a, b, i0, j0), pair_row(a, b, i, j));
        assert(lex_lt(k0, k));
        if lex_lt(k, cur) {
            lemma_lex_transitive(k0, k, cur);
        }
    }
}

/// The products of the pairs of a list that holds, for one exponent vector,
/// every pair with that exponent vector once, add up to the coefficient of the
/// product.
pub proof fn lemma_drained_sum<F: Ring, E: Exponent>(
    a: MultivariatePolynomial<F, E>,
    b: MultivariatePolynomial<F, E>,
    l: Seq<Pending>,
    e: Seq<E>,
)
    requires
        can_multiply(a, b),
        forall|k: int|
            0 <= k < l.len() ==> (#[trigger] l[k]).0 < a.nterms && l[k].1 < b.nterms && pair_row(
                a,
                b,
                l[k].0 as int,
                l[k].1 as int,
            ) == e,
        forall|k1: int, k2: int|
            0 <= k1 < k2 < l.len() ==> (#[trigger] l[k1]).0 != (#[trigger] l[k2]).0,
        forall|i: int, j: int|
            0 <= i < a.nterms && 0 <= j < b.nterms && #[trigger] pair_row(a, b, i, j) == e
                ==> listed(l, 0, i),
    ensures
        ring_sum(a.field, drained_products(a, b, l)) == product_coeff(a, b, e),
{
    let f = a.field;
    let idx = Seq::new(l.len(), |k: int| l[k].0 as int);
    let vals = drained_products(a, b, l);
    let dense = row_sums(a, b, e);
    lemma_pair_terms_contained(a, b, e);
    assert forall|k: int| 0 <= k < idx.len() implies 0 <= #[trigger] idx[k] < dense.len()
        && dense[idx[k]] == vals[k] by {
        assert(l[k].0 < a.nterms);
        lemma_row_sum_hit(a, b, l[k].0 as int, l[k].1 as int, e);
    }
    assert forall|k1: int, k2: int|
        0 <= k1 < idx.len() && 0 <= k2 < idx.len() && k1 != k2 implies idx[k1] != idx[k2] by {
        if k1 < k2 {
            assert(l[k1].0 != l[k2].0);
        } else {
            assert(l[k2].0 != l[k1].0);
        }
    }
    assert forall|i: int| 0 <= i < dense.len() && !idx.contains(i) implies #[trigger] dense[i]
        == F::zero_spec() by {
        assert forall|j: int| 0 <= j < b.nterms implies #[trigger] pair_row(a, b, i, j) != e by {
            if pair_row(a, b, i, j) == e {
                assert(listed(l, 0, i));
                let k = choose|k: int| 0 <= k < l.len() && (#[trigger] l[k]).0 == i;
                assert(idx[k] == i);
            }
        }
        lemma_row_sum_miss(a, b, i, e);
    }
    lemma_sparse_sum(f, idx, vals, dense);
}

/// The products of the coefficients of the pairs of a list.
pub open spec fn drained_products<F: Ring, E: Exponent>(
    a: MultivariatePolynomial<F, E>,
    b: MultivariatePolynomial<F, E>,
    l: Seq<Pending>,
) -> Seq<F::Element> {
    Seq::new(
        l.len(),
        |k: int| a.field.mul_spec(a.coefficients@[l[k].0 as int], b.coefficients@[l[k].1 as int]),
    )
}

/// What holds of the list of pairs that is worked off while it is worked off:
/// it holds every pair with the exponent vector that `cur` stands for once.
pub open spec fn drain_ok<F: Ring, E: Exponent>(
    a: MultivariatePolynomial<F, E>,
    b: MultivariatePolynomial<F, E>,
    cur: Seq<u32>,
    l: Seq<Pending>,
) -> bool {
    &&& cur.len() == a.nvars
    &&& l.len() > 0
    &&& forall|k: int|
        0 <= k < l.len() ==> (#[trigger] l[k]).0 < a.nterms && l[k].1 < b.nterms && key_of(
            pair_row(a, b, l[k].0 as int, l[k].1 as int),
        ) == cur
    &&& forall|k1: int, k2: int|
        0 <= k1 < k2 < l.len() ==> (#[trigger] l[k1]).0 != (#[trigger] l[k2]).0
    &&& forall|i: int, j: int|
        0 <= i < a.nterms && 0 <= j < b.nterms && key_of(#[trigger] pair_row(a, b, i, j)) == cur
            ==> listed(l, 0, i)
}

/// The result so far has the terms of the product up to the exponent vector
/// that `bound` stands for, itself left out if `strict`.
pub open spec fn result_ok<F: Ring, E: Exponent>(
    a: MultivariatePolynomial<F, E>,
    b: MultivariatePolynomial<F, E>,
    res: MultivariatePolynomial<F, E>,
    bound: Seq<u32>,
    strict: bool,
) -> bool {
    &&& forall|k: int|
        0 <= k < res.nterms ==> lex_lt(key_of(#[trigger] res.rows()[k]), bound) || (!strict
            && key_of(res.rows()[k]) == bound)
    &&& forall|e: Seq<E>|
        lex_lt(#[trigger] key_of(e), bound) || (!strict && key_of(e) == bound) ==> res.coeff(e)
            == product_coeff(a, b, e)
}

/// When a vector has left the heap that nothing in the heap comes before: the
/// result holds the terms of the product before it, and its list in the cache
/// holds every pair with its exponent vector.
pub proof fn lemma_after_pop<F: Ring, E: Exponent>(
    a: MultivariatePolynomial<F, E>,
    b: MultivariatePolynomial<F, E>,
    res: MultivariatePolynomial<F, E>,
    next: Seq<int>,
    started: int,
    c: Map<Seq<u32>, Seq<Pending>>,
    last: Option<Seq<u32>>,
    cur: Seq<u32>,
)
    requires
        can_multiply(a, b),
        res.wf(),
        frontier_ok(a.nterms as int, b.nterms as int, next, started, true),
        cache_ok(a, b, next, started, c),
        all_listed(a, b, next, started, c, cur, Seq::<Pending>::empty(), 0, -1),
        c.dom().contains(cur),
        forall|key: Seq<u32>| #[trigger] c.dom().contains(key) ==> !lex_lt(key, cur),
        last matches Some(x) ==> keys_after(c, x) && done_up_to(a, b, next, x) && result_ok(
            a,
            b,
            res,
            x,
            false,
        ),
        last is None ==> res.nterms == 0 && forall|i: int|
            0 <= i < a.nterms ==> #[trigger] next[i] == 0,
    ensures
        drain_ok(a, b, cur, c[cur]),
        result_ok(a, b, res, cur, true),
        done_up_to(a, b, next, cur),
        keys_after(c.remove(cur), cur),
        cache_ok(a, b, next, started, c.remove(cur)),
        list_ok(a, b, next, started, cur, c[cur], 0),
        all_listed(a, b, next, started, c.remove(cur), cur, c[cur], 0, -1),
        last matches Some(x) ==> lex_lt(x, cur),
{
    let l = c[cur];
    lemma_pair_rows_increasing(a, b);
    a.lemma_rows();
    b.lemma_rows();
    res.lemma_rows();
    assert(list_ok(a, b, next, started, cur, l, 0));
    assert(pending_ok(a, b, next, started, cur, l[0]));
    assert(cur.len() == a.nvars);
    if last is Some {
        assert(lex_lt(last->0, cur));
    }
    // the pairs that are done come before cur
    assert forall|i: int, j: int| 0 <= i < a.nterms && 0 <= j < next[i] implies lex_le(
        key_of(#[trigger] pair_row(a, b, i, j)),
        cur,
    ) by {
        lemma_lex_le_lt(key_of(pair_row(a, b, i, j)), last->0, cur);
    }
    // every pair with the exponent vector of cur is in the list
    assert forall|i: int, j: int|
        0 <= i < a.nterms && 0 <= j < b.nterms && key_of(#[trigger] pair_row(a, b, i, j))
            == cur implies listed(l, 0, i) by {
        if j < next[i] {
            lemma_lex_le_lt(key_of(pair_row(a, b, i, j)), last->0, cur);
            lemma_lex_irreflexive(cur);
        } else {
            lemma_not_done_bound(a, b, next, started, c, cur, i, j);
            assert(!listed(Seq::<Pending>::empty(), 0, i));
        }
    }
    assert forall|k: int| 0 <= k < l.len() implies (#[trigger] l[k]).0 < a.nterms && l[k].1
        < b.nterms && key_of(pair_row(a, b, l[k].0 as int, l[k].1 as int)) == cur by {
        assert(pending_ok(a, b, next, started, cur, l[k]));
    }
    // the keys that stay come after cur
    assert forall|key: Seq<u32>| #[trigger] c.remove(cur).dom().contains(key) implies lex_lt(
        cur,
        key,
    ) by {
        assert(c.dom().contains(key));
        assert(list_ok(a, b, next, started, key, c[key], 0));
        assert(pending_ok(a, b, next, started, key, c[key][0]));
        lemma_lex_total(cur, key);
    }
    assert forall|key: Seq<u32>| #[trigger] c.remove(cur).dom().contains(key) implies c.remove(
        cur,
    )[key].len() > 0 && list_ok(a, b, next, started, key, c.remove(cur)[key], 0) by {
        assert(c.dom().contains(key));
    }
    assert forall|i: int| 0 <= i < started && i != -1 && #[trigger] next[i] < b.nterms implies {
        let key = key_of(pair_row(a, b, i, next[i]));
        ||| (c.remove(cur).dom().contains(key) && listed(c.remove(cur)[key], 0, i))
        ||| (key == cur && listed(l, 0, i))
    } by {
        assert(!listed(Seq::<Pending>::empty(), 0, i));
    }
    // the result has the terms before cur
    assert forall|k: int| 0 <= k < res.nterms implies lex_lt(
        key_of(#[trigger] res.rows()[k]),
        cur,
    ) by {
        lemma_lex_le_lt(key_of(res.rows()[k]), last->0, cur);
    }
    assert forall|e: Seq<E>| lex_lt(#[trigger] key_of(e), cur) implies res.coeff(e)
        == product_coeff(a, b, e) by {
        if last is Some && lex_le(key_of(e), last->0) {
        } else {
            assert forall|i: int, j: int| 0 <= i < a.nterms && 0 <= j < b.nterms implies #[trigger] pair_row(
                a,
                b,
                i,
                j,
            ) != e by {
                if pair_row(a, b, i, j) == e {
                    if j < next[i] {
                        assert(lex_le(key_of(pair_row(a, b, i, j)), last->0));
                    } else {
                        lemma_not_done_bound(a, b, next, started, c, cur, i, j);
                    }
                }
            }
            lemma_product_coeff_zero(a, b, e);
            if res@.dom().contains(e) {
                let k = res.rows().index_of(e);
                assert(lex_le(key_of(res.rows()[k]), last->0));
            }
        }
    }
}

/// When the heap is empty, the result is the product.
pub proof fn lemma_mul_done<F: Ring, E: Exponent>(
    a: MultivariatePolynomial<F, E>,
    b: MultivariatePolynomial<F, E>,
    res: MultivariatePolynomial<F, E>,
    next: Seq<int>,
    started: int,
    last: Option<Seq<u32>>,
)
    requires
        can_multiply(a, b),
        a.nterms > 0,
        b.nterms > 0,
        res.wf(),
        frontier_ok(a.nterms as int, b.nterms as int, next, started, true),
        all_listed(
            a,
            b,
            next,
            started,
            no_entries(),
            Seq::<u32>::empty(),
            Seq::<Pending>::empty(),
            0,
            -1,
        ),
        last matches Some(x) ==> done_up_to(a, b, next, x) && result_ok(a, b, res, x, false),
        last is None ==> res.nterms == 0 && forall|i: int|
            0 <= i < a.nterms ==> #[trigger] next[i] == 0,
    ensures
        res@ == mul_view(a, b),
{
    res.lemma_rows();
    // every row is worked off, so every row has been taken up
    assert forall|i: int| 0 <= i < started implies #[trigger] next[i] == b.nterms by {
        if next[i] < b.nterms {
            assert(!listed(Seq::<Pending>::empty(), 0, i));
        }
    }
    assert(started == a.nterms);
    assert(next[0] == b.nterms);
    assert(last is Some);
    let x = last->0;
    assert forall|e: Seq<E>| res.coeff(e) == product_coeff(a, b, e) by {
        if lex_lt(key_of(e), x) || key_of(e) == x {
        } else {
            assert forall|i: int, j: int| 0 <= i < a.nterms && 0 <= j < b.nterms implies #[trigger] pair_row(
                a,
                b,
                i,
                j,
            ) != e by {
                if pair_row(a, b, i, j) == e {
                    assert(0 <= j < next[i]);
                    assert(lex_le(key_of(pair_row(a, b, i, j)), x));
                }
            }
            lemma_product_coeff_zero(a, b, e);
            if res@.dom().contains(e) {
                let k = res.rows().index_of(e);
                assert(res.rows()[k] == e);
            }
        }
    }
    assert forall|e: Seq<E>| res@.dom().contains(e) <==> mul_view(a, b).dom().contains(e) by {
        assert(res.coeff(e) == product_coeff(a, b, e));
    }
    assert forall|e: Seq<E>| res@.dom().contains(e) implies res@[e] == mul_view(a, b)[e] by {
        assert(res.coeff(e) == product_coeff(a, b, e));
    }
    assert(res@ =~= mul_view(a, b));
}

/// The product with the zero polynomial is the zero polynomial.
pub proof fn lemma_mul_view_zero<F: Ring, E: Exponent>(
    a: MultivariatePolynomial<F, E>,
    b: MultivariatePolynomial<F, E>,
)
    requires
        a.field.valid(),
        a.nterms == 0 || b.nterms == 0,
    ensures
        mul_view(a, b) == Map::<Seq<E>, F::Element>::empty(),
{
    assert forall|e: Seq<E>| product_coeff(a, b, e) == F::zero_spec() by {
        assert forall|i: int| 0 <= i < a.nterms implies #[trigger] row_sums(a, b, e)[i]
            == F::zero_spec() by {
            lemma_sum_zeros(a.field, pair_terms(a, b, i, e));
        }
        lemma_sum_zeros(a.field, row_sums(a, b, e));
    }
    assert(mul_view(a, b) =~= Map::<Seq<E>, F::Element>::empty());
}

impl<F: Ring, E: Exponent> MultivariatePolynomial<F, E> {
    /// The numbers of the exponent vector of the product of term `i` of `self`
    /// and term `j` of `other`.
    pub(crate) fn pair_key(&self, i: usize, other: &Self, j: usize) -> (r: Vec<u32>)
        requires
            self.consistent(),
            other.consistent(),
            self.nvars == other.nvars,
            i < self.nterms,
            j < other.nterms,
            sum_fits(self.rows()[i as int], other.rows()[j as int]),
        ensures
            r@ == key_of(pair_row(*self, *other, i as int, j as int)),
            r@.len() == self.nvars,
    {
        proof {
            self.lemma_rows();
            other.lemma_rows();
        }
        let x = self.exponents(i);
        let y = other.exponents(j);
        let n = self.nvars;
        let ghost target = key_of(pair_row(*self, *other, i as int, j as int));
        proof {
            lemma_row_add_values(x@, y@);
        }
        let mut r: Vec<u32> = Vec::with_capacity(n);
        let mut v: usize = 0;
        while v < n
            invariant
                n == x@.len(),
                n == y@.len(),
                v <= n,
                sum_fits(x@, y@),
                target == key_of(row_add(x@, y@)),
                row_add(x@, y@).len() == n,
                forall|w: int|
                    0 <= w < n ==> (#[trigger] row_add(x@, y@)[w]).to_u32_spec() == x@[w].to_u32_spec()
                        + y@[w].to_u32_spec(),
                r@ == target.take(v as int),
            decreases n - v,
        {
            proof {
                assert(x@[v as int].to_u32_spec() + y@[v as int].to_u32_spec() <= E::max_spec());
            }
            r.push(x[v].to_u32() + y[v].to_u32());
            proof {
                assert(r@ =~= target.take(v + 1));
            }
            v += 1;
        }
        proof {
            assert(target.take(n as int) =~= target);
        }
        r
    }

    /// Multiplication for multivariate polynomials using a custom variation of
    /// the heap method described in "Sparse polynomial division using a heap"
    /// by Monagan, Pearce (2011).
    pub fn heap_mul(&self, other: &Self) -> (res: Self)
        requires
            self.wf(),
            other.wf(),
            self.field == other.field,
            same_variables(self.var_map, other.var_map) || self.nterms == 0 || other.nterms == 0,
            self.nterms > 0 && other.nterms > 0 ==> self.nvars == other.nvars && product_fits(
                *self,
                *other,
            ),
        ensures
            res.wf(),
            res@ == mul_view(*self, *other),
            res.nvars == self.nvars,
            res.field == self.field,
            var_map_view(res.var_map) == var_map_view(self.var_map),
    {
        let mut res = self.new_from(Some(self.nterms));
        if self.nterms == 0 || other.nterms == 0 {
            proof {
                lemma_mul_view_zero(*self, *other);
            }
            return res;
        }
        let n = self.nterms;
        let m = other.nterms;
        let nv = self.nvars;
        let ghost a = *self;
        let ghost b = *other;
        let ghost f = self.field;
        proof {
            self.lemma_rows();
            other.lemma_rows();
            lemma_pair_rows_increasing(a, b);
        }
        let mut cache = MonomialCache::with_capacity(n);
        // a min-heap, since the polynomials are sorted smallest to largest
        let mut h = ExponentHeap::new(nv, true, n);
        let monom = self.pair_key(0, other, 0);
        let ghost first = monom@;
        cache.add(&monom, (0, 0, false));
        h.push(monom);
        let ghost mut next: Seq<int> = Seq::new(n as nat, |i: int| 0int);
        let ghost mut started: int = 1;
        let ghost mut last: Option<Seq<u32>> = None;
        proof {
            broadcast use vstd::multiset::group_multiset_axioms;

            let c = cache@;
            assert(c.dom().contains(first));
            assert(c[first] =~= seq![(0usize, 0usize, false)]);
            assert forall|key: Seq<u32>| #[trigger] c.dom().contains(key) implies c[key].len() > 0
                && list_ok(a, b, next, started, key, c[key], 0) by {
                assert(key == first);
            }
            assert forall|i: int| 0 <= i < started && i != -1 && #[trigger] next[i] < m implies {
                let key = key_of(pair_row(a, b, i, next[i]));
                ||| (c.dom().contains(key) && listed(c[key], 0, i))
                ||| (key == Seq::<u32>::empty() && listed(Seq::<Pending>::empty(), 0, i))
            } by {
                assert(c[first][0].0 == 0);
            }
            assert(heap_matches(h@, c));
        }
        while h.len() > 0
            invariant
                can_multiply(a, b),
                a == *self,
                b == *other,
                f == a.field,
                n == a.nterms,
                m == b.nterms,
                nv == a.nvars,
                n > 0,
                m > 0,
                h.wf(),
                h.width() == nv,
                h.smallest_first(),
                heap_matches(h@, cache@),
                frontier_ok(n as int, m as int, next, started, true),
                cache_ok(a, b, next, started, cache@),
                all_listed(
                    a,
                    b,
                    next,
                    started,
                    cache@,
                    Seq::<u32>::empty(),
                    Seq::<Pending>::empty(),
                    0,
                    -1,
                ),
                last matches Some(x) ==> x.len() == nv && keys_after(cache@, x) && done_up_to(
                    a,
                    b,
                    next,
                    x,
                ) && result_ok(a, b, res, x, false),
                last is None ==> res.nterms == 0 && forall|i: int|
                    0 <= i < n ==> #[trigger] next[i] == 0,
                res.wf(),
                res.nvars == nv,
                res.field == f,
                var_map_view(res.var_map) == var_map_view(self.var_map),
            decreases
                    (match last {
                        Some(x) => rank_bound(nv as nat) - rank(x),
                        None => (rank_bound(nv as nat) + 1) as int,
                    }),
        {
            let ghost c0 = cache@;
            let ghost h0 = h@;
            let cur = h.pop().unwrap();
            proof {
                broadcast use vstd::multiset::group_multiset_axioms;

                assert(h0.count(cur@) > 0);
                assert(c0.dom().contains(cur@));
                assert forall|i: int| 0 <= i < started && i != -1 && #[trigger] next[i] < m implies {
                    let key = key_of(pair_row(a, b, i, next[i]));
                    ||| (c0.dom().contains(key) && listed(c0[key], 0, i))
                    ||| (key == cur@ && listed(Seq::<Pending>::empty(), 0, i))
                } by {
                    assert(!listed(Seq::<Pending>::empty(), 0, i));
                }
                assert forall|key: Seq<u32>| #[trigger] c0.dom().contains(key) implies !lex_lt(
                    key,
                    cur@,
                ) by {
                    assert(h0.count(key) > 0);
                    assert(h0.contains(key));
                    assert(!before(true, key, cur@));
                }
                lemma_after_pop(a, b, res, next, started, c0, last, cur@);
            }
            let list = cache.remove(&cur).unwrap();
            let ghost l = list@;
            proof {
                broadcast use vstd::multiset::group_multiset_axioms;

                assert(heap_matches(h@, cache@));
                lemma_rank_bound(cur@);
                if last is Some {
                    lemma_rank_monotone(last->0, cur@);
                }
            }
            let mut coefficient = F::zero();
            let mut t: usize = 0;
            proof {
                f.lemma_constants();
                assert(drained_products(a, b, l).take(0) =~= Seq::<F::Element>::empty());
            }
            while t < list.len()
                invariant
                    can_multiply(a, b),
                    a == *self,
                    b == *other,
                    f == a.field,
                    n == a.nterms,
                    m == b.nterms,
                    nv == a.nvars,
                    n > 0,
                    m > 0,
                    l == list@,
                    t <= l.len(),
                    h.wf(),
                    h.width() == nv,
                    h.smallest_first(),
                    heap_matches(h@, cache@),
                    frontier_ok(n as int, m as int, next, started, true),
                    cache_ok(a, b, next, started, cache@),
                    keys_after(cache@, cur@),
                    list_ok(a, b, next, started, cur@, l, t as int),
                    all_listed(a, b, next, started, cache@, cur@, l, t as int, -1),
                    done_up_to(a, b, next, cur@),
                    drain_ok(a, b, cur@, l),
                    f.contains(coefficient),
                    coefficient == ring_sum(f, drained_products(a, b, l).take(t as int)),
                decreases l.len() - t,
            {
                let (i, j, _) = list[t];
                proof {
                    assert(pending_ok(a, b, next, started, cur@, l[t as int]));
                    a.lemma_rows();
                    b.lemma_rows();
                    f.lemma_closed(a.coefficients@[i as int], b.coefficients@[j as int]);
                }
                let prod = self.field.mul(&self.coefficients[i], &other.coefficients[j]);
                proof {
                    f.lemma_closed(coefficient, prod);
                    let dp = drained_products(a, b, l);
                    assert(dp.take(t + 1).drop_last() =~= dp.take(t as int));
                    assert(dp.take(t + 1).last() == prod);
                }
                coefficient = self.field.add(&coefficient, &prod);
                proof {
                    lemma_consume(a, b, next, started, cache@, cur@, l, t as int);
                    next = next.update(i as int, j + 1);
                    lemma_pair_rows_increasing(a, b);
                }
                if j + 1 < m {
                    proof {
                        assert(sum_fits(a.rows()[i as int], b.rows()[j + 1]));
                    }
                    let key = self.pair_key(i, other, j + 1);
                    proof {
                        lemma_key_of(pair_row(a, b, i as int, j as int), pair_row(a, b, i as int, j + 1));
                        lemma_add_pending(
                            a,
                            b,
                            next,
                            started,
                            cache@,
                            cur@,
                            l,
                            t + 1,
                            (i, (j + 1) as usize, false),
                        );
                    }
                    let ghost c1 = cache@;
                    let fresh = cache.add(&key, (i, j + 1, false));
                    if fresh {
                        h.push(key);
                    }
                    proof {
                        broadcast use vstd::multiset::group_multiset_axioms;

                        assert(cache@ == with_pending(c1, key@, (i, (j + 1) as usize, false)));
                        assert(heap_matches(h@, cache@));
                    }
                } else {
                    proof {
                        // the row is worked off
                        assert forall|i2: int|
                            0 <= i2 < started && i2 != -1 && #[trigger] next[i2] < m implies {
                            let key = key_of(pair_row(a, b, i2, next[i2]));
                            ||| (cache@.dom().contains(key) && listed(cache@[key], 0, i2))
                            ||| (key == cur@ && listed(l, t + 1, i2))
                        } by {
                            assert(i2 != i);
                        }
                    }
                }
                // only take up the next term when (i, 0) has been extracted,
                // since its first pair necessarily comes after this one
                if j == 0 && i + 1 < n {
                    proof {
                        started = started + 1;
                        assert(started == i + 2);
                        assert(frontier_ok(n as int, m as int, next, started, true));
                        assert forall|key: Seq<u32>| #[trigger] cache@.dom().contains(key) implies cache@[key].len()
                            > 0 && list_ok(a, b, next, started, key, cache@[key], 0) by {
                            assert(list_ok(a, b, next, started - 1, key, cache@[key], 0));
                            assert forall|k: int| 0 <= k < cache@[key].len() implies pending_ok(
                                a,
                                b,
                                next,
                                started,
                                key,
                                #[trigger] cache@[key][k],
                            ) by {
                                assert(pending_ok(a, b, next, started - 1, key, cache@[key][k]));
                            }
                        }
                        assert forall|k: int| t + 1 <= k < l.len() implies pending_ok(
                            a,
                            b,
                            next,
                            started,
                            cur@,
                            #[trigger] l[k],
                        ) by {
                            assert(pending_ok(a, b, next, started - 1, cur@, l[k]));
                        }
                        assert forall|key: Seq<u32>| #[trigger] cache@.dom().contains(key) implies !listed(
                            cache@[key],
                            0,
                            i + 1,
                        ) by {
                            if listed(cache@[key], 0, i + 1) {
                                let k = choose|k: int|
                                    0 <= k < cache@[key].len() && (#[trigger] cache@[key][k]).0 == i
                                        + 1;
                                assert(pending_ok(a, b, next, started - 1, key, cache@[key][k]));
                            }
                        }
                        assert(sum_fits(a.rows()[i + 1], b.rows()[0]));
                        lemma_key_of(pair_row(a, b, i as int, 0), pair_row(a, b, i + 1, 0));
                    }
                    let key = self.pair_key(i + 1, other, 0);
                    proof {
                        lemma_add_pending(
                            a,
                            b,
                            next,
                            started,
                            cache@,
                            cur@,
                            l,
                            t + 1,
                            ((i + 1) as usize, 0usize, false),
                        );
                    }
                    let ghost c1 = cache@;
                    let fresh = cache.add(&key, (i + 1, 0, false));
                    if fresh {
                        h.push(key);
                    }
                    proof {
                        broadcast use vstd::multiset::group_multiset_axioms;

                        assert(cache@ == with_pending(c1, key@, ((i + 1) as usize, 0usize, false)));
                        assert(heap_matches(h@, cache@));
                    }
                } else {
                    proof {
                        assert(frontier_ok(n as int, m as int, next, started, true));
                    }
                }
                t += 1;
            }
            let ghost e = row_of::<E>(cur@);
            proof {
                // all pairs with the exponent vector of cur have been summed
                assert(pair_row(a, b, l[0].0 as int, l[0].1 as int).len() == nv);
                lemma_key_of(pair_row(a, b, l[0].0 as int, l[0].1 as int), e);
                assert(e == pair_row(a, b, l[0].0 as int, l[0].1 as int));
                assert(key_of(e) == cur@);
                assert forall|k: int| 0 <= k < l.len() implies pair_row(
                    a,
                    b,
                    (#[trigger] l[k]).0 as int,
                    l[k].1 as int,
                ) == e by {
                    lemma_key_of(pair_row(a, b, l[k].0 as int, l[k].1 as int), e);
                }
                lemma_drained_sum(a, b, l, e);
                assert(drained_products(a, b, l).take(l.len() as int) =~= drained_products(a, b, l));
                assert(coefficient == product_coeff(a, b, e));
                res.lemma_rows();
                assert forall|v: int| 0 <= v < cur@.len() implies #[trigger] cur@[v] <= E::max_spec() by {
                    E::lemma_exponent(e[v], 0);
                }
            }
            let ghost res0 = res;
            if !F::is_zero(&coefficient) {
                let row = key_to_exponents::<E>(&cur);
                proof {
                    if res.nterms > 0 {
                        lemma_key_of(res.rows().last(), e);
                    }
                }
                res.push_back(coefficient, row.as_slice());
            }
            proof {
                // the result has the terms up to cur
                res.lemma_rows();
                res0.lemma_rows();
                assert forall|k: int| 0 <= k < res.nterms implies lex_lt(
                    key_of(#[trigger] res.rows()[k]),
                    cur@,
                ) || key_of(res.rows()[k]) == cur@ by {
                    if k < res0.nterms {
                        assert(res.rows()[k] == res0.rows()[k]);
                    }
                }
                assert forall|x: Seq<E>|
                    lex_lt(#[trigger] key_of(x), cur@) || key_of(x) == cur@ implies res.coeff(x)
                    == product_coeff(a, b, x) by {
                    if key_of(x) == cur@ {
                        lemma_key_of(x, e);
                        assert(x == e);
                        if res0@.dom().contains(e) {
                            let k = res0.rows().index_of(e);
                            lemma_lex_irreflexive(cur@);
                        }
                    } else {
                        if x == e {
                            lemma_lex_irreflexive(cur@);
                        }
                        assert(res0.coeff(x) == res.coeff(x));
                    }
                }
                assert forall|i: int| 0 <= i < started && i != -1 && #[trigger] next[i] < m implies {
                    let key = key_of(pair_row(a, b, i, next[i]));
                    ||| (cache@.dom().contains(key) && listed(cache@[key], 0, i))
                    ||| (key == Seq::<u32>::empty() && listed(Seq::<Pending>::empty(), 0, i))
                } by {
                    let key = key_of(pair_row(a, b, i, next[i]));
                    if key == cur@ && listed(l, l.len() as int, i) {
                    }
                }
                last = Some(cur@);
            }
        }
        proof {
            broadcast use vstd::multiset::group_multiset_axioms;

            assert forall|key: Seq<u32>| !cache@.dom().contains(key) by {
                assert(h@.count(key) == 0);
            }
            assert forall|i: int| 0 <= i < started && i != -1 && #[trigger] next[i] < m implies {
                let key = key_of(pair_row(a, b, i, next[i]));
                ||| (no_entries().dom().contains(key) && listed(no_entries()[key], 0, i))
                ||| (key == Seq::<u32>::empty() && listed(Seq::<Pending>::empty(), 0, i))
            } by {
                let key = key_of(pair_row(a, b, i, next[i]));
                assert(!cache@.dom().contains(key));
                assert(!listed(Seq::<Pending>::empty(), 0, i));
            }
            lemma_mul_done(a, b, res, next, started, last);
        }
        res
    }
}

/// The exponent vector that a vector of numbers within range stands for.
pub fn key_to_exponents<E: Exponent>(key: &Vec<u32>) -> (r: Vec<E>)
    requires
        forall|v: int| 0 <= v < key@.len() ==> #[trigger] key@[v] <= E::max_spec(),
    ensures
        r@ == row_of::<E>(key@),
{
    let n = key.len();
    let mut r: Vec<E> = Vec::with_capacity(n);
    let mut v: usize = 0;
    while v < n
        invariant
            n == key@.len(),
            v <= n,
            forall|v: int| 0 <= v < key@.len() ==> #[trigger] key@[v] <= E::max_spec(),
            r@ == row_of::<E>(key@).take(v as int),
        decreases n - v,
    {
        r.push(E::from_u32(key[v]));
        proof {
            assert(r@ =~= row_of::<E>(key@).take(v + 1));
        }
        v += 1;
    }
    proof {
        assert(row_of::<E>(key@).take(n as int) =~= row_of::<E>(key@));
    }
    r
}

} // verus!
