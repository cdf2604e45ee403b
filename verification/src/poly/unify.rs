//! Unification of the variable maps of two polynomials.
//!
//! The variables of the second polynomial that the first does not have are
//! appended to the variables of the first. The first polynomial is widened:
//! its new variables have the exponent zero everywhere, so that the order of
//! its terms stays. The second polynomial is rebuilt, since the order of its
//! terms changes with the places of its variables.
use crate::poly::matrix::{filled, lemma_rows_push, push_row};
use crate::poly::monomial::{lex_lt, lt_at, zero_row};
use crate::poly::polynomial::{
    lemma_terms_view, lemma_view_push, terms_view, var_map_view, MultivariatePolynomial,
};
use crate::poly::project::{lemma_sum_terms_step, sum_terms};
use crate::poly::varmap::VarMap;
use crate::poly::Exponent;
use crate::representations::Identifier;
use crate::rings::{lemma_zero_add, Ring};
use vstd::prelude::*;

verus! {

/// The variables `a` with those of the first `t` variables of `b` appended
/// that are not among them yet.
pub open spec fn unified(a: Seq<Identifier>, b: Seq<Identifier>, t: int) -> Seq<Identifier>
    decreases t,
{
    if t <= 0 {
        a
    } else {
        let u = unified(a, b, t - 1);
        if u.contains(b[t - 1]) {
            u
        } else {
            u.push(b[t - 1])
        }
    }
}

/// `p` is the first place of the variable `id` in the list.
pub open spec fn first_place(u: Seq<Identifier>, id: Identifier, p: int) -> bool {
    &&& 0 <= p < u.len()
    &&& u[p] == id
    &&& forall|q: int| 0 <= q < p ==> u[q] != id
}

/// The places, in the list `u`, of the variables `b`: for each the first
/// place at which the list has it.
pub open spec fn places_in(u: Seq<Identifier>, b: Seq<Identifier>, places: Seq<usize>) -> bool {
    &&& places.len() == b.len()
    &&& forall|v: int| 0 <= v < b.len() ==> first_place(u, b[v], #[trigger] places[v] as int)
}

/// The exponent vector under the new places of its variables, when the first
/// `t` of them have been put at their places, among `n` variables.
pub open spec fn scattered<E: Exponent>(row: Seq<E>, places: Seq<usize>, n: nat, t: int) -> Seq<E>
    decreases t,
{
    if t <= 0 {
        zero_row::<E>(n)
    } else {
        scattered(row, places, n, t - 1).update(places[t - 1] as int, row[t - 1])
    }
}

/// The exponent vector among `n` variables, of which it has the first ones:
/// the exponents of the others are zero.
pub open spec fn widened<E: Exponent>(row: Seq<E>, n: nat) -> Seq<E> {
    Seq::new(
        n,
        |v: int|
            if v < row.len() {
                row[v]
            } else {
                E::from_u32_spec(0)
            },
    )
}

/// Widening keeps the order of exponent vectors.
pub proof fn lemma_widened_order<E: Exponent>(a: Seq<E>, b: Seq<E>, n: nat)
    requires
        lex_lt(a, b),
        a.len() <= n,
    ensures
        lex_lt(widened(a, n), widened(b, n)),
{
    let k = choose|k: int| lt_at(a, b, k);
    assert(lt_at(widened(a, n), widened(b, n), k));
}

/// The first place of a variable in a list stays when the list grows.
pub proof fn lemma_first_place_push(u: Seq<Identifier>, id: Identifier, p: int, x: Identifier)
    requires
        first_place(u, id, p),
    ensures
        first_place(u.push(x), id, p),
{
}

/// No two variables have the same place.
pub open spec fn distinct_places(places: Seq<usize>) -> bool {
    forall|u: int, v: int| 0 <= u < v < places.len() ==> places[u] != places[v]
}

/// Variables that differ from each other have different places.
pub proof fn law_distinct_places(u: Seq<Identifier>, b: Seq<Identifier>, places: Seq<usize>)
    requires
        places_in(u, b, places),
        b.no_duplicates(),
    ensures
        distinct_places(places),
        forall|v: int| 0 <= v < places.len() ==> #[trigger] places[v] < u.len(),
{
    assert forall|v: int, w: int| 0 <= v < w < places.len() implies places[v] != places[w] by {
        assert(first_place(u, b[v], places[v] as int));
        assert(first_place(u, b[w], places[w] as int));
    }
    assert forall|v: int| 0 <= v < places.len() implies #[trigger] places[v] < u.len() by {
        assert(first_place(u, b[v], places[v] as int));
    }
}

/// Where no two variables have the same place, an exponent vector under the
/// new places has each exponent at the place of its variable.
pub proof fn lemma_scattered_entry<E: Exponent>(
    row: Seq<E>,
    places: Seq<usize>,
    n: nat,
    t: int,
    v: int,
)
    requires
        distinct_places(places),
        0 <= v < t <= places.len(),
        forall|u: int| 0 <= u < places.len() ==> #[trigger] places[u] < n,
    ensures
        scattered(row, places, n, t).len() == n,
        scattered(row, places, n, t)[places[v] as int] == row[v],
    decreases t,
{
    lemma_scattered_len(row, places, n, t - 1);
    if v < t - 1 {
        lemma_scattered_entry(row, places, n, t - 1, v);
    }
}

/// An exponent vector under new places has the new number of variables.
pub proof fn lemma_scattered_len<E: Exponent>(row: Seq<E>, places: Seq<usize>, n: nat, t: int)
    requires
        t <= places.len(),
        forall|u: int| 0 <= u < places.len() ==> #[trigger] places[u] < n,
    ensures
        scattered(row, places, n, t).len() == n,
    decreases t,
{
    if t > 0 {
        lemma_scattered_len(row, places, n, t - 1);
    }
}

/// Monomials that differ from each other add up to the map that holds each of
/// them with its coefficient.
pub proof fn lemma_sum_of_distinct_terms<F: Ring, E: Exponent>(
    f: F,
    rows: Seq<Seq<E>>,
    coeffs: Seq<F::Element>,
)
    requires
        f.valid(),
        rows.len() == coeffs.len(),
        rows.no_duplicates(),
        forall|k: int|
            0 <= k < coeffs.len() ==> f.contains(#[trigger] coeffs[k]) && coeffs[k]
                != F::zero_spec(),
    ensures
        sum_terms(f, rows, coeffs) == terms_view::<F, E>(rows, coeffs),
    decreases rows.len(),
{
    if rows.len() == 0 {
        assert(sum_terms(f, rows, coeffs) =~= terms_view::<F, E>(rows, coeffs));
    } else {
        let r0 = rows.drop_last();
        let c0 = coeffs.drop_last();
        lemma_sum_of_distinct_terms(f, r0, c0);
        assert(r0.push(rows.last()) =~= rows);
        assert(c0.push(coeffs.last()) =~= coeffs);
        lemma_view_push::<F, E>(r0, c0, rows.last(), coeffs.last());
        assert(!r0.contains(rows.last())) by {
            if r0.contains(rows.last()) {
                let i = r0.index_of(rows.last());
                assert(rows[i] == rows[rows.len() - 1]);
            }
        }
        lemma_zero_add(f, coeffs.last());
    }
}

/// The terms of a polynomial under new places of its variables: where no two
/// variables have the same place, the rebuilt polynomial holds each term of
/// the polynomial, with its exponents at the new places and with its
/// coefficient, and no other term.
pub proof fn law_unified_terms<F: Ring, E: Exponent>(
    p: MultivariatePolynomial<F, E>,
    places: Seq<usize>,
    n: nat,
)
    requires
        p.wf(),
        places.len() == p.nvars,
        distinct_places(places),
        forall|u: int| 0 <= u < places.len() ==> #[trigger] places[u] < n,
    ensures
        sum_terms(p.field, p.scattered_rows(places, n), p.coefficients@) == terms_view::<F, E>(
            p.scattered_rows(places, n),
            p.coefficients@,
        ),
        p.scattered_rows(places, n).no_duplicates(),
        forall|k: int|
            0 <= k < p.nterms ==> terms_view::<F, E>(
                p.scattered_rows(places, n),
                p.coefficients@,
            ).dom().contains(#[trigger] p.scattered_rows(places, n)[k]) && terms_view::<F, E>(
                p.scattered_rows(places, n),
                p.coefficients@,
            )[p.scattered_rows(places, n)[k]] == p.coefficients@[k],
{
    let rows = p.scattered_rows(places, n);
    p.lemma_rows();
    assert forall|i: int, j: int| 0 <= i < rows.len() && 0 <= j < rows.len() && i != j implies rows[i]
        != rows[j] by {
        let a = p.rows()[i];
        let b = p.rows()[j];
        assert(a != b);
        assert(!(a =~= b));
        let v = choose|v: int| 0 <= v < p.nvars && a[v] != b[v];
        lemma_scattered_entry(a, places, n, p.nvars as int, v);
        lemma_scattered_entry(b, places, n, p.nvars as int, v);
    }
    lemma_sum_of_distinct_terms(p.field, rows, p.coefficients@);
    lemma_terms_view::<F, E>(rows, p.coefficients@);
}

impl<F: Ring, E: Exponent> MultivariatePolynomial<F, E> {
    /// The exponent vectors of the terms under the new places of the
    /// variables.
    pub open spec fn scattered_rows(&self, places: Seq<usize>, n: nat) -> Seq<Seq<E>> {
        Seq::new(
            self.nterms as nat,
            |k: int| scattered(self.rows()[k], places, n, self.nvars as int),
        )
    }

    /// Unify the variable maps of two polynomials, i.e. rewrite a polynomial
    /// in `x` and one in `y` to two polynomials in `x` and `y`.
    pub fn unify_var_map(&mut self, other: &mut Self)
        requires
            old(self).wf(),
            old(other).wf(),
            old(self).var_map matches Some(m) && m@.len() == old(self).nvars,
            old(other).var_map matches Some(m) && m@.len() == old(other).nvars,
        ensures
            final(self).wf(),
            final(other).wf(),
            final(self).field == old(self).field,
            final(other).field == old(other).field,
            var_map_view(final(self).var_map) == Some(
                unified(
                    old(self).var_map->0@,
                    old(other).var_map->0@,
                    old(other).nvars as int,
                ),
            ),
            var_map_view(final(other).var_map) == var_map_view(final(self).var_map),
            final(self).nvars == final(self).var_map->0@.len(),
            final(other).nvars == final(self).nvars,
            final(self).nvars >= old(self).nvars,
            // the first polynomial has its terms, among more variables
            final(self).nterms == old(self).nterms,
            final(self).coefficients@ == old(self).coefficients@,
            forall|k: int|
                0 <= k < old(self).nterms ==> #[trigger] final(self).rows()[k] == widened(
                    old(self).rows()[k],
                    final(self).nvars as nat,
                ),
            // the second polynomial has its terms with the variables at their new places
            exists|places: Seq<usize>|
                #[trigger] places_in(final(self).var_map->0@, old(other).var_map->0@, places)
                    && final(other)@ == sum_terms(
                    old(other).field,
                    old(other).scattered_rows(places, final(self).nvars as nat),
                    old(other).coefficients@,
                ),
    {
        let ghost a = *self;
        let ghost b = *other;
        let ghost am = self.var_map->0@;
        let ghost bm = other.var_map->0@;
        let zero = E::zero();
        proof {
            E::lemma_exponent(zero, 0);
            self.lemma_rows();
            other.lemma_rows();
        }
        // the new variable map, and the places of the variables of other in it
        let mut new_var_map = match &self.var_map {
            Some(m) => m.duplicate(),
            None => VarMap::new(),
        };
        let mut places: Vec<usize> = Vec::with_capacity(other.nvars);
        let mut v: usize = 0;
        while v < other.nvars
            invariant
                *other == b,
                b.var_map matches Some(m) && m@ == bm && bm.len() == b.nvars,
                v <= b.nvars,
                new_var_map@ == unified(am, bm, v as int),
                new_var_map@.len() >= am.len(),
                places@.len() == v,
                forall|w: int|
                    0 <= w < v ==> first_place(new_var_map@, bm[w], #[trigger] places@[w] as int),
            decreases b.nvars - v,
        {
            let id = match &other.var_map {
                Some(m) => m.get(v),
                None => Identifier::from(0),
            };
            let ghost u0 = new_var_map@;
            match new_var_map.position(id) {
                Some(p) => {
                    places.push(p);
                },
                None => {
                    places.push(new_var_map.len());
                    new_var_map.push(id);
                    proof {
                        assert forall|w: int| 0 <= w < v implies first_place(
                            new_var_map@,
                            bm[w],
                            #[trigger] places@[w] as int,
                        ) by {
                            lemma_first_place_push(u0, bm[w], places@[w] as int, id);
                        }
                        assert(first_place(new_var_map@, id, u0.len() as int)) by {
                            assert forall|q: int| 0 <= q < u0.len() implies new_var_map@[q] != id by {
                                assert(u0.contains(u0[q]));
                            }
                        }
                    }
                },
            }
            v += 1;
        }
        let new_len = new_var_map.len();
        // widen self: the new variables have the exponent zero
        let n = self.nterms;
        let nv = self.nvars;
        let mut newexp: Vec<E> = Vec::new();
        let mut t: usize = 0;
        proof {
            assert(0 * new_len == 0) by (nonlinear_arith);
        }
        while t < n
            invariant
                *self == a,
                a.wf(),
                n == a.nterms,
                nv == a.nvars,
                nv <= new_len,
                zero == E::from_u32_spec(0),
                t <= n,
                newexp@.len() == t * new_len,
                forall|k: int|
                    0 <= k < t ==> #[trigger] crate::poly::matrix::rows_of(
                        newexp@,
                        new_len as int,
                        t as int,
                    )[k] == widened(a.rows()[k], new_len as nat),
            decreases n - t,
        {
            proof {
                self.lemma_rows();
            }
            let row = self.exponents(t);
            let mut wide: Vec<E> = Vec::with_capacity(new_len);
            let mut i: usize = 0;
            while i < new_len
                invariant
                    row@.len() == nv,
                    nv <= new_len,
                    zero == E::from_u32_spec(0),
                    i <= new_len,
                    wide@ == widened(row@, new_len as nat).take(i as int),
                decreases new_len - i,
            {
                if i < nv {
                    wide.push(row[i]);
                } else {
                    wide.push(zero);
                }
                proof {
                    assert(wide@ =~= widened(row@, new_len as nat).take(i + 1));
                }
                i += 1;
            }
            proof {
                assert(widened(row@, new_len as nat).take(new_len as int) =~= widened(
                    row@,
                    new_len as nat,
                ));
                lemma_rows_push(newexp@, new_len as int, t as int, wide@);
            }
            let ghost old_rows = crate::poly::matrix::rows_of(newexp@, new_len as int, t as int);
            push_row(&mut newexp, wide.as_slice());
            proof {
                let new_rows = crate::poly::matrix::rows_of(newexp@, new_len as int, t + 1);
                assert(new_rows == old_rows.push(wide@));
                assert forall|k: int| 0 <= k < t + 1 implies #[trigger] new_rows[k] == widened(
                    a.rows()[k],
                    new_len as nat,
                ) by {
                    if k < t {
                        assert(new_rows[k] == old_rows[k]);
                    }
                }
            }
            t += 1;
        }
        self.var_map = Some(new_var_map.duplicate());
        self.exponents = newexp;
        self.nvars = new_len;
        proof {
            assert(self.rows() =~= Seq::new(n as nat, |k: int| widened(a.rows()[k], new_len as nat)));
            assert forall|i: int, j: int| 0 <= i < j < self.rows().len() implies lex_lt(
                #[trigger] self.rows()[i],
                #[trigger] self.rows()[j],
            ) by {
                assert(lex_lt(a.rows()[i], a.rows()[j]));
                lemma_widened_order(a.rows()[i], a.rows()[j], new_len as nat);
            }
        }
        // reconstruct 'other' with correct monomial ordering
        let mut newother = Self::new(new_len, other.field, Some(other.nterms), Some(new_var_map));
        let ghost rows = b.scattered_rows(places@, new_len as nat);
        let mut t: usize = 0;
        proof {
            assert(rows.take(0) =~= Seq::<Seq<E>>::empty());
        }
        while t < other.nterms
            invariant
                *other == b,
                b.wf(),
                zero == E::from_u32_spec(0),
                places@.len() == b.nvars,
                forall|w: int| 0 <= w < b.nvars ==> #[trigger] places@[w] < new_len,
                rows == b.scattered_rows(places@, new_len as nat),
                t <= b.nterms,
                newother.wf(),
                newother.nvars == new_len,
                newother.field == b.field,
                var_map_view(newother.var_map) == var_map_view(self.var_map),
                newother@ == sum_terms(b.field, rows.take(t as int), b.coefficients@.take(t as int)),
            decreases b.nterms - t,
        {
            proof {
                other.lemma_rows();
            }
            let row = other.exponents(t);
            let mut newrow = filled(zero, new_len);
            let mut var: usize = 0;
            proof {
                assert(newrow@ =~= scattered(row@, places@, new_len as nat, 0));
            }
            while var < other.nvars
                invariant
                    *other == b,
                    row@.len() == b.nvars,
                    places@.len() == b.nvars,
                    forall|w: int| 0 <= w < b.nvars ==> #[trigger] places@[w] < new_len,
                    var <= b.nvars,
                    newrow@.len() == new_len,
                    newrow@ == scattered(row@, places@, new_len as nat, var as int),
                decreases b.nvars - var,
            {
                newrow[places[var]] = row[var];
                var += 1;
            }
            proof {
                lemma_sum_terms_step(b.field, rows, b.coefficients@, t as int);
            }
            newother.append_monomial(
                other.field.copy_element(&other.coefficients[t]),
                newrow.as_slice(),
            );
            t += 1;
        }
        proof {
            assert(rows.take(b.nterms as int) =~= rows);
            assert(b.coefficients@.take(b.nterms as int) =~= b.coefficients@);
            assert(places_in(self.var_map->0@, bm, places@));
        }
        *other = newother;
    }
}

} // verus!
