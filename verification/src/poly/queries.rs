//! Degrees, leading coefficients and the content of a polynomial.
use crate::poly::polynomial::MultivariatePolynomial;
use crate::poly::Exponent;
use crate::rings::{
    divides, lemma_divides_self, lemma_divides_transitive, lemma_divides_zero, EuclideanDomain,
    Ring,
};
use vstd::prelude::*;

verus! {

/// The greatest common divisor of a list of ring elements, taken from the left:
/// zero for the empty list.
pub open spec fn content_of<F: EuclideanDomain>(f: F, s: Seq<F::Element>) -> F::Element
    decreases s.len(),
{
    if s.len() == 0 {
        F::zero_spec()
    } else if s.len() == 1 {
        s[0]
    } else {
        f.gcd_spec(content_of(f, s.drop_last()), s.last())
    }
}

/// The greatest common divisor of ring elements is a ring element.
pub proof fn lemma_content_contained<F: EuclideanDomain>(f: F, s: Seq<F::Element>)
    requires
        f.valid(),
        forall|i: int| 0 <= i < s.len() ==> f.contains(#[trigger] s[i]),
    ensures
        f.contains(content_of(f, s)),
    decreases s.len(),
{
    if s.len() == 0 {
        f.lemma_constants();
    } else if s.len() > 1 {
        assert forall|i: int| 0 <= i < s.drop_last().len() implies f.contains(
            #[trigger] s.drop_last()[i],
        ) by {
            assert(s.drop_last()[i] == s[i]);
        }
        lemma_content_contained(f, s.drop_last());
        f.lemma_gcd(content_of(f, s.drop_last()), s.last());
    }
}

/// `d` divides every element of the list.
pub open spec fn divides_each<F: Ring>(f: F, d: F::Element, s: Seq<F::Element>) -> bool {
    forall|i: int| 0 <= i < s.len() ==> divides(f, d, #[trigger] s[i])
}

/// The greatest common divisor of a list of ring elements divides each of
/// them.
pub proof fn lemma_content_divides<F: EuclideanDomain>(f: F, s: Seq<F::Element>)
    requires
        f.valid(),
        forall|i: int| 0 <= i < s.len() ==> f.contains(#[trigger] s[i]),
    ensures
        divides_each(f, content_of(f, s), s),
    decreases s.len(),
{
    if s.len() == 1 {
        lemma_divides_self(f, s[0]);
    } else if s.len() > 1 {
        let rest = s.drop_last();
        assert forall|i: int| 0 <= i < rest.len() implies f.contains(#[trigger] rest[i]) by {
            assert(rest[i] == s[i]);
        }
        lemma_content_contained(f, rest);
        lemma_content_divides(f, rest);
        let c = content_of(f, rest);
        let g = content_of(f, s);
        f.lemma_gcd(c, s.last());
        assert forall|i: int| 0 <= i < s.len() implies divides(f, g, #[trigger] s[i]) by {
            if i < rest.len() {
                assert(divides(f, c, rest[i]));
                lemma_divides_transitive(f, g, c, s[i]);
            }
        }
    }
}

/// The greatest common divisor of a list of ring elements is the greatest:
/// whatever divides each of them divides it.
pub proof fn lemma_content_greatest<F: EuclideanDomain>(f: F, s: Seq<F::Element>, d: F::Element)
    requires
        f.valid(),
        f.contains(d),
        forall|i: int| 0 <= i < s.len() ==> f.contains(#[trigger] s[i]),
        divides_each(f, d, s),
    ensures
        divides(f, d, content_of(f, s)),
    decreases s.len(),
{
    if s.len() == 0 {
        lemma_divides_zero(f, d);
    } else if s.len() == 1 {
        assert(divides(f, d, s[0]));
    } else {
        let rest = s.drop_last();
        assert forall|i: int| 0 <= i < rest.len() implies f.contains(#[trigger] rest[i])
            && divides(f, d, rest[i]) by {
            assert(rest[i] == s[i]);
            assert(divides(f, d, s[i]));
        }
        lemma_content_contained(f, rest);
        lemma_content_greatest(f, rest, d);
        assert(divides(f, d, s[s.len() - 1]));
        f.lemma_gcd_greatest(content_of(f, rest), s.last(), d);
    }
}

impl<F: Ring, E: Exponent> MultivariatePolynomial<F, E> {
    /// Get the degree of the variable `x`.
    /// This operation is O(n).
    pub fn degree(&self, x: usize) -> (r: E)
        requires
            self.consistent(),
            x < self.nvars,
        ensures
            forall|k: int|
                0 <= k < self.nterms ==> (#[trigger] self.rows()[k])[x as int].to_u32_spec()
                    <= r.to_u32_spec(),
            self.nterms == 0 ==> r.to_u32_spec() == 0,
            self.nterms > 0 ==> exists|k: int|
                0 <= k < self.nterms && (#[trigger] self.rows()[k])[x as int] == r,
    {
        let mut max = E::zero();
        let mut t: usize = 0;
        proof {
            self.lemma_rows();
        }
        while t < self.nterms
            invariant
                self.consistent(),
                x < self.nvars,
                t <= self.nterms,
                forall|k: int|
                    0 <= k < t ==> (#[trigger] self.rows()[k])[x as int].to_u32_spec()
                        <= max.to_u32_spec(),
                t == 0 ==> max.to_u32_spec() == 0,
                t > 0 ==> exists|k: int| 0 <= k < t && (#[trigger] self.rows()[k])[x as int] == max,
            decreases self.nterms - t,
        {
            proof {
                self.lemma_rows();
            }
            let e = self.exponents(t)[x];
            if max.to_u32() < e.to_u32() {
                max = e;
                proof {
                    assert(self.rows()[t as int][x as int] == max);
                }
            } else {
                proof {
                    if t == 0 {
                        E::lemma_exponent(e, 0);
                        E::lemma_exponent(max, 0);
                        assert(self.rows()[0][x as int] == max);
                    } else {
                        let k = choose|k: int|
                            0 <= k < t && (#[trigger] self.rows()[k])[x as int] == max;
                        assert(self.rows()[k][x as int] == max);
                    }
                }
            }
            t += 1;
        }
        max
    }

    /// Get the degree of the variable `v` in the leading monomial.
    pub fn ldegree(&self, v: usize) -> (r: E)
        requires
            self.consistent(),
            v < self.nvars || self.nterms == 0,
        ensures
            self.nterms == 0 ==> r.to_u32_spec() == 0,
            self.nterms > 0 ==> r == self.rows().last()[v as int],
    {
        if self.is_zero() {
            return E::zero();
        }
        self.last_exponents()[v]
    }

    /// Get the highest degree of a variable in the leading monomial.
    pub fn ldegree_max(&self) -> (r: E)
        requires
            self.consistent(),
        ensures
            self.nterms == 0 || self.nvars == 0 ==> r.to_u32_spec() == 0,
            self.nterms > 0 ==> forall|v: int|
                0 <= v < self.nvars ==> (#[trigger] self.rows().last()[v]).to_u32_spec()
                    <= r.to_u32_spec(),
            self.nterms > 0 && self.nvars > 0 ==> exists|v: int|
                0 <= v < self.nvars && #[trigger] self.rows().last()[v] == r,
    {
        if self.is_zero() {
            return E::zero();
        }
        let row = self.last_exponents();
        let mut max = E::zero();
        let mut v: usize = 0;
        while v < self.nvars
            invariant
                row@ == self.rows().last(),
                row@.len() == self.nvars,
                v <= self.nvars,
                forall|w: int| 0 <= w < v ==> (#[trigger] row@[w]).to_u32_spec() <= max.to_u32_spec(),
                v == 0 ==> max.to_u32_spec() == 0,
                v > 0 ==> exists|w: int| 0 <= w < v && #[trigger] row@[w] == max,
            decreases self.nvars - v,
        {
            let e = row[v];
            if max.to_u32() < e.to_u32() {
                max = e;
                proof {
                    assert(row@[v as int] == max);
                }
            } else {
                proof {
                    if v == 0 {
                        E::lemma_exponent(e, 0);
                        E::lemma_exponent(max, 0);
                        assert(row@[0] == max);
                    } else {
                        let w = choose|w: int| 0 <= w < v && #[trigger] row@[w] == max;
                        assert(row@[w] == max);
                    }
                }
            }
            v += 1;
        }
        max
    }

    /// Get the leading coefficient: zero for the zero polynomial.
    pub fn lcoeff(&self) -> (r: F::Element)
        requires
            self.consistent(),
        ensures
            r == (if self.nterms == 0 {
                F::zero_spec()
            } else {
                self.coefficients@.last()
            }),
    {
        if self.is_zero() {
            return F::zero();
        }
        self.field.copy_element(&self.coefficients[self.nterms - 1])
    }
}

impl<F: EuclideanDomain, E: Exponent> MultivariatePolynomial<F, E> {
    /// Get the content from the coefficients: their greatest common divisor,
    /// zero for the zero polynomial.
    pub fn content(&self) -> (r: F::Element)
        requires
            self.wf(),
        ensures
            r == content_of(self.field, self.coefficients@),
            self.field.contains(r),
            divides_each(self.field, r, self.coefficients@),
            forall|d: F::Element|
                self.field.contains(d) && #[trigger] divides_each(
                    self.field,
                    d,
                    self.coefficients@,
                ) ==> divides(self.field, d, r),
    {
        proof {
            lemma_content_contained(self.field, self.coefficients@);
            lemma_content_divides(self.field, self.coefficients@);
            assert forall|d: F::Element|
                self.field.contains(d) && #[trigger] divides_each(
                    self.field,
                    d,
                    self.coefficients@,
                ) implies divides(self.field, d, content_of(self.field, self.coefficients@)) by {
                lemma_content_greatest(self.field, self.coefficients@, d);
            }
        }
        if self.nterms == 0 {
            return F::zero();
        }
        let mut c = self.field.copy_element(&self.coefficients[0]);
        let mut k: usize = 1;
        proof {
            assert(self.coefficients@.take(1).len() == 1);
            assert(self.coefficients@.take(1)[0] == self.coefficients@[0]);
        }
        while k < self.nterms
            invariant
                self.wf(),
                1 <= k <= self.nterms,
                c == content_of(self.field, self.coefficients@.take(k as int)),
            decreases self.nterms - k,
        {
            proof {
                assert forall|i: int| 0 <= i < k implies self.field.contains(
                    #[trigger] self.coefficients@.take(k as int)[i],
                ) by {
                    assert(self.coefficients@.take(k as int)[i] == self.coefficients@[i]);
                }
                lemma_content_contained(self.field, self.coefficients@.take(k as int));
                assert(self.coefficients@.take(k + 1).drop_last() =~= self.coefficients@.take(
                    k as int,
                ));
            }
            c = self.field.gcd(&c, &self.coefficients[k]);
            k += 1;
        }
        proof {
            assert(self.coefficients@.take(self.nterms as int) =~= self.coefficients@);
        }
        c
    }
}

} // verus!
