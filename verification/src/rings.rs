//! Commutative rings, Euclidean domains and fields as seen by the polynomial
//! engine.
//!
//! A ring is described by a small copyable handle. The handle carries whatever
//! context the domain needs (the modulus of a finite field, for instance) and
//! offers every coefficient operation. Each operation has a specification
//! function beside it, and the ring axioms are proof obligations of the
//! implementation, so that generic code can reason about coefficients.
use crate::rings::text::Text;
use vstd::prelude::*;

pub mod finite_field;
pub mod text;

verus! {

/// A commutative ring with identity.
///
/// Two elements are the same ring element exactly when they are equal as
/// values: an implementation keeps its elements in a canonical form.
pub trait Ring: Sized + Copy {
    type Element;

    /// The handle describes a ring.
    spec fn valid(&self) -> bool;

    /// `a` is an element of the ring described by the handle.
    spec fn contains(&self, a: Self::Element) -> bool;

    spec fn zero_spec() -> Self::Element;

    spec fn one_spec(&self) -> Self::Element;

    spec fn add_spec(&self, a: Self::Element, b: Self::Element) -> Self::Element;

    spec fn neg_spec(&self, a: Self::Element) -> Self::Element;

    spec fn mul_spec(&self, a: Self::Element, b: Self::Element) -> Self::Element;

    /// `b` raised to the power `e`.
    spec fn pow_spec(&self, b: Self::Element, e: u64) -> Self::Element;

    /// The text of an element, with a sign in any case if `plus`.
    spec fn element_text(&self, a: Self::Element, plus: bool) -> Text;

    /// The text that names the ring, which follows the text of a polynomial.
    spec fn ring_text(&self) -> Text;

    proof fn lemma_constants(&self)
        requires
            self.valid(),
        ensures
            self.contains(Self::zero_spec()),
            self.contains(self.one_spec()),
    ;

    proof fn lemma_closed(&self, a: Self::Element, b: Self::Element)
        requires
            self.valid(),
            self.contains(a),
            self.contains(b),
        ensures
            self.contains(self.add_spec(a, b)),
            self.contains(self.mul_spec(a, b)),
            self.contains(self.neg_spec(a)),
    ;

    proof fn lemma_add_commutative(&self, a: Self::Element, b: Self::Element)
        requires
            self.valid(),
            self.contains(a),
            self.contains(b),
        ensures
            self.add_spec(a, b) == self.add_spec(b, a),
    ;

    proof fn lemma_add_associative(&self, a: Self::Element, b: Self::Element, c: Self::Element)
        requires
            self.valid(),
            self.contains(a),
            self.contains(b),
            self.contains(c),
        ensures
            self.add_spec(self.add_spec(a, b), c) == self.add_spec(a, self.add_spec(b, c)),
    ;

    proof fn lemma_add_zero(&self, a: Self::Element)
        requires
            self.valid(),
            self.contains(a),
        ensures
            self.add_spec(a, Self::zero_spec()) == a,
    ;

    proof fn lemma_add_neg(&self, a: Self::Element)
        requires
            self.valid(),
            self.contains(a),
        ensures
            self.add_spec(a, self.neg_spec(a)) == Self::zero_spec(),
    ;

    proof fn lemma_mul_commutative(&self, a: Self::Element, b: Self::Element)
        requires
            self.valid(),
            self.contains(a),
            self.contains(b),
        ensures
            self.mul_spec(a, b) == self.mul_spec(b, a),
    ;

    proof fn lemma_mul_associative(&self, a: Self::Element, b: Self::Element, c: Self::Element)
        requires
            self.valid(),
            self.contains(a),
            self.contains(b),
            self.contains(c),
        ensures
            self.mul_spec(self.mul_spec(a, b), c) == self.mul_spec(a, self.mul_spec(b, c)),
    ;

    proof fn lemma_mul_one(&self, a: Self::Element)
        requires
            self.valid(),
            self.contains(a),
        ensures
            self.mul_spec(a, self.one_spec()) == a,
    ;

    proof fn lemma_distributive(&self, a: Self::Element, b: Self::Element, c: Self::Element)
        requires
            self.valid(),
            self.contains(a),
            self.contains(b),
            self.contains(c),
        ensures
            self.mul_spec(a, self.add_spec(b, c)) == self.add_spec(
                self.mul_spec(a, b),
                self.mul_spec(a, c),
            ),
    ;

    /// A power is one for the exponent zero, and one more factor for each
    /// step of the exponent.
    proof fn lemma_pow(&self, b: Self::Element, e: u64)
        requires
            self.valid(),
            self.contains(b),
        ensures
            self.pow_spec(b, 0) == self.one_spec(),
            e > 0 ==> self.pow_spec(b, e) == self.mul_spec(b, self.pow_spec(b, (e - 1) as u64)),
    ;

    fn zero() -> (r: Self::Element)
        ensures
            r == Self::zero_spec(),
    ;

    fn one(&self) -> (r: Self::Element)
        requires
            self.valid(),
        ensures
            r == self.one_spec(),
    ;

    fn is_zero(a: &Self::Element) -> (r: bool)
        ensures
            r == (*a == Self::zero_spec()),
    ;

    fn is_one(&self, a: &Self::Element) -> (r: bool)
        requires
            self.valid(),
        ensures
            r == (*a == self.one_spec()),
    ;

    /// Whether two elements are the same.
    fn eq_element(&self, a: &Self::Element, b: &Self::Element) -> (r: bool)
        ensures
            r == (*a == *b),
    ;

    /// A copy of an element.
    fn copy_element(&self, a: &Self::Element) -> (r: Self::Element)
        ensures
            r == *a,
    ;

    fn add(&self, a: &Self::Element, b: &Self::Element) -> (r: Self::Element)
        requires
            self.valid(),
            self.contains(*a),
            self.contains(*b),
        ensures
            r == self.add_spec(*a, *b),
    ;

    fn sub(&self, a: &Self::Element, b: &Self::Element) -> (r: Self::Element)
        requires
            self.valid(),
            self.contains(*a),
            self.contains(*b),
        ensures
            r == self.add_spec(*a, self.neg_spec(*b)),
    ;

    fn mul(&self, a: &Self::Element, b: &Self::Element) -> (r: Self::Element)
        requires
            self.valid(),
            self.contains(*a),
            self.contains(*b),
        ensures
            r == self.mul_spec(*a, *b),
    ;

    fn neg(&self, a: &Self::Element) -> (r: Self::Element)
        requires
            self.valid(),
            self.contains(*a),
        ensures
            r == self.neg_spec(*a),
    ;

    fn add_assign(&self, a: &mut Self::Element, b: &Self::Element)
        requires
            self.valid(),
            self.contains(*old(a)),
            self.contains(*b),
        ensures
            *final(a) == self.add_spec(*old(a), *b),
    ;

    fn sub_assign(&self, a: &mut Self::Element, b: &Self::Element)
        requires
            self.valid(),
            self.contains(*old(a)),
            self.contains(*b),
        ensures
            *final(a) == self.add_spec(*old(a), self.neg_spec(*b)),
    ;

    fn mul_assign(&self, a: &mut Self::Element, b: &Self::Element)
        requires
            self.valid(),
            self.contains(*old(a)),
            self.contains(*b),
        ensures
            *final(a) == self.mul_spec(*old(a), *b),
    ;

    /// `b` raised to the power `e`.
    fn pow(&self, b: &Self::Element, e: u64) -> (r: Self::Element)
        requires
            self.valid(),
            self.contains(*b),
        ensures
            r == self.pow_spec(*b, e),
    ;

    /// The text of an element, with a sign in any case if `plus`.
    fn format_element(&self, a: &Self::Element, plus: bool) -> (s: String)
        ensures
            s@ == self.element_text(*a, plus),
    ;

    /// The text that names the ring.
    fn format_ring(&self) -> (s: String)
        ensures
            s@ == self.ring_text(),
    ;
}

/// `a - b`.
pub open spec fn sub_spec<F: Ring>(f: F, a: F::Element, b: F::Element) -> F::Element {
    f.add_spec(a, f.neg_spec(b))
}

/// `d` divides `a`: some multiple of `d` is `a`.
pub open spec fn divides<F: Ring>(f: F, d: F::Element, a: F::Element) -> bool {
    exists|k: F::Element| f.contains(k) && #[trigger] f.mul_spec(k, d) == a
}

/// `d` divides every element of the ring, as a unit does.
pub open spec fn divides_all<F: Ring>(f: F, d: F::Element) -> bool {
    forall|c: F::Element| f.contains(c) ==> #[trigger] divides(f, d, c)
}

/// A ring with division with remainder and greatest common divisors.
pub trait EuclideanDomain: Ring {
    spec fn quot_spec(&self, a: Self::Element, b: Self::Element) -> Self::Element;

    spec fn rem_spec(&self, a: Self::Element, b: Self::Element) -> Self::Element;

    spec fn gcd_spec(&self, a: Self::Element, b: Self::Element) -> Self::Element;

    /// Division with remainder recomposes, and leaves no remainder exactly
    /// when the divisor divides the dividend.
    proof fn lemma_quot_rem(&self, a: Self::Element, b: Self::Element)
        requires
            self.valid(),
            self.contains(a),
            self.contains(b),
            b != Self::zero_spec(),
        ensures
            self.contains(self.quot_spec(a, b)),
            self.contains(self.rem_spec(a, b)),
            self.add_spec(self.mul_spec(self.quot_spec(a, b), b), self.rem_spec(a, b)) == a,
            self.rem_spec(a, b) == Self::zero_spec() <==> divides(*self, b, a),
    ;

    /// A product of two elements is zero only if one of them is.
    proof fn lemma_no_zero_divisors(&self, a: Self::Element, b: Self::Element)
        requires
            self.valid(),
            self.contains(a),
            self.contains(b),
            self.mul_spec(a, b) == Self::zero_spec(),
        ensures
            a == Self::zero_spec() || b == Self::zero_spec(),
    ;

    /// The greatest common divisor is a common divisor.
    proof fn lemma_gcd(&self, a: Self::Element, b: Self::Element)
        requires
            self.valid(),
            self.contains(a),
            self.contains(b),
        ensures
            self.contains(self.gcd_spec(a, b)),
            divides(*self, self.gcd_spec(a, b), a),
            divides(*self, self.gcd_spec(a, b), b),
    ;

    /// The greatest common divisor is the greatest: every common divisor
    /// divides it.
    proof fn lemma_gcd_greatest(&self, a: Self::Element, b: Self::Element, d: Self::Element)
        requires
            self.valid(),
            self.contains(a),
            self.contains(b),
            self.contains(d),
            divides(*self, d, a),
            divides(*self, d, b),
        ensures
            divides(*self, d, self.gcd_spec(a, b)),
    ;

    fn rem(&self, a: &Self::Element, b: &Self::Element) -> (r: Self::Element)
        requires
            self.valid(),
            self.contains(*a),
            self.contains(*b),
            *b != Self::zero_spec(),
        ensures
            r == self.rem_spec(*a, *b),
    ;

    fn quot_rem(&self, a: &Self::Element, b: &Self::Element) -> (r: (Self::Element, Self::Element))
        requires
            self.valid(),
            self.contains(*a),
            self.contains(*b),
            *b != Self::zero_spec(),
        ensures
            r.0 == self.quot_spec(*a, *b),
            r.1 == self.rem_spec(*a, *b),
    ;

    fn gcd(&self, a: &Self::Element, b: &Self::Element) -> (r: Self::Element)
        requires
            self.valid(),
            self.contains(*a),
            self.contains(*b),
        ensures
            r == self.gcd_spec(*a, *b),
    ;
}

/// A Euclidean domain in which every non-zero element has an inverse.
pub trait Field: EuclideanDomain {
    spec fn inv_spec(&self, a: Self::Element) -> Self::Element;

    proof fn lemma_inv(&self, a: Self::Element)
        requires
            self.valid(),
            self.contains(a),
            a != Self::zero_spec(),
        ensures
            self.contains(self.inv_spec(a)),
            self.mul_spec(a, self.inv_spec(a)) == self.one_spec(),
    ;

    fn div(&self, a: &Self::Element, b: &Self::Element) -> (r: Self::Element)
        requires
            self.valid(),
            self.contains(*a),
            self.contains(*b),
            *b != Self::zero_spec(),
        ensures
            r == self.mul_spec(*a, self.inv_spec(*b)),
    ;

    fn div_assign(&self, a: &mut Self::Element, b: &Self::Element)
        requires
            self.valid(),
            self.contains(*old(a)),
            self.contains(*b),
            *b != Self::zero_spec(),
        ensures
            *final(a) == self.mul_spec(*old(a), self.inv_spec(*b)),
    ;

    fn inv(&self, a: &Self::Element) -> (r: Self::Element)
        requires
            self.valid(),
            self.contains(*a),
            *a != Self::zero_spec(),
        ensures
            r == self.inv_spec(*a),
    ;
}

/// Zero is neutral on the left as well.
pub proof fn lemma_zero_add<F: Ring>(f: F, a: F::Element)
    requires
        f.valid(),
        f.contains(a),
    ensures
        f.add_spec(F::zero_spec(), a) == a,
{
    f.lemma_constants();
    f.lemma_add_commutative(F::zero_spec(), a);
    f.lemma_add_zero(a);
}

/// Addition can be cancelled: `a + c == b + c` only if `a == b`.
pub proof fn lemma_add_cancel<F: Ring>(f: F, a: F::Element, b: F::Element, c: F::Element)
    requires
        f.valid(),
        f.contains(a),
        f.contains(b),
        f.contains(c),
        f.add_spec(a, c) == f.add_spec(b, c),
    ensures
        a == b,
{
    let n = f.neg_spec(c);
    f.lemma_closed(c, c);
    f.lemma_add_associative(a, c, n);
    f.lemma_add_associative(b, c, n);
    f.lemma_add_neg(c);
    f.lemma_add_zero(a);
    f.lemma_add_zero(b);
}

/// Addition can be cancelled on the left: `c + a == c + b` only if `a == b`.
pub proof fn lemma_add_cancel_left<F: Ring>(f: F, a: F::Element, b: F::Element, c: F::Element)
    requires
        f.valid(),
        f.contains(a),
        f.contains(b),
        f.contains(c),
        f.add_spec(c, a) == f.add_spec(c, b),
    ensures
        a == b,
{
    f.lemma_add_commutative(c, a);
    f.lemma_add_commutative(c, b);
    lemma_add_cancel(f, a, b, c);
}

/// Elements with the difference zero are equal.
pub proof fn lemma_sub_zero<F: Ring>(f: F, a: F::Element, b: F::Element)
    requires
        f.valid(),
        f.contains(a),
        f.contains(b),
        sub_spec(f, a, b) == F::zero_spec(),
    ensures
        a == b,
{
    f.lemma_closed(b, b);
    f.lemma_add_neg(b);
    lemma_add_cancel(f, a, b, f.neg_spec(b));
}

/// What is added to an element is the difference of the sum and the element:
/// `(a + b) - a == b`.
pub proof fn lemma_add_sub<F: Ring>(f: F, a: F::Element, b: F::Element)
    requires
        f.valid(),
        f.contains(a),
        f.contains(b),
    ensures
        sub_spec(f, f.add_spec(a, b), a) == b,
{
    let n = f.neg_spec(a);
    f.lemma_closed(a, a);
    f.lemma_add_commutative(a, b);
    f.lemma_add_associative(b, a, n);
    f.lemma_add_neg(a);
    f.lemma_add_zero(b);
}

/// Multiplication distributes over the difference:
/// `c * (a - b) == c * a - c * b`.
pub proof fn lemma_mul_sub<F: Ring>(f: F, c: F::Element, a: F::Element, b: F::Element)
    requires
        f.valid(),
        f.contains(a),
        f.contains(b),
        f.contains(c),
    ensures
        f.mul_spec(c, sub_spec(f, a, b)) == sub_spec(f, f.mul_spec(c, a), f.mul_spec(c, b)),
{
    f.lemma_closed(b, b);
    f.lemma_distributive(c, a, f.neg_spec(b));
    lemma_mul_neg(f, c, b);
}

/// Every element divides itself.
pub proof fn lemma_divides_self<F: Ring>(f: F, a: F::Element)
    requires
        f.valid(),
        f.contains(a),
    ensures
        divides(f, a, a),
{
    f.lemma_constants();
    lemma_one_mul(f, a);
    assert(f.mul_spec(f.one_spec(), a) == a);
}

/// Every element divides zero.
pub proof fn lemma_divides_zero<F: Ring>(f: F, a: F::Element)
    requires
        f.valid(),
        f.contains(a),
    ensures
        divides(f, a, F::zero_spec()),
{
    f.lemma_constants();
    lemma_mul_zero(f, a);
    assert(f.mul_spec(F::zero_spec(), a) == F::zero_spec());
}

/// A divisor of a divisor is a divisor.
pub proof fn lemma_divides_transitive<F: Ring>(f: F, a: F::Element, b: F::Element, c: F::Element)
    requires
        f.valid(),
        f.contains(a),
        divides(f, a, b),
        divides(f, b, c),
    ensures
        divides(f, a, c),
{
    let k1 = choose|k: F::Element| f.contains(k) && #[trigger] f.mul_spec(k, a) == b;
    let k2 = choose|k: F::Element| f.contains(k) && #[trigger] f.mul_spec(k, b) == c;
    f.lemma_closed(k2, k1);
    f.lemma_mul_associative(k2, k1, a);
    assert(f.mul_spec(f.mul_spec(k2, k1), a) == c);
}

/// Zero annihilates: `a * 0 == 0` and `0 * a == 0`.
pub proof fn lemma_mul_zero<F: Ring>(f: F, a: F::Element)
    requires
        f.valid(),
        f.contains(a),
    ensures
        f.mul_spec(a, F::zero_spec()) == F::zero_spec(),
        f.mul_spec(F::zero_spec(), a) == F::zero_spec(),
{
    let z = F::zero_spec();
    f.lemma_constants();
    let az = f.mul_spec(a, z);
    f.lemma_closed(a, z);
    f.lemma_add_zero(z);
    f.lemma_distributive(a, z, z);
    // az == az + az, and az == 0 + az
    lemma_zero_add(f, az);
    lemma_add_cancel(f, z, az, az);
    f.lemma_mul_commutative(a, z);
}

/// The negative of zero is zero.
pub proof fn lemma_neg_zero<F: Ring>(f: F)
    requires
        f.valid(),
    ensures
        f.neg_spec(F::zero_spec()) == F::zero_spec(),
{
    let z = F::zero_spec();
    f.lemma_constants();
    f.lemma_closed(z, z);
    f.lemma_add_neg(z);
    lemma_zero_add(f, f.neg_spec(z));
}

/// The negative of an element is zero only for zero.
pub proof fn lemma_neg_is_zero<F: Ring>(f: F, a: F::Element)
    requires
        f.valid(),
        f.contains(a),
        f.neg_spec(a) == F::zero_spec(),
    ensures
        a == F::zero_spec(),
{
    f.lemma_add_neg(a);
    f.lemma_add_zero(a);
}

/// The negative of a sum is the sum of the negatives.
pub proof fn lemma_neg_add<F: Ring>(f: F, a: F::Element, b: F::Element)
    requires
        f.valid(),
        f.contains(a),
        f.contains(b),
    ensures
        f.neg_spec(f.add_spec(a, b)) == f.add_spec(f.neg_spec(a), f.neg_spec(b)),
{
    let na = f.neg_spec(a);
    let nb = f.neg_spec(b);
    let s = f.add_spec(a, b);
    let t = f.add_spec(na, nb);
    f.lemma_closed(a, b);
    f.lemma_closed(b, a);
    f.lemma_closed(na, nb);
    f.lemma_closed(s, s);
    // t + s == (na + nb) + (a + b) == na + (nb + (b + a)) == na + a == 0
    f.lemma_add_commutative(a, b);
    f.lemma_add_associative(na, nb, f.add_spec(b, a));
    f.lemma_closed(nb, b);
    f.lemma_add_associative(nb, b, a);
    f.lemma_add_commutative(nb, b);
    f.lemma_add_neg(b);
    lemma_zero_add(f, a);
    f.lemma_add_commutative(na, a);
    f.lemma_add_neg(a);
    assert(f.add_spec(t, s) == F::zero_spec());
    f.lemma_add_commutative(f.neg_spec(s), s);
    f.lemma_add_neg(s);
    lemma_add_cancel(f, f.neg_spec(s), t, s);
}

/// One is neutral on the left as well.
pub proof fn lemma_one_mul<F: Ring>(f: F, a: F::Element)
    requires
        f.valid(),
        f.contains(a),
    ensures
        f.mul_spec(f.one_spec(), a) == a,
{
    f.lemma_constants();
    f.lemma_mul_commutative(f.one_spec(), a);
    f.lemma_mul_one(a);
}

/// A product with a negated factor is the negated product.
pub proof fn lemma_mul_neg<F: Ring>(f: F, a: F::Element, b: F::Element)
    requires
        f.valid(),
        f.contains(a),
        f.contains(b),
    ensures
        f.mul_spec(a, f.neg_spec(b)) == f.neg_spec(f.mul_spec(a, b)),
        f.mul_spec(f.neg_spec(a), b) == f.neg_spec(f.mul_spec(a, b)),
{
    let nb = f.neg_spec(b);
    let ab = f.mul_spec(a, b);
    f.lemma_closed(b, b);
    f.lemma_closed(a, b);
    f.lemma_closed(a, nb);
    f.lemma_closed(ab, ab);
    // a*b + a*(-b) == a*(b + -b) == a*0 == 0
    f.lemma_distributive(a, b, nb);
    f.lemma_add_neg(b);
    lemma_mul_zero(f, a);
    f.lemma_add_neg(ab);
    f.lemma_add_commutative(ab, f.mul_spec(a, nb));
    f.lemma_add_commutative(ab, f.neg_spec(ab));
    lemma_add_cancel(f, f.mul_spec(a, nb), f.neg_spec(ab), ab);
    // the other side, by commutativity
    let na = f.neg_spec(a);
    let ba = f.mul_spec(b, a);
    f.lemma_closed(a, a);
    f.lemma_closed(b, a);
    f.lemma_closed(b, na);
    f.lemma_closed(ba, ba);
    f.lemma_distributive(b, a, na);
    f.lemma_add_neg(a);
    lemma_mul_zero(f, b);
    f.lemma_add_neg(ba);
    f.lemma_add_commutative(ba, f.mul_spec(b, na));
    f.lemma_add_commutative(ba, f.neg_spec(ba));
    lemma_add_cancel(f, f.mul_spec(b, na), f.neg_spec(ba), ba);
    f.lemma_mul_commutative(na, b);
    f.lemma_mul_commutative(a, b);
}

/// Powers of a ring element are ring elements.
pub proof fn lemma_pow_closed<F: Ring>(f: F, b: F::Element, e: u64)
    requires
        f.valid(),
        f.contains(b),
    ensures
        f.contains(f.pow_spec(b, e)),
    decreases e,
{
    if e == 0 {
        f.lemma_constants();
        f.lemma_pow(b, 0);
    } else {
        lemma_pow_closed(f, b, (e - 1) as u64);
        f.lemma_pow(b, e);
        f.lemma_closed(b, f.pow_spec(b, (e - 1) as u64));
    }
}

} // verus!
