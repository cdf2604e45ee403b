//! The field of integers modulo a prime.
use crate::rings::text::{decimal_string, push_char, push_text};
use crate::rings::{lemma_mul_zero, lemma_one_mul, EuclideanDomain, Field, Ring};
use vstd::arithmetic::div_mod::{
    lemma_add_mod_noop, lemma_fundamental_div_mod, lemma_mod_multiples_vanish, lemma_mod_self_0,
    lemma_mul_mod_noop_general, lemma_small_mod,
};
use vstd::arithmetic::mul::{lemma_mul_is_associative, lemma_mul_is_distributive_add};
use vstd::prelude::*;

verus! {

/// `p` is a prime number.
pub open spec fn is_prime(p: int) -> bool {
    &&& 2 <= p
    &&& forall|d: int| 1 < d < p ==> #[trigger] (p % d) != 0
}

/// The greatest common divisor of two natural numbers.
pub open spec fn gcd_nat(a: nat, b: nat) -> nat
    decreases b,
{
    if b == 0 {
        a
    } else {
        gcd_nat(b, a % b)
    }
}

/// The greatest common divisor divides both numbers.
pub proof fn lemma_gcd_divides(a: nat, b: nat)
    requires
        a > 0 || b > 0,
    ensures
        gcd_nat(a, b) > 0,
        a % gcd_nat(a, b) == 0,
        b % gcd_nat(a, b) == 0,
    decreases b,
{
    if b == 0 {
        lemma_mod_self_0(a as int);
    } else {
        let r = a % b;
        let g = gcd_nat(b, r);
        lemma_gcd_divides(b, r);
        // a == (a / b) * b + r, and g divides b and r
        lemma_fundamental_div_mod(a as int, b as int);
        let q = (a / b) as int;
        let kb = (b / g) as int;
        let kr = (r / g) as int;
        lemma_fundamental_div_mod(b as int, g as int);
        lemma_fundamental_div_mod(r as int, g as int);
        assert(a as int == g * (q * kb + kr)) by (nonlinear_arith)
            requires
                a as int == b * q + r,
                b as int == g * kb,
                r as int == g * kr,
        ;
        lemma_mod_multiples_vanish(q * kb + kr, 0, g as int);
        lemma_small_mod(0, g);
        assert((g * (q * kb + kr)) == (q * kb + kr) * g) by (nonlinear_arith);
    }
}

/// Integers `x`, `y` with `a * x + b * y == gcd(a, b)`.
pub proof fn lemma_bezout(a: nat, b: nat) -> (r: (int, int))
    ensures
        a * r.0 + b * r.1 == gcd_nat(a, b),
    decreases b,
{
    if b == 0 {
        (1, 0)
    } else {
        let (x, y) = lemma_bezout(b, a % b);
        lemma_fundamental_div_mod(a as int, b as int);
        let q = (a / b) as int;
        let m = (a % b) as int;
        assert(a * y + b * (x - q * y) == b * x + m * y) by (nonlinear_arith)
            requires
                a as int == b * q + m,
        ;
        (y, x - q * y)
    }
}

/// The greatest common divisor of two numbers.
pub fn gcd_unsigned(a: u64, b: u64) -> (r: u64)
    ensures
        r == gcd_nat(a as nat, b as nat),
{
    let mut x = a;
    let mut y = b;
    while y != 0
        invariant
            gcd_nat(x as nat, y as nat) == gcd_nat(a as nat, b as nat),
        decreases y,
    {
        let t = x % y;
        x = y;
        y = t;
    }
    x
}

/// A prime has no divisor in common with a smaller positive number.
pub proof fn lemma_gcd_prime(p: nat, a: nat)
    requires
        is_prime(p as int),
        0 < a < p,
    ensures
        gcd_nat(p, a) == 1,
{
    let g = gcd_nat(p, a);
    lemma_gcd_divides(p, a);
    if g > a {
        lemma_small_mod(a, g);
    }
    if g > 1 {
        assert(p as int % g as int != 0);
    }
}

/// Congruent factors give congruent products.
proof fn lemma_congruent_mul(x: int, x2: int, y: int, y2: int, p: int)
    requires
        0 < p,
        x % p == x2 % p,
        y % p == y2 % p,
    ensures
        (x * y) % p == (x2 * y2) % p,
{
    lemma_mul_mod_noop_general(x, y, p);
    lemma_mul_mod_noop_general(x2, y2, p);
}

/// Congruent terms give congruent sums.
proof fn lemma_congruent_add(x: int, x2: int, y: int, y2: int, p: int)
    requires
        0 < p,
        x % p == x2 % p,
        y % p == y2 % p,
    ensures
        (x + y) % p == (x2 + y2) % p,
{
    lemma_add_mod_noop(x, y, p);
    lemma_add_mod_noop(x2, y2, p);
}

/// The field of integers modulo the prime `p`. Its elements are the numbers
/// `0..p`.
#[derive(Clone, Copy, Debug)]
pub struct FiniteField {
    p: u64,
}

impl FiniteField {
    /// The modulus.
    pub closed spec fn prime(&self) -> nat {
        self.p as nat
    }

    /// The field of integers modulo `p`.
    pub fn new(p: u64) -> (r: Self)
        requires
            is_prime(p as int),
        ensures
            r.valid(),
            r.prime() == p,
    {
        FiniteField { p }
    }

    /// The field of integers modulo `p` if `p` is a prime, found by trial
    /// division.
    pub fn try_new(p: u64) -> (r: Option<Self>)
        ensures
            r.is_some() == is_prime(p as int),
            r matches Some(f) ==> f.valid() && f.prime() == p,
    {
        if p < 2 {
            return None;
        }
        let mut d: u64 = 2;
        while d < p
            invariant
                2 <= d <= p,
                forall|k: int| 1 < k < d ==> #[trigger] (p as int % k) != 0,
            decreases p - d,
        {
            if p % d == 0 {
                return None;
            }
            d += 1;
        }
        Some(FiniteField { p })
    }

    /// The modulus.
    pub fn get_prime(&self) -> (r: u64)
        ensures
            r == self.prime(),
    {
        self.p
    }

    /// The element that stands for the integer `a`.
    pub fn to_element(&self, a: u64) -> (r: u64)
        requires
            self.valid(),
        ensures
            self.contains(r),
            r == a as int % self.prime() as int,
    {
        a % self.p
    }

    /// The arithmetic of the field: its elements are the numbers below the
    /// modulus, which is a prime, and they are added, negated and multiplied
    /// modulo it.
    pub proof fn lemma_arithmetic(&self, a: u64, b: u64)
        ensures
            self.valid() == is_prime(self.prime() as int),
            self.contains(a) == (a < self.prime()),
            self.valid() ==> self.add_spec(a, b) == (a + b) % (self.prime() as int),
            self.valid() ==> self.mul_spec(a, b) == (a * b) % (self.prime() as int),
            self.valid() ==> self.neg_spec(a) == (self.prime() - a) % (self.prime() as int),
    {
        if self.valid() {
            let p = self.p as int;
            vstd::arithmetic::div_mod::lemma_mod_bound(a + b, p);
            vstd::arithmetic::div_mod::lemma_mod_bound(a * b, p);
            vstd::arithmetic::div_mod::lemma_mod_bound(p - a, p);
        }
    }

    /// The inverse of a non-zero element is the element whose product with it
    /// is one.
    pub proof fn lemma_inverse_is(&self, a: u64, x: u64)
        requires
            self.valid(),
            self.contains(a),
            self.contains(x),
            self.mul_spec(a, x) == 1,
        ensures
            self.inverse(a) == x,
    {
        if a == 0 {
            lemma_mul_zero(*self, x);
        }
        let y = self.lemma_inverse_exists(a);
        let z = self.inverse(a);
        self.lemma_inverse_unique(a, x, z);
    }

    /// The inverse of a non-zero element.
    pub closed spec fn inverse(&self, a: u64) -> u64 {
        choose|x: u64| self.contains(x) && self.mul_spec(a, x) == 1
    }

    /// An inverse of a non-zero element is unique.
    proof fn lemma_inverse_unique(&self, a: u64, x: u64, y: u64)
        requires
            self.valid(),
            self.contains(a),
            self.contains(x),
            self.contains(y),
            self.mul_spec(a, x) == 1,
            self.mul_spec(a, y) == 1,
        ensures
            x == y,
    {
        // x == x * (a * y) == (x * a) * y == y
        self.lemma_mul_one(x);
        self.lemma_mul_associative(x, a, y);
        self.lemma_mul_commutative(x, a);
        lemma_one_mul(*self, y);
    }

    /// A non-zero element has an inverse.
    proof fn lemma_inverse_exists(&self, a: u64) -> (x: u64)
        requires
            self.valid(),
            self.contains(a),
            a != 0,
        ensures
            self.contains(x),
            self.mul_spec(a, x) == 1,
    {
        let p = self.p as int;
        lemma_gcd_prime(self.p as nat, a as nat);
        let (u, v) = lemma_bezout(self.p as nat, a as nat);
        // p * u + a * v == 1, so a * v is 1 modulo p
        assert(a * v == p * (-u) + 1) by (nonlinear_arith)
            requires
                p * u + a * v == 1,
        ;
        lemma_mod_multiples_vanish(-u, 1, p);
        lemma_small_mod(1, p as nat);
        assert((a * v) % p == 1);
        let x = v % p;
        lemma_mul_mod_noop_general(a as int, v, p);
        x as u64
    }
}

impl Ring for FiniteField {
    type Element = u64;

    closed spec fn valid(&self) -> bool {
        is_prime(self.p as int)
    }

    closed spec fn contains(&self, a: u64) -> bool {
        a < self.p
    }

    open spec fn zero_spec() -> u64 {
        0
    }

    open spec fn one_spec(&self) -> u64 {
        1
    }

    closed spec fn add_spec(&self, a: u64, b: u64) -> u64 {
        ((a as int + b as int) % (self.p as int)) as u64
    }

    closed spec fn neg_spec(&self, a: u64) -> u64 {
        ((self.p as int - a as int) % (self.p as int)) as u64
    }

    closed spec fn mul_spec(&self, a: u64, b: u64) -> u64 {
        ((a as int * b as int) % (self.p as int)) as u64
    }

    open spec fn pow_spec(&self, b: u64, e: u64) -> u64
        decreases e,
    {
        if e == 0 {
            1
        } else {
            self.mul_spec(b, self.pow_spec(b, (e - 1) as u64))
        }
    }

    open spec fn element_text(&self, a: u64, plus: bool) -> Seq<char> {
        if plus {
            seq!['+'] + crate::rings::text::decimal(a)
        } else {
            crate::rings::text::decimal(a)
        }
    }

    open spec fn ring_text(&self) -> Seq<char> {
        seq![' ', '%', ' '] + crate::rings::text::decimal(self.prime() as u64)
    }

    proof fn lemma_constants(&self) {
    }

    proof fn lemma_pow(&self, b: u64, e: u64) {
    }

    proof fn lemma_closed(&self, a: u64, b: u64) {
    }

    proof fn lemma_add_commutative(&self, a: u64, b: u64) {
    }

    proof fn lemma_add_associative(&self, a: u64, b: u64, c: u64) {
        let p = self.p as int;
        lemma_small_mod(a as nat, p as nat);
        lemma_small_mod(c as nat, p as nat);
        lemma_add_mod_noop(a + b, c as int, p);
        lemma_add_mod_noop(a as int, b + c, p);
    }

    proof fn lemma_add_zero(&self, a: u64) {
        lemma_small_mod(a as nat, self.p as nat);
    }

    proof fn lemma_add_neg(&self, a: u64) {
        let p = self.p as int;
        if a == 0 {
            lemma_mod_self_0(p);
            lemma_small_mod(0, p as nat);
        } else {
            lemma_small_mod((p - a) as nat, p as nat);
            lemma_mod_self_0(p);
        }
    }

    proof fn lemma_mul_commutative(&self, a: u64, b: u64) {
        assert(a as int * b as int == b as int * a as int) by (nonlinear_arith);
    }

    proof fn lemma_mul_associative(&self, a: u64, b: u64, c: u64) {
        let p = self.p as int;
        lemma_mul_mod_noop_general(a as int * b as int, c as int, p);
        lemma_mul_mod_noop_general(a as int, b as int * c as int, p);
        lemma_mul_is_associative(a as int, b as int, c as int);
    }

    proof fn lemma_mul_one(&self, a: u64) {
        lemma_small_mod(a as nat, self.p as nat);
        assert(a as int * 1 == a as int) by (nonlinear_arith);
    }

    proof fn lemma_distributive(&self, a: u64, b: u64, c: u64) {
        let p = self.p as int;
        lemma_mul_mod_noop_general(a as int, b + c, p);
        lemma_add_mod_noop(a as int * b as int, a as int * c as int, p);
        lemma_mul_is_distributive_add(a as int, b as int, c as int);
    }

    fn zero() -> (r: u64) {
        0
    }

    fn one(&self) -> (r: u64) {
        1
    }

    fn is_zero(a: &u64) -> (r: bool) {
        *a == 0
    }

    fn is_one(&self, a: &u64) -> (r: bool) {
        *a == 1
    }

    fn eq_element(&self, a: &u64, b: &u64) -> (r: bool) {
        *a == *b
    }

    fn copy_element(&self, a: &u64) -> (r: u64) {
        *a
    }

    fn add(&self, a: &u64, b: &u64) -> (r: u64) {
        let s: u128 = *a as u128 + *b as u128;
        (s % (self.p as u128)) as u64
    }

    fn sub(&self, a: &u64, b: &u64) -> (r: u64) {
        let n = self.neg(b);
        self.add(a, &n)
    }

    fn mul(&self, a: &u64, b: &u64) -> (r: u64) {
        assert(*a as int * *b as int <= 0xffff_ffff_ffff_ffff * 0xffff_ffff_ffff_ffff)
            by (nonlinear_arith)
            requires
                0 <= *a <= 0xffff_ffff_ffff_ffff,
                0 <= *b <= 0xffff_ffff_ffff_ffff,
        ;
        let s: u128 = (*a as u128) * (*b as u128);
        (s % (self.p as u128)) as u64
    }

    fn neg(&self, a: &u64) -> (r: u64) {
        if *a == 0 {
            proof {
                lemma_mod_self_0(self.p as int);
            }
            0
        } else {
            proof {
                lemma_small_mod((self.p - *a) as nat, self.p as nat);
            }
            self.p - *a
        }
    }

    fn add_assign(&self, a: &mut u64, b: &u64) {
        let s = self.add(a, b);
        *a = s;
    }

    fn sub_assign(&self, a: &mut u64, b: &u64) {
        let s = self.sub(a, b);
        *a = s;
    }

    fn mul_assign(&self, a: &mut u64, b: &u64) {
        let s = self.mul(a, b);
        *a = s;
    }

    fn format_element(&self, a: &u64, plus: bool) -> (s: String) {
        let mut s = String::new();
        if plus {
            push_char(&mut s, '+');
        }
        let digits = decimal_string(*a);
        push_text(&mut s, &digits);
        proof {
            assert(s@ =~= self.element_text(*a, plus));
        }
        s
    }

    fn format_ring(&self) -> (s: String) {
        let mut s = String::new();
        push_char(&mut s, ' ');
        push_char(&mut s, '%');
        push_char(&mut s, ' ');
        let digits = decimal_string(self.p);
        push_text(&mut s, &digits);
        proof {
            assert(s@ =~= self.ring_text());
        }
        s
    }

    fn pow(&self, b: &u64, e: u64) -> (r: u64) {
        let mut r: u64 = 1;
        let mut i: u64 = 0;
        while i < e
            invariant
                self.valid(),
                self.contains(*b),
                self.contains(r),
                i <= e,
                r == self.pow_spec(*b, i),
            decreases e - i,
        {
            r = self.mul(b, &r);
            i += 1;
        }
        r
    }
}

impl EuclideanDomain for FiniteField {
    open spec fn quot_spec(&self, a: u64, b: u64) -> u64 {
        self.mul_spec(a, self.inverse(b))
    }

    open spec fn rem_spec(&self, a: u64, b: u64) -> u64 {
        0
    }

    open spec fn gcd_spec(&self, a: u64, b: u64) -> u64 {
        if a == 0 && b == 0 {
            0
        } else {
            1
        }
    }

    proof fn lemma_quot_rem(&self, a: u64, b: u64) {
        let i = self.inv_spec(b);
        let q = self.mul_spec(a, i);
        self.lemma_inv(b);
        self.lemma_closed(a, i);
        // (a * i) * b == a * (i * b) == a
        self.lemma_mul_associative(a, i, b);
        self.lemma_mul_commutative(i, b);
        self.lemma_mul_one(a);
        self.lemma_add_zero(a);
        assert(self.mul_spec(q, b) == a);
    }

    proof fn lemma_gcd_greatest(&self, a: u64, b: u64, d: u64) {
        if a == 0 && b == 0 {
            crate::rings::lemma_divides_zero(*self, d);
        } else {
            if d == 0 {
                let k1 = choose|k: u64| self.contains(k) && #[trigger] self.mul_spec(k, d) == a;
                let k2 = choose|k: u64| self.contains(k) && #[trigger] self.mul_spec(k, d) == b;
                lemma_mul_zero(*self, k1);
                lemma_mul_zero(*self, k2);
            }
            let i = self.inv_spec(d);
            self.lemma_inv(d);
            self.lemma_mul_commutative(i, d);
            assert(self.mul_spec(i, d) == 1);
        }
    }

    proof fn lemma_no_zero_divisors(&self, a: u64, b: u64) {
        if a != 0 {
            let i = self.inv_spec(a);
            self.lemma_inv(a);
            // b == (i * a) * b == i * (a * b) == i * 0 == 0
            self.lemma_mul_commutative(i, a);
            lemma_one_mul(*self, b);
            self.lemma_mul_associative(i, a, b);
            lemma_mul_zero(*self, i);
        }
    }

    proof fn lemma_gcd(&self, a: u64, b: u64) {
        let g = self.gcd_spec(a, b);
        if g == 0 {
            lemma_mul_zero(*self, 0);
            assert(self.mul_spec(0, g) == a);
            assert(self.mul_spec(0, g) == b);
        } else {
            self.lemma_mul_one(a);
            self.lemma_mul_one(b);
            assert(self.mul_spec(a, g) == a);
            assert(self.mul_spec(b, g) == b);
        }
    }

    fn rem(&self, a: &u64, b: &u64) -> (r: u64) {
        0
    }

    fn quot_rem(&self, a: &u64, b: &u64) -> (r: (u64, u64)) {
        (self.div(a, b), 0)
    }

    fn gcd(&self, a: &u64, b: &u64) -> (r: u64) {
        if *a == 0 && *b == 0 {
            0
        } else {
            1
        }
    }
}

impl Field for FiniteField {
    open spec fn inv_spec(&self, a: u64) -> u64 {
        self.inverse(a)
    }

    proof fn lemma_inv(&self, a: u64) {
        let x = self.lemma_inverse_exists(a);
    }

    fn div(&self, a: &u64, b: &u64) -> (r: u64) {
        let i = self.inv(b);
        proof {
            self.lemma_inv(*b);
        }
        self.mul(a, &i)
    }

    fn div_assign(&self, a: &mut u64, b: &u64) {
        let s = self.div(a, b);
        *a = s;
    }

    /// The inverse, found with the extended Euclidean algorithm.
    fn inv(&self, a: &u64) -> (r: u64) {
        let p = self.p;
        let mut r0: u64 = p;
        let mut r1: u64 = *a;
        let mut t0: u64 = 0;
        let mut t1: u64 = 1;
        proof {
            lemma_gcd_prime(p as nat, *a as nat);
            lemma_mod_self_0(p as int);
            lemma_small_mod(0, p as nat);
            assert(0 * (*a as int) == 0) by (nonlinear_arith);
            assert(1 * (*a as int) == *a as int) by (nonlinear_arith);
        }
        while r1 != 0
            invariant
                self.valid(),
                p == self.p,
                *a < p,
                r1 < r0 <= p,
                t0 < p,
                t1 < p,
                gcd_nat(r0 as nat, r1 as nat) == 1,
                (t0 as int * *a as int) % (p as int) == r0 as int % (p as int),
                (t1 as int * *a as int) % (p as int) == r1 as int % (p as int),
            decreases r1,
        {
            let q = r0 / r1;
            let r2 = r0 % r1;
            let qm = q % p;
            let qt = self.mul(&qm, &t1);
            let t2 = self.sub(&t0, &qt);
            proof {
                let pi = p as int;
                let ai = *a as int;
                lemma_fundamental_div_mod(r0 as int, r1 as int);
                // qt is q * t1, and t2 is t0 - q * t1, modulo p
                lemma_mul_mod_noop_general(q as int, t1 as int, pi);
                assert(qt as int % pi == (q * t1) % pi) by {
                    lemma_small_mod(qt as nat, p as nat);
                }
                let nq = ((pi - qt) % pi);
                assert(nq % pi == (-(q * t1)) % pi) by {
                    lemma_small_mod(nq as nat, p as nat);
                    lemma_mod_self_0(pi);
                    lemma_congruent_mul(-1, -1, qt as int, q * t1, pi);
                    lemma_congruent_add(pi, 0, -1 * qt, -1 * (q * t1), pi);
                }
                assert(t2 as int % pi == (t0 - q * t1) % pi) by {
                    lemma_small_mod(t2 as nat, p as nat);
                    lemma_add_mod_noop(t0 as int, nq, pi);
                    lemma_add_mod_noop(t0 as int, -(q * t1), pi);
                }
                // so t2 * a is r0 - q * r1 == r2, modulo p
                lemma_congruent_mul(t2 as int, t0 - q * t1, ai, ai, pi);
                lemma_congruent_mul(q * t1, q * t1, 1, 1, pi);
                lemma_congruent_mul(q as int, q as int, t1 * ai, r1 as int, pi);
                assert(q * (t1 * ai) == (q * t1) * ai) by (nonlinear_arith);
                lemma_congruent_mul(-1, -1, (q * t1) * ai, q * r1, pi);
                lemma_congruent_add(t0 * ai, r0 as int, -1 * ((q * t1) * ai), -1 * (q * r1), pi);
                assert((t0 - q * t1) * ai == t0 * ai + -1 * ((q * t1) * ai)) by (nonlinear_arith);
                assert(r0 + -1 * (q * r1) == r2 as int) by (nonlinear_arith)
                    requires
                        r0 as int == r1 * q + r2,
                ;
            }
            r0 = r1;
            r1 = r2;
            t0 = t1;
            t1 = t2;
        }
        proof {
            lemma_small_mod(1, p as nat);
            assert(t0 as int * *a as int == *a as int * t0 as int) by (nonlinear_arith);
            assert(self.mul_spec(*a, t0) == 1);
            let x = self.lemma_inverse_exists(*a);
            self.lemma_inverse_unique(*a, t0, self.inv_spec(*a));
        }
        t0
    }
}

} // verus!
