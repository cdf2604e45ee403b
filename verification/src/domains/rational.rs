//! The small form of exact rational numbers: a fraction of two machine
//! integers with a positive denominator.
use crate::rings::finite_field::{gcd_nat, gcd_unsigned, lemma_bezout, lemma_gcd_divides};
use vstd::prelude::*;

verus! {

/// A fraction of two machine integers.
#[derive(Clone, Copy, Debug, PartialEq, Eq, Structural)]
pub struct SmallRational {
    pub num: i64,
    pub den: i64,
}

/// The size of a draw: its absolute value, and the largest number for the
/// smallest one, whose absolute value is out of range.
pub open spec fn magnitude(d: i64) -> nat {
    if d == i64::MIN {
        i64::MAX as nat
    } else if d < 0 {
        (-d) as nat
    } else {
        d as nat
    }
}

/// The smaller of two numbers.
pub open spec fn smaller(a: nat, b: nat) -> nat {
    if a < b {
        a
    } else {
        b
    }
}

/// The larger of two numbers.
pub open spec fn larger(a: nat, b: nat) -> nat {
    if a < b {
        b
    } else {
        a
    }
}

/// Two numbers divided by their greatest common divisor have no divisor in
/// common.
pub proof fn lemma_reduced(a: nat, b: nat)
    requires
        b > 0,
    ensures
        gcd_nat(a, b) > 0,
        gcd_nat(a / gcd_nat(a, b), b / gcd_nat(a, b)) == 1,
        (a / gcd_nat(a, b)) * gcd_nat(a, b) == a,
        (b / gcd_nat(a, b)) * gcd_nat(a, b) == b,
        b / gcd_nat(a, b) > 0,
{
    let g = gcd_nat(a, b);
    lemma_gcd_divides(a, b);
    let a1 = a / g;
    let b1 = b / g;
    vstd::arithmetic::div_mod::lemma_fundamental_div_mod(a as int, g as int);
    vstd::arithmetic::div_mod::lemma_fundamental_div_mod(b as int, g as int);
    assert(a1 * g == a) by (nonlinear_arith)
        requires
            a as int == g * (a as int / g as int) + 0,
            a1 == a / g,
    ;
    assert(b1 * g == b) by (nonlinear_arith)
        requires
            b as int == g * (b as int / g as int) + 0,
            b1 == b / g,
    ;
    assert(b1 > 0) by (nonlinear_arith)
        requires
            b1 * g == b,
            b > 0,
    ;
    let h = gcd_nat(a1, b1);
    lemma_gcd_divides(a1, b1);
    let (x, y) = lemma_bezout(a, b);
    let u = a1 / h;
    let v = b1 / h;
    vstd::arithmetic::div_mod::lemma_fundamental_div_mod(a1 as int, h as int);
    vstd::arithmetic::div_mod::lemma_fundamental_div_mod(b1 as int, h as int);
    assert(a1 * x + b1 * y == 1) by (nonlinear_arith)
        requires
            a * x + b * y == g,
            a1 * g == a,
            b1 * g == b,
            g > 0,
    ;
    assert(h * (u * x + v * y) == 1) by (nonlinear_arith)
        requires
            a1 * x + b1 * y == 1,
            a1 as int == h * (a1 as int / h as int),
            b1 as int == h * (b1 as int / h as int),
            u == a1 / h,
            v == b1 / h,
    ;
    assert(h == 1) by (nonlinear_arith)
        requires
            h * (u * x + v * y) == 1,
            h > 0,
    ;
}

impl SmallRational {
    /// The denominator is positive.
    pub open spec fn wf(&self) -> bool {
        self.den > 0
    }

    /// The numerator and the denominator have no divisor in common.
    pub open spec fn reduced(&self) -> bool {
        self.num >= 0 && self.den > 0 && gcd_nat(self.num as nat, self.den as nat) == 1
    }

    /// The fraction is greater than `other`.
    pub open spec fn gt_spec(&self, other: &Self) -> bool {
        self.num * other.den > other.num * self.den
    }

    /// The number zero.
    pub fn zero() -> (r: Self)
        ensures
            r == (SmallRational { num: 0, den: 1 }),
    {
        SmallRational { num: 0, den: 1 }
    }

    /// The number one.
    pub fn one() -> (r: Self)
        ensures
            r == (SmallRational { num: 1, den: 1 }),
    {
        SmallRational { num: 1, den: 1 }
    }

    /// Whether the fraction is zero.
    pub fn is_zero(&self) -> (r: bool)
        ensures
            r == (self.num == 0),
    {
        self.num == 0
    }

    /// Whether the fraction is one.
    pub fn is_one(&self) -> (r: bool)
        ensures
            r == (self.num == self.den),
    {
        self.num == self.den
    }

    /// A fraction is always a finite number.
    pub fn is_finite(&self) -> (r: bool)
        ensures
            r,
    {
        true
    }

    /// The integer `a` as a fraction.
    pub fn from_i64(a: i64) -> (r: Self)
        ensures
            r == (SmallRational { num: a, den: 1 }),
    {
        SmallRational { num: a, den: 1 }
    }

    /// The number `a` as a fraction, if it is small enough for the small
    /// form.
    pub fn from_usize(a: usize) -> (r: Option<Self>)
        ensures
            r is Some <==> a < i64::MAX,
            r matches Some(x) ==> x.num == a && x.den == 1,
    {
        if (a as u64) < 0x7fff_ffff_ffff_ffffu64 {
            Some(SmallRational { num: a as i64, den: 1 })
        } else {
            None
        }
    }

    /// Whether the fraction is greater than `other`.
    pub fn gt(&self, other: &Self) -> (r: bool)
        requires
            self.wf(),
            other.wf(),
        ensures
            r == self.gt_spec(other),
    {
        let a = self.num as i128;
        let b = other.den as i128;
        let c = other.num as i128;
        let d = self.den as i128;
        proof {
            assert(-0x4000_0000_0000_0000_0000_0000_0000_0000 <= a * b
                <= 0x4000_0000_0000_0000_0000_0000_0000_0000) by (nonlinear_arith)
                requires
                    -0x8000_0000_0000_0000 <= a <= 0x8000_0000_0000_0000,
                    -0x8000_0000_0000_0000 <= b <= 0x8000_0000_0000_0000,
            ;
            assert(-0x4000_0000_0000_0000_0000_0000_0000_0000 <= c * d
                <= 0x4000_0000_0000_0000_0000_0000_0000_0000) by (nonlinear_arith)
                requires
                    -0x8000_0000_0000_0000 <= c <= 0x8000_0000_0000_0000,
                    -0x8000_0000_0000_0000 <= d <= 0x8000_0000_0000_0000,
            ;
        }
        a * b > c * d
    }

    /// The greater of the two fractions, and `other` if they are equal.
    pub fn max(&self, other: &Self) -> (r: Self)
        requires
            self.wf(),
            other.wf(),
        ensures
            r == (if self.gt_spec(other) {
                *self
            } else {
                *other
            }),
    {
        if self.gt(other) {
            *self
        } else {
            *other
        }
    }

    /// A fraction between zero and one out of two random draws: the smaller
    /// of their sizes over the larger one, in lowest terms, and zero if both
    /// draws are zero.
    pub fn sample_unit(draw1: i64, draw2: i64) -> (r: Self)
        ensures
            r.reduced(),
            0 <= r.num <= r.den,
            r.num * larger(magnitude(draw1), magnitude(draw2)) == smaller(
                magnitude(draw1),
                magnitude(draw2),
            ) * r.den || (draw1 == 0 && draw2 == 0),
            draw1 == 0 && draw2 == 0 ==> r.num == 0 && r.den == 1,
    {
        let a = size_of_draw(draw1);
        let b = size_of_draw(draw2);
        let (lo, hi) = if a < b {
            (a, b)
        } else {
            (b, a)
        };
        if hi == 0 {
            proof {
                assert(gcd_nat(0, 1) == 1) by {
                    reveal_with_fuel(gcd_nat, 3);
                }
            }
            return SmallRational { num: 0, den: 1 };
        }
        let g = gcd_unsigned(lo, hi);
        proof {
            lemma_reduced(lo as nat, hi as nat);
            let n = lo as nat / g as nat;
            let d = hi as nat / g as nat;
            assert(n <= d && d <= hi && n * hi == lo * d) by (nonlinear_arith)
                requires
                    n * g == lo,
                    d * g == hi,
                    lo <= hi,
                    g > 0,
            ;
        }
        SmallRational { num: (lo / g) as i64, den: (hi / g) as i64 }
    }
}

/// The size of a draw.
pub fn size_of_draw(d: i64) -> (r: u64)
    ensures
        r == magnitude(d),
        r <= i64::MAX,
{
    if d == i64::MIN {
        i64::MAX as u64
    } else if d < 0 {
        (-d) as u64
    } else {
        d as u64
    }
}

} // verus!
