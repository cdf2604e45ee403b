//! Scalar coefficient domains with a uniform algebraic interface, and complex
//! numbers over any real domain.
//!
//! Arithmetic in such a domain may be inexact, so nothing is claimed of it but
//! that its results are functions of its operands: every operation has a
//! specification function of the same name, which an implementation defines.
//! The complex layer is stated exactly in terms of those.
use rand::rngs::StdRng;
use vstd::prelude::*;

verus! {

/// A scalar with the operations of a field. Operations that depend on a runtime
/// precision take it from a prototype value, here `self`.
pub trait NumericalFloatLike: Sized {
    spec fn eq_spec(self, other: Self) -> bool;

    spec fn add_spec(self, rhs: Self) -> Self;

    spec fn sub_spec(self, rhs: Self) -> Self;

    spec fn mul_spec(self, rhs: Self) -> Self;

    spec fn div_spec(self, rhs: Self) -> Self;

    /// `self * a + b`, fused.
    spec fn mul_add_spec(self, a: Self, b: Self) -> Self;

    spec fn neg_spec(self) -> Self;

    /// The absolute value of a real, the magnitude of a complex number.
    spec fn norm_spec(self) -> Self;

    /// Zero, with the precision of `self`.
    spec fn zero_spec(self) -> Self;

    /// A zero that is only good as a temporary value.
    spec fn new_zero_spec() -> Self;

    /// One, with the precision of `self`.
    spec fn one_spec(self) -> Self;

    spec fn pow_spec(self, e: u64) -> Self;

    spec fn inv_spec(self) -> Self;

    spec fn from_usize_spec(self, a: usize) -> Self;

    spec fn from_i64_spec(self, a: i64) -> Self;

    /// A copy of the value, with its precision.
    fn duplicate(&self) -> (r: Self)
        ensures
            r == *self,
    ;

    fn equals(&self, other: &Self) -> (r: bool)
        ensures
            r == self.eq_spec(*other),
    ;

    fn add(&self, rhs: &Self) -> (r: Self)
        ensures
            r == self.add_spec(*rhs),
    ;

    fn sub(&self, rhs: &Self) -> (r: Self)
        ensures
            r == self.sub_spec(*rhs),
    ;

    fn mul(&self, rhs: &Self) -> (r: Self)
        ensures
            r == self.mul_spec(*rhs),
    ;

    fn div(&self, rhs: &Self) -> (r: Self)
        ensures
            r == self.div_spec(*rhs),
    ;

    fn mul_add(&self, a: &Self, b: &Self) -> (r: Self)
        ensures
            r == self.mul_add_spec(*a, *b),
    ;

    fn neg(&self) -> (r: Self)
        ensures
            r == self.neg_spec(),
    ;

    fn norm(&self) -> (r: Self)
        ensures
            r == self.norm_spec(),
    ;

    fn zero(&self) -> (r: Self)
        ensures
            r == self.zero_spec(),
    ;

    /// Create a zero that should only be used as a temporary value, as for
    /// some types it may have wrong precision information.
    fn new_zero() -> (r: Self)
        ensures
            r == Self::new_zero_spec(),
    ;

    fn one(&self) -> (r: Self)
        ensures
            r == self.one_spec(),
    ;

    fn pow(&self, e: u64) -> (r: Self)
        ensures
            r == self.pow_spec(e),
    ;

    fn inv(&self) -> (r: Self)
        ensures
            r == self.inv_spec(),
    ;

    fn from_usize(&self, a: usize) -> (r: Self)
        ensures
            r == self.from_usize_spec(a),
    ;

    fn from_i64(&self, a: i64) -> (r: Self)
        ensures
            r == self.from_i64_spec(a),
    ;

    /// A random number of the unit interval, with the precision of `self`.
    fn sample_unit(&self, rng: &mut StdRng) -> (r: Self)
    ;
}

/// A scalar that can be constructed without a prototype value.
pub trait ConstructibleFloat: NumericalFloatLike {
    spec fn new_one_spec() -> Self;

    spec fn new_from_usize_spec(a: usize) -> Self;

    spec fn new_from_i64_spec(a: i64) -> Self;

    fn new_one() -> (r: Self)
        ensures
            r == Self::new_one_spec(),
    ;

    fn new_from_usize(a: usize) -> (r: Self)
        ensures
            r == Self::new_from_usize_spec(a),
    ;

    fn new_from_i64(a: i64) -> (r: Self)
        ensures
            r == Self::new_from_i64_spec(a),
    ;

    /// A random number of the unit interval.
    fn new_sample_unit(rng: &mut StdRng) -> (r: Self)
    ;
}

/// A scalar whose values can be compared with each other and with zero and
/// one.
pub trait NumericalFloatComparison: NumericalFloatLike {
    spec fn is_zero_spec(self) -> bool;

    spec fn is_one_spec(self) -> bool;

    spec fn is_finite_spec(self) -> bool;

    /// The greater of the two values.
    spec fn max_spec(self, other: Self) -> Self;

    /// The value as a number of items: zero for what is below zero, the
    /// largest number for what is above it.
    spec fn to_usize_clamped_spec(self) -> usize;

    fn is_zero(&self) -> (r: bool)
        ensures
            r == self.is_zero_spec(),
    ;

    fn is_one(&self) -> (r: bool)
        ensures
            r == self.is_one_spec(),
    ;

    fn is_finite(&self) -> (r: bool)
        ensures
            r == self.is_finite_spec(),
    ;

    fn max(&self, other: &Self) -> (r: Self)
        ensures
            r == self.max_spec(*other),
    ;

    fn to_usize_clamped(&self) -> (r: usize)
        ensures
            r == self.to_usize_clamped_spec(),
    ;
}

/// A scalar with the elementary transcendental functions.
pub trait Real: NumericalFloatLike {
    spec fn sqrt_spec(self) -> Self;

    spec fn log_spec(self) -> Self;

    spec fn exp_spec(self) -> Self;

    spec fn sin_spec(self) -> Self;

    spec fn cos_spec(self) -> Self;

    spec fn tan_spec(self) -> Self;

    spec fn asin_spec(self) -> Self;

    spec fn acos_spec(self) -> Self;

    spec fn sinh_spec(self) -> Self;

    spec fn cosh_spec(self) -> Self;

    spec fn tanh_spec(self) -> Self;

    spec fn asinh_spec(self) -> Self;

    spec fn acosh_spec(self) -> Self;

    spec fn atanh_spec(self) -> Self;

    spec fn atan2_spec(self, x: Self) -> Self;

    spec fn powf_spec(self, e: Self) -> Self;

    fn sqrt(&self) -> (r: Self)
        ensures
            r == self.sqrt_spec(),
    ;

    fn log(&self) -> (r: Self)
        ensures
            r == self.log_spec(),
    ;

    fn exp(&self) -> (r: Self)
        ensures
            r == self.exp_spec(),
    ;

    fn sin(&self) -> (r: Self)
        ensures
            r == self.sin_spec(),
    ;

    fn cos(&self) -> (r: Self)
        ensures
            r == self.cos_spec(),
    ;

    fn tan(&self) -> (r: Self)
        ensures
            r == self.tan_spec(),
    ;

    fn asin(&self) -> (r: Self)
        ensures
            r == self.asin_spec(),
    ;

    fn acos(&self) -> (r: Self)
        ensures
            r == self.acos_spec(),
    ;

    fn atan2(&self, x: &Self) -> (r: Self)
        ensures
            r == self.atan2_spec(*x),
    ;

    fn sinh(&self) -> (r: Self)
        ensures
            r == self.sinh_spec(),
    ;

    fn cosh(&self) -> (r: Self)
        ensures
            r == self.cosh_spec(),
    ;

    fn tanh(&self) -> (r: Self)
        ensures
            r == self.tanh_spec(),
    ;

    fn asinh(&self) -> (r: Self)
        ensures
            r == self.asinh_spec(),
    ;

    fn acosh(&self) -> (r: Self)
        ensures
            r == self.acosh_spec(),
    ;

    fn atanh(&self) -> (r: Self)
        ensures
            r == self.atanh_spec(),
    ;

    fn powf(&self, e: Self) -> (r: Self)
        ensures
            r == self.powf_spec(e),
    ;
}

/// A complex number in Cartesian form over a real scalar domain.
#[derive(Copy, Clone, Debug, PartialEq)]
pub struct Complex<T: Real> {
    pub re: T,
    pub im: T,
}

impl<T: Real> Complex<T> {
    /// The imaginary unit, with the precision of `self`.
    pub open spec fn i_spec(self) -> Complex<T> {
        Complex { re: self.re.zero_spec(), im: self.im.one_spec() }
    }

    /// `re * re + im * im`.
    pub open spec fn norm_squared_spec(self) -> T {
        self.re.mul_spec(self.re).add_spec(self.im.mul_spec(self.im))
    }

    /// The angle of the number in the complex plane.
    pub open spec fn arg_spec(self) -> T {
        self.im.atan2_spec(self.re)
    }

    /// The magnitude and the angle.
    pub open spec fn to_polar_coordinates_spec(self) -> (T, T) {
        (self.norm_squared_spec().sqrt_spec(), self.arg_spec())
    }

    /// The number with magnitude `r` and angle `phi`.
    pub open spec fn from_polar_coordinates_spec(r: T, phi: T) -> Complex<T> {
        Complex { re: r.mul_spec(phi.cos_spec()), im: r.mul_spec(phi.sin_spec()) }
    }

    /// The number two, as `1 + 1`.
    pub open spec fn two_spec(self) -> Complex<T> {
        self.one_spec().add_spec(self.one_spec())
    }

    #[inline]
    pub fn new(re: T, im: T) -> (r: Complex<T>)
        ensures
            r == (Complex { re, im }),
    {
        Complex { re, im }
    }

    #[inline]
    pub fn i(&self) -> (r: Complex<T>)
        ensures
            r == self.i_spec(),
    {
        Complex { re: self.re.zero(), im: self.im.one() }
    }

    #[inline]
    pub fn norm_squared(&self) -> (r: T)
        ensures
            r == self.norm_squared_spec(),
    {
        self.re.mul(&self.re).add(&self.im.mul(&self.im))
    }

    #[inline]
    pub fn arg(&self) -> (r: T)
        ensures
            r == self.arg_spec(),
    {
        self.im.atan2(&self.re)
    }

    #[inline]
    pub fn to_polar_coordinates(self) -> (r: (T, T))
        ensures
            r == self.to_polar_coordinates_spec(),
    {
        (self.norm_squared().sqrt(), self.arg())
    }

    #[inline]
    pub fn from_polar_coordinates(r: T, phi: T) -> (c: Complex<T>)
        ensures
            c == Self::from_polar_coordinates_spec(r, phi),
    {
        Complex::new(r.mul(&phi.cos()), r.mul(&phi.sin()))
    }

    /// The number with real part `re` and imaginary part zero.
    pub fn from_real(re: T) -> (c: Complex<T>)
        ensures
            c == (Complex { re, im: re.zero_spec() }),
    {
        let zero = re.zero();
        Complex::new(re, zero)
    }

    /// Adds `rhs` to `self` in place.
    #[inline]
    pub fn add_assign(&mut self, rhs: &Self)
        ensures
            *final(self) == old(self).add_spec(*rhs),
    {
        let r = self.add(rhs);
        *self = r;
    }

    /// Subtracts `rhs` from `self` in place.
    #[inline]
    pub fn sub_assign(&mut self, rhs: &Self)
        ensures
            *final(self) == old(self).sub_spec(*rhs),
    {
        let r = self.sub(rhs);
        *self = r;
    }

    /// Multiplies `self` by `rhs` in place.
    #[inline]
    pub fn mul_assign(&mut self, rhs: &Self)
        ensures
            *final(self) == old(self).mul_spec(*rhs),
    {
        let r = self.mul(rhs);
        *self = r;
    }

    /// Divides `self` by `rhs` in place.
    pub fn div_assign(&mut self, rhs: &Self)
        ensures
            *final(self) == old(self).div_spec(*rhs),
    {
        let r = self.div(rhs);
        *self = r;
    }
}

impl<T: Real> NumericalFloatLike for Complex<T> {
    open spec fn eq_spec(self, other: Self) -> bool {
        self.re.eq_spec(other.re) && self.im.eq_spec(other.im)
    }

    open spec fn add_spec(self, rhs: Self) -> Self {
        Complex { re: self.re.add_spec(rhs.re), im: self.im.add_spec(rhs.im) }
    }

    open spec fn sub_spec(self, rhs: Self) -> Self {
        Complex { re: self.re.sub_spec(rhs.re), im: self.im.sub_spec(rhs.im) }
    }

    open spec fn mul_spec(self, rhs: Self) -> Self {
        Complex {
            re: self.re.mul_spec(rhs.re).sub_spec(self.im.mul_spec(rhs.im)),
            im: self.re.mul_spec(rhs.im).add_spec(self.im.mul_spec(rhs.re)),
        }
    }

    open spec fn div_spec(self, rhs: Self) -> Self {
        let n = rhs.norm_squared_spec();
        Complex {
            re: self.re.mul_spec(rhs.re).add_spec(self.im.mul_spec(rhs.im)).div_spec(n),
            im: self.im.mul_spec(rhs.re).sub_spec(self.re.mul_spec(rhs.im)).div_spec(n),
        }
    }

    open spec fn mul_add_spec(self, a: Self, b: Self) -> Self {
        self.mul_spec(a).add_spec(b)
    }

    open spec fn neg_spec(self) -> Self {
        Complex { re: self.re.neg_spec(), im: self.im.neg_spec() }
    }

    open spec fn norm_spec(self) -> Self {
        Complex { re: self.norm_squared_spec().sqrt_spec(), im: self.im.zero_spec() }
    }

    open spec fn zero_spec(self) -> Self {
        Complex { re: self.re.zero_spec(), im: self.im.zero_spec() }
    }

    open spec fn new_zero_spec() -> Self {
        Complex { re: T::new_zero_spec(), im: T::new_zero_spec() }
    }

    open spec fn one_spec(self) -> Self {
        Complex { re: self.re.one_spec(), im: self.im.zero_spec() }
    }

    /// One multiplied `e` times by `self`, from the left to the right.
    open spec fn pow_spec(self, e: u64) -> Self
        decreases e,
    {
        if e == 0 {
            self.one_spec()
        } else {
            self.pow_spec((e - 1) as u64).mul_spec(self)
        }
    }

    open spec fn inv_spec(self) -> Self {
        let n = self.norm_squared_spec();
        Complex { re: self.re.div_spec(n), im: self.im.neg_spec().div_spec(n) }
    }

    open spec fn from_usize_spec(self, a: usize) -> Self {
        Complex { re: self.re.from_usize_spec(a), im: self.im.zero_spec() }
    }

    open spec fn from_i64_spec(self, a: i64) -> Self {
        Complex { re: self.re.from_i64_spec(a), im: self.im.zero_spec() }
    }

    fn duplicate(&self) -> (r: Self) {
        Complex { re: self.re.duplicate(), im: self.im.duplicate() }
    }

    fn equals(&self, other: &Self) -> (r: bool) {
        self.re.equals(&other.re) && self.im.equals(&other.im)
    }

    #[inline]
    fn add(&self, rhs: &Self) -> (r: Self) {
        Complex::new(self.re.add(&rhs.re), self.im.add(&rhs.im))
    }

    #[inline]
    fn sub(&self, rhs: &Self) -> (r: Self) {
        Complex::new(self.re.sub(&rhs.re), self.im.sub(&rhs.im))
    }

    #[inline]
    fn mul(&self, rhs: &Self) -> (r: Self) {
        Complex::new(
            self.re.mul(&rhs.re).sub(&self.im.mul(&rhs.im)),
            self.re.mul(&rhs.im).add(&self.im.mul(&rhs.re)),
        )
    }

    #[inline]
    fn div(&self, rhs: &Self) -> (r: Self) {
        let n = rhs.norm_squared();
        let re = self.re.mul(&rhs.re).add(&self.im.mul(&rhs.im));
        let im = self.im.mul(&rhs.re).sub(&self.re.mul(&rhs.im));
        Complex::new(re.div(&n), im.div(&n))
    }

    #[inline]
    fn mul_add(&self, a: &Self, b: &Self) -> (r: Self) {
        self.mul(a).add(b)
    }

    #[inline]
    fn neg(&self) -> (r: Self) {
        Complex { re: self.re.neg(), im: self.im.neg() }
    }

    #[inline]
    fn norm(&self) -> (r: Self) {
        Complex::new(self.norm_squared().sqrt(), self.im.zero())
    }

    #[inline]
    fn zero(&self) -> (r: Self) {
        Complex { re: self.re.zero(), im: self.im.zero() }
    }

    fn new_zero() -> (r: Self) {
        Complex { re: T::new_zero(), im: T::new_zero() }
    }

    fn one(&self) -> (r: Self) {
        Complex { re: self.re.one(), im: self.im.zero() }
    }

    fn pow(&self, e: u64) -> (r: Self) {
        let mut r = self.one();
        let mut k: u64 = 0;
        while k < e
            invariant
                k <= e,
                r == self.pow_spec(k),
            decreases e - k,
        {
            r.mul_assign(self);
            k += 1;
        }
        r
    }

    fn inv(&self) -> (r: Self) {
        let n = self.norm_squared();
        Complex::new(self.re.div(&n), self.im.neg().div(&n))
    }

    fn from_usize(&self, a: usize) -> (r: Self) {
        Complex { re: self.re.from_usize(a), im: self.im.zero() }
    }

    fn from_i64(&self, a: i64) -> (r: Self) {
        Complex { re: self.re.from_i64(a), im: self.im.zero() }
    }

    /// A random real number of the unit interval: the imaginary part is
    /// zero.
    fn sample_unit(&self, rng: &mut StdRng) -> (r: Self)
        ensures
            r.im == self.im.zero_spec(),
    {
        Complex { re: self.re.sample_unit(rng), im: self.im.zero() }
    }
}

/// The elementary functions follow the usual conventions for complex numbers.
/// The inverse functions use the plain logarithmic formulas, with no
/// adjustment at the branch cuts.
impl<T: Real> Real for Complex<T> {
    open spec fn sqrt_spec(self) -> Self {
        let (r, phi) = self.to_polar_coordinates_spec();
        Self::from_polar_coordinates_spec(r.sqrt_spec(), phi.div_spec(self.re.from_usize_spec(2)))
    }

    open spec fn log_spec(self) -> Self {
        Complex { re: self.norm_spec().re.log_spec(), im: self.arg_spec() }
    }

    open spec fn exp_spec(self) -> Self {
        let r = self.re.exp_spec();
        Complex { re: r.mul_spec(self.im.cos_spec()), im: r.mul_spec(self.im.sin_spec()) }
    }

    open spec fn sin_spec(self) -> Self {
        Complex {
            re: self.re.sin_spec().mul_spec(self.im.cosh_spec()),
            im: self.re.cos_spec().mul_spec(self.im.sinh_spec()),
        }
    }

    open spec fn cos_spec(self) -> Self {
        Complex {
            re: self.re.cos_spec().mul_spec(self.im.cosh_spec()),
            im: self.re.sin_spec().neg_spec().mul_spec(self.im.sinh_spec()),
        }
    }

    open spec fn tan_spec(self) -> Self {
        let r = self.re.add_spec(self.re);
        let i = self.im.add_spec(self.im);
        let m = r.cos_spec().add_spec(i.cosh_spec());
        Complex { re: r.sin_spec().div_spec(m), im: i.sinh_spec().div_spec(m) }
    }

    open spec fn asin_spec(self) -> Self {
        let i = self.i_spec();
        i.neg_spec().mul_spec(
            self.one_spec().sub_spec(self.mul_spec(self)).sqrt_spec().add_spec(
                i.mul_spec(self),
            ).log_spec(),
        )
    }

    open spec fn acos_spec(self) -> Self {
        let i = self.i_spec();
        i.neg_spec().mul_spec(
            i.mul_spec(self.one_spec().sub_spec(self.mul_spec(self)).sqrt_spec()).add_spec(
                self,
            ).log_spec(),
        )
    }

    open spec fn sinh_spec(self) -> Self {
        Complex {
            re: self.re.sinh_spec().mul_spec(self.im.cos_spec()),
            im: self.re.cosh_spec().mul_spec(self.im.sin_spec()),
        }
    }

    open spec fn cosh_spec(self) -> Self {
        Complex {
            re: self.re.cosh_spec().mul_spec(self.im.cos_spec()),
            im: self.re.sinh_spec().mul_spec(self.im.sin_spec()),
        }
    }

    open spec fn tanh_spec(self) -> Self {
        let two_re = self.re.add_spec(self.re);
        let two_im = self.im.add_spec(self.im);
        let m = two_re.cosh_spec().add_spec(two_im.cos_spec());
        Complex { re: two_re.sinh_spec().div_spec(m), im: two_im.sin_spec().div_spec(m) }
    }

    open spec fn asinh_spec(self) -> Self {
        self.add_spec(self.one_spec().add_spec(self.mul_spec(self)).sqrt_spec()).log_spec()
    }

    open spec fn acosh_spec(self) -> Self {
        let one = self.one_spec();
        let two = self.two_spec();
        two.mul_spec(
            self.add_spec(one).div_spec(two).sqrt_spec().add_spec(
                self.sub_spec(one).div_spec(two).sqrt_spec(),
            ).log_spec(),
        )
    }

    open spec fn atanh_spec(self) -> Self {
        let one = self.one_spec();
        one.add_spec(self).log_spec().sub_spec(one.sub_spec(self).log_spec()).div_spec(
            self.two_spec(),
        )
    }

    open spec fn atan2_spec(self, x: Self) -> Self {
        let r = self.div_spec(x);
        let i = self.i_spec();
        let one = self.one_spec();
        one.add_spec(i.mul_spec(r)).log_spec().sub_spec(
            one.sub_spec(i.mul_spec(r)).log_spec(),
        ).div_spec(self.two_spec().mul_spec(i))
    }

    /// One for the exponent zero; through the polar form for a real exponent;
    /// `exp(e * log(self))` otherwise.
    open spec fn powf_spec(self, e: Self) -> Self {
        if e.re.eq_spec(self.re.zero_spec()) && e.im.eq_spec(self.im.zero_spec()) {
            self.one_spec()
        } else if e.im.eq_spec(self.im.zero_spec()) {
            let (r, phi) = self.to_polar_coordinates_spec();
            Self::from_polar_coordinates_spec(r.powf_spec(e.re), phi.mul_spec(e.re))
        } else {
            e.mul_spec(self.log_spec()).exp_spec()
        }
    }

    #[inline]
    fn sqrt(&self) -> (r: Self) {
        let (r, phi) = self.duplicate().to_polar_coordinates();
        Complex::from_polar_coordinates(r.sqrt(), phi.div(&self.re.from_usize(2)))
    }

    #[inline]
    fn log(&self) -> (r: Self) {
        Complex::new(self.norm().re.log(), self.arg())
    }

    #[inline]
    fn exp(&self) -> (r: Self) {
        let r = self.re.exp();
        Complex::new(r.mul(&self.im.cos()), r.mul(&self.im.sin()))
    }

    #[inline]
    fn sin(&self) -> (r: Self) {
        Complex::new(self.re.sin().mul(&self.im.cosh()), self.re.cos().mul(&self.im.sinh()))
    }

    #[inline]
    fn cos(&self) -> (r: Self) {
        Complex::new(
            self.re.cos().mul(&self.im.cosh()),
            self.re.sin().neg().mul(&self.im.sinh()),
        )
    }

    #[inline]
    fn tan(&self) -> (r: Self) {
        let (r, i) = (self.re.add(&self.re), self.im.add(&self.im));
        let m = r.cos().add(&i.cosh());
        Self::new(r.sin().div(&m), i.sinh().div(&m))
    }

    #[inline]
    fn asin(&self) -> (r: Self) {
        let i = self.i();
        i.neg().mul(&self.one().sub(&self.mul(self)).sqrt().add(&i.mul(self)).log())
    }

    #[inline]
    fn acos(&self) -> (r: Self) {
        let i = self.i();
        i.neg().mul(&i.mul(&self.one().sub(&self.mul(self)).sqrt()).add(self).log())
    }

    #[inline]
    fn atan2(&self, x: &Self) -> (r: Self) {
        let r = self.div(x);
        let i = self.i();
        let one = self.one();
        let two = one.add(&one);
        one.add(&i.mul(&r)).log().sub(&one.sub(&i.mul(&r)).log()).div(&two.mul(&i))
    }

    #[inline]
    fn sinh(&self) -> (r: Self) {
        Complex::new(self.re.sinh().mul(&self.im.cos()), self.re.cosh().mul(&self.im.sin()))
    }

    #[inline]
    fn cosh(&self) -> (r: Self) {
        Complex::new(self.re.cosh().mul(&self.im.cos()), self.re.sinh().mul(&self.im.sin()))
    }

    #[inline]
    fn tanh(&self) -> (r: Self) {
        let (two_re, two_im) = (self.re.add(&self.re), self.im.add(&self.im));
        let m = two_re.cosh().add(&two_im.cos());
        Self::new(two_re.sinh().div(&m), two_im.sin().div(&m))
    }

    #[inline]
    fn asinh(&self) -> (r: Self) {
        let one = self.one();
        self.add(&one.add(&self.mul(self)).sqrt()).log()
    }

    #[inline]
    fn acosh(&self) -> (r: Self) {
        let one = self.one();
        let two = one.add(&one);
        two.mul(&self.add(&one).div(&two).sqrt().add(&self.sub(&one).div(&two).sqrt()).log())
    }

    #[inline]
    fn atanh(&self) -> (r: Self) {
        let one = self.one();
        let two = one.add(&one);
        one.add(self).log().sub(&one.sub(self).log()).div(&two)
    }

    #[inline]
    fn powf(&self, e: Self) -> (r: Self) {
        if e.re.equals(&self.re.zero()) && e.im.equals(&self.im.zero()) {
            self.one()
        } else if e.im.equals(&self.im.zero()) {
            let (r, phi) = self.duplicate().to_polar_coordinates();
            Self::from_polar_coordinates(r.powf(e.re.duplicate()), phi.mul(&e.re))
        } else {
            e.mul(&self.log()).exp()
        }
    }
}

} // verus!
