//! Sparse multivariate polynomials over a coefficient ring.
//!
//! A polynomial is a list of monomials, each a non-zero coefficient with a
//! vector of exponents, kept strictly increasing in the lexicographic order of
//! the exponent vectors. The leading monomial is the last one.
use vstd::prelude::*;

pub mod arith;
pub mod cache;
pub mod display;
pub mod division;
pub mod finite;
pub mod heap;
pub mod heap_division;
pub mod laws;
pub mod matrix;
pub mod monomial;
pub mod mul;
pub mod ops;
pub mod polynomial;
pub mod product;
pub mod project;
pub mod queries;
pub mod recompose;
pub mod synthetic;
pub mod unify;
pub mod unique;
pub mod varorder;
pub mod varmap;

verus! {

/// The number of exponents or variables that a short vector holds inline.
pub const INLINED_EXPONENTS: usize = 6;

/// An exponent of a variable: a small unsigned integer.
pub trait Exponent: Sized + Copy {
    /// The exponent as a number.
    spec fn to_u32_spec(self) -> u32;

    /// The exponent that stands for a number within range.
    spec fn from_u32_spec(n: u32) -> Self;

    /// The largest exponent.
    spec fn max_spec() -> u32;

    /// Exponents and the numbers up to the largest correspond one to one.
    proof fn lemma_exponent(e: Self, n: u32)
        ensures
            e.to_u32_spec() <= Self::max_spec(),
            Self::from_u32_spec(e.to_u32_spec()) == e,
            n <= Self::max_spec() ==> Self::from_u32_spec(n).to_u32_spec() == n,
    ;

    fn zero() -> (r: Self)
        ensures
            r.to_u32_spec() == 0,
    ;

    fn is_zero(&self) -> (r: bool)
        ensures
            r == (self.to_u32_spec() == 0),
    ;

    fn to_u32(&self) -> (r: u32)
        ensures
            r == self.to_u32_spec(),
    ;

    fn from_u32(n: u32) -> (r: Self)
        requires
            n <= Self::max_spec(),
        ensures
            r == Self::from_u32_spec(n),
    ;

    /// The sum of two exponents, if it is within range.
    fn checked_add(&self, other: &Self) -> (r: Option<Self>)
        ensures
            self.to_u32_spec() + other.to_u32_spec() <= Self::max_spec() ==> r == Some(
                Self::from_u32_spec((self.to_u32_spec() + other.to_u32_spec()) as u32),
            ),
            self.to_u32_spec() + other.to_u32_spec() > Self::max_spec() ==> r.is_none(),
    ;
}

impl Exponent for u32 {
    open spec fn to_u32_spec(self) -> u32 {
        self
    }

    open spec fn from_u32_spec(n: u32) -> u32 {
        n
    }

    open spec fn max_spec() -> u32 {
        u32::MAX
    }

    proof fn lemma_exponent(e: u32, n: u32) {
    }

    fn zero() -> (r: u32) {
        0
    }

    fn is_zero(&self) -> (r: bool) {
        *self == 0
    }

    fn to_u32(&self) -> (r: u32) {
        *self
    }

    fn from_u32(n: u32) -> (r: u32) {
        n
    }

    fn checked_add(&self, other: &u32) -> (r: Option<u32>) {
        if *other <= u32::MAX - *self {
            Some(*self + *other)
        } else {
            None
        }
    }
}

impl Exponent for u16 {
    open spec fn to_u32_spec(self) -> u32 {
        self as u32
    }

    open spec fn from_u32_spec(n: u32) -> u16 {
        n as u16
    }

    open spec fn max_spec() -> u32 {
        0xffff
    }

    proof fn lemma_exponent(e: u16, n: u32) {
    }

    fn zero() -> (r: u16) {
        0
    }

    fn is_zero(&self) -> (r: bool) {
        *self == 0
    }

    fn to_u32(&self) -> (r: u32) {
        *self as u32
    }

    fn from_u32(n: u32) -> (r: u16) {
        n as u16
    }

    fn checked_add(&self, other: &u16) -> (r: Option<u16>) {
        if *other <= u16::MAX - *self {
            Some(*self + *other)
        } else {
            None
        }
    }
}

impl Exponent for u8 {
    open spec fn to_u32_spec(self) -> u32 {
        self as u32
    }

    open spec fn from_u32_spec(n: u32) -> u8 {
        n as u8
    }

    open spec fn max_spec() -> u32 {
        0xff
    }

    proof fn lemma_exponent(e: u8, n: u32) {
    }

    fn zero() -> (r: u8) {
        0
    }

    fn is_zero(&self) -> (r: bool) {
        *self == 0
    }

    fn to_u32(&self) -> (r: u32) {
        *self as u32
    }

    fn from_u32(n: u32) -> (r: u8) {
        n as u8
    }

    fn checked_add(&self, other: &u8) -> (r: Option<u8>) {
        if *other <= u8::MAX - *self {
            Some(*self + *other)
        } else {
            None
        }
    }
}

} // verus!
