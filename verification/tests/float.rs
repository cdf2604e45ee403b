use rand::rngs::StdRng;
use rand::{Rng, SeedableRng};
use symbolica::domains::float::{Complex, NumericalFloatLike, Real};
use symbolica::domains::rational::SmallRational;

/// Double precision floats as a real scalar domain.
#[derive(Clone, Copy, Debug, PartialEq, PartialOrd)]
struct F64(f64);

impl NumericalFloatLike for F64 {
    fn eq_spec(self, _: Self) -> bool {
        unreachable!()
    }
    fn add_spec(self, _: Self) -> Self {
        unreachable!()
    }
    fn sub_spec(self, _: Self) -> Self {
        unreachable!()
    }
    fn mul_spec(self, _: Self) -> Self {
        unreachable!()
    }
    fn div_spec(self, _: Self) -> Self {
        unreachable!()
    }
    fn mul_add_spec(self, _: Self, _: Self) -> Self {
        unreachable!()
    }
    fn neg_spec(self) -> Self {
        unreachable!()
    }
    fn norm_spec(self) -> Self {
        unreachable!()
    }
    fn zero_spec(self) -> Self {
        unreachable!()
    }
    fn new_zero_spec() -> Self {
        unreachable!()
    }
    fn one_spec(self) -> Self {
        unreachable!()
    }
    fn pow_spec(self, _: u64) -> Self {
        unreachable!()
    }
    fn inv_spec(self) -> Self {
        unreachable!()
    }
    fn from_usize_spec(self, _: usize) -> Self {
        unreachable!()
    }
    fn from_i64_spec(self, _: i64) -> Self {
        unreachable!()
    }
    fn duplicate(&self) -> Self {
        *self
    }
    fn equals(&self, other: &Self) -> bool {
        self.0 == other.0
    }
    fn add(&self, rhs: &Self) -> Self {
        F64(self.0 + rhs.0)
    }
    fn sub(&self, rhs: &Self) -> Self {
        F64(self.0 - rhs.0)
    }
    fn mul(&self, rhs: &Self) -> Self {
        F64(self.0 * rhs.0)
    }
    fn div(&self, rhs: &Self) -> Self {
        F64(self.0 / rhs.0)
    }
    fn mul_add(&self, a: &Self, b: &Self) -> Self {
        F64(f64::mul_add(self.0, a.0, b.0))
    }
    fn neg(&self) -> Self {
        F64(-self.0)
    }
    fn norm(&self) -> Self {
        F64(f64::abs(self.0))
    }
    fn zero(&self) -> Self {
        F64(0.)
    }
    fn new_zero() -> Self {
        F64(0.)
    }
    fn one(&self) -> Self {
        F64(1.)
    }
    fn pow(&self, e: u64) -> Self {
        assert!(e <= i32::MAX as u64);
        F64(self.0.powi(e as i32))
    }
    fn inv(&self) -> Self {
        F64(1. / self.0)
    }
    fn from_usize(&self, a: usize) -> Self {
        F64(a as f64)
    }
    fn from_i64(&self, a: i64) -> Self {
        F64(a as f64)
    }
    fn sample_unit(&self, rng: &mut StdRng) -> Self {
        F64(rng.gen())
    }
}

impl Real for F64 {
    fn sqrt_spec(self) -> Self {
        unreachable!()
    }
    fn log_spec(self) -> Self {
        unreachable!()
    }
    fn exp_spec(self) -> Self {
        unreachable!()
    }
    fn sin_spec(self) -> Self {
        unreachable!()
    }
    fn cos_spec(self) -> Self {
        unreachable!()
    }
    fn tan_spec(self) -> Self {
        unreachable!()
    }
    fn asin_spec(self) -> Self {
        unreachable!()
    }
    fn acos_spec(self) -> Self {
        unreachable!()
    }
    fn sinh_spec(self) -> Self {
        unreachable!()
    }
    fn cosh_spec(self) -> Self {
        unreachable!()
    }
    fn tanh_spec(self) -> Self {
        unreachable!()
    }
    fn asinh_spec(self) -> Self {
        unreachable!()
    }
    fn acosh_spec(self) -> Self {
        unreachable!()
    }
    fn atanh_spec(self) -> Self {
        unreachable!()
    }
    fn atan2_spec(self, _: Self) -> Self {
        unreachable!()
    }
    fn powf_spec(self, _: Self) -> Self {
        unreachable!()
    }
    fn sqrt(&self) -> Self {
        F64(self.0.sqrt())
    }
    fn log(&self) -> Self {
        F64(self.0.ln())
    }
    fn exp(&self) -> Self {
        F64(self.0.exp())
    }
    fn sin(&self) -> Self {
        F64(self.0.sin())
    }
    fn cos(&self) -> Self {
        F64(self.0.cos())
    }
    fn tan(&self) -> Self {
        F64(self.0.tan())
    }
    fn asin(&self) -> Self {
        F64(self.0.asin())
    }
    fn acos(&self) -> Self {
        F64(self.0.acos())
    }
    fn atan2(&self, x: &Self) -> Self {
        F64(self.0.atan2(x.0))
    }
    fn sinh(&self) -> Self {
        F64(self.0.sinh())
    }
    fn cosh(&self) -> Self {
        F64(self.0.cosh())
    }
    fn tanh(&self) -> Self {
        F64(self.0.tanh())
    }
    fn asinh(&self) -> Self {
        F64(self.0.asinh())
    }
    fn acosh(&self) -> Self {
        F64(self.0.acosh())
    }
    fn atanh(&self) -> Self {
        F64(self.0.atanh())
    }
    fn powf(&self, e: Self) -> Self {
        F64(self.0.powf(e.0))
    }
}

fn c(re: f64, im: f64) -> Complex<F64> {
    Complex::new(F64(re), F64(im))
}

#[test]
fn double() {
    let a = F64(5.);
    let b = F64(7.);

    let r = a.sqrt().0 + b.log().0 + b.sin().0 - a.cos().0 + b.tan().0 - F64(0.3).asin().0
        + F64(0.5).acos().0
        - a.atan2(&b).0
        + b.sinh().0
        - a.cosh().0
        + b.tanh().0
        - F64(0.7).asinh().0
        + b.acosh().0 / F64(0.4).atanh().0
        + b.powf(a).0;
    assert_eq!(r, 17293.219725825093);
}

#[test]
fn complex() {
    let a = c(1., 2.);
    let b = c(3., 4.);

    let r = a
        .sqrt()
        .add(&b.log())
        .sub(&a.exp())
        .add(&b.sin())
        .sub(&a.cos())
        .add(&b.tan())
        .sub(&a.asin())
        .add(&b.acos())
        .sub(&a.atan2(&b))
        .add(&b.sinh())
        .sub(&a.cosh())
        .add(&b.tanh())
        .sub(&a.asinh())
        .add(&b.acosh().div(&a.atanh()))
        .add(&b.powf(a));
    assert_eq!(r, c(0.1924131450685842, -39.83285329561913));
}

#[test]
fn complex_exp_log_round_trip() {
    let z = c(2., 3.);
    let r = z.log().exp();
    assert!(((r.re.0 - 2.) / 2.).abs() < 1e-12);
    assert!(((r.im.0 - 3.) / 3.).abs() < 1e-12);
}

#[test]
fn sample_unit_of_a_complex_number_is_real() {
    let mut rng = StdRng::seed_from_u64(7);
    let proto = Complex::new(F64(0.0), F64(0.0));
    for _ in 0..100 {
        let z = proto.sample_unit(&mut rng);
        assert!(0.0 <= z.re.0 && z.re.0 < 1.0);
        assert_eq!(z.im.0, 0.0);
    }
}

#[test]
fn random_fractions_are_reduced_and_in_the_unit_interval() {
    let mut rng = StdRng::seed_from_u64(11);
    let mut seen = Vec::new();
    for _ in 0..100 {
        let r = SmallRational::sample(&mut rng);
        assert!(0 <= r.num && r.num <= r.den && r.den > 0);
        let mut a = r.num;
        let mut b = r.den;
        while b != 0 {
            let t = a % b;
            a = b;
            b = t;
        }
        assert_eq!(a, 1);
        seen.push(r);
    }
    // the draws differ
    assert!(seen.iter().any(|r| *r != seen[0]));
}
