//! Random draws for the sampling of numbers.
use crate::domains::rational::SmallRational;
use rand::rngs::StdRng;
use rand::Rng;
use vstd::prelude::*;

verus! {

/// The standard random number generator of the crate `rand`.
#[verifier::external_type_specification]
#[verifier::external_body]
pub struct ExStdRng(StdRng);

/// `Rng::gen` of the crate `rand` for a 64-bit integer: any such integer may
/// come.
#[verifier::external_body]
pub(crate) fn draw_i64(rng: &mut StdRng) -> (r: i64) {
    rng.gen::<i64>()
}

impl SmallRational {
    /// A random fraction between zero and one, in lowest terms, out of two
    /// draws from `rng`.
    pub fn sample(rng: &mut StdRng) -> (r: Self)
        ensures
            r.reduced(),
            0 <= r.num <= r.den,
    {
        let draw1 = draw_i64(rng);
        let draw2 = draw_i64(rng);
        SmallRational::sample_unit(draw1, draw2)
    }
}

} // verus!
