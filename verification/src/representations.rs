//! Handles for the symbols of an expression.
use vstd::prelude::*;

pub mod default;
pub mod number;
pub mod packing;
pub mod tree;
pub mod unique;

verus! {

/// A handle for a variable or a function name: a small integer that is given
/// out elsewhere. Two handles are the same symbol exactly when their numbers
/// are equal.
#[derive(Clone, Copy, Debug, PartialEq, Eq, Structural, Hash)]
pub struct Identifier(pub u32);

impl Identifier {
    /// The handle with the number `n`.
    pub fn from(n: u32) -> (r: Identifier)
        ensures
            r == Identifier(n),
    {
        Identifier(n)
    }

    /// The number of the handle.
    pub fn to_u32(&self) -> (r: u32)
        ensures
            r == self.0,
    {
        self.0
    }
}

} // verus!
