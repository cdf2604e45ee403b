//! The numeric tower: the interface of the scalar coefficient domains and the
//! complex numbers built over any of them.
pub mod float;
pub mod rational;
pub mod sampling;
