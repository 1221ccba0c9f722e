pub mod algebra;
pub mod laws;
pub mod circuit;
pub mod matrix;
pub mod sampling;
pub mod scalar;

use vstd::prelude::*;

verus! {

/// Failure kinds surfaced by the matrix and circuit operations.
#[derive(Clone, Copy, PartialEq, Eq, Structural, Debug)]
pub enum Error {
    /// A wire index at or past the wire count, or a duplicate wire within
    /// one gate application.
    InvalidWire,
    /// Mismatched matrix dimensions, or a gate matrix whose size does not
    /// fit its wire list.
    DimensionError,
    /// A square matrix was required.
    NonSquareMatrix,
    /// A result left the representable scalar range.
    Overflow,
}

} // verus!
