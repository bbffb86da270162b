//! The ways in which construction and arithmetic can fail.

use vstd::prelude::*;

verus! {

/// Why an element could not be constructed.
#[derive(Debug, Clone, Copy, PartialEq, Eq)]
pub enum ConstructionError {
    /// The modulus is not a prime greater than one.
    InvalidModulus,
}

/// Why an operation on elements produced no element.
#[derive(Debug, Clone, Copy, PartialEq, Eq)]
pub enum OperationError {
    /// The operands have different moduli, or one of them holds a value
    /// outside `[0, modulus)`.
    IncompatibleOperands,
    /// The element has no multiplicative inverse: its value is a multiple
    /// of the modulus.
    NotInvertible,
}

} // verus!
