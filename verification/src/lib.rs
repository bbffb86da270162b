//! Arithmetic in the finite field of integers modulo a prime.
//!
//! An [`Fp`] pairs an integer with the prime modulus of its field. It is
//! built by [`Fp::new`], which admits prime moduli only, and never changes
//! afterwards: addition, subtraction, multiplication and inversion, the
//! operations of the [`Field`] trait, each return a new element or say why
//! there is none.
//!
//! Every contract is stated over [`Residue`], the mathematical content of
//! an element. The laws that hold between the operations are proved in
//! [`laws`].

pub mod decimal;
pub mod error;
pub mod field;
pub mod laws;
pub mod number_theory;
pub mod residue;

pub use error::{ConstructionError, OperationError};
pub use field::{Field, Fp};
pub use residue::Residue;
