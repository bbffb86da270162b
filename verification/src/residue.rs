//! The mathematical model of a field element, and what each operation
//! yields on it.

use crate::decimal::signed_decimal;
use crate::error::OperationError;
use crate::number_theory::{
    bezout_inverse, is_prime, lemma_bezout_inverse, lemma_inverse_unique,
    lemma_multiple_not_inverted,
};
use vstd::prelude::*;

verus! {

/// The mathematical content of an element: an integer and the modulus of
/// the field it is meant to live in.
pub struct Residue {
    pub value: int,
    pub modulus: int,
}

impl Residue {
    /// The value is the canonical representative of its class.
    pub open spec fn reduced(self) -> bool {
        0 <= self.value < self.modulus
    }

    /// Two residues may enter a binary operation: they share a modulus and
    /// both are reduced.
    pub open spec fn compatible(self, other: Residue) -> bool {
        &&& self.modulus == other.modulus
        &&& self.reduced()
        &&& other.reduced()
    }

    /// The additive identity of the field with the given modulus.
    pub open spec fn zero(modulus: int) -> Residue {
        Residue { value: 0, modulus }
    }

    /// The multiplicative identity of the field with the given modulus.
    pub open spec fn one(modulus: int) -> Residue {
        Residue { value: 1, modulus }
    }

    /// The outcome of adding `other` to `self`.
    pub open spec fn sum(self, other: Residue) -> Result<Residue, OperationError> {
        if self.compatible(other) {
            Ok(Residue { value: (self.value + other.value) % self.modulus, modulus: self.modulus })
        } else {
            Err(OperationError::IncompatibleOperands)
        }
    }

    /// The outcome of subtracting `other` from `self`.
    pub open spec fn difference(self, other: Residue) -> Result<Residue, OperationError> {
        if self.compatible(other) {
            Ok(Residue { value: (self.value - other.value) % self.modulus, modulus: self.modulus })
        } else {
            Err(OperationError::IncompatibleOperands)
        }
    }

    /// The outcome of multiplying `self` by `other`.
    pub open spec fn product(self, other: Residue) -> Result<Residue, OperationError> {
        if self.compatible(other) {
            Ok(Residue { value: (self.value * other.value) % self.modulus, modulus: self.modulus })
        } else {
            Err(OperationError::IncompatibleOperands)
        }
    }

    /// The textual form: the value, the word `mod`, the modulus, each
    /// number in decimal and nothing between them.
    pub open spec fn text(self) -> Seq<char> {
        signed_decimal(self.value) + seq!['m', 'o', 'd'] + signed_decimal(self.modulus)
    }

    /// `u` is the reduced multiplicative inverse of `self`.
    pub open spec fn inverted_by(self, u: int) -> bool {
        0 <= u < self.modulus && (self.value * u) % self.modulus == 1
    }

    /// Some reduced value inverts `self`.
    pub open spec fn invertible(self) -> bool {
        exists|u: int| self.inverted_by(u)
    }

    /// The outcome of inverting `self`: the reduced value that multiplies
    /// `self` to one, where there is such a value.
    pub open spec fn inverse(self) -> Result<Residue, OperationError> {
        if self.invertible() {
            Ok(Residue { value: choose|u: int| self.inverted_by(u), modulus: self.modulus })
        } else {
            Err(OperationError::NotInvertible)
        }
    }
}

/// The model of an operation's result: the residue of the element it
/// produced, or the error it reported.
pub open spec fn outcome<F: View<V = Residue>>(r: Result<F, OperationError>) -> Result<
    Residue,
    OperationError,
> {
    match r {
        Ok(e) => Ok(e@),
        Err(err) => Err(err),
    }
}

/// In a prime field exactly the multiples of the modulus have no inverse,
/// and the inverse of any other value is the one that the extended
/// Euclidean algorithm yields.
pub proof fn lemma_inverse_in_prime_field(a: Residue)
    requires
        is_prime(a.modulus),
    ensures
        a.value % a.modulus == 0 ==> a.inverse() == Err::<Residue, OperationError>(
            OperationError::NotInvertible,
        ),
        a.value % a.modulus != 0 ==> a.inverse() == Ok::<Residue, OperationError>(
            (Residue { value: bezout_inverse(a.value, a.modulus), modulus: a.modulus }),
        ),
{
    if a.value % a.modulus == 0 {
        assert forall|u: int| !a.inverted_by(u) by {
            lemma_multiple_not_inverted(a.value, a.modulus, u);
        }
    } else {
        let u = bezout_inverse(a.value, a.modulus);
        lemma_bezout_inverse(a.value, a.modulus);
        assert(a.inverted_by(u));
        let c = choose|c: int| a.inverted_by(c);
        lemma_inverse_unique(a.value, a.modulus, c, u);
    }
}

} // verus!
