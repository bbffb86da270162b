//! The algebraic laws of the field, stated over the model of its elements
//! and proved once and for all.

use crate::error::OperationError;
use crate::number_theory::{is_prime, lemma_bezout_inverse, lemma_product_not_prime};
use crate::residue::{lemma_inverse_in_prime_field, Residue};
use vstd::arithmetic::div_mod::{lemma_add_mod_noop, lemma_small_mod};
use vstd::prelude::*;

verus! {

/// No modulus up to one is prime, so construction rejects each of them.
pub proof fn moduli_up_to_one_are_invalid(m: int)
    requires
        m <= 1,
    ensures
        !is_prime(m),
{
}

/// No composite modulus is prime, so construction rejects each of them.
pub proof fn composite_moduli_are_invalid(a: int, b: int)
    requires
        a > 1,
        b > 1,
    ensures
        !is_prime(a * b),
{
    lemma_product_not_prime(a, b);
}

/// Closure: on compatible operands, addition, subtraction and
/// multiplication each yield a reduced residue of the operands' modulus,
/// which is therefore compatible with both of them.
pub proof fn operations_closed(a: Residue, b: Residue)
    requires
        a.compatible(b),
    ensures
        a.sum(b) is Ok,
        a.difference(b) is Ok,
        a.product(b) is Ok,
        a.sum(b)->Ok_0.reduced() && a.sum(b)->Ok_0.modulus == a.modulus,
        a.difference(b)->Ok_0.reduced() && a.difference(b)->Ok_0.modulus == a.modulus,
        a.product(b)->Ok_0.reduced() && a.product(b)->Ok_0.modulus == a.modulus,
{
}

/// Zero is the additive identity: adding it on either side of a reduced
/// residue gives that residue back.
pub proof fn zero_is_additive_identity(a: Residue)
    requires
        a.reduced(),
    ensures
        a.sum(Residue::zero(a.modulus)) == Ok::<Residue, OperationError>(a),
        Residue::zero(a.modulus).sum(a) == Ok::<Residue, OperationError>(a),
{
    lemma_small_mod(a.value as nat, a.modulus as nat);
}

/// Every reduced residue is its own additive inverse under subtraction:
/// `a - a` is zero.
pub proof fn difference_with_self_is_zero(a: Residue)
    requires
        a.reduced(),
    ensures
        a.difference(a) == Ok::<Residue, OperationError>(Residue::zero(a.modulus)),
{
    lemma_small_mod(0, a.modulus as nat);
}

/// Addition commutes, on all operands: both orders give the same residue
/// or the same error.
pub proof fn addition_commutes(a: Residue, b: Residue)
    ensures
        a.sum(b) == b.sum(a),
{
}

/// Multiplication commutes, on all operands: both orders give the same
/// residue or the same error.
pub proof fn multiplication_commutes(a: Residue, b: Residue)
    ensures
        a.product(b) == b.product(a),
{
    assert(a.value * b.value == b.value * a.value) by (nonlinear_arith);
}

/// Addition is associative on pairwise compatible operands.
pub proof fn addition_associates(a: Residue, b: Residue, c: Residue)
    requires
        a.compatible(b),
        b.compatible(c),
    ensures
        a.sum(b) is Ok,
        b.sum(c) is Ok,
        a.sum(b)->Ok_0.sum(c) == a.sum(b.sum(c)->Ok_0),
{
    let m = a.modulus;
    lemma_add_mod_noop(a.value + b.value, c.value, m);
    lemma_add_mod_noop(a.value, b.value + c.value, m);
    lemma_small_mod(a.value as nat, m as nat);
    lemma_small_mod(c.value as nat, m as nat);
}

/// One is the multiplicative identity of every field: multiplying a
/// reduced residue by it gives that residue back.
pub proof fn one_is_multiplicative_identity(a: Residue)
    requires
        a.reduced(),
        a.modulus > 1,
    ensures
        a.product(Residue::one(a.modulus)) == Ok::<Residue, OperationError>(a),
{
    assert(a.value * 1 == a.value) by (nonlinear_arith);
    lemma_small_mod(a.value as nat, a.modulus as nat);
}

/// In a prime field every reduced residue other than zero has an inverse,
/// the inverse is reduced, and the product of the two, in either order, is
/// one.
pub proof fn nonzero_times_inverse_is_one(a: Residue)
    requires
        is_prime(a.modulus),
        a.reduced(),
        a.value != 0,
    ensures
        a.inverse() is Ok,
        a.compatible(a.inverse()->Ok_0),
        a.product(a.inverse()->Ok_0) == Ok::<Residue, OperationError>(Residue::one(a.modulus)),
        a.inverse()->Ok_0.product(a) == Ok::<Residue, OperationError>(Residue::one(a.modulus)),
{
    lemma_small_mod(a.value as nat, a.modulus as nat);
    lemma_inverse_in_prime_field(a);
    lemma_bezout_inverse(a.value, a.modulus);
    multiplication_commutes(a, a.inverse()->Ok_0);
}

/// Zero has no inverse, whatever the modulus.
pub proof fn zero_is_not_invertible(modulus: int)
    ensures
        Residue::zero(modulus).inverse() == Err::<Residue, OperationError>(
            OperationError::NotInvertible,
        ),
{
    let z = Residue::zero(modulus);
    assert forall|u: int| !z.inverted_by(u) by {
        if 0 <= u < modulus {
            assert(0 * u == 0) by (nonlinear_arith);
            lemma_small_mod(0, modulus as nat);
        }
    }
}

/// Residues of different moduli are rejected by every binary operation,
/// prime moduli or not, reduced values or not.
pub proof fn different_moduli_rejected(a: Residue, b: Residue)
    requires
        a.modulus != b.modulus,
    ensures
        a.sum(b) == Err::<Residue, OperationError>(OperationError::IncompatibleOperands),
        a.difference(b) == Err::<Residue, OperationError>(OperationError::IncompatibleOperands),
        a.product(b) == Err::<Residue, OperationError>(OperationError::IncompatibleOperands),
{
}

} // verus!
