//! Elements of the prime field `F_p` held in machine integers.

use crate::decimal::signed_decimal_string;
use crate::error::{ConstructionError, OperationError};
use crate::number_theory::{
    bezout, divides, is_gcd, is_prime, lemma_bezout_bounds, lemma_bezout_gcd,
    lemma_bezout_identity, lemma_bezout_inverse, lemma_bezout_sign, lemma_square_root_bound,
    lemma_trial_division_complete, lemma_truncated_division, truncated_quotient,
    truncated_remainder,
};
use crate::residue::{lemma_inverse_in_prime_field, outcome, Residue};
use vstd::arithmetic::div_mod::{
    lemma_fundamental_div_mod, lemma_fundamental_div_mod_converse, lemma_mod_multiples_vanish,
    lemma_small_mod,
};
use vstd::math::abs;
use vstd::prelude::*;

verus! {

/// The capability of a field element: the four operations, each yielding a
/// new element or the reason why there is none.
pub trait Field: Sized + View<V = Residue> {
    /// Adds `other` to `self`.
    fn add(&self, other: &Self) -> (r: Result<Self, OperationError>)
        ensures
            outcome(r) == self@.sum(other@),
    ;

    /// Subtracts `other` from `self`.
    fn sub(&self, other: &Self) -> (r: Result<Self, OperationError>)
        ensures
            outcome(r) == self@.difference(other@),
    ;

    /// Multiplies `self` by `other`.
    fn mul(&self, other: &Self) -> (r: Result<Self, OperationError>)
        ensures
            outcome(r) == self@.product(other@),
    ;

    /// Inverts `self` with respect to multiplication.
    /// The inverse by the extended Euclidean algorithm on the reduced
    /// value and the modulus: the first coefficient, raised by `p` once
    /// where it is negative. Multiples of `p` are rejected.
    fn inv(&self) -> (r: Result<Self, OperationError>)
        ensures
            outcome(r) == self@.inverse(),
    ;
}

/// The remainder of `v` on division by the positive `m`, in `[0, m)` also
/// for negative `v`.
fn euclidean_remainder(v: i32, m: i32) -> (r: i32)
    requires
        m > 0,
    ensures
        r == v % m,
{
    if v >= 0 {
        v % m
    } else {
        let w: i64 = -(v as i64);
        let rem: i32 = (w % (m as i64)) as i32;
        proof {
            let q = w as int / m as int;
            lemma_fundamental_div_mod(w as int, m as int);
            if rem == 0 {
                assert(v == (-q) * m + 0) by (nonlinear_arith)
                    requires
                        w == m * q + rem,
                        rem == 0,
                        v == -w,
                ;
                lemma_fundamental_div_mod_converse(v as int, m as int, -q, 0);
            } else {
                assert(v == (-q - 1) * m + (m - rem)) by (nonlinear_arith)
                    requires
                        w == m * q + rem,
                        v == -w,
                ;
                lemma_fundamental_div_mod_converse(v as int, m as int, -q - 1, m - rem);
            }
        }
        if rem == 0 {
            0
        } else {
            m - rem
        }
    }
}

/// An integer paired with the prime modulus of its field.
#[derive(Debug, Clone, Copy, PartialEq, Eq)]
pub struct Fp {
    value: i32,
    modulus: i32,
}

impl View for Fp {
    type V = Residue;

    closed spec fn view(&self) -> Residue {
        Residue { value: self.value as int, modulus: self.modulus as int }
    }
}

impl Fp {
    #[verifier::type_invariant]
    spec fn prime_modulus(self) -> bool {
        is_prime(self.modulus as int)
    }

    /// Builds the element `(v, m)` when `m` is prime, by trial division of
    /// `m` up to its square root; `v` is kept as given, reduced or not.
    pub fn new(v: i32, m: i32) -> (r: Result<Fp, ConstructionError>)
        ensures
            r is Ok <==> is_prime(m as int),
            r matches Ok(e) ==> e@.value == v && e@.modulus == m,
            r matches Err(e) ==> e == ConstructionError::InvalidModulus,
    {
        if m <= 1 {
            return Err(ConstructionError::InvalidModulus);
        }
        let mut i: i32 = 2;
        // `i <= m / i` is `i * i <= m` without the product.
        while i <= m / i
            invariant
                m > 1,
                2 <= i <= m,
                forall|d: int| 1 < d < i ==> !#[trigger] divides(d, m as int),
            decreases m - i,
        {
            proof {
                lemma_square_root_bound(m as int, i as int);
            }
            if m % i == 0 {
                assert(divides(i as int, m as int));
                return Err(ConstructionError::InvalidModulus);
            }
            i += 1;
        }
        proof {
            lemma_square_root_bound(m as int, i as int);
            lemma_trial_division_complete(m as int, i as int);
        }
        Ok(Fp { value: v, modulus: m })
    }

    /// The integer this element holds.
    pub fn value(&self) -> (v: i32)
        ensures
            v == self@.value,
    {
        self.value
    }

    /// The modulus of the field this element belongs to.
    pub fn modulus(&self) -> (m: i32)
        ensures
            m == self@.modulus,
            is_prime(m as int),
    {
        proof {
            use_type_invariant(self);
        }
        self.modulus
    }

    /// Whether `self` and `other` may enter a binary operation: they share
    /// a modulus and each holds a value in `[0, modulus)`.
    pub fn check_input(&self, other: &Self) -> (ok: bool)
        ensures
            ok == self@.compatible(other@),
    {
        self.modulus == other.modulus && 0 <= self.value && self.value < self.modulus && 0
            <= other.value && other.value < other.modulus
    }

    /// The extended Euclidean algorithm: the triple `(g, s, t)` with
    /// `a * s + b * t == g`, where the magnitude of `g` is the greatest
    /// common divisor of `a` and `b` (and `g` is zero when both are zero).
    /// Both arguments lie above `i32::MIN`, so that every magnitude fits.
    pub fn extended_euclidean(a: i32, b: i32) -> (r: (i32, i32, i32))
        requires
            a > i32::MIN,
            b > i32::MIN,
        ensures
            (r.0 as int, r.1 as int, r.2 as int) == bezout(a as int, b as int),
            a * r.1 + b * r.2 == r.0,
            a != 0 || b != 0 ==> is_gcd(abs(r.0 as int) as int, a as int, b as int),
            a == 0 && b == 0 ==> r.0 == 0,
            a >= 0 && b >= 0 ==> r.0 >= 0,
        decreases abs(b as int),
    {
        proof {
            lemma_bezout_identity(a as int, b as int);
            if a != 0 || b != 0 {
                lemma_bezout_gcd(a as int, b as int);
            }
            if a >= 0 && b >= 0 {
                lemma_bezout_sign(a as int, b as int);
            }
        }
        if b == 0 {
            return (a, 1, 0);
        }
        proof {
            lemma_truncated_division(a as int, b as int);
        }
        let rem: i32 = a % b;
        let q: i32 = a / b;
        assert(rem == truncated_remainder(a as int, b as int));
        assert(q == truncated_quotient(a as int, b as int));
        let (g, x, y) = Self::extended_euclidean(b, rem);
        proof {
            lemma_bezout_bounds(b as int, rem as int);
            if rem == 0 {
                assert(q * y == 0) by (nonlinear_arith)
                    requires
                        y == 0,
                ;
            } else {
                let bound = abs(a as int) - abs(rem as int);
                assert(-bound <= q * y <= bound) by (nonlinear_arith)
                    requires
                        b * q == bound || b * q == -bound,
                        -b <= y <= b || b <= y <= -b,
                        b != 0,
                        bound >= 0,
                ;
            }
        }
        (g, y, x - q * y)
    }

    /// The textual form of the element, for diagnostics: value and modulus
    /// in decimal with `mod` between them, as in `23mod524269`.
    pub fn to_string(&self) -> (s: String)
        ensures
            s@ == self@.text(),
    {
        let mut s = signed_decimal_string(self.value);
        let modulus = signed_decimal_string(self.modulus);
        s.append("mod");
        s.append(modulus.as_str());
        proof {
            reveal_strlit("mod");
            assert(s@ =~= self@.text());
        }
        s
    }
}

impl Field for Fp {
    /// `(self + other) mod p`, computed in 64 bits.
    fn add(&self, other: &Self) -> (r: Result<Self, OperationError>) {
        proof {
            use_type_invariant(self);
        }
        if self.check_input(other) {
            let total: i64 = self.value as i64 + other.value as i64;
            let value: i32 = (total % (self.modulus as i64)) as i32;
            Ok(Fp { value, modulus: self.modulus })
        } else {
            Err(OperationError::IncompatibleOperands)
        }
    }

    /// `self - other`, raised by `p` once where it is negative.
    fn sub(&self, other: &Self) -> (r: Result<Self, OperationError>) {
        proof {
            use_type_invariant(self);
        }
        if self.check_input(other) {
            let mut value: i32 = self.value - other.value;
            if value < 0 {
                value += self.modulus;
                proof {
                    lemma_mod_multiples_vanish(
                        1,
                        self.value - other.value,
                        self.modulus as int,
                    );
                }
            }
            proof {
                lemma_small_mod(value as nat, self.modulus as nat);
            }
            Ok(Fp { value, modulus: self.modulus })
        } else {
            Err(OperationError::IncompatibleOperands)
        }
    }

    /// `(self * other) mod p`; the product is formed in 64 bits, which
    /// hold the square of any modulus.
    fn mul(&self, other: &Self) -> (r: Result<Self, OperationError>) {
        proof {
            use_type_invariant(self);
        }
        if self.check_input(other) {
            assert(0 <= self.value * other.value <= 0x7fff_ffff * 0x7fff_ffff)
                by (nonlinear_arith)
                requires
                    0 <= self.value <= 0x7fff_ffff,
                    0 <= other.value <= 0x7fff_ffff,
            ;
            let wide: i64 = (self.value as i64) * (other.value as i64);
            let value: i32 = (wide % (self.modulus as i64)) as i32;
            Ok(Fp { value, modulus: self.modulus })
        } else {
            Err(OperationError::IncompatibleOperands)
        }
    }

    /// The inverse by the extended Euclidean algorithm on the reduced
    /// value and the modulus: the first coefficient, raised by `p` once
    /// where it is negative. Multiples of `p` are rejected.
    fn inv(&self) -> (r: Result<Self, OperationError>)
        ensures
            r is Err <==> self@.value % self@.modulus == 0,
            r matches Ok(u) ==> u@.modulus == self@.modulus && 0 < u@.value < u@.modulus,
            r matches Ok(u) ==> (self@.value * u@.value) % self@.modulus == 1,
    {
        proof {
            use_type_invariant(self);
            lemma_inverse_in_prime_field(self@);
        }
        let reduced: i32 = euclidean_remainder(self.value, self.modulus);
        if reduced == 0 {
            return Err(OperationError::NotInvertible);
        }
        let (_gcd, s, _t) = Self::extended_euclidean(reduced, self.modulus);
        proof {
            lemma_bezout_inverse(self.value as int, self.modulus as int);
        }
        let value: i32 = if s < 0 {
            s + self.modulus
        } else {
            s
        };
        Ok(Fp { value, modulus: self.modulus })
    }
}

} // verus!
