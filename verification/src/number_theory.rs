//! Divisibility, primality and the extended Euclidean algorithm over the
//! mathematical integers, together with the lemmas the field arithmetic
//! rests on.

use vstd::arithmetic::div_mod::{
    lemma_fundamental_div_mod, lemma_mod_multiples_basic, lemma_mod_multiples_vanish,
    lemma_mul_mod_noop_general, lemma_small_mod,
};
use vstd::math::abs;
use vstd::prelude::*;

verus! {

/// `d` divides `n`: `n` is a whole multiple of the nonzero integer `d`.
pub open spec fn divides(d: int, n: int) -> bool {
    d != 0 && n % d == 0
}

/// `n` is prime: it exceeds one and nothing strictly between one and `n`
/// divides it.
pub open spec fn is_prime(n: int) -> bool {
    n > 1 && forall|d: int| 1 < d < n ==> !#[trigger] divides(d, n)
}

/// A product of two factors greater than one is not prime.
pub proof fn lemma_product_not_prime(a: int, b: int)
    requires
        a > 1,
        b > 1,
    ensures
        !is_prime(a * b),
{
    lemma_mod_multiples_basic(b, a);
    assert(a * b == b * a && a < a * b) by (nonlinear_arith)
        requires
            a > 1,
            b > 1,
    ;
    assert(divides(a, a * b));
}

/// A divisor `d` of `n` comes with a cofactor: `n == d * (n / d)`, and the
/// cofactor divides `n` as well.
pub proof fn lemma_cofactor(d: int, n: int)
    requires
        d > 0,
        n > 0,
        divides(d, n),
    ensures
        n == d * (n / d),
        n / d > 0,
        divides(n / d, n),
{
    let q = n / d;
    lemma_fundamental_div_mod(n, d);
    assert(q > 0) by (nonlinear_arith)
        requires
            n == d * q,
            n > 0,
            d > 0,
    ;
    lemma_mod_multiples_basic(d, q);
}

/// Comparing `i` with the quotient `n / i` decides whether `i * i` exceeds
/// `n`, and a candidate whose square does not exceed `n` lies below `n`.
pub proof fn lemma_square_root_bound(n: int, i: int)
    requires
        n > 1,
        i > 1,
    ensures
        i <= n / i <==> i * i <= n,
        i * i <= n ==> i < n,
{
    let q = n / i;
    lemma_fundamental_div_mod(n, i);
    assert(i <= q <==> i * i <= n) by (nonlinear_arith)
        requires
            n == i * q + n % i,
            0 <= n % i < i,
            i > 1,
    ;
    assert(i * i <= n ==> i < n) by (nonlinear_arith)
        requires
            i > 1,
    ;
}

/// Trial division may stop at the square root: when nothing in `(1, i)`
/// divides `n` and `i * i` already exceeds `n`, then `n` is prime.
pub proof fn lemma_trial_division_complete(n: int, i: int)
    requires
        n > 1,
        i > 1,
        i * i > n,
        forall|d: int| 1 < d < i ==> !#[trigger] divides(d, n),
    ensures
        is_prime(n),
{
    assert forall|d: int| 1 < d < n implies !#[trigger] divides(d, n) by {
        if divides(d, n) && d >= i {
            let q = n / d;
            lemma_cofactor(d, n);
            assert(1 < q < i) by (nonlinear_arith)
                requires
                    n == d * q,
                    q > 0,
                    i <= d < n,
                    i * i > n,
                    i > 1,
            ;
            assert(divides(q, n));
        }
    }
}

/// `g` is the greatest common divisor of `a` and `b`: a positive common
/// divisor that no common divisor exceeds.
pub open spec fn is_gcd(g: int, a: int, b: int) -> bool {
    &&& g > 0
    &&& divides(g, a)
    &&& divides(g, b)
    &&& forall|d: int| d > 0 && #[trigger] divides(d, a) && divides(d, b) ==> d <= g
}

/// The quotient of the division that rounds towards zero.
pub open spec fn truncated_quotient(a: int, b: int) -> int {
    if a >= 0 {
        a / b
    } else {
        -((-a) / b)
    }
}

/// The remainder of the division that rounds towards zero; it has the
/// sign of the dividend.
pub open spec fn truncated_remainder(a: int, b: int) -> int {
    if a >= 0 {
        a % b
    } else {
        -((-a) % b)
    }
}

/// The triple `(g, s, t)` of the extended Euclidean algorithm on `(a, b)`:
/// on `b == 0` it is `(a, 1, 0)`; otherwise, with `(g, s, t)` the triple of
/// `b` and the remainder of `a` by `b`, and `q` the quotient, it is
/// `(g, t, s - q * t)`. Quotient and remainder round towards zero.
pub open spec fn bezout(a: int, b: int) -> (int, int, int)
    decreases abs(b),
{
    if b == 0 {
        (a, 1, 0)
    } else {
        let inner = bezout(b, truncated_remainder(a, b));
        (inner.0, inner.2, inner.1 - truncated_quotient(a, b) * inner.2)
    }
}

/// Division that rounds towards zero: dividend is quotient times divisor
/// plus remainder, the remainder is smaller than the divisor in magnitude
/// and has the sign of the dividend, and the magnitudes of the two parts
/// add up to that of the dividend.
pub proof fn lemma_truncated_division(a: int, b: int)
    requires
        b != 0,
    ensures
        a == b * truncated_quotient(a, b) + truncated_remainder(a, b),
        abs(truncated_remainder(a, b)) < abs(b),
        a >= 0 ==> truncated_remainder(a, b) >= 0,
        a <= 0 ==> truncated_remainder(a, b) <= 0,
        abs(b * truncated_quotient(a, b)) + abs(truncated_remainder(a, b)) == abs(a),
        abs(truncated_quotient(a, b)) <= abs(a),
{
    let m: int = if a >= 0 {
        a
    } else {
        -a
    };
    let q = m / b;
    let r = m % b;
    lemma_fundamental_div_mod(m, b);
    assert(0 <= r && (r < b || r < -b)) by (nonlinear_arith)
        requires
            r == m % b,
            b != 0,
    ;
    assert(b * q >= 0) by (nonlinear_arith)
        requires
            m == b * q + r,
            0 <= r,
            r < b || r < -b,
            m >= 0,
    ;
    assert(-m <= q <= m) by (nonlinear_arith)
        requires
            0 <= b * q <= m,
            b != 0,
    ;
    if a < 0 {
        assert(b * (-q) == -(b * q)) by (nonlinear_arith);
    }
}

/// A positive divisor of a number other than zero does not exceed its
/// magnitude.
pub proof fn lemma_divisor_at_most(d: int, n: int)
    requires
        d > 0,
        n != 0,
        divides(d, n),
    ensures
        d <= abs(n),
{
    if n > 0 {
        if d > n {
            lemma_small_mod(n as nat, d as nat);
        }
    } else {
        lemma_divides_combination(d, n, -1, 0);
        assert(n * (-1) + 0 == -n) by (nonlinear_arith);
        if d > -n {
            lemma_small_mod((-n) as nat, d as nat);
        }
    }
}

/// A common divisor of `x` and `y` divides every `x * k + y`.
pub proof fn lemma_divides_combination(d: int, x: int, k: int, y: int)
    requires
        d > 0,
        divides(d, x),
        divides(d, y),
    ensures
        divides(d, x * k + y),
{
    let qx = x / d;
    let qy = y / d;
    lemma_fundamental_div_mod(x, d);
    lemma_fundamental_div_mod(y, d);
    assert(x * k + y == (qx * k + qy) * d) by (nonlinear_arith)
        requires
            x == d * qx,
            y == d * qy,
    ;
    lemma_mod_multiples_basic(qx * k + qy, d);
}

/// Bézout's identity: the coefficients of the triple combine `a` and `b`
/// into its first component.
pub proof fn lemma_bezout_identity(a: int, b: int)
    ensures
        a * bezout(a, b).1 + b * bezout(a, b).2 == bezout(a, b).0,
    decreases abs(b),
{
    if b != 0 {
        let q = truncated_quotient(a, b);
        let r = truncated_remainder(a, b);
        let inner = bezout(b, r);
        lemma_truncated_division(a, b);
        lemma_bezout_identity(b, r);
        assert(a * inner.2 + b * (inner.1 - q * inner.2) == inner.0) by (nonlinear_arith)
            requires
                a == b * q + r,
                b * inner.1 + r * inner.2 == inner.0,
        ;
    } else {
        assert(a * 1 + b * 0 == a) by (nonlinear_arith);
    }
}

/// The coefficients stay small: on `b == 0` they are `(1, 0)`; otherwise the
/// first is at most `b` in magnitude and the second at most `a`, or at
/// most one where `a` is zero.
pub proof fn lemma_bezout_bounds(a: int, b: int)
    ensures
        b == 0 ==> bezout(a, b).1 == 1 && bezout(a, b).2 == 0,
        b != 0 ==> abs(bezout(a, b).1) <= abs(b),
        b != 0 && a != 0 ==> abs(bezout(a, b).2) <= abs(a),
        b != 0 && a == 0 ==> abs(bezout(a, b).2) <= 1,
    decreases abs(b),
{
    if b != 0 {
        let q = truncated_quotient(a, b);
        let r = truncated_remainder(a, b);
        let inner = bezout(b, r);
        lemma_truncated_division(a, b);
        lemma_bezout_bounds(b, r);
        if r == 0 {
            assert(q * inner.2 == 0) by (nonlinear_arith)
                requires
                    inner.2 == 0,
            ;
        } else {
            let bound = abs(a) - abs(r);
            assert(-bound <= q * inner.2 <= bound) by (nonlinear_arith)
                requires
                    b * q == bound || b * q == -bound,
                    -b <= inner.2 <= b || b <= inner.2 <= -b,
                    b != 0,
                    bound >= 0,
            ;
        }
    }
}

/// On non-negative inputs the first component of the triple is not
/// negative.
pub proof fn lemma_bezout_sign(a: int, b: int)
    requires
        a >= 0,
        b >= 0,
    ensures
        bezout(a, b).0 >= 0,
    decreases abs(b),
{
    if b != 0 {
        lemma_truncated_division(a, b);
        lemma_bezout_sign(b, truncated_remainder(a, b));
    }
}

/// The magnitude of the first component of the triple is the greatest
/// common divisor, unless both inputs are zero.
pub proof fn lemma_bezout_gcd(a: int, b: int)
    requires
        a != 0 || b != 0,
    ensures
        is_gcd(abs(bezout(a, b).0) as int, a, b),
    decreases abs(b),
{
    if b == 0 {
        let g = abs(a) as int;
        let sign: int = if a > 0 {
            1
        } else {
            -1
        };
        lemma_mod_multiples_basic(sign, g);
        assert(sign * g == a) by (nonlinear_arith)
            requires
                sign == 1 && g == a || sign == -1 && g == -a,
        ;
        lemma_small_mod(0, g as nat);
        assert forall|d: int| d > 0 && #[trigger] divides(d, a) && divides(d, b) implies d
            <= g by {
            lemma_divisor_at_most(d, a);
        }
    } else {
        let q = truncated_quotient(a, b);
        let r = truncated_remainder(a, b);
        let g = abs(bezout(b, r).0) as int;
        lemma_truncated_division(a, b);
        lemma_bezout_gcd(b, r);
        lemma_divides_combination(g, b, q, r);
        assert forall|d: int| d > 0 && #[trigger] divides(d, a) && divides(d, b) implies d
            <= g by {
            lemma_divides_combination(d, b, -q, a);
            assert(b * (-q) + a == r) by (nonlinear_arith)
                requires
                    a == b * q + r,
            ;
        }
    }
}

/// Below a prime, every positive number is coprime to it.
pub proof fn lemma_coprime_below_prime(v: int, p: int)
    requires
        is_prime(p),
        0 < v < p,
    ensures
        bezout(v, p).0 == 1,
{
    let g = bezout(v, p).0;
    lemma_bezout_sign(v, p);
    lemma_bezout_gcd(v, p);
    lemma_divisor_at_most(g, v);
    assert(divides(g, p));
}

/// For `0 < v < p` with `p` prime, the first Bézout coefficient of
/// `(v, p)` lies strictly between `-p` and `p` and is an inverse of `v`
/// modulo `p`.
pub proof fn lemma_bezout_inverts(v: int, p: int)
    requires
        is_prime(p),
        0 < v < p,
    ensures
        -p < bezout(v, p).1 < p,
        (v * bezout(v, p).1) % p == 1,
{
    let s = bezout(v, p).1;
    let t = bezout(v, p).2;
    lemma_coprime_below_prime(v, p);
    lemma_bezout_identity(v, p);
    lemma_bezout_bounds(v, p);
    if s == p || s == -p {
        let k = if s == p { v + t } else { t - v };
        assert(p * k == 1) by (nonlinear_arith)
            requires
                v * s + p * t == 1,
                s == p && k == v + t || s == -p && k == t - v,
        ;
        assert(false) by (nonlinear_arith)
            requires
                p * k == 1,
                p > 1,
        ;
    }
    assert(v * s == p * (-t) + 1) by (nonlinear_arith)
        requires
            v * s + p * t == 1,
    ;
    lemma_mod_multiples_vanish(-t, 1, p);
    lemma_small_mod(1, p as nat);
}

/// The inverse of `v` modulo `p` as the extended Euclidean algorithm gives
/// it: the first Bézout coefficient of `(v % p, p)`, raised by `p` where it
/// is negative.
pub open spec fn bezout_inverse(v: int, p: int) -> int {
    let s = bezout(v % p, p).1;
    if s < 0 {
        s + p
    } else {
        s
    }
}

/// Modulo a prime `p`, every `v` that `p` does not divide is inverted by
/// `bezout_inverse(v, p)`, which lies strictly between zero and `p`.
pub proof fn lemma_bezout_inverse(v: int, p: int)
    requires
        is_prime(p),
        v % p != 0,
    ensures
        0 < bezout_inverse(v, p) < p,
        (v * bezout_inverse(v, p)) % p == 1,
{
    let w = v % p;
    let s = bezout(w, p).1;
    let u = bezout_inverse(v, p);
    lemma_bezout_inverts(w, p);
    if s < 0 {
        assert(w * u == p * w + w * s) by (nonlinear_arith)
            requires
                u == s + p,
        ;
        lemma_mod_multiples_vanish(w, w * s, p);
    }
    lemma_mul_mod_noop_general(v, u, p);
    if u == 0 {
        assert(v * u == 0) by (nonlinear_arith)
            requires
                u == 0,
        ;
        lemma_small_mod(0, p as nat);
    }
}

/// A multiple of `m` times anything is zero modulo `m`, so nothing inverts
/// it.
pub proof fn lemma_multiple_not_inverted(v: int, m: int, u: int)
    requires
        m > 0,
        v % m == 0,
    ensures
        (v * u) % m == 0,
{
    lemma_mul_mod_noop_general(v, u, m);
    assert((v % m) * u == 0) by (nonlinear_arith)
        requires
            v % m == 0,
    ;
    lemma_small_mod(0, m as nat);
}

/// Two reduced inverses of the same number are equal.
pub proof fn lemma_inverse_unique(v: int, m: int, u1: int, u2: int)
    requires
        0 <= u1 < m,
        0 <= u2 < m,
        (v * u1) % m == 1,
        (v * u2) % m == 1,
    ensures
        u1 == u2,
{
    lemma_mul_mod_noop_general(u1, v * u2, m);
    lemma_mul_mod_noop_general(u2, v * u1, m);
    assert(u1 * (v * u2) == u2 * (v * u1)) by (nonlinear_arith);
    assert(u1 * 1 == u1 && u2 * 1 == u2) by (nonlinear_arith);
    lemma_small_mod(u1 as nat, m as nat);
    lemma_small_mod(u2 as nat, m as nat);
}

} // verus!
