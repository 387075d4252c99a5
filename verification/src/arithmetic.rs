//! Divisibility, greatest common divisors and least common multiples.
//!
//! The definitions are over mathematical integers; the executable functions
//! at the end hand the computation to the `num` crate.

use vstd::prelude::*;
use vstd::arithmetic::div_mod::*;
use vstd::arithmetic::mul::*;

verus! {

/// The largest magnitude that an entry of a matrix may have.
pub const LIMIT: i32 = 2147483647;

/// The absolute value of an integer.
pub open spec fn abs(x: int) -> nat {
    if x < 0 {
        (-x) as nat
    } else {
        x as nat
    }
}

/// `d` divides `n`: `n` is `d` times some integer. Zero divides only zero.
pub open spec fn divides(d: nat, n: int) -> bool {
    n == d * (n / (d as int))
}

/// The greatest common divisor of two natural numbers, with `gcd(0, 0) == 0`.
pub open spec fn gcd(a: nat, b: nat) -> nat
    decreases b,
{
    if b == 0 {
        a
    } else {
        gcd(b, a % b)
    }
}

/// The greatest common divisor of two integers, which is never negative.
pub open spec fn gcd_int(a: int, b: int) -> nat {
    gcd(abs(a), abs(b))
}

/// The least common multiple of two integers, which is never negative and is
/// zero where one of them is zero.
pub open spec fn lcm_int(a: int, b: int) -> nat {
    if a == 0 || b == 0 {
        0
    } else {
        abs(a) * (abs(b) / gcd_int(a, b))
    }
}

/// A product of `d` is divisible by `d`.
pub proof fn lemma_divides_product(d: nat, k: int)
    ensures
        divides(d, d * k),
{
    if d > 0 {
        lemma_div_multiples_vanish(k, d as int);
    } else {
        assert(d * k == 0) by (nonlinear_arith)
            requires
                d == 0,
        ;
        assert(d * ((d * k) / (d as int)) == 0) by (nonlinear_arith)
            requires
                d == 0,
        ;
    }
}

/// Divisibility does not depend on the sign of the number divided.
pub proof fn lemma_divides_negated(d: nat, n: int)
    requires
        divides(d, n),
    ensures
        divides(d, -n),
{
    let k = n / (d as int);
    assert(-n == d * (-k)) by (nonlinear_arith)
        requires
            n == d * k,
    ;
    lemma_divides_product(d, -k);
}

/// A number and its absolute value have the same divisors.
pub proof fn lemma_divides_abs(d: nat, n: int)
    ensures
        divides(d, n) <==> divides(d, abs(n) as int),
{
    if n < 0 {
        if divides(d, n) {
            lemma_divides_negated(d, n);
        }
        if divides(d, -n) {
            lemma_divides_negated(d, -n);
        }
    }
}

/// A divisor of two numbers divides every integer combination of them.
pub proof fn lemma_divides_combination(d: nat, x: int, y: int, a: int, b: int)
    requires
        divides(d, x),
        divides(d, y),
    ensures
        divides(d, a * x + b * y),
{
    let kx = x / (d as int);
    let ky = y / (d as int);
    assert(a * x + b * y == d * (a * kx + b * ky)) by (nonlinear_arith)
        requires
            x == d * kx,
            y == d * ky,
    ;
    lemma_divides_product(d, a * kx + b * ky);
}

/// Divisibility is transitive.
pub proof fn lemma_divides_transitive(d: nat, e: nat, n: int)
    requires
        divides(d, e as int),
        divides(e, n),
    ensures
        divides(d, n),
{
    let k = n / (e as int);
    lemma_divides_self_and_zero(d);
    lemma_divides_combination(d, e as int, 0, k, 0);
    assert(k * e + 0 * 0 == n) by (nonlinear_arith)
        requires
            n == e * k,
    ;
}

/// Every number divides itself and zero.
pub proof fn lemma_divides_self_and_zero(d: nat)
    ensures
        divides(d, d as int),
        divides(d, 0),
{
    lemma_divides_product(d, 1);
    lemma_divides_product(d, 0);
    assert(d * 1 == d) by (nonlinear_arith);
    assert(d * 0 == 0) by (nonlinear_arith);
}

/// The greatest common divisor divides both numbers.
pub proof fn lemma_gcd_divides(a: nat, b: nat)
    ensures
        divides(gcd(a, b), a as int),
        divides(gcd(a, b), b as int),
    decreases b,
{
    if b == 0 {
        lemma_divides_self_and_zero(a);
    } else {
        let g = gcd(b, a % b);
        lemma_gcd_divides(b, a % b);
        lemma_fundamental_div_mod(a as int, b as int);
        let q = (a / b) as int;
        let r = (a % b) as int;
        lemma_divides_combination(g, b as int, r, q, 1);
        assert(q * b + 1 * r == a) by (nonlinear_arith)
            requires
                a == b * q + r,
        ;
    }
}

/// Whatever divides both numbers divides their greatest common divisor.
pub proof fn lemma_gcd_is_greatest(a: nat, b: nat, d: nat)
    requires
        divides(d, a as int),
        divides(d, b as int),
    ensures
        divides(d, gcd(a, b) as int),
    decreases b,
{
    if b != 0 {
        lemma_fundamental_div_mod(a as int, b as int);
        let q = (a / b) as int;
        let r = (a % b) as int;
        lemma_divides_combination(d, a as int, b as int, 1, -q);
        assert(1 * a + (-q) * b == r) by (nonlinear_arith)
            requires
                a == b * q + r,
        ;
        lemma_gcd_is_greatest(b, a % b, d);
    }
}

/// The greatest common divisor is zero only of zero and zero.
pub proof fn lemma_gcd_zero(a: nat, b: nat)
    ensures
        gcd(a, b) == 0 <==> (a == 0 && b == 0),
    decreases b,
{
    if b != 0 {
        lemma_gcd_zero(b, a % b);
    }
}

/// The greatest common divisor of zero and a number is that number.
pub proof fn lemma_gcd_of_zero(a: nat)
    ensures
        gcd(0, a) == a,
        gcd(a, 0) == a,
{
    if a > 0 {
        lemma_small_mod(0, a);
        assert(gcd(0, a) == gcd(a, 0));
    }
}

/// A divisor of a number other than zero is not larger than it.
pub proof fn lemma_divisor_bound(d: nat, n: nat)
    requires
        divides(d, n as int),
        n > 0,
    ensures
        0 < d <= n,
{
    let k = (n as int) / (d as int);
    assert(0 < d && d <= n) by (nonlinear_arith)
        requires
            n == d * k,
            n > 0,
            d >= 0,
    ;
}

/// Dividing a multiple of `d` by `d` gives back the other factor, also in
/// the executable division, which rounds towards zero.
pub proof fn lemma_exact_quotient(x: int, d: nat)
    requires
        d > 0,
        divides(d, x),
    ensures
        x >= 0 ==> x / (d as int) >= 0,
        x < 0 ==> -((-x) / (d as int)) == x / (d as int),
        abs(x / (d as int)) <= abs(x),
        x != 0 ==> x / (d as int) != 0,
        (x > 0) == (x / (d as int) > 0),
{
    let k = x / (d as int);
    lemma_div_multiples_vanish(-k, d as int);
    assert(-x == d * (-k)) by (nonlinear_arith)
        requires
            x == d * k,
    ;
    assert(abs(k) <= abs(x) && (x != 0 ==> k != 0) && ((x > 0) == (k > 0)) && (x >= 0 ==> k >= 0))
        by (nonlinear_arith)
        requires
            x == d * k,
            d > 0,
    ;
}

/// A common factor can be taken out of a greatest common divisor.
pub proof fn lemma_gcd_scaled(m: nat, a: nat, b: nat)
    ensures
        gcd(m * a, m * b) == m * gcd(a, b),
    decreases b,
{
    if m == 0 {
        assert(m * a == 0 && m * b == 0 && m * gcd(a, b) == 0) by (nonlinear_arith)
            requires
                m == 0,
        ;
    } else if b == 0 {
        assert(m * b == 0) by (nonlinear_arith)
            requires
                b == 0,
        ;
    } else {
        lemma_truncate_middle(a as int, m as int, b as int);
        lemma_gcd_scaled(m, b, a % b);
        assert(m * b > 0);
        assert((m * a) % (m * b) == m * (a % b));
    }
}

/// Whatever divides two multiples of a number divides that number times the
/// greatest common divisor of the two factors.
pub proof fn lemma_divides_scaled_gcd(d: nat, x: nat, a: nat, b: nat)
    requires
        divides(d, (x * a) as int),
        divides(d, (x * b) as int),
    ensures
        divides(d, (x * gcd(a, b)) as int),
{
    lemma_gcd_scaled(x, a, b);
    lemma_gcd_is_greatest(x * a, x * b, d);
}

/// The least common multiple of two positive numbers divides every common
/// multiple of them.
pub proof fn lemma_lcm_is_least(a: nat, b: nat, n: nat)
    requires
        a > 0,
        b > 0,
        divides(a, n as int),
        divides(b, n as int),
    ensures
        divides(lcm_int(a as int, b as int), n as int),
{
    let g = gcd(a, b);
    lemma_gcd_zero(a, b);
    lemma_gcd_divides(a, b);
    let bq = (b as int) / (g as int);
    let u = (n as int) / (a as int);
    let v = (n as int) / (b as int);
    assert(bq >= 0) by (nonlinear_arith)
        requires
            b == g * bq,
            b > 0,
            g > 0,
    ;
    let l = lcm_int(a as int, b as int);
    assert(l == a * bq);
    let ab = a * b;
    assert(n * a == ab * v) by (nonlinear_arith)
        requires
            n == b * v,
            ab == a * b,
    ;
    assert(n * b == ab * u) by (nonlinear_arith)
        requires
            n == a * u,
            ab == a * b,
    ;
    lemma_divides_product(ab, v);
    lemma_divides_product(ab, u);
    lemma_gcd_scaled(n, a, b);
    lemma_gcd_is_greatest(n * a, n * b, ab);
    let t = ((n * g) as int) / (ab as int);
    assert(n * g == ab * t);
    assert(n == l * t) by (nonlinear_arith)
        requires
            n * g == ab * t,
            ab == a * b,
            b == g * bq,
            l == a * bq,
            g > 0,
    ;
    lemma_divides_product(l, t);
}

/// The greatest common divisor of two 32-bit integers.
///
/// Calls `num::integer::gcd`, which computes the greatest common divisor of
/// the absolute values by Stein's algorithm and never returns a negative
/// number. It cannot represent the divisor 2^31, so the smallest 32-bit
/// integer is left out.
#[verifier::external_body]
pub(crate) fn integer_gcd(a: i32, b: i32) -> (g: i32)
    requires
        -LIMIT <= a,
        -LIMIT <= b,
    ensures
        g == gcd_int(a as int, b as int),
{
    num::integer::gcd(a, b)
}

/// The least common multiple of two 64-bit integers of 32-bit magnitude.
///
/// Calls `num::integer::lcm`, which returns zero where both are zero and
/// else the absolute value of the first times the quotient of the second by
/// their greatest common divisor. On the inputs admitted here that product
/// stays below 2^62.
#[verifier::external_body]
pub(crate) fn integer_lcm(a: i64, b: i64) -> (m: i64)
    requires
        -LIMIT <= a <= LIMIT,
        -LIMIT <= b <= LIMIT,
    ensures
        m == lcm_int(a as int, b as int),
{
    num::integer::lcm(a, b)
}

/// The absolute value of an 8-bit integer.
///
/// Calls `num::abs`, which negates a negative number and hands any other
/// back. The negation of -128 does not fit, so that input is left out.
#[verifier::external_body]
pub(crate) fn integer_abs(x: i8) -> (magnitude: i8)
    requires
        -128 < x,
    ensures
        magnitude == abs(x as int),
{
    num::abs(x)
}

} // verus!
