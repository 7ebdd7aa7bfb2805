//! Binary polynomials held in machine words: bit `i` of a word is the
//! coefficient of `x^i`, and addition is exclusive or.

use vstd::prelude::*;

verus! {

/// `b` if `t` holds, the zero polynomial otherwise.
pub open spec fn scale(t: bool, b: u64) -> u128 {
    if t {
        b as u128
    } else {
        0
    }
}

/// The product of two binary polynomials of degree below 64.
///
/// `a * b` is `b` if the constant term of `a` is set, plus `x` times the
/// product of `a / x` and `b`.
pub open spec fn poly_mul(a: u64, b: u64) -> u128
    decreases a,
    via poly_mul_terminates
{
    if a == 0 {
        0
    } else {
        scale(a & 1 == 1, b) ^ (poly_mul(a >> 1, b) << 1)
    }
}

#[via_fn]
proof fn poly_mul_terminates(a: u64, b: u64) {
    bits_halving(a);
}

proof fn bits_halving(a: u64)
    by (bit_vector)
    ensures
        a >> 1 <= a,
        a != 0 ==> a >> 1 < a,
        a == 0 ==> a & 1 == 0,
        a == 1 ==> a & 1 == 1 && a >> 1 == 0,
        a ^ a == 0,
        a >> 64u64 == 0,
        0u128 ^ (0u128 << 1) == 0,
        0u128 ^ 0u128 == 0,
{
}

/// The defining equation of the product holds of the zero polynomial too.
pub proof fn lemma_mul_unfold(a: u64, b: u64)
    ensures
        poly_mul(a, b) == scale(a & 1 == 1, b) ^ (poly_mul(a >> 1, b) << 1),
{
    bits_halving(a);
}

proof fn bits_xor_zero(x: u128)
    by (bit_vector)
    ensures
        x ^ 0 == x,
        0 ^ x == x,
        x ^ x == 0,
        0u128 << 1 == 0,
        x ^ (0u128 << 1) == x,
{
}

/// One is the unit of the product.
pub proof fn lemma_mul_one(b: u64)
    ensures
        poly_mul(1, b) == b as u128,
{
    bits_halving(1);
    bits_xor_zero(b as u128);
    lemma_mul_unfold(1, b);
    assert(poly_mul(0, b) == 0);
}

proof fn bits_linear_left(a1: u64, a2: u64, b: u64, x1: u128, x2: u128)
    by (bit_vector)
    ensures
        (a1 ^ a2) >> 1 == (a1 >> 1) ^ (a2 >> 1),
        (if (a1 ^ a2) & 1 == 1 { b as u128 } else { 0 }) ^ ((x1 ^ x2) << 1)
            == ((if a1 & 1 == 1 { b as u128 } else { 0 }) ^ (x1 << 1))
             ^ ((if a2 & 1 == 1 { b as u128 } else { 0 }) ^ (x2 << 1)),
{
}

/// The product distributes over a sum in its first factor.
pub proof fn lemma_mul_linear_left(a1: u64, a2: u64, b: u64)
    ensures
        poly_mul(a1 ^ a2, b) == poly_mul(a1, b) ^ poly_mul(a2, b),
    decreases a1 + a2,
{
    lemma_mul_unfold(a1, b);
    lemma_mul_unfold(a2, b);
    lemma_mul_unfold(a1 ^ a2, b);
    bits_linear_left(a1, a2, b, poly_mul(a1 >> 1, b), poly_mul(a2 >> 1, b));
    if a1 == 0 && a2 == 0 {
        bits_halving(0);
    } else {
        bits_halving(a1);
        bits_halving(a2);
        lemma_mul_linear_left(a1 >> 1, a2 >> 1, b);
    }
}

proof fn bits_linear_right(a: u64, b1: u64, b2: u64, x1: u128, x2: u128)
    by (bit_vector)
    ensures
        (if a & 1 == 1 { (b1 ^ b2) as u128 } else { 0 }) ^ ((x1 ^ x2) << 1)
            == ((if a & 1 == 1 { b1 as u128 } else { 0 }) ^ (x1 << 1))
             ^ ((if a & 1 == 1 { b2 as u128 } else { 0 }) ^ (x2 << 1)),
{
}

/// The product distributes over a sum in its second factor.
pub proof fn lemma_mul_linear_right(a: u64, b1: u64, b2: u64)
    ensures
        poly_mul(a, b1 ^ b2) == poly_mul(a, b1) ^ poly_mul(a, b2),
    decreases a,
{
    lemma_mul_unfold(a, b1);
    lemma_mul_unfold(a, b2);
    lemma_mul_unfold(a, b1 ^ b2);
    bits_linear_right(a, b1, b2, poly_mul(a >> 1, b1), poly_mul(a >> 1, b2));
    bits_halving(a);
    if a != 0 {
        lemma_mul_linear_right(a >> 1, b1, b2);
    } else {
        bits_xor_zero(0);
    }
}

proof fn bits_monomial(s: u64, b: u64)
    by (bit_vector)
    requires
        0 < s < 64,
    ensures
        (1u64 << s) & 1 == 0,
        (1u64 << s) >> 1 == 1u64 << ((s - 1) as u64),
        0u128 ^ (((b as u128) << ((s - 1) as u64)) << 1) == (b as u128) << s,
        1u64 << 0u64 == 1,
        (b as u128) << 0u64 == b as u128,
{
}

/// Multiplying by the monomial `x^s` shifts by `s` places.
pub proof fn lemma_mul_monomial(s: u64, b: u64)
    requires
        s < 64,
    ensures
        poly_mul(1u64 << s, b) == (b as u128) << s,
    decreases s,
{
    if s == 0 {
        bits_monomial(1, b);
        lemma_mul_one(b);
    } else {
        bits_monomial(s, b);
        lemma_mul_unfold(1u64 << s, b);
        lemma_mul_monomial((s - 1) as u64, b);
    }
}

proof fn bits_bound_step(a: u64, b: u64, x: u128, n: u64, m: u64)
    by (bit_vector)
    requires
        1 <= n <= 64,
        m <= 64,
        b >> m == 0,
    ensures
        n == 1 && x == 0 ==> ((if a & 1 == 1 { b as u128 } else { 0 }) ^ (x << 1)) >> ((n + m
            - 1) as u64) == 0,
        n >= 2 && x >> ((n + m - 2) as u64) == 0 ==> ((if a & 1 == 1 { b as u128 } else { 0 }) ^ (x
            << 1)) >> ((n + m - 1) as u64) == 0,
        (a >> 1) >> ((n - 1) as u64) == a >> n,
        n == 1 && a >> n == 0 ==> a >> 1 == 0,
{
}

/// A product of a polynomial of fewer than `n` terms and one of fewer than
/// `m` terms has fewer than `n + m - 1` terms.
pub proof fn lemma_mul_bound(a: u64, b: u64, n: u64, m: u64)
    requires
        1 <= n <= 64,
        m <= 64,
        a >> n == 0,
        b >> m == 0,
    ensures
        poly_mul(a, b) >> ((n + m - 1) as u64) == 0,
    decreases n,
{
    lemma_mul_unfold(a, b);
    let x = poly_mul(a >> 1, b);
    bits_bound_step(a, b, x, n, m);
    if n == 1 {
        assert(poly_mul(0, b) == 0);
    } else {
        lemma_mul_bound(a >> 1, b, (n - 1) as u64, m);
    }
}

/// No product of two words reaches bit 127.
pub proof fn lemma_mul_fits(a: u64, b: u64)
    ensures
        poly_mul(a, b) >> 127 == 0,
{
    bits_halving(a);
    bits_halving(b);
    lemma_mul_bound(a, b, 64, 64);
}

proof fn bits_leading_step(d: u64, b: u64, x: u128, k: u64)
    by (bit_vector)
    requires
        1 <= k <= 64,
        b >> k == 0,
        (b >> ((k - 1) as u64)) & 1 == 1,
        x >> 127 == 0,
    ensures
        (b as u128) >> ((k - 1) as u64) != 0,
        x >> ((k - 1) as u64) != 0 ==> ((if d & 1 == 1 { b as u128 } else { 0 }) ^ (x << 1)) >> ((k
            - 1) as u64) != 0,
        d != 0 && d >> 1 == 0 ==> d == 1,
{
}

/// A product with a nonzero factor reaches at least the leading term of
/// the other factor: the binary polynomials have no zero divisors.
pub proof fn lemma_mul_leading(d: u64, b: u64, k: u64)
    requires
        d != 0,
        1 <= k <= 64,
        b >> k == 0,
        (b >> ((k - 1) as u64)) & 1 == 1,
    ensures
        poly_mul(d, b) >> ((k - 1) as u64) != 0,
    decreases d,
{
    lemma_mul_unfold(d, b);
    bits_halving(d);
    let x = poly_mul(d >> 1, b);
    lemma_mul_fits(d >> 1, b);
    bits_leading_step(d, b, x, k);
    if d >> 1 == 0 {
        lemma_mul_one(b);
    } else {
        lemma_mul_leading(d >> 1, b, k);
    }
}

/// The coefficient of `x^i` in `a`; there is none outside the word.
pub open spec fn coeff(a: u64, i: int) -> bool {
    0 <= i < 64 && (a >> (i as u64)) & 1 == 1
}

/// The parity of the products of the coefficient of `x^i` in `a` and that
/// of `x^(k - i)` in `b`, over the `i` below `n`.
pub open spec fn convolution(a: u64, b: u64, k: int, n: nat) -> bool
    decreases n,
{
    if n == 0 {
        false
    } else {
        convolution(a, b, k, (n - 1) as nat) != (coeff(a, n - 1) && coeff(b, k - (n - 1)))
    }
}

proof fn bits_coefficient(a: u64, b: u64, x: u128, k: u64, n: u64)
    by (bit_vector)
    requires
        k < 128,
        n < 63,
    ensures
        ((a >> 1) >> n) & 1 == (a >> ((n + 1) as u64)) & 1,
        ((a >> 1) >> 63u64) & 1 == 0,
        a >> 0u64 == 0 ==> a == 0,
        (0u128 >> k) & 1 == 0,
        ((a >> 1) >> 0u64) == a >> 1u64,
        a >> 0u64 == a,
        ((((if a & 1 == 1 { b as u128 } else { 0 }) ^ (x << 1)) >> k) & 1 == 1) == ((a & 1 == 1 && k
            < 64 && (b >> k) & 1 == 1) != (k >= 1 && (x >> ((k - 1) as u64)) & 1 == 1)),
{
}

proof fn lemma_convolution_below(a: u64, b: u64, k: int, n: nat)
    requires
        k < 0,
    ensures
        !convolution(a, b, k, n),
    decreases n,
{
    if n > 0 {
        lemma_convolution_below(a, b, k, (n - 1) as nat);
    }
}

proof fn lemma_convolution_shift(a: u64, b: u64, k: int, n: nat)
    requires
        n <= 63,
    ensures
        convolution(a, b, k, n + 1) == ((coeff(a, 0) && coeff(b, k)) != convolution(
            a >> 1,
            b,
            k - 1,
            n,
        )),
    decreases n,
{
    if n == 0 {
        assert(convolution(a, b, k, 1) == (convolution(a, b, k, 0) != (coeff(a, 0) && coeff(b, k))));
    } else {
        lemma_convolution_shift(a, b, k, (n - 1) as nat);
        bits_coefficient(a, b, 0, 0, (n - 1) as u64);
        assert(coeff(a >> 1, n - 1) == coeff(a, n as int));
        assert(convolution(a, b, k, n + 1) == (convolution(a, b, k, n) != (coeff(a, n as int) && coeff(
            b,
            k - n,
        ))));
        assert(convolution(a >> 1, b, k - 1, n) == (convolution(a >> 1, b, k - 1, (n - 1) as nat)
            != (coeff(a >> 1, n - 1) && coeff(b, k - 1 - (n - 1)))));
    }
}

proof fn lemma_mul_convolution(a: u64, b: u64, k: int, n: nat)
    requires
        n <= 64,
        a >> (n as u64) == 0,
        0 <= k < 128,
    ensures
        ((poly_mul(a, b) >> (k as u64)) & 1 == 1) == convolution(a, b, k, n),
    decreases n,
{
    if n == 0 {
        bits_coefficient(a, b, 0, k as u64, 0);
    } else {
        let x = poly_mul(a >> 1, b);
        lemma_mul_unfold(a, b);
        bits_halving(b);
        bits_bound_step(a, b, 0, n as u64, 64);
        bits_coefficient(a, b, x, k as u64, 0);
        lemma_convolution_shift(a, b, k, (n - 1) as nat);
        if k >= 1 {
            lemma_mul_convolution(a >> 1, b, k - 1, (n - 1) as nat);
        } else {
            lemma_convolution_below(a >> 1, b, k - 1, (n - 1) as nat);
        }
    }
}

/// The coefficient of `x^k` in a product is the parity of the products of
/// the coefficients of `x^i` in `a` and of `x^j` in `b` with `i + j = k`.
pub proof fn lemma_mul_coefficient(a: u64, b: u64, k: int)
    requires
        0 <= k < 128,
    ensures
        ((poly_mul(a, b) >> (k as u64)) & 1 == 1) == convolution(a, b, k, 64),
{
    bits_halving(a);
    lemma_mul_convolution(a, b, k, 64);
}

} // verus!
