//! Division with remainder of binary polynomials.

use vstd::prelude::*;
use vstd::std_specs::bits::{axiom_u64_leading_zeros, u64_leading_zeros};
use crate::gf2::{lemma_mul_leading, lemma_mul_linear_left, lemma_mul_monomial, poly_mul};

verus! {

/// The degree of a polynomial: the place of its leading term, and -1 for
/// the zero polynomial.
pub open spec fn degree(a: u64) -> int {
    63 - u64_leading_zeros(a)
}

/// `q` and `r` are quotient and remainder of `a` by `b`: `a = q * b + r`
/// with `r` of lower degree than `b`.
pub open spec fn is_divmod(a: u64, b: u64, q: u64, r: u64) -> bool {
    &&& b != 0
    &&& poly_mul(q, b) ^ (r as u128) == a as u128
    &&& degree(r) < degree(b)
}

/// Quotient and remainder of `a` by a nonzero `b`.
pub open spec fn poly_divmod(a: u64, b: u64) -> (u64, u64) {
    choose|qr: (u64, u64)| is_divmod(a, b, qr.0, qr.1)
}

/// The quotient of `a` by a nonzero `b`.
pub open spec fn poly_div(a: u64, b: u64) -> u64 {
    poly_divmod(a, b).0
}

/// The remainder of `a` by a nonzero `b`.
pub open spec fn poly_mod(a: u64, b: u64) -> u64 {
    poly_divmod(a, b).1
}

proof fn bits_cancel(r: u64, b: u64, u: u64, v: u64)
    by (bit_vector)
    requires
        v <= u < 64,
        (r >> u) & 1 != 0,
        r >> ((u + 1) as u64) == 0,
        (b >> v) & 1 != 0,
        b >> ((v + 1) as u64) == 0,
    ensures
        r ^ (b << ((u - v) as u64)) < r,
        (b as u128) << ((u - v) as u64) == (b << ((u - v) as u64)) as u128,
{
}

#[verifier::rlimit(100)]
proof fn bits_regroup(x: u128, y: u128, r: u64, t: u64)
    by (bit_vector)
    ensures
        (x ^ y) ^ ((r ^ t) as u128) == (x ^ (r as u128)) ^ (y ^ (t as u128)),
        y ^ y == 0,
        x ^ 0 == x,
        0 ^ x == x,
{
}

/// One step of long division: cancelling the leading term of the
/// remainder keeps `a = q * b + r` and lowers `r`.
proof fn lemma_divmod_step(a: u64, b: u64, q: u64, r: u64)
    requires
        b != 0,
        u64_leading_zeros(r) <= u64_leading_zeros(b),
        poly_mul(q, b) ^ (r as u128) == a as u128,
    ensures
        u64_leading_zeros(b) - u64_leading_zeros(r) < 64,
        ({
            let s = (u64_leading_zeros(b) - u64_leading_zeros(r)) as u32;
            &&& poly_mul(q ^ (1u64 << s), b) ^ ((r ^ (b << s)) as u128) == a as u128
            &&& r ^ (b << s) < r
        }),
{
    axiom_u64_leading_zeros(r);
    axiom_u64_leading_zeros(b);
    let u = (63 - u64_leading_zeros(r)) as u64;
    let v = (63 - u64_leading_zeros(b)) as u64;
    let s = (u64_leading_zeros(b) - u64_leading_zeros(r)) as u32;
    assert(s == u - v);
    assert((64 - u64_leading_zeros(r)) as u64 == u + 1);
    assert((64 - u64_leading_zeros(b)) as u64 == v + 1);
    let x = poly_mul(q, b);
    bits_cancel(r, b, u, v);
    lemma_mul_linear_left(q, 1u64 << s, b);
    lemma_mul_monomial(s as u64, b);
    let t = b << s;
    assert(b << s == b << ((u - v) as u64));
    assert(1u64 << s == 1u64 << (s as u64));
    assert((b as u128) << (s as u64) == t as u128);
    bits_regroup(x, t as u128, r, t);
    bits_regroup(a as u128, 0, 0, 0);
}

/// Divides `a` by `b`, cancelling the leading term of the remainder until
/// its degree is below that of `b`.
///
/// There is no result when `b` is the zero polynomial.
pub fn pdivmod64(a: u64, b: u64) -> (res: Option<(u64, u64)>)
    ensures
        b == 0 <==> res is None,
        res matches Some(qr) ==> is_divmod(a, b, qr.0, qr.1) && qr == poly_divmod(a, b),
{
    if b == 0 {
        return None;
    }
    let mut q: u64 = 0;
    let mut r: u64 = a;
    proof {
        assert(poly_mul(0, b) == 0);
        bits_regroup(a as u128, 0, 0, 0);
    }
    while r.leading_zeros() <= b.leading_zeros()
        invariant
            b != 0,
            poly_mul(q, b) ^ (r as u128) == a as u128,
        decreases r,
    {
        proof {
            lemma_divmod_step(a, b, q, r);
        }
        q ^= 1 << (b.leading_zeros() - r.leading_zeros());
        r ^= b << (b.leading_zeros() - r.leading_zeros());
    }
    proof {
        let qr = (q, r);
        assert(is_divmod(a, b, qr.0, qr.1));
        lemma_divmod_unique(a, b, q, r, poly_divmod(a, b).0, poly_divmod(a, b).1);
    }
    Some((q, r))
}

proof fn bits_low_degree(r1: u64, r2: u64, j1: u64, j2: u64, m: u64)
    by (bit_vector)
    requires
        m < 64,
    ensures
        r1 >> j1 == 0 && r2 >> j2 == 0 && j1 <= m && j2 <= m ==> ((r1 ^ r2) as u128) >> m == 0,
        (r1 as u128) ^ (r2 as u128) == (r1 ^ r2) as u128,
        (r1 >> m) & 1 != 0 ==> (r1 >> m) & 1 == 1,
        r1 ^ r2 == 0 ==> r1 == r2,
{
}

proof fn bits_same_sum(x1: u128, x2: u128, r1: u128, r2: u128)
    by (bit_vector)
    requires
        x1 ^ r1 == x2 ^ r2,
    ensures
        x1 ^ x2 == r1 ^ r2,
        x1 == x2 ==> r1 == r2,
{
}

/// Quotient and remainder are unique.
pub proof fn lemma_divmod_unique(a: u64, b: u64, q1: u64, r1: u64, q2: u64, r2: u64)
    requires
        is_divmod(a, b, q1, r1),
        is_divmod(a, b, q2, r2),
    ensures
        q1 == q2,
        r1 == r2,
{
    axiom_u64_leading_zeros(b);
    axiom_u64_leading_zeros(r1);
    axiom_u64_leading_zeros(r2);
    let k = (64 - u64_leading_zeros(b)) as u64;
    let j1 = (64 - u64_leading_zeros(r1)) as u64;
    let j2 = (64 - u64_leading_zeros(r2)) as u64;
    let m = (k - 1) as u64;
    assert(m == (63 - u64_leading_zeros(b)) as u64);
    let d = q1 ^ q2;
    lemma_mul_linear_left(q1, q2, b);
    bits_same_sum(poly_mul(q1, b), poly_mul(q2, b), r1 as u128, r2 as u128);
    bits_low_degree(r1, r2, j1, j2, m);
    bits_low_degree(q1, q2, 0, 0, m);
    bits_low_degree(b, 0, 0, 0, m);
    if d != 0 {
        lemma_mul_leading(d, b, k);
    }
}

/// Every polynomial has a quotient and a remainder by a nonzero one.
proof fn lemma_divmod_from(a: u64, b: u64, q: u64, r: u64) -> (qr: (u64, u64))
    requires
        b != 0,
        poly_mul(q, b) ^ (r as u128) == a as u128,
    ensures
        is_divmod(a, b, qr.0, qr.1),
    decreases r,
{
    if u64_leading_zeros(r) <= u64_leading_zeros(b) {
        lemma_divmod_step(a, b, q, r);
        let s = (u64_leading_zeros(b) - u64_leading_zeros(r)) as u32;
        lemma_divmod_from(a, b, q ^ (1u64 << s), r ^ (b << s))
    } else {
        (q, r)
    }
}

/// The division identity: for a nonzero `b`, `a` is the quotient times
/// `b` plus the remainder, and the remainder has lower degree than `b`.
pub proof fn lemma_division_identity(a: u64, b: u64)
    requires
        b != 0,
    ensures
        is_divmod(a, b, poly_div(a, b), poly_mod(a, b)),
        poly_mul(poly_div(a, b), b) ^ (poly_mod(a, b) as u128) == a as u128,
        degree(poly_mod(a, b)) < degree(b),
{
    assert(poly_mul(0, b) == 0);
    bits_regroup(a as u128, 0, 0, 0);
    let qr = lemma_divmod_from(a, b, 0, a);
    assert(is_divmod(a, b, qr.0, qr.1));
    lemma_divmod_unique(a, b, qr.0, qr.1, poly_divmod(a, b).0, poly_divmod(a, b).1);
}

/// The quotient of `a` by a nonzero `b`.
pub fn pdiv64(a: u64, b: u64) -> (q: u64)
    requires
        b != 0,
    ensures
        q == poly_div(a, b),
{
    pdivmod64(a, b).unwrap().0
}

/// The remainder of `a` by a nonzero `b`.
pub fn pmod64(a: u64, b: u64) -> (r: u64)
    requires
        b != 0,
    ensures
        r == poly_mod(a, b),
{
    pdivmod64(a, b).unwrap().1
}

} // verus!
