//! Barrett reduction: two carry-less multiplications move the register
//! of a reflected CRC by 32 bits at once.

use vstd::prelude::*;
use vstd::std_specs::bits::{axiom_u64_leading_zeros, u64_leading_zeros};
use crate::gf2::{
    lemma_mul_linear_left,
    lemma_mul_monomial,
    lemma_mul_one,
    lemma_mul_unfold,
    poly_mul,
    scale,
};
use crate::pdiv::{
    is_divmod,
    lemma_division_identity,
    lemma_divmod_unique,
    poly_div,
    poly_mod,
};
use crate::pmul::{lemma_mul32_fits, mul32};
use crate::reflect::reverse32;
use crate::serial::{
    crc_quotient,
    crc_shift,
    crc_shifts,
    lemma_quotient_linear,
    lemma_quotient_prefix,
    low_mask,
};

verus! {

/// The register folded by 32 bits with the reflected reciprocal `b_r` and
/// the reflected generator `p_r`.
///
/// The first product estimates the quotient of the register by the
/// generator, the second takes that multiple of the generator away.
pub open spec fn fold32(c: u32, b_r: u32, p_r: u32) -> u32 {
    let lo = mul32(c, b_r) as u32;
    let m = mul32((lo << 1) ^ c, p_r);
    (((m >> 32) as u32) << 1) | ((m as u32) >> 31)
}

proof fn bits_quotient_unfold(c: u32, q1: u32, s: u64, y: u128)
    by (bit_vector)
    ensures
        ((((c & 1) ^ (q1 << 1)) as u64) & 1 == 1) == (c & 1 == 1),
        q1 >> 31 == 0 ==> (((c & 1) ^ (q1 << 1)) as u64) >> 1 == q1 as u64,
        c & (((1u64 << 0u32) - 1) as u32) == 0,
        y >> 63 == 0 ==> ((s as u128) ^ (y << 1)) as u64 == s ^ ((y as u64) << 1),
        y >> 63 == 0 ==> (y as u64) >> 63 == 0,
        (c as u64) & 1 == 1 <==> c & 1 == 1,
        (c as u64) >> 1 == (c >> 1) as u64,
{
}

#[verifier::rlimit(100)]
proof fn bits_shifts_step(c: u32, p_r: u32, m1: u64, n: u32)
    by (bit_vector)
    requires
        2 <= n <= 32,
        m1 >> 63 == 0,
    ensures
        ((((c >> 1) ^ (if c & 1 == 1 { p_r } else { 0 })) as u64) >> ((n - 1) as u32)) ^ (m1 >> ((n
            - 2) as u32)) == ((c as u64) >> n) ^ ((((if c & 1 == 1 { p_r } else { 0 }) as u64) ^ (m1
            << 1)) >> ((n - 1) as u32)),
{
}

proof fn bits_shifts_ends(c: u32, p_r: u32, s: u32, m: u64)
    by (bit_vector)
    ensures
        (((c >> 1) ^ (if c & 1 == 1 { p_r } else { 0 })) as u64) == ((c as u64) >> 1u32) ^ (((if c
            & 1 == 1 { p_r } else { 0 }) as u64) >> 0u32),
        (c & 1) ^ (0u32 << 1) == c & 1,
        c & 1 == 0 || c & 1 == 1,
        m >> 63 == 0 && s as u64 == ((c as u64) >> 32u32) ^ (m >> 31u32) ==> s == (((m >> 32) as u32)
            << 1) | ((m as u32) >> 31),
        s ^ c == c ^ s,
{
}

/// After `n` steps the register holds what is left of its content, plus
/// the product of the quotient and the generator from place `n - 1` on.
proof fn lemma_shifts_by_quotient(c: u32, p_r: u32, n: nat)
    requires
        1 <= n <= 32,
    ensures
        crc_shifts(c, p_r, n) as u64 == ((c as u64) >> n) ^ (mul32(crc_quotient(c, p_r, n), p_r) >> (
        (n - 1) as nat)),
    decreases n,
{
    let c1 = crc_shift(c, p_r);
    let t = if c & 1 == 1 { p_r } else { 0 };
    if n == 1 {
        assert(crc_shifts(c, p_r, 1) == crc_shifts(c1, p_r, 0));
        assert(crc_quotient(c, p_r, 1) == (c & 1) ^ (crc_quotient(c1, p_r, 0) << 1));
        bits_shifts_ends(c, p_r, 0, 0);
        lemma_mul_one(p_r as u64);
        assert(poly_mul(0, p_r as u64) == 0);
        lemma_mul32_fits(crc_quotient(c, p_r, 1), p_r);
        assert(mul32(crc_quotient(c, p_r, 1), p_r) == t as u64);
    } else {
        let n1 = (n - 1) as nat;
        let q1 = crc_quotient(c1, p_r, n1);
        let q = crc_quotient(c, p_r, n);
        lemma_shifts_by_quotient(c1, p_r, n1);
        lemma_quotient_prefix(c1, p_r, n1, n1);
        let k = n1 as u32;
        assert(q1 >> 31 == 0) by (bit_vector)
            requires
                q1 >> k == 0,
                k <= 31,
        ;
        lemma_mul32_fits(q1, p_r);
        lemma_mul32_fits(q, p_r);
        let y = poly_mul(q1 as u64, p_r as u64);
        bits_quotient_unfold(c, q1, t as u64, y);
        lemma_mul_unfold(q as u64, p_r as u64);
        assert(mul32(q, p_r) == (t as u64) ^ (mul32(q1, p_r) << 1));
        bits_shifts_step(c, p_r, mul32(q1, p_r), n as u32);
    }
}

proof fn bits_reciprocal_step(c: u32, bq: u32, y: u32, n: u32, s: u64, z: u128)
    by (bit_vector)
    requires
        1 <= n <= 32,
    ensures
        (c & 1) ^ (((((c >> 1) ^ (y << 1)) & (((1u64 << ((n - 1) as u32)) - 1) as u32)) ^ (if c & 1
            == 1 { bq & (((1u64 << ((n - 1) as u32)) - 1) as u32) } else { 0 })) << 1) == (c ^ (((if c
            & 1 == 1 { bq } else { 0 }) ^ (y << 1)) << 1)) & (((1u64 << n) - 1) as u32),
        (((s as u128) ^ (z << 1)) as u64) as u32 == (s as u32) ^ (((z as u64) as u32) << 1),
        (0u64 as u32) == 0,
        ((bq as u64) as u32) == bq,
{
}

/// The quotient of `c * x^32` by the generator is `c` plus the upper
/// half of the product of `c` and the reciprocal.
proof fn lemma_quotient_by_reciprocal(c: u32, p_r: u32, n: nat)
    requires
        n <= 32,
    ensures
        crc_quotient(c, p_r, n) == (c ^ ((mul32(c, crc_quotient(p_r, p_r, 32)) as u32) << 1))
            & low_mask(n),
    decreases n,
{
    let bq = crc_quotient(p_r, p_r, 32);
    if n == 0 {
        bits_quotient_unfold(c ^ ((mul32(c, bq) as u32) << 1), 0, 0, 0);
    } else {
        let n1 = (n - 1) as nat;
        let c1 = crc_shift(c, p_r);
        let t = if c & 1 == 1 { p_r } else { 0 };
        let half = c >> 1;
        lemma_quotient_linear(half, t, p_r, n1);
        lemma_quotient_prefix(p_r, p_r, n1, 32);
        lemma_quotient_by_reciprocal(half, p_r, n1);
        let y = mul32(half, bq) as u32;
        lemma_mul_unfold(c as u64, bq as u64);
        bits_quotient_unfold(c, 0, 0, 0);
        bits_reciprocal_step(
            c,
            bq,
            y,
            n as u32,
            scale(c & 1 == 1, bq as u64) as u64,
            poly_mul(half as u64, bq as u64),
        );
    }
}

/// Folding with the reflected reciprocal moves the register by 32 bits.
pub proof fn lemma_fold_by_quotient(c: u32, p_r: u32)
    ensures
        fold32(c, crc_quotient(p_r, p_r, 32), p_r) == crc_shifts(c, p_r, 32),
{
    let bq = crc_quotient(p_r, p_r, 32);
    let lo = mul32(c, bq) as u32;
    let q = crc_quotient(c, p_r, 32);
    lemma_quotient_by_reciprocal(c, p_r, 32);
    assert(q == c ^ (lo << 1)) by {
        let w = c ^ (lo << 1);
        assert(w & (((1u64 << 32u32) - 1) as u32) == w) by (bit_vector);
    }
    lemma_shifts_by_quotient(c, p_r, 32);
    lemma_mul32_fits(q, p_r);
    let m = mul32(q, p_r);
    assert(m >> 63 == 0) by (bit_vector)
        requires
            (m as u128) >> 63 == 0,
    ;
    bits_shifts_ends(c, p_r, crc_shifts(c, p_r, 32), m);
    bits_shifts_ends(lo << 1, p_r, c, m);
}

proof fn bits_mirror_quotient(c: u32, q1: u32, n1: u32)
    by (bit_vector)
    requires
        n1 <= 31,
        q1 >> n1 == 0,
    ensures
        (reverse32((c & 1) ^ (q1 << 1)) >> ((31 - n1) as u32)) as u64 == (((c & 1) as u64) << n1) ^ (
        (reverse32(q1) >> ((32 - n1) as u32)) as u64),
        c & 1 == 1 ==> ((c & 1) as u64) << n1 == 1u64 << (n1 as u64),
        c & 1 != 1 ==> ((c & 1) as u64) << n1 == 0,
{
}

proof fn bits_mirror_shift(c: u32, pp: u32)
    by (bit_vector)
    ensures
        (if c & 1 == 1 { (1u64 << 32) | (pp as u64) } else { 0 }) ^ (reverse32((c >> 1) ^ (if c & 1
            == 1 { reverse32(pp) } else { 0 })) as u64) == (reverse32(c) as u64) << 1,
{
}

#[verifier::rlimit(100)]
proof fn bits_raise(e: u64, r1: u32, r: u32, n1: u32, x1: u128, s: u128)
    by (bit_vector)
    requires
        n1 <= 31,
        e ^ (r1 as u64) == (r as u64) << 1,
        x1 ^ s == (r1 as u128) << n1,
    ensures
        (((e as u128) << (n1 as u64)) ^ x1) ^ s == (r as u128) << ((n1 + 1) as u32),
{
}

proof fn bits_mirror_ends(c: u32, p: u64, k: u64)
    by (bit_vector)
    ensures
        0u128 ^ (reverse32(c) as u128) == (reverse32(c) as u128) << 0u32,
        reverse32(0) >> 32u32 == 0,
        reverse32(c) >> 0u32 == reverse32(c),
        0u128 << (k as u64) == 0,
        (reverse32(c) as u128) << 32u32 == (((reverse32(c) as u64) << 32) as u128),
        reverse32(reverse32(c)) == c,
        p >> 32 == 1 ==> p == (1u64 << 32) | ((p as u32) as u64),
        p >> 32 == 1 ==> p << 32 == ((p as u32) as u64) << 32,
        p >> 32 == 1 && 33 <= k < 64 ==> (p >> k) & 1 == 0,
        p >> 32 == 1 && k <= 32 ==> p >> k != 0,
        32 <= k < 64 ==> ((c as u64) >> k) & 1 == 0,
        ((c as u64) as u32) == c,
{
}

/// With the quotient and the register read in reverse, `n` steps divide
/// `c * x^n` by the generator `p`, whose lower terms are `pp`.
proof fn lemma_shifts_divide(c: u32, pp: u32, n: nat)
    requires
        n <= 32,
    ensures
        ({
            let p_r = reverse32(pp);
            let p = (1u64 << 32) | (pp as u64);
            poly_mul((reverse32(crc_quotient(c, p_r, n)) >> ((32 - n) as nat)) as u64, p) ^ (reverse32(
                crc_shifts(c, p_r, n),
            ) as u128) == (reverse32(c) as u128) << n
        }),
    decreases n,
{
    let p_r = reverse32(pp);
    let p = (1u64 << 32) | (pp as u64);
    if n == 0 {
        bits_mirror_ends(c, p, 0);
        assert(poly_mul(0, p) == 0);
    } else {
        let n1 = (n - 1) as nat;
        let c1 = crc_shift(c, p_r);
        let q1 = crc_quotient(c1, p_r, n1);
        let a1 = (reverse32(q1) >> ((32 - n1) as nat)) as u64;
        let bit = ((c & 1) as u64) << n1;
        lemma_shifts_divide(c1, pp, n1);
        lemma_quotient_prefix(c1, p_r, n1, n1);
        bits_mirror_quotient(c, q1, n1 as u32);
        lemma_mul_linear_left(bit, a1, p);
        let e = if c & 1 == 1 { p } else { 0 };
        if c & 1 == 1 {
            lemma_mul_monomial(n1 as u64, p);
        } else {
            assert(poly_mul(0, p) == 0);
            bits_mirror_ends(c, p, n1 as u64);
        }
        assert(poly_mul(bit, p) == (e as u128) << (n1 as u64));
        bits_mirror_shift(c, pp);
        bits_raise(
            e,
            reverse32(c1),
            reverse32(c),
            n1 as u32,
            poly_mul(a1, p),
            reverse32(crc_shifts(c1, p_r, n1)) as u128,
        );
    }
}

/// The reflected reciprocal of a generator of degree 32 is the quotient
/// that leaves the register when it starts out as the reflected generator.
pub proof fn lemma_reciprocal(p: u64)
    requires
        p >> 32 == 1,
    ensures
        poly_div(p << 32, p) == reverse32(
            crc_quotient(reverse32(p as u32), reverse32(p as u32), 32),
        ),
        reverse32(poly_div(p << 32, p) as u32) == crc_quotient(
            reverse32(p as u32),
            reverse32(p as u32),
            32,
        ),
{
    let pp = p as u32;
    let p_r = reverse32(pp);
    let q = reverse32(crc_quotient(p_r, p_r, 32));
    let r = reverse32(crc_shifts(p_r, p_r, 32));
    lemma_shifts_divide(p_r, pp, 32);
    bits_mirror_ends(pp, p, 0);
    bits_mirror_ends(crc_quotient(p_r, p_r, 32), p, 0);
    bits_mirror_ends(p_r, p, 0);
    axiom_u64_leading_zeros(p);
    axiom_u64_leading_zeros(r as u64);
    let lp = u64_leading_zeros(p);
    let lr = u64_leading_zeros(r as u64);
    assert(lp == 31) by {
        if lp < 31 {
            bits_mirror_ends(0, p, (63 - lp) as u64);
        }
        if lp > 31 {
            bits_mirror_ends(0, p, (64 - lp) as u64);
        }
    }
    assert(lr >= 32) by {
        if lr < 32 {
            bits_mirror_ends(r, p, (63 - lr) as u64);
        }
    }
    assert(is_divmod(p << 32, p, q as u64, r as u64));
    lemma_division_identity(p << 32, p);
    lemma_divmod_unique(p << 32, p, q as u64, r as u64, poly_div(p << 32, p), poly_mod(p << 32, p));
}

proof fn bits_whole(p: u64, b: u64, x: u128, r: u64, q: u32, k: u64)
    by (bit_vector)
    ensures
        (q as u64) >> 32 == 0,
        r >> k == 0 && k <= 32 ==> r >> 32 == 0,
        p >> 32 == 1 && b >> 32 == 0 && x ^ (r as u128) == (p << 32) as u128 ==> (((p as u128)
            << 32u64) ^ x) ^ (r as u128) == 1u128 << 64,
        b >> 32 == 0 ==> (1u64 << 32) | b == (1u64 << 32u64) ^ b,
{
}

/// The reciprocal of a generator `p` of degree 32 stands for the quotient
/// of `x^64` by `p`: with the leading term `x^32` put before it, its
/// product with `p` is `x^64` up to a remainder of degree below 32.
pub proof fn lemma_reciprocal_is_quotient(p: u64)
    requires
        p >> 32 == 1,
    ensures
        poly_div(p << 32, p) >> 32 == 0,
        poly_mod(p << 32, p) >> 32 == 0,
        poly_mul((1u64 << 32) | poly_div(p << 32, p), p) ^ (poly_mod(p << 32, p) as u128) == 1u128
            << 64,
{
    let b = poly_div(p << 32, p);
    let r = poly_mod(p << 32, p);
    let q = reverse32(crc_quotient(reverse32(p as u32), reverse32(p as u32), 32));
    lemma_reciprocal(p);
    axiom_u64_leading_zeros(p);
    axiom_u64_leading_zeros(r);
    let lp = u64_leading_zeros(p);
    let lr = u64_leading_zeros(r);
    assert(lp == 31) by {
        if lp < 31 {
            bits_mirror_ends(0, p, (63 - lp) as u64);
        }
        if lp > 31 {
            bits_mirror_ends(0, p, (64 - lp) as u64);
        }
    }
    lemma_division_identity(p << 32, p);
    bits_whole(p, b, poly_mul(b, p), r, q, (64 - lr) as u64);
    lemma_mul_linear_left(1u64 << 32u64, b, p);
    lemma_mul_monomial(32, p);
}

} // verus!
