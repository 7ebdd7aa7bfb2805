//! Carry-less multiplication of machine words.

use vstd::prelude::*;
use crate::gf2::{lemma_mul_bound, lemma_mul_fits, lemma_mul_unfold, poly_mul, scale};

verus! {

/// The double-width word whose halves are `lo` and `hi`.
pub open spec fn concat64(lo: u64, hi: u64) -> u128 {
    ((hi as u128) << 64) | (lo as u128)
}

/// The 64-bit word whose halves are `lo` and `hi`.
pub open spec fn concat32(lo: u32, hi: u32) -> u64 {
    ((hi as u64) << 32) | (lo as u64)
}

/// The product of two polynomials of degree below 32, which has degree
/// below 63.
pub open spec fn mul32(a: u32, b: u32) -> u64 {
    poly_mul(a as u64, b as u64) as u64
}

/// The part of the product of `a` and `b` that comes from the lowest `i`
/// terms of `a`: the whole product without the part of the other terms.
spec fn partial(a: u64, b: u64, i: u32) -> u128 {
    poly_mul(a, b) ^ (poly_mul(a >> i, b) << i)
}

proof fn bits_accumulate(a: u64, b: u64, i: u32, acc: u128)
    by (bit_vector)
    requires
        i < 64,
    ensures
        (acc ^ ((b as u128) << i)) as u64 == (acc as u64) ^ (b << i),
        ((acc ^ ((b as u128) << i)) >> 63) as u64 == ((acc >> 63) as u64) ^ (b >> ((63 - i) as u32)),
        (a >> i) >> 1 == a >> ((i + 1) as u32),
        acc ^ (0u128 << i) == acc,
{
}

#[verifier::rlimit(100)]
proof fn bits_next_term(i: u32, full: u128, s: u128, y: u128)
    by (bit_vector)
    requires
        i < 64,
    ensures
        full ^ (y << ((i + 1) as u32)) == (full ^ ((s ^ (y << 1)) << i)) ^ (s << i),
{
}

proof fn bits_accumulate_ends(a: u64, x: u64, full: u128)
    by (bit_vector)
    ensures
        full ^ (full << 0u32) == 0,
        a >> 0u32 == a,
        a >> 64u32 == 0,
        full ^ (0u128 << 64u32) == full,
        0u128 as u64 == 0,
        (0u128 >> 63) as u64 == 0,
        0xffff_ffff_ffff_ffffu64 & x == x,
        0u64 & x == 0,
        x ^ 0 == x,
        full >> 127 == 0 ==> ((((((full >> 63) as u64) >> 1) as u128) << 64) | ((full as u64) as u128))
            == full,
        full >> 127 == 0 ==> ((full >> 63) as u64) >> 1 == (full >> 64) as u64,
{
}

/// Multiplies two polynomials of degree below 64, one term of `a` at a
/// time.
///
/// Returns the low and the high half of the double-width product.
pub fn pmul64(a: u64, b: u64) -> (r: (u64, u64))
    ensures
        concat64(r.0, r.1) == poly_mul(a, b),
        r.0 == poly_mul(a, b) as u64,
        r.1 == (poly_mul(a, b) >> 64) as u64,
{
    let mut lo: u64 = 0;
    let mut hi: u64 = 0;
    let mut i: u32 = 0;
    proof {
        bits_accumulate_ends(a, 0, poly_mul(a, b));
    }
    while i < 64
        invariant
            i <= 64,
            lo == partial(a, b, i) as u64,
            hi == (partial(a, b, i) >> 63) as u64,
        decreases 64 - i,
    {
        let mask: u64 = (((a as i64) << (64 - 1 - i)) >> (64 - 1)) as u64;
        proof {
            assert(mask == (if (a >> i) & 1 == 1 {
                0xffff_ffff_ffff_ffffu64
            } else {
                0u64
            })) by (bit_vector)
                requires
                    i < 64,
                    mask == (((a as i64) << ((63 - i) as u32)) >> 63u32) as u64,
            ;
            lemma_mul_unfold(a >> i, b);
            bits_accumulate(a, b, i, partial(a, b, i));
            bits_next_term(
                i,
                poly_mul(a, b),
                scale((a >> i) & 1 == 1, b),
                poly_mul((a >> i) >> 1, b),
            );
            bits_accumulate_ends(a, b << i, 0);
            bits_accumulate_ends(a, b >> ((63 - i) as u32), 0);
            bits_accumulate_ends(a, lo, 0);
            bits_accumulate_ends(a, hi, 0);
        }
        lo ^= mask & (b << i);
        // hi is kept one place low, so that no shift spans the whole word
        hi ^= mask & (b >> (64 - 1 - i));
        i += 1;
    }
    proof {
        assert(poly_mul(0, b) == 0);
        bits_accumulate_ends(a, 0, poly_mul(a, b));
        lemma_mul_fits(a, b);
    }
    (lo, hi >> 1)
}

proof fn bits_halves(a: u32, lo: u64, hi: u64, full: u128)
    by (bit_vector)
    ensures
        (a as u64) >> 32 == 0,
        full >> 63 == 0 && (((hi as u128) << 64) | (lo as u128)) == full ==> (((((lo >> 32) as u32) as u64)
            << 32) | ((lo as u32) as u64)) as u128 == full,
        full >> 63 == 0 && (((hi as u128) << 64) | (lo as u128)) == full ==> lo == full as u64,
        full >> 63 == 0 ==> full as u64 == full,
{
}

/// No product of two polynomials of degree below 32 reaches bit 63.
pub proof fn lemma_mul32_fits(a: u32, b: u32)
    ensures
        poly_mul(a as u64, b as u64) >> 63 == 0,
        mul32(a, b) == poly_mul(a as u64, b as u64),
{
    bits_halves(a, 0, 0, 0);
    bits_halves(b, 0, 0, 0);
    lemma_mul_bound(a as u64, b as u64, 32, 32);
    bits_halves(a, 0, 0, poly_mul(a as u64, b as u64));
}

/// Multiplies two polynomials of degree below 32.
///
/// Returns the low and the high half of the 64-bit product.
pub fn pmul32(a: u32, b: u32) -> (r: (u32, u32))
    ensures
        concat32(r.0, r.1) == poly_mul(a as u64, b as u64),
        r.0 == mul32(a, b) as u32,
        r.1 == (mul32(a, b) >> 32) as u32,
{
    let (lo, hi) = pmul64(a as u64, b as u64);
    proof {
        lemma_mul32_fits(a, b);
        bits_halves(a, lo, hi, poly_mul(a as u64, b as u64));
    }
    (lo as u32, (lo >> 32) as u32)
}

} // verus!
