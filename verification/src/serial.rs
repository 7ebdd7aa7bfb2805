//! The bit-serial definition of a reflected CRC: the register moves one
//! place to the right for each bit of input, and the reflected generator
//! is added whenever a set bit leaves it.

use vstd::prelude::*;

verus! {

/// The register after one bit: `c * x mod p` on reflected words.
pub open spec fn crc_shift(c: u32, p_r: u32) -> u32 {
    (c >> 1) ^ (if c & 1 == 1 { p_r } else { 0 })
}

/// The register after `n` bits.
pub open spec fn crc_shifts(c: u32, p_r: u32, n: nat) -> u32
    decreases n,
{
    if n == 0 {
        c
    } else {
        crc_shifts(crc_shift(c, p_r), p_r, (n - 1) as nat)
    }
}

/// The register after one byte of input.
pub open spec fn crc_byte(c: u32, byte: u8, p_r: u32) -> u32 {
    crc_shifts(c ^ (byte as u32), p_r, 8)
}

/// The register after the bytes of `data`, in order.
pub open spec fn crc_bytes(c: u32, data: Seq<u8>, p_r: u32) -> u32
    decreases data.len(),
{
    if data.len() == 0 {
        c
    } else {
        crc_byte(crc_bytes(c, data.drop_last(), p_r), data.last(), p_r)
    }
}

/// The checksum of `data` that continues `crc`: the register is inverted
/// on the way in and on the way out.
pub open spec fn crc_reflected(p_r: u32, crc: u32, data: Seq<u8>) -> u32 {
    crc_bytes(crc ^ 0xffff_ffff, data, p_r) ^ 0xffff_ffff
}

/// The bits that leave the register in `n` steps, the first of them
/// lowest: the reflected quotient of `c * x^n` by the generator.
pub open spec fn crc_quotient(c: u32, p_r: u32, n: nat) -> u32
    decreases n,
{
    if n == 0 {
        0
    } else {
        (c & 1) ^ (crc_quotient(crc_shift(c, p_r), p_r, (n - 1) as nat) << 1)
    }
}

/// The word of the lowest `n` bits set, for `n` up to 32.
pub open spec fn low_mask(n: nat) -> u32 {
    ((1u64 << n) - 1) as u32
}

proof fn bits_shift_linear(a: u32, b: u32, p_r: u32, x: u32, y: u32)
    by (bit_vector)
    ensures
        ((a ^ b) >> 1) ^ (if (a ^ b) & 1 == 1 { p_r } else { 0 })
            == ((a >> 1) ^ (if a & 1 == 1 { p_r } else { 0 }))
             ^ ((b >> 1) ^ (if b & 1 == 1 { p_r } else { 0 })),
        ((a ^ b) & 1) ^ ((x ^ y) << 1) == ((a & 1) ^ (x << 1)) ^ ((b & 1) ^ (y << 1)),
        (0u32 >> 1) ^ (if 0u32 & 1 == 1 { p_r } else { 0 }) == 0,
        (0u32 & 1) ^ (0u32 << 1) == 0,
        0u32 ^ 0u32 == 0,
{
}

/// Steps of the register in a row add up.
pub proof fn lemma_shifts_add(c: u32, p_r: u32, m: nat, n: nat)
    ensures
        crc_shifts(c, p_r, m + n) == crc_shifts(crc_shifts(c, p_r, m), p_r, n),
    decreases m,
{
    if m > 0 {
        lemma_shifts_add(crc_shift(c, p_r), p_r, (m - 1) as nat, n);
    }
}

/// The register is linear in its content.
pub proof fn lemma_shifts_linear(a: u32, b: u32, p_r: u32, n: nat)
    ensures
        crc_shifts(a ^ b, p_r, n) == crc_shifts(a, p_r, n) ^ crc_shifts(b, p_r, n),
        crc_shifts(0, p_r, n) == 0,
    decreases n,
{
    bits_shift_linear(a, b, p_r, 0, 0);
    if n > 0 {
        lemma_shifts_linear(crc_shift(a, p_r), crc_shift(b, p_r), p_r, (n - 1) as nat);
    }
}

/// The quotient is linear in the content of the register.
pub proof fn lemma_quotient_linear(a: u32, b: u32, p_r: u32, n: nat)
    ensures
        crc_quotient(a ^ b, p_r, n) == crc_quotient(a, p_r, n) ^ crc_quotient(b, p_r, n),
        crc_quotient(0, p_r, n) == 0,
    decreases n,
{
    if n > 0 {
        let a1 = crc_shift(a, p_r);
        let b1 = crc_shift(b, p_r);
        lemma_quotient_linear(a1, b1, p_r, (n - 1) as nat);
        bits_shift_linear(
            a,
            b,
            p_r,
            crc_quotient(a1, p_r, (n - 1) as nat),
            crc_quotient(b1, p_r, (n - 1) as nat),
        );
    } else {
        bits_shift_linear(a, b, p_r, 0, 0);
    }
}

proof fn bits_prefix(c: u32, y: u32, n: u32)
    by (bit_vector)
    requires
        n < 32,
    ensures
        (c & 1) ^ ((y & (((1u64 << n) - 1) as u32)) << 1) == ((c & 1) ^ (y << 1)) & (((1u64 << ((n
            + 1) as u32)) - 1) as u32),
        y & (((1u64 << 0u32) - 1) as u32) == 0,
        y & (((1u64 << 32u32) - 1) as u32) == y,
        (y & (((1u64 << n) - 1) as u32)) >> n == 0,
        y >> 32u32 == 0,
{
}

/// The quotient of fewer steps is the low end of the quotient of more.
pub proof fn lemma_quotient_prefix(c: u32, p_r: u32, n: nat, m: nat)
    requires
        n <= m <= 32,
    ensures
        crc_quotient(c, p_r, n) == crc_quotient(c, p_r, m) & low_mask(n),
        crc_quotient(c, p_r, n) >> n == 0,
    decreases n,
{
    if n == 0 {
        bits_prefix(c, crc_quotient(c, p_r, m), 0);
        assert(0u32 >> 0 == 0) by (bit_vector);
    } else {
        let c1 = crc_shift(c, p_r);
        lemma_quotient_prefix(c1, p_r, (n - 1) as nat, (m - 1) as nat);
        bits_prefix(c, crc_quotient(c1, p_r, (m - 1) as nat), (n - 1) as u32);
        let q = crc_quotient(c, p_r, m);
        if n < 32 {
            bits_prefix(c, q, n as u32);
        } else {
            bits_prefix(c, q, 0);
        }
    }
}

proof fn bits_plain(c: u32, k: u32)
    by (bit_vector)
    requires
        k <= 32,
        c & (((1u64 << k) - 1) as u32) == 0,
    ensures
        k >= 1 ==> c & 1 != 1,
        (c >> 1) ^ 0 == c >> 1,
        k >= 1 ==> (c >> 1) & (((1u64 << ((k - 1) as u32)) - 1) as u32) == 0,
        k >= 1 ==> (c >> 1) >> ((k - 1) as u32) == c >> k,
        c >> 0u32 == c,
{
}

/// While only clear bits leave the register, it merely shifts.
pub proof fn lemma_shifts_plain(c: u32, p_r: u32, k: nat)
    requires
        k <= 32,
        c & low_mask(k) == 0,
    ensures
        crc_shifts(c, p_r, k) == c >> k,
    decreases k,
{
    bits_plain(c, k as u32);
    if k > 0 {
        lemma_shifts_plain(c >> 1, p_r, (k - 1) as nat);
    }
}

proof fn bits_absorb(c: u32, w: u32)
    by (bit_vector)
    ensures
        (w << 8) & (((1u64 << 8u32) - 1) as u32) == 0,
        w >> 24 == 0 ==> (w << 8) >> 8u32 == w,
        (c << 24) & (((1u64 << 24u32) - 1) as u32) == 0,
        ((c << 24) >> 24u32) ^ (c ^ ((c << 24) >> 24u32)) == c,
        (c ^ ((c << 24) >> 24u32)) & (((1u64 << 8u32) - 1) as u32) == 0,
        (c ^ ((c << 24) >> 24u32)) >> 8u32 == c >> 8,
        c ^ w == w ^ c,
{
}

/// Input that lies above the lowest byte of the register waits there
/// while the lowest byte is worked off.
pub proof fn lemma_shifts_absorb(c: u32, w: u32, p_r: u32)
    requires
        w >> 24 == 0,
    ensures
        crc_shifts(c ^ (w << 8), p_r, 8) == crc_shifts(c, p_r, 8) ^ w,
{
    bits_absorb(c, w);
    lemma_shifts_linear(c, w << 8, p_r, 8);
    lemma_shifts_plain(w << 8, p_r, 8);
}

/// Eight steps of the register, from 32 steps of its lowest byte alone.
pub proof fn lemma_byte_from_top(d: u32, p_r: u32)
    ensures
        crc_shifts(d, p_r, 8) == (d >> 8) ^ crc_shifts(d << 24, p_r, 32),
{
    let low = (d << 24) >> 24u32;
    let high = d ^ low;
    bits_absorb(d, 0);
    lemma_shifts_add(d << 24, p_r, 24, 8);
    lemma_shifts_plain(d << 24, p_r, 24);
    lemma_shifts_plain(high, p_r, 8);
    lemma_shifts_linear(low, high, p_r, 8);
    bits_absorb(d >> 8, crc_shifts(low, p_r, 8));
}

/// The little-endian word of four bytes.
pub open spec fn le_word(b0: u8, b1: u8, b2: u8, b3: u8) -> u32 {
    (b0 as u32) | ((b1 as u32) << 8) | ((b2 as u32) << 16) | ((b3 as u32) << 24)
}

proof fn bits_le_word(c: u32, b0: u8, b1: u8, b2: u8, b3: u8)
    by (bit_vector)
    ensures
        c ^ ((b0 as u32) | ((b1 as u32) << 8) | ((b2 as u32) << 16) | ((b3 as u32) << 24)) == (c ^ (
        b0 as u32)) ^ (((b1 as u32) | ((b2 as u32) << 8) | ((b3 as u32) << 16)) << 8),
        ((b1 as u32) | ((b2 as u32) << 8) | ((b3 as u32) << 16)) >> 24 == 0,
        c ^ ((b1 as u32) | ((b2 as u32) << 8) | ((b3 as u32) << 16)) == (c ^ (b1 as u32)) ^ (((b2 as u32)
            | ((b3 as u32) << 8)) << 8),
        ((b2 as u32) | ((b3 as u32) << 8)) >> 24 == 0,
        c ^ ((b2 as u32) | ((b3 as u32) << 8)) == (c ^ (b2 as u32)) ^ ((b3 as u32) << 8),
        (b3 as u32) >> 24 == 0,
{
}

/// Taking in a little-endian word and making 32 steps is taking in its
/// four bytes in order.
pub proof fn lemma_word_is_four_bytes(c: u32, b0: u8, b1: u8, b2: u8, b3: u8, p_r: u32)
    ensures
        crc_shifts(c ^ le_word(b0, b1, b2, b3), p_r, 32) == crc_byte(
            crc_byte(crc_byte(crc_byte(c, b0, p_r), b1, p_r), b2, p_r),
            b3,
            p_r,
        ),
{
    let w1 = (b1 as u32) | ((b2 as u32) << 8) | ((b3 as u32) << 16);
    let w2 = (b2 as u32) | ((b3 as u32) << 8);
    let w3 = b3 as u32;
    let s1 = crc_byte(c, b0, p_r);
    let s2 = crc_byte(s1, b1, p_r);
    let s3 = crc_byte(s2, b2, p_r);
    bits_le_word(c, b0, b1, b2, b3);
    bits_le_word(s1, b0, b1, b2, b3);
    bits_le_word(s2, b0, b1, b2, b3);
    lemma_shifts_add(c ^ le_word(b0, b1, b2, b3), p_r, 8, 24);
    lemma_shifts_absorb(c ^ (b0 as u32), w1, p_r);
    lemma_shifts_add(s1 ^ w1, p_r, 8, 16);
    lemma_shifts_absorb(s1 ^ (b1 as u32), w2, p_r);
    lemma_shifts_add(s2 ^ w2, p_r, 8, 8);
    lemma_shifts_absorb(s2 ^ (b2 as u32), w3, p_r);
}

/// The register after two runs of input in a row is the register after
/// their concatenation.
pub proof fn lemma_bytes_concat(c: u32, s1: Seq<u8>, s2: Seq<u8>, p_r: u32)
    ensures
        crc_bytes(c, s1 + s2, p_r) == crc_bytes(crc_bytes(c, s1, p_r), s2, p_r),
    decreases s2.len(),
{
    if s2.len() == 0 {
        assert(s1 + s2 =~= s1);
    } else {
        assert((s1 + s2).drop_last() =~= s1 + s2.drop_last());
        assert((s1 + s2).last() == s2.last());
        lemma_bytes_concat(c, s1, s2.drop_last(), p_r);
    }
}

/// `n` bytes of zero.
pub open spec fn zeros(n: nat) -> Seq<u8> {
    Seq::new(n, |i: int| 0u8)
}

proof fn bits_affine(a: u32, b: u32, byte: u8, x: u32, y: u32, z: u32)
    by (bit_vector)
    ensures
        (a ^ b) ^ (byte as u32) == (a ^ (byte as u32)) ^ (b ^ (0u8 as u32)),
        a ^ 0 == a,
        (a ^ 0xffff_ffff) ^ 0xffff_ffff == a,
        a ^ (a ^ b) == b,
        x ^ y == b ==> ((x ^ 0xffff_ffff == z) <==> (y ^ 0xffff_ffff == z ^ b)),
{
}

/// The register is affine in its input: a change of the starting content
/// changes the outcome by what the change alone gives over zeros.
pub proof fn lemma_bytes_affine(a: u32, b: u32, data: Seq<u8>, p_r: u32)
    ensures
        crc_bytes(a ^ b, data, p_r) == crc_bytes(a, data, p_r) ^ crc_bytes(
            b,
            zeros(data.len()),
            p_r,
        ),
    decreases data.len(),
{
    let z = zeros(data.len());
    if data.len() == 0 {
        bits_affine(a, b, 0, 0, 0, 0);
    } else {
        let front = data.drop_last();
        assert(z.drop_last() =~= zeros(front.len()));
        assert(z.last() == 0u8);
        lemma_bytes_affine(a, b, front, p_r);
        let x = crc_bytes(a, front, p_r);
        let y = crc_bytes(b, zeros(front.len()), p_r);
        bits_affine(x, y, data.last(), 0, 0, 0);
        lemma_shifts_linear(x ^ (data.last() as u32), y ^ (0u8 as u32), p_r, 8);
    }
}

/// Two checksums of one input differ by what their starting values give
/// over zeros of the same length, whatever the input is.
pub proof fn lemma_crc_difference(p_r: u32, c1: u32, c2: u32, data: Seq<u8>)
    ensures
        crc_reflected(p_r, c1, data) ^ crc_reflected(p_r, c2, data) == crc_reflected(
            p_r,
            c1,
            zeros(data.len()),
        ) ^ crc_reflected(p_r, c2, zeros(data.len())),
{
    let f = 0xffff_ffffu32;
    let z = zeros(data.len());
    assert(z.len() == data.len());
    let d = (c1 ^ f) ^ (c2 ^ f);
    bits_affine(c1 ^ f, c2 ^ f, 0, 0, 0, 0);
    lemma_bytes_affine(c1 ^ f, d, data, p_r);
    lemma_bytes_affine(c1 ^ f, d, z, p_r);
    bits_difference(
        crc_bytes(c1 ^ f, data, p_r),
        crc_bytes(c1 ^ f, z, p_r),
        crc_bytes(d, z, p_r),
    );
}

proof fn bits_difference(x: u32, y: u32, d: u32)
    by (bit_vector)
    ensures
        (x ^ 0xffff_ffff) ^ ((x ^ d) ^ 0xffff_ffff) == (y ^ 0xffff_ffff) ^ ((y ^ d) ^ 0xffff_ffff),
{
}

} // verus!
