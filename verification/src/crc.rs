//! The CRC engine: constants derived once from a generator polynomial,
//! and an update function that folds four bytes of input at a time.

use vstd::prelude::*;
use crate::barrett::{fold32, lemma_fold_by_quotient, lemma_reciprocal};
use crate::pdiv::{pdiv64, poly_div};
use crate::pmul::pmul32;
use crate::reflect::{reverse32, reverse_bits32};
use crate::serial::{
    crc_byte,
    crc_bytes,
    crc_reflected,
    crc_shifts,
    le_word,
    lemma_byte_from_top,
    lemma_bytes_concat,
    lemma_word_is_four_bytes,
};

verus! {

/// A generator of degree 32, written out with its leading term: a word of
/// exactly 33 significant bits.
pub open spec fn is_generator(p: u64) -> bool {
    p >> 32 == 1
}

/// The register after the first `k` little-endian words of `data`, each
/// folded in with two multiplications.
pub open spec fn fold_words(c: u32, data: Seq<u8>, k: nat, b_r: u32, p_r: u32) -> u32
    decreases k,
{
    if k == 0 {
        c
    } else {
        let i = 4 * (k - 1);
        let w = le_word(data[i], data[i + 1], data[i + 2], data[i + 3]);
        fold32(fold_words(c, data, (k - 1) as nat, b_r, p_r) ^ w, b_r, p_r)
    }
}

/// The register after one more byte: the byte goes through the fold from
/// the top of a word, and the rest of the register moves down to meet it.
pub open spec fn fold_byte(c: u32, byte: u8, b_r: u32, p_r: u32) -> u32 {
    let d = c ^ (byte as u32);
    (d >> 8) ^ fold32(d << 24, b_r, p_r)
}

/// The register after the bytes of `data` from `from` up to `to`, taken
/// one at a time.
pub open spec fn fold_tail(c: u32, data: Seq<u8>, from: nat, to: nat, b_r: u32, p_r: u32) -> u32
    decreases to,
{
    if to <= from {
        c
    } else {
        fold_byte(fold_tail(c, data, from, (to - 1) as nat, b_r, p_r), data[to - 1], b_r, p_r)
    }
}

/// The register after all of `data`: whole words first, then the last
/// zero to three bytes.
pub open spec fn fold_bytes(c: u32, data: Seq<u8>, b_r: u32, p_r: u32) -> u32 {
    let k = data.len() / 4;
    fold_tail(fold_words(c, data, k, b_r, p_r), data, 4 * k, data.len(), b_r, p_r)
}

/// A CRC engine for one generator polynomial.
#[derive(Debug, Clone, Copy)]
pub struct Crc32 {
    /// The generator polynomial.
    pub p: u64,
    /// The reciprocal of the generator: the quotient of `p * x^32`, cut to
    /// 64 bits, by `p`.
    pub b: u32,
    /// The lower 32 bits of `p` in reverse order.
    pub p_r: u32,
    /// `b` in reverse order.
    pub b_r: u32,
}

impl Crc32 {
    /// The constants are those that belong to the generator.
    pub open spec fn wf(&self) -> bool {
        &&& self.p != 0
        &&& self.b == poly_div(self.p << 32, self.p) as u32
        &&& self.p_r == reverse32(self.p as u32)
        &&& self.b_r == reverse32(self.b)
    }

    /// What `crc32` returns: the register is inverted, takes in `data`,
    /// and is inverted again.
    pub open spec fn checksum(&self, crc: u32, data: Seq<u8>) -> u32 {
        fold_bytes(crc ^ 0xffff_ffff, data, self.b_r, self.p_r) ^ 0xffff_ffff
    }

    /// Derives the constants of the engine from the generator `p`.
    pub fn new(p: u64) -> (e: Crc32)
        requires
            p != 0,
        ensures
            e.p == p,
            e.wf(),
    {
        // the reciprocal of the generator
        let b = pdiv64(p << 32, p) as u32;
        // and both in reverse bit order
        let p_r = reverse_bits32(p as u32);
        let b_r = reverse_bits32(b);
        Crc32 { p, b, p_r, b_r }
    }

    /// Folds the register by 32 bits.
    fn fold(&self, c: u32) -> (r: u32)
        ensures
            r == fold32(c, self.b_r, self.p_r),
    {
        let (lo, _) = pmul32(c, self.b_r);
        let (lo, hi) = pmul32((lo << 1) ^ c, self.p_r);
        (hi << 1) | (lo >> 31)
    }

    /// Continues the checksum `crc` with `data`.
    ///
    /// The checksum of a whole message starts from 0.
    pub fn crc32(&self, crc: u32, data: &[u8]) -> (r: u32)
        ensures
            r == self.checksum(crc, data@),
            self.wf() && is_generator(self.p) ==> r == crc_reflected(self.p_r, crc, data@),
    {
        let ghost seed = crc;
        // bit invert
        let mut crc: u32 = crc ^ 0xffff_ffff;
        let ghost start = crc;
        let n = data.len();
        let words = n / 4;

        // operate on 4-byte chunks first
        let mut k: usize = 0;
        while k < words
            invariant
                k <= words,
                words == n / 4,
                n == data@.len(),
                crc == fold_words(start, data@, k as nat, self.b_r, self.p_r),
            decreases words - k,
        {
            let i = 4 * k;
            let word: u32 = (data[i] as u32) | ((data[i + 1] as u32) << 8) | ((data[i + 2] as u32)
                << 16) | ((data[i + 3] as u32) << 24);
            crc = self.fold(crc ^ word);
            k += 1;
        }

        // now clean up any remaining bytes
        let mut j: usize = 4 * words;
        while j < n
            invariant
                4 * words <= j <= n,
                words == n / 4,
                n == data@.len(),
                crc == fold_tail(
                    fold_words(start, data@, words as nat, self.b_r, self.p_r),
                    data@,
                    (4 * words) as nat,
                    j as nat,
                    self.b_r,
                    self.p_r,
                ),
            decreases n - j,
        {
            crc ^= data[j] as u32;
            crc = (crc >> 8) ^ self.fold(crc << 24);
            j += 1;
        }
        proof {
            if self.wf() && is_generator(self.p) {
                lemma_checksum_is_crc(*self, seed, data@);
            }
        }
        // bit invert
        crc ^ 0xffff_ffff
    }
}

/// With the constants of a generator of degree 32, folding moves the
/// register by 32 bits.
pub proof fn lemma_fold_is_shifts(e: Crc32, c: u32)
    requires
        e.wf(),
        is_generator(e.p),
    ensures
        fold32(c, e.b_r, e.p_r) == crc_shifts(c, e.p_r, 32),
{
    lemma_reciprocal(e.p);
    lemma_fold_by_quotient(c, e.p_r);
}

/// Folding in whole words takes in their bytes in order.
proof fn lemma_fold_words(e: Crc32, c: u32, data: Seq<u8>, k: nat)
    requires
        e.wf(),
        is_generator(e.p),
        4 * k <= data.len(),
    ensures
        fold_words(c, data, k, e.b_r, e.p_r) == crc_bytes(c, data.take(4 * k as int), e.p_r),
    decreases k,
{
    if k > 0 {
        let i = 4 * (k - 1);
        let prev = fold_words(c, data, (k - 1) as nat, e.b_r, e.p_r);
        lemma_fold_words(e, c, data, (k - 1) as nat);
        let w = le_word(data[i], data[i + 1], data[i + 2], data[i + 3]);
        lemma_fold_is_shifts(e, prev ^ w);
        lemma_word_is_four_bytes(prev, data[i], data[i + 1], data[i + 2], data[i + 3], e.p_r);
        let t4 = data.take(i + 4);
        let t3 = data.take(i + 3);
        let t2 = data.take(i + 2);
        let t1 = data.take(i + 1);
        let t0 = data.take(i);
        let p_r = e.p_r;
        assert(t4.drop_last() =~= t3 && t4.last() == data[i + 3]);
        assert(t3.drop_last() =~= t2 && t3.last() == data[i + 2]);
        assert(t2.drop_last() =~= t1 && t2.last() == data[i + 1]);
        assert(t1.drop_last() =~= t0 && t1.last() == data[i]);
        assert(crc_bytes(c, t1, p_r) == crc_byte(crc_bytes(c, t0, p_r), data[i], p_r));
        assert(crc_bytes(c, t2, p_r) == crc_byte(crc_bytes(c, t1, p_r), data[i + 1], p_r));
        assert(crc_bytes(c, t3, p_r) == crc_byte(crc_bytes(c, t2, p_r), data[i + 2], p_r));
        assert(crc_bytes(c, t4, p_r) == crc_byte(crc_bytes(c, t3, p_r), data[i + 3], p_r));
        assert(data.take(4 * k as int) == t4);
    }
}

/// Folding in single bytes takes them in, in order.
proof fn lemma_fold_tail(e: Crc32, c: u32, data: Seq<u8>, from: nat, to: nat)
    requires
        e.wf(),
        is_generator(e.p),
        from <= to <= data.len(),
    ensures
        fold_tail(crc_bytes(c, data.take(from as int), e.p_r), data, from, to, e.b_r, e.p_r)
            == crc_bytes(c, data.take(to as int), e.p_r),
    decreases to,
{
    if to > from {
        let start = crc_bytes(c, data.take(from as int), e.p_r);
        let prev = fold_tail(start, data, from, (to - 1) as nat, e.b_r, e.p_r);
        lemma_fold_tail(e, c, data, from, (to - 1) as nat);
        let d = prev ^ (data[to - 1] as u32);
        lemma_fold_is_shifts(e, d << 24);
        lemma_byte_from_top(d, e.p_r);
        let t = data.take(to as int);
        assert(t.drop_last() =~= data.take(to - 1) && t.last() == data[to - 1]);
    }
}

/// With the constants of a generator of degree 32, the engine computes
/// the reflected CRC of that generator, bit by bit.
pub proof fn lemma_checksum_is_crc(e: Crc32, crc: u32, data: Seq<u8>)
    requires
        e.wf(),
        is_generator(e.p),
    ensures
        e.checksum(crc, data) == crc_reflected(e.p_r, crc, data),
{
    let c = crc ^ 0xffff_ffff;
    let k = data.len() / 4;
    lemma_fold_words(e, c, data, k);
    lemma_fold_tail(e, c, data, 4 * k, data.len());
    assert(data.take(data.len() as int) =~= data);
}

proof fn bits_invert_twice(x: u32)
    by (bit_vector)
    ensures
        (x ^ 0xffff_ffff) ^ 0xffff_ffff == x,
{
}

/// Continuing a checksum with no input leaves it as it is, whatever the
/// engine: the checksum of the empty message is 0.
pub proof fn lemma_checksum_of_nothing(e: Crc32, crc: u32)
    ensures
        e.checksum(crc, Seq::<u8>::empty()) == crc,
{
    bits_invert_twice(crc);
}

/// Checksums chain: the checksum of `s1` followed by `s2` is the checksum
/// of `s1`, continued with `s2`.
pub proof fn lemma_checksum_chains(e: Crc32, crc: u32, s1: Seq<u8>, s2: Seq<u8>)
    requires
        e.wf(),
        is_generator(e.p),
    ensures
        e.checksum(crc, s1 + s2) == e.checksum(e.checksum(crc, s1), s2),
{
    lemma_checksum_is_crc(e, crc, s1 + s2);
    lemma_checksum_is_crc(e, crc, s1);
    lemma_checksum_is_crc(e, e.checksum(crc, s1), s2);
    lemma_bytes_concat(crc ^ 0xffff_ffff, s1, s2, e.p_r);
    bits_invert_twice(crc_bytes(crc ^ 0xffff_ffff, s1, e.p_r));
}

/// A message may be cut at any place: the checksum of the part before
/// the cut, continued with the part behind it, is the checksum of the
/// whole, whether or not the cut falls on a word of four bytes.
pub proof fn lemma_checksum_splits(e: Crc32, crc: u32, data: Seq<u8>, cut: int)
    requires
        e.wf(),
        is_generator(e.p),
        0 <= cut <= data.len(),
    ensures
        e.checksum(crc, data) == e.checksum(e.checksum(crc, data.take(cut)), data.skip(cut)),
{
    assert(data.take(cut) + data.skip(cut) =~= data);
    lemma_checksum_chains(e, crc, data.take(cut), data.skip(cut));
}

/// The generator settles the engine: two engines of one generator are
/// equal, and so are their checksums of every input.
pub proof fn lemma_engine_is_settled(e1: Crc32, e2: Crc32)
    requires
        e1.wf(),
        e2.wf(),
        e1.p == e2.p,
    ensures
        e1 == e2,
        forall|crc: u32, data: Seq<u8>| #[trigger] e1.checksum(crc, data) == e2.checksum(crc, data),
{
}

} // verus!
