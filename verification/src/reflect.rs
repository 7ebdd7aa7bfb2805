//! Reversal of the bit order of a word.

use vstd::prelude::*;

verus! {

/// `x` with its 32 bits in reverse order: pairs of neighbours trade
/// places, then pairs of pairs, up to the two halves.
pub open spec fn reverse32(x: u32) -> u32 {
    let x1 = ((x >> 1) & 0x5555_5555) | ((x & 0x5555_5555) << 1);
    let x2 = ((x1 >> 2) & 0x3333_3333) | ((x1 & 0x3333_3333) << 2);
    let x4 = ((x2 >> 4) & 0x0f0f_0f0f) | ((x2 & 0x0f0f_0f0f) << 4);
    let x8 = ((x4 >> 8) & 0x00ff_00ff) | ((x4 & 0x00ff_00ff) << 8);
    (x8 >> 16) | (x8 << 16)
}

/// Bit `i` of the reversed word is bit `31 - i` of the word, and
/// reversing twice gives the word back.
pub proof fn lemma_reverse32(x: u32, i: u32)
    by (bit_vector)
    requires
        i < 32,
    ensures
        (reverse32(x) >> i) & 1 == (x >> ((31 - i) as u32)) & 1,
        reverse32(reverse32(x)) == x,
{
}

/// Reverses the order of the 32 bits of `x`.
pub fn reverse_bits32(x: u32) -> (r: u32)
    ensures
        r == reverse32(x),
{
    let x1: u32 = ((x >> 1) & 0x5555_5555) | ((x & 0x5555_5555) << 1);
    let x2: u32 = ((x1 >> 2) & 0x3333_3333) | ((x1 & 0x3333_3333) << 2);
    let x4: u32 = ((x2 >> 4) & 0x0f0f_0f0f) | ((x2 & 0x0f0f_0f0f) << 4);
    let x8: u32 = ((x4 >> 8) & 0x00ff_00ff) | ((x4 & 0x00ff_00ff) << 8);
    (x8 >> 16) | (x8 << 16)
}

} // verus!
