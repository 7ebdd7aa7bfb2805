//! The search for a suffix that gives a message a wanted checksum.
//!
//! A checksum is affine in its input, so the checksum that the suffix
//! must have by itself follows from the prefix and from the length of the
//! suffix alone; the candidates are then tried in order.

use vstd::prelude::*;
use crate::crc::{is_generator, lemma_checksum_chains, lemma_checksum_is_crc, Crc32};
use crate::serial::{lemma_crc_difference, zeros};

verus! {

/// The four bytes of a word, lowest first.
pub open spec fn le_bytes32(i: u32) -> Seq<u8> {
    seq![i as u8, (i >> 8) as u8, (i >> 16) as u8, (i >> 24) as u8]
}

/// The eight bytes of a word, lowest first.
pub open spec fn le_bytes64(i: u64) -> Seq<u8> {
    seq![
        i as u8,
        (i >> 8) as u8,
        (i >> 16) as u8,
        (i >> 24) as u8,
        (i >> 32) as u8,
        (i >> 40) as u8,
        (i >> 48) as u8,
        (i >> 56) as u8,
    ]
}

/// The checksum that a suffix of `space` bytes has by itself if and only
/// if the prefix followed by it has the checksum `wanted`.
pub open spec fn suffix_target(e: Crc32, prefix: Seq<u8>, wanted: u32, space: nat) -> u32 {
    e.checksum(e.checksum(0, prefix), zeros(space)) ^ wanted ^ e.checksum(0, zeros(space))
}

/// The length of the suffix: eight letters, or four bytes of any kind.
pub open spec fn suffix_space(ascii: bool) -> nat {
    if ascii {
        8
    } else {
        4
    }
}

proof fn bits_target(a: u32, b: u32, x: u32, c: u32, w: u32)
    by (bit_vector)
    requires
        a ^ b == x ^ c,
    ensures
        (a == w) <==> (b == (x ^ w) ^ c),
{
}

/// The target decides: a prefix followed by a suffix has the wanted
/// checksum exactly when the suffix alone has the target as its checksum.
pub proof fn lemma_target_decides(e: Crc32, prefix: Seq<u8>, wanted: u32, suffix: Seq<u8>)
    requires
        e.wf(),
        is_generator(e.p),
    ensures
        (e.checksum(0, prefix + suffix) == wanted) <==> (e.checksum(0, suffix) == suffix_target(
            e,
            prefix,
            wanted,
            suffix.len(),
        )),
{
    let start = e.checksum(0, prefix);
    let z = zeros(suffix.len());
    lemma_checksum_chains(e, 0, prefix, suffix);
    lemma_checksum_is_crc(e, start, suffix);
    lemma_checksum_is_crc(e, 0, suffix);
    lemma_checksum_is_crc(e, start, z);
    lemma_checksum_is_crc(e, 0, z);
    lemma_crc_difference(e.p_r, start, 0, suffix);
    bits_target(
        e.checksum(start, suffix),
        e.checksum(0, suffix),
        e.checksum(start, z),
        e.checksum(0, z),
        wanted,
    );
}

/// Works out the checksum that the suffix must have by itself.
pub fn search_target(e: &Crc32, prefix: &[u8], wanted: u32, ascii: bool) -> (target: u32)
    ensures
        target == suffix_target(*e, prefix@, wanted, suffix_space(ascii)),
{
    // find the CRC of our prefix
    let mut x = e.crc32(0, prefix);
    // find CRC of just our implicit xor
    let mut c: u32 = 0;
    // + space for suffix
    if ascii {
        let space: [u8; 8] = [0, 0, 0, 0, 0, 0, 0, 0];
        proof {
            assert(space@ =~= zeros(8));
        }
        x = e.crc32(x, space.as_slice());
        c = e.crc32(c, space.as_slice());
    } else {
        let space: [u8; 4] = [0, 0, 0, 0];
        proof {
            assert(space@ =~= zeros(4));
        }
        x = e.crc32(x, space.as_slice());
        c = e.crc32(c, space.as_slice());
    }
    // this xor is our target value
    x ^ wanted ^ c
}

/// The bytes of a word, lowest first.
fn bytes_of32(i: u32) -> (bytes: [u8; 4])
    ensures
        bytes@ == le_bytes32(i),
{
    let bytes: [u8; 4] = [i as u8, (i >> 8) as u8, (i >> 16) as u8, (i >> 24) as u8];
    proof {
        assert(bytes@ =~= le_bytes32(i));
    }
    bytes
}

/// The bytes of a word, lowest first.
fn bytes_of64(i: u64) -> (bytes: [u8; 8])
    ensures
        bytes@ == le_bytes64(i),
{
    let bytes: [u8; 8] = [
        i as u8,
        (i >> 8) as u8,
        (i >> 16) as u8,
        (i >> 24) as u8,
        (i >> 32) as u8,
        (i >> 40) as u8,
        (i >> 48) as u8,
        (i >> 56) as u8,
    ];
    proof {
        assert(bytes@ =~= le_bytes64(i));
    }
    bytes
}

/// Tries the four-byte suffixes in order, and returns the first one
/// whose checksum is the target.
pub fn find_suffix32(e: &Crc32, target: u32) -> (found: Option<u32>)
    ensures
        match found {
            Some(i) => e.checksum(0, le_bytes32(i)) == target && forall|j: u32|
                j < i ==> e.checksum(0, le_bytes32(j)) != target,
            None => forall|j: u32| e.checksum(0, le_bytes32(j)) != target,
        },
{
    let mut i: u32 = 0;
    loop
        invariant
            forall|j: u32| j < i ==> e.checksum(0, le_bytes32(j)) != target,
        decreases 0xffff_ffff - i,
    {
        let bytes = bytes_of32(i);
        if e.crc32(0, bytes.as_slice()) == target {
            return Some(i);
        }
        if i == 0xffff_ffff {
            return None;
        }
        i += 1;
    }
}

/// The number of candidates for a suffix of eight letters: five bits
/// decide each letter.
pub const ASCII_CANDIDATES: u64 = 0x100_0000_0000;

/// Letter `k` of candidate `i`: the bits of `i` from place `5 * k` on
/// pick one of `H` to `W` and `h` to `w`, the fifth bit the case.
pub open spec fn ascii_letter(i: u64, k: u64) -> u8 {
    let g = (i >> ((5 * k) as u64)) & 0x1f;
    (0x48 + (g & 0x0f) + ((g & 0x10) << 1)) as u8
}

/// The byte is one of `H` to `W` or of `h` to `w`.
pub open spec fn is_letter(b: u8) -> bool {
    0x48 <= b <= 0x57 || 0x68 <= b <= 0x77
}

/// The bits of `i` spread out, five to each of eight bytes, the fifth of
/// them in the place of the case bit.
spec fn spread(i: u64) -> u64 {
    let i = ((i << 12) & 0x000f_ffff_0000_0000) | (i & 0x0000_0000_000f_ffff);
    let i = ((i << 6) & 0x03ff_0000_03ff_0000) | (i & 0x0000_03ff_0000_03ff);
    let i = ((i << 3) & 0x1f00_1f00_1f00_1f00) | (i & 0x001f_001f_001f_001f);
    ((i << 1) & 0x2020_2020_2020_2020) | (i & 0x0f0f_0f0f_0f0f_0f0f)
}

proof fn bits_spread(i: u64, k: u64)
    by (bit_vector)
    requires
        k < 8,
    ensures
        spread(i) <= 0x2f2f_2f2f_2f2f_2f2f,
        (((spread(i) + 0x4848_4848_4848_4848) as u64) >> ((8 * k) as u64)) as u8 == ascii_letter(i, k),
        is_letter(ascii_letter(i, k)),
        i >> 0u64 == i,
{
}

/// The suffix of eight letters that candidate `i` stands for, as a word
/// with the first letter lowest.
pub fn ascii_suffix(i: u64) -> (suffix: u64)
    ensures
        forall|k: int| 0 <= k < 8 ==> #[trigger] le_bytes64(suffix)[k] == ascii_letter(i, k as u64),
        forall|k: int| 0 <= k < 8 ==> is_letter(#[trigger] le_bytes64(suffix)[k]),
{
    // convert into a guaranteed ascii representation
    // first get all bits into the right position
    let s: u64 = ((i << 12) & 0x000f_ffff_0000_0000) | (i & 0x0000_0000_000f_ffff);
    let s: u64 = ((s << 6) & 0x03ff_0000_03ff_0000) | (s & 0x0000_03ff_0000_03ff);
    let s: u64 = ((s << 3) & 0x1f00_1f00_1f00_1f00) | (s & 0x001f_001f_001f_001f);
    let s: u64 = ((s << 1) & 0x2020_2020_2020_2020) | (s & 0x0f0f_0f0f_0f0f_0f0f);
    proof {
        assert(s == spread(i));
        bits_spread(i, 0);
        bits_spread(i, 1);
        bits_spread(i, 2);
        bits_spread(i, 3);
        bits_spread(i, 4);
        bits_spread(i, 5);
        bits_spread(i, 6);
        bits_spread(i, 7);
        bits_spread((s + 0x4848_4848_4848_4848) as u64, 0);
    }
    // and then add to array of 0x48s
    s + 0x4848_4848_4848_4848
}

/// The suffix of eight letters that candidate `i` stands for.
pub open spec fn ascii_candidate(i: u64) -> Seq<u8> {
    Seq::new(8, |k: int| ascii_letter(i, k as u64))
}

/// Tries the suffixes of eight letters in order, and returns the number
/// of the first one whose checksum is the target.
pub fn find_ascii_suffix(e: &Crc32, target: u32) -> (found: Option<u64>)
    ensures
        match found {
            Some(i) => i < ASCII_CANDIDATES && e.checksum(0, ascii_candidate(i)) == target
                && forall|j: u64| j < i ==> e.checksum(0, ascii_candidate(j)) != target,
            None => forall|j: u64|
                j < ASCII_CANDIDATES ==> e.checksum(0, ascii_candidate(j)) != target,
        },
{
    let mut i: u64 = 0;
    while i < ASCII_CANDIDATES
        invariant
            i <= ASCII_CANDIDATES,
            forall|j: u64| j < i ==> e.checksum(0, ascii_candidate(j)) != target,
        decreases ASCII_CANDIDATES - i,
    {
        let bytes = bytes_of64(ascii_suffix(i));
        proof {
            assert(bytes@ =~= ascii_candidate(i));
        }
        if e.crc32(0, bytes.as_slice()) == target {
            return Some(i);
        }
        i += 1;
    }
    None
}

/// The numeral of a value below 16 in base 16, with small letters.
pub open spec fn hex_digit(d: u8) -> u8 {
    if d < 10 {
        (0x30 + d) as u8
    } else {
        (0x61 + d - 10) as u8
    }
}

/// How a byte is shown: printable characters as they are, every other
/// byte as a backslash, an `x` and its two numerals in base 16.
pub open spec fn escaped_byte(b: u8) -> Seq<u8> {
    if 0x20 <= b <= 0x7e {
        seq![b]
    } else {
        seq![0x5cu8, 0x78u8, hex_digit(b / 16), hex_digit(b % 16)]
    }
}

/// How a message is shown, byte after byte.
pub open spec fn escaped(message: Seq<u8>) -> Seq<u8>
    decreases message.len(),
{
    if message.len() == 0 {
        Seq::empty()
    } else {
        escaped(message.drop_last()) + escaped_byte(message.last())
    }
}

/// The numeral of `d` in base 16.
fn hex(d: u8) -> (c: u8)
    requires
        d < 16,
    ensures
        c == hex_digit(d),
{
    if d < 10 {
        0x30 + d
    } else {
        0x61 + (d - 10)
    }
}

/// Writes a message out in printable characters.
pub fn escape(message: &[u8]) -> (text: Vec<u8>)
    ensures
        text@ == escaped(message@),
{
    let mut text: Vec<u8> = Vec::new();
    let mut i: usize = 0;
    proof {
        assert(message@.take(0) =~= Seq::<u8>::empty());
    }
    while i < message.len()
        invariant
            i <= message@.len(),
            text@ == escaped(message@.take(i as int)),
        decreases message@.len() - i,
    {
        let b = message[i];
        let ghost before = text@;
        if b >= 0x20 && b <= 0x7e {
            text.push(b);
        } else {
            text.push(0x5c);
            text.push(0x78);
            text.push(hex(b / 16));
            text.push(hex(b % 16));
        }
        proof {
            let next = message@.take(i + 1);
            assert(next.drop_last() =~= message@.take(i as int));
            assert(next.last() == b);
            assert(text@ =~= before + escaped_byte(b));
        }
        i += 1;
    }
    proof {
        assert(message@.take(i as int) =~= message@);
    }
    text
}

/// The candidates that a search goes through hold no suffix with the
/// target as its checksum.
pub open spec fn no_suffix(e: Crc32, target: u32, ascii: bool) -> bool {
    if ascii {
        forall|j: u64| j < ASCII_CANDIDATES ==> e.checksum(0, ascii_candidate(j)) != target
    } else {
        forall|j: u32| e.checksum(0, le_bytes32(j)) != target
    }
}

/// Finds a suffix behind `prefix` that gives the whole the checksum
/// `wanted`, and returns the whole: the first candidate that does it, of
/// eight letters if `ascii` holds, and of four bytes otherwise.
pub fn find_message(e: &Crc32, prefix: &[u8], wanted: u32, ascii: bool) -> (found: Option<Vec<u8>>)
    ensures
        match found {
            Some(m) => {
                let suffix = m@.skip(prefix@.len() as int);
                &&& m@.len() == prefix@.len() + suffix_space(ascii)
                &&& m@.take(prefix@.len() as int) == prefix@
                &&& e.checksum(0, suffix) == suffix_target(*e, prefix@, wanted, suffix_space(ascii))
                &&& e.wf() && is_generator(e.p) ==> e.checksum(0, m@) == wanted
                &&& ascii ==> forall|k: int| 0 <= k < 8 ==> is_letter(#[trigger] suffix[k])
            },
            None => no_suffix(
                *e,
                suffix_target(*e, prefix@, wanted, suffix_space(ascii)),
                ascii,
            ),
        },
{
    let target = search_target(e, prefix, wanted, ascii);
    let mut message: Vec<u8> = Vec::new();
    let mut i: usize = 0;
    while i < prefix.len()
        invariant
            i <= prefix@.len(),
            message@ == prefix@.take(i as int),
        decreases prefix@.len() - i,
    {
        message.push(prefix[i]);
        proof {
            assert(message@ =~= prefix@.take(i + 1));
        }
        i += 1;
    }
    proof {
        assert(prefix@.take(i as int) =~= prefix@);
    }
    if ascii {
        let suffix = match find_ascii_suffix(e, target) {
            Some(i) => {
                let suffix = bytes_of64(ascii_suffix(i));
                proof {
                    assert(suffix@ =~= ascii_candidate(i));
                }
                suffix
            },
            None => { return None; },
        };
        let mut k: usize = 0;
        while k < 8
            invariant
                k <= 8,
                message@ == prefix@ + suffix@.take(k as int),
            decreases 8 - k,
        {
            message.push(suffix[k]);
            proof {
                assert(message@ =~= prefix@ + suffix@.take(k + 1));
            }
            k += 1;
        }
        proof {
            assert(suffix@.take(8) =~= suffix@);
            assert(message@.skip(prefix@.len() as int) =~= suffix@);
            assert(message@.take(prefix@.len() as int) =~= prefix@);
            if e.wf() && is_generator(e.p) {
                lemma_target_decides(*e, prefix@, wanted, suffix@);
            }
        }
    } else {
        let suffix = match find_suffix32(e, target) {
            Some(i) => bytes_of32(i),
            None => { return None; },
        };
        let mut k: usize = 0;
        while k < 4
            invariant
                k <= 4,
                message@ == prefix@ + suffix@.take(k as int),
            decreases 4 - k,
        {
            message.push(suffix[k]);
            proof {
                assert(message@ =~= prefix@ + suffix@.take(k + 1));
            }
            k += 1;
        }
        proof {
            assert(suffix@.take(4) =~= suffix@);
            assert(message@.skip(prefix@.len() as int) =~= suffix@);
            assert(message@.take(prefix@.len() as int) =~= prefix@);
            if e.wf() && is_generator(e.p) {
                lemma_target_decides(*e, prefix@, wanted, suffix@);
            }
        }
    }
    Some(message)
}

} // verus!
