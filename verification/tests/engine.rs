use polycrc::crc::Crc32;
use polycrc::reflect::reverse_bits32;

/// The standard generator of CRC-32, with its leading term.
const CRC32: u64 = 0x1_04c1_1db7;

/// The generator of CRC-32C, with its leading term.
const CRC32C: u64 = 0x1_1edc_6f41;

/// The checksum one bit at a time.
fn bit_by_bit(p_r: u32, crc: u32, data: &[u8]) -> u32 {
    let mut c = crc ^ 0xffff_ffff;
    for byte in data {
        c ^= *byte as u32;
        for _ in 0..8 {
            c = (c >> 1) ^ (if c & 1 == 1 { p_r } else { 0 });
        }
    }
    c ^ 0xffff_ffff
}

fn next(state: &mut u64) -> u64 {
    *state ^= *state << 13;
    *state ^= *state >> 7;
    *state ^= *state << 17;
    *state
}

fn message(state: &mut u64, len: usize) -> Vec<u8> {
    let mut data = Vec::new();
    for _ in 0..len {
        data.push(next(state) as u8);
    }
    data
}

#[test]
fn reverse_bits32_exact_values() {
    assert_eq!(reverse_bits32(0), 0);
    assert_eq!(reverse_bits32(1), 0x8000_0000);
    assert_eq!(reverse_bits32(0x8000_0000), 1);
    assert_eq!(reverse_bits32(0x1234_5678), 0x1e6a_2c48);
    assert_eq!(reverse_bits32(u32::MAX), u32::MAX);
}

#[test]
fn reverse_bits32_is_that_of_the_standard_library() {
    let mut state = 0x0dd_ba11u64;
    for _ in 0..200 {
        let x = next(&mut state) as u32;
        assert_eq!(reverse_bits32(x), x.reverse_bits());
        assert_eq!(reverse_bits32(reverse_bits32(x)), x);
    }
}

#[test]
fn constants_of_crc32() {
    let e = Crc32::new(CRC32);
    assert_eq!(e.p, CRC32);
    assert_eq!(e.b, 0x04d1_01df);
    assert_eq!(e.p_r, 0xedb8_8320);
    assert_eq!(e.b_r, 0xfb80_8b20);
}

#[test]
fn constants_of_crc32c() {
    let e = Crc32::new(CRC32C);
    assert_eq!(e.p, CRC32C);
    assert_eq!(e.b, 0x1f91_caf6);
    assert_eq!(e.p_r, 0x82f6_3b78);
    assert_eq!(e.b_r, 0x6f53_89f8);
}

#[test]
fn known_vector_crc32() {
    let e = Crc32::new(CRC32);
    assert_eq!(e.crc32(0, b""), 0);
    assert_eq!(e.crc32(0, b"123"), 0x8848_63d2);
    assert_eq!(e.crc32(0, b"123456789"), 0xcbf4_3926);
    assert_eq!(e.crc32(0, b"The quick brown fox jumps over the lazy dog"), 0x414f_a339);
}

#[test]
fn known_vector_crc32c() {
    let e = Crc32::new(CRC32C);
    assert_eq!(e.crc32(0, b""), 0);
    assert_eq!(e.crc32(0, b"123456789"), 0xe306_9283);
}

#[test]
fn checksums_of_zeros_and_ones() {
    let e = Crc32::new(CRC32);
    assert_eq!(e.crc32(0, &[0]), 0xd202_ef8d);
    assert_eq!(e.crc32(0, &[0, 0, 0, 0]), 0x2144_df1c);
    assert_eq!(e.crc32(0, &[0xff, 0xff, 0xff, 0xff]), 0xffff_ffff);
    assert_eq!(e.crc32(0xdead_beef, b"abcde"), 0x1cb5_9760);
}

#[test]
fn no_input_keeps_the_checksum() {
    let e = Crc32::new(CRC32C);
    assert_eq!(e.crc32(0x1234_5678, &[]), 0x1234_5678);
    assert_eq!(e.crc32(u32::MAX, &[]), u32::MAX);
}

#[test]
fn matches_bit_by_bit_for_every_length() {
    let mut state = 0x5eed_5eed_5eedu64;
    for p in [CRC32, CRC32C, 0x1_0000_0001, 0x1_ffff_ffff, 0x1_0000_0000] {
        let e = Crc32::new(p);
        for len in 0..40 {
            let data = message(&mut state, len);
            let seed = next(&mut state) as u32;
            assert_eq!(e.crc32(seed, &data), bit_by_bit(e.p_r, seed, &data));
        }
    }
}

#[test]
fn checksums_chain() {
    let mut state = 0xc0ff_ee00_c0ff_ee00u64;
    let e = Crc32::new(CRC32);
    for _ in 0..50 {
        let len1 = (next(&mut state) % 13) as usize;
        let len2 = (next(&mut state) % 13) as usize;
        let s1 = message(&mut state, len1);
        let s2 = message(&mut state, len2);
        let mut both = s1.clone();
        both.extend_from_slice(&s2);
        assert_eq!(e.crc32(0, &both), e.crc32(e.crc32(0, &s1), &s2));
    }
}

#[test]
fn every_cut_gives_the_same_checksum() {
    let mut state = 0xfeed_face_cafe_beefu64;
    for p in [CRC32, CRC32C] {
        let e = Crc32::new(p);
        for len in 0..24 {
            let data = message(&mut state, len);
            let whole = e.crc32(0, &data);
            for cut in 0..=len {
                assert_eq!(e.crc32(e.crc32(0, &data[..cut]), &data[cut..]), whole);
            }
        }
    }
}

#[test]
fn engines_of_one_generator_agree() {
    let mut state = 0xabad_1dea_abad_1deau64;
    let e1 = Crc32::new(CRC32C);
    let e2 = Crc32::new(CRC32C);
    assert_eq!((e1.p, e1.b, e1.p_r, e1.b_r), (e2.p, e2.b, e2.p_r, e2.b_r));
    for len in 0..20 {
        let data = message(&mut state, len);
        let seed = next(&mut state) as u32;
        assert_eq!(e1.crc32(seed, &data), e2.crc32(seed, &data));
    }
}

#[test]
fn other_polynomials_still_give_their_constants() {
    // without the leading term the constants come out, though no CRC does
    let e = Crc32::new(0x04c1_1db7);
    assert_eq!((e.b, e.p_r, e.b_r), (0, 0xedb8_8320, 0));
    assert_eq!(e.crc32(0, b"12345"), 0x2508_07b7);
    let e = Crc32::new(2);
    assert_eq!((e.b, e.p_r, e.b_r), (0, 0x4000_0000, 0));
    assert_eq!(e.crc32(0, b"12345"), 0x969a_1999);
}

#[test]
fn chaining_needs_a_generator_of_degree_32() {
    // x alone is no generator: a cut before the first word ends changes
    // the outcome
    let e = Crc32::new(2);
    assert_eq!(e.crc32(0, &[0, 0, 0, 0]), 0x8000_0000);
    assert_eq!(e.crc32(e.crc32(0, &[0]), &[0, 0, 0]), 0xc000_0000);
}
