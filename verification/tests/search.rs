use polycrc::crc::Crc32;
use polycrc::search::{
    ascii_suffix, escape, find_ascii_suffix, find_message, find_suffix32, search_target,
};

const CRC32: u64 = 0x1_04c1_1db7;
const CRC32C: u64 = 0x1_1edc_6f41;

#[test]
fn ascii_suffix_exact_values() {
    // all letters H
    assert_eq!(ascii_suffix(0), 0x4848_4848_4848_4848);
    assert_eq!(&ascii_suffix(0).to_le_bytes(), b"HHHHHHHH");
    // the first letter counts up
    assert_eq!(&ascii_suffix(1).to_le_bytes(), b"IHHHHHHH");
    assert_eq!(&ascii_suffix(15).to_le_bytes(), b"WHHHHHHH");
    // the fifth bit is the case
    assert_eq!(&ascii_suffix(16).to_le_bytes(), b"hHHHHHHH");
    assert_eq!(&ascii_suffix(31).to_le_bytes(), b"wHHHHHHH");
    // then the second letter
    assert_eq!(&ascii_suffix(32).to_le_bytes(), b"HIHHHHHH");
    assert_eq!(&ascii_suffix(0xff_ffff_ffff).to_le_bytes(), b"wwwwwwww");
}

#[test]
fn ascii_suffix_gives_letters_only() {
    let mut state = 0x243f_6a88_85a3_08d3u64;
    for _ in 0..500 {
        state ^= state << 13;
        state ^= state >> 7;
        state ^= state << 17;
        let i = state & 0xff_ffff_ffff;
        let bytes = ascii_suffix(i).to_le_bytes();
        for k in 0..8 {
            let group = ((i >> (5 * k)) & 0x1f) as u8;
            let letter = if group < 16 { b'H' + group } else { b'h' + group - 16 };
            assert_eq!(bytes[k], letter);
        }
    }
}

#[test]
fn escape_exact_values() {
    assert_eq!(escape(b""), b"");
    assert_eq!(escape(b"hello, world"), b"hello, world");
    assert_eq!(escape(b" ~"), b" ~");
    assert_eq!(escape(&[0]), b"\\x00");
    assert_eq!(escape(&[0x1f, 0x7f, 0xff]), b"\\x1f\\x7f\\xff");
    assert_eq!(escape(b"a\nb"), b"a\\x0ab");
    assert_eq!(escape(&[0xab, b'c', 0x9d]), b"\\xabc\\x9d");
}

#[test]
fn escape_is_that_of_the_formatter() {
    let message: Vec<u8> = (0..=255u8).collect();
    let mut text = String::new();
    for b in &message {
        if *b >= b' ' && *b <= b'~' {
            text.push(*b as char);
        } else {
            text.push_str(&format!("\\x{:02x}", b));
        }
    }
    assert_eq!(escape(&message), text.as_bytes());
}

#[test]
fn search_target_is_the_xor_of_three_checksums() {
    let e = Crc32::new(CRC32);
    let x = e.crc32(e.crc32(0, b"hello"), &[0; 4]);
    let c = e.crc32(0, &[0; 4]);
    assert_eq!(search_target(&e, b"hello", 0x1234_5678, false), x ^ 0x1234_5678 ^ c);
    let x = e.crc32(e.crc32(0, b"hello"), &[0; 8]);
    let c = e.crc32(0, &[0; 8]);
    assert_eq!(search_target(&e, b"hello", 0x1234_5678, true), x ^ 0x1234_5678 ^ c);
}

#[test]
fn search_target_decides() {
    let e = Crc32::new(CRC32C);
    let prefix = b"some prefix";
    for suffix in [[0u8, 0, 0, 0], [1, 2, 3, 4], [0xff, 0xfe, 0xfd, 0xfc]] {
        let mut whole = prefix.to_vec();
        whole.extend_from_slice(&suffix);
        let wanted = e.crc32(0, &whole);
        assert_eq!(search_target(&e, prefix, wanted, false), e.crc32(0, &suffix));
        assert_ne!(search_target(&e, prefix, wanted ^ 1, false), e.crc32(0, &suffix));
    }
}

#[test]
fn find_suffix32_finds_the_suffix() {
    let e = Crc32::new(CRC32);
    for i in [0u32, 1, 2, 1000, 70_000] {
        let target = e.crc32(0, &i.to_le_bytes());
        assert_eq!(find_suffix32(&e, target), Some(i));
    }
}

#[test]
fn find_ascii_suffix_finds_the_suffix() {
    let e = Crc32::new(CRC32);
    for i in [0u64, 1, 31, 32, 50_000] {
        let target = e.crc32(0, &ascii_suffix(i).to_le_bytes());
        assert_eq!(find_ascii_suffix(&e, target), Some(i));
    }
}

#[test]
fn find_message_has_the_wanted_checksum() {
    let e = Crc32::new(CRC32);
    let prefix = b"hello ";
    // a checksum that an early suffix reaches
    let mut whole = prefix.to_vec();
    whole.extend_from_slice(&12345u32.to_le_bytes());
    let wanted = e.crc32(0, &whole);
    let found = find_message(&e, prefix, wanted, false).unwrap();
    assert_eq!(found, whole);
    assert_eq!(e.crc32(0, &found), wanted);
    assert_eq!(e.crc32(e.crc32(0, prefix), &found[prefix.len()..]), wanted);
}

#[test]
fn find_message_in_letters() {
    let e = Crc32::new(CRC32C);
    let prefix = b"";
    let mut whole = prefix.to_vec();
    whole.extend_from_slice(b"hiWHHHHH");
    let wanted = e.crc32(0, &whole);
    let found = find_message(&e, prefix, wanted, true).unwrap();
    assert_eq!(found.len(), 8);
    assert_eq!(e.crc32(0, &found), wanted);
    for b in &found {
        assert!((b'H'..=b'W').contains(b) || (b'h'..=b'w').contains(b));
    }
    assert_eq!(escape(&found), found);
}
