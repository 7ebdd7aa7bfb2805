use polycrc::parse::{parse_u32, parse_u64, ParseError};
use std::num::IntErrorKind;
use std::str::FromStr;

fn kind(e: std::num::ParseIntError) -> ParseError {
    match e.kind() {
        IntErrorKind::Empty => ParseError::Empty,
        IntErrorKind::InvalidDigit => ParseError::InvalidDigit,
        IntErrorKind::PosOverflow => ParseError::PosOverflow,
        other => panic!("no unsigned number fails with {:?}", other),
    }
}

/// The same reading with the parsers of the standard library.
fn std_u32(s: &str) -> Result<u32, ParseError> {
    if s.starts_with("0x") {
        u32::from_str_radix(&s[2..], 16).map_err(kind)
    } else if s.starts_with("0o") {
        u32::from_str_radix(&s[2..], 8).map_err(kind)
    } else if s.starts_with("0b") {
        u32::from_str_radix(&s[2..], 2).map_err(kind)
    } else {
        u32::from_str(s).map_err(kind)
    }
}

fn std_u64(s: &str) -> Result<u64, ParseError> {
    if s.starts_with("0x") {
        u64::from_str_radix(&s[2..], 16).map_err(kind)
    } else if s.starts_with("0o") {
        u64::from_str_radix(&s[2..], 8).map_err(kind)
    } else if s.starts_with("0b") {
        u64::from_str_radix(&s[2..], 2).map_err(kind)
    } else {
        u64::from_str(s).map_err(kind)
    }
}

const TEXTS: [&str; 64] = [
    "", "0", "1", "9", "10", "42", "007", "4294967295", "4294967296", "4294967297",
    "18446744073709551615", "18446744073709551616", "99999999999999999999999",
    "0x", "0x0", "0x10", "0xff", "0xFF", "0xffffffff", "0x100000000", "0x11edc6f41",
    "0x104c11db7", "0xffffffffffffffff", "0x10000000000000000", "0xg", "0x1g", "0X10",
    "0o", "0o7", "0o17", "0o8", "0o37777777777", "0o40000000000",
    "0o1777777777777777777777", "0o2000000000000000000000",
    "0b", "0b0", "0b1", "0b101", "0b2", "0b11111111111111111111111111111111",
    "0b100000000000000000000000000000000", "+", "-", "+5", "-5", "0x+5", "0x-5", "0x+",
    "++5", "5+", " 5", "5 ", "1_000", "ff", "1e3", "0b", "0xx1", "00x1", "0o0o1", "é", "0xé",
    "12é", "99999999999999999999999999999999999x",
];

#[test]
fn parse_u32_exact_values() {
    assert_eq!(parse_u32("0"), Ok(0));
    assert_eq!(parse_u32("42"), Ok(42));
    assert_eq!(parse_u32("4294967295"), Ok(u32::MAX));
    assert_eq!(parse_u32("0x10"), Ok(16));
    assert_eq!(parse_u32("0xdeadBEEF"), Ok(0xdead_beef));
    assert_eq!(parse_u32("0o17"), Ok(15));
    assert_eq!(parse_u32("0b101"), Ok(5));
    assert_eq!(parse_u32("+7"), Ok(7));
    assert_eq!(parse_u32("0x+7"), Ok(7));
}

#[test]
fn parse_u64_exact_values() {
    assert_eq!(parse_u64("0x11edc6f41"), Ok(0x1_1edc_6f41));
    assert_eq!(parse_u64("0x104c11db7"), Ok(0x1_04c1_1db7));
    assert_eq!(parse_u64("4374732215"), Ok(0x1_04c1_1db7));
    assert_eq!(parse_u64("18446744073709551615"), Ok(u64::MAX));
    assert_eq!(parse_u64("0xffffffffffffffff"), Ok(u64::MAX));
    assert_eq!(parse_u64("0b0"), Ok(0));
}

#[test]
fn empty_text_is_no_number() {
    assert_eq!(parse_u32(""), Err(ParseError::Empty));
    assert_eq!(parse_u32("0x"), Err(ParseError::Empty));
    assert_eq!(parse_u64("0o"), Err(ParseError::Empty));
    assert_eq!(parse_u64("0b"), Err(ParseError::Empty));
}

#[test]
fn wrong_digits_are_told() {
    assert_eq!(parse_u32("12a"), Err(ParseError::InvalidDigit));
    assert_eq!(parse_u32("0b2"), Err(ParseError::InvalidDigit));
    assert_eq!(parse_u32("0o8"), Err(ParseError::InvalidDigit));
    assert_eq!(parse_u32("0xg"), Err(ParseError::InvalidDigit));
    assert_eq!(parse_u32("+"), Err(ParseError::InvalidDigit));
    assert_eq!(parse_u32("-"), Err(ParseError::InvalidDigit));
    assert_eq!(parse_u32("-1"), Err(ParseError::InvalidDigit));
    assert_eq!(parse_u64("0X10"), Err(ParseError::InvalidDigit));
}

#[test]
fn large_numbers_are_told() {
    assert_eq!(parse_u32("4294967296"), Err(ParseError::PosOverflow));
    assert_eq!(parse_u32("0x100000000"), Err(ParseError::PosOverflow));
    assert_eq!(parse_u32("0x11edc6f41"), Err(ParseError::PosOverflow));
    assert_eq!(parse_u64("18446744073709551616"), Err(ParseError::PosOverflow));
    assert_eq!(parse_u64("0x10000000000000000"), Err(ParseError::PosOverflow));
}

#[test]
fn the_first_fault_counts() {
    // too large before the wrong digit is reached
    assert_eq!(parse_u32("99999999999x"), Err(ParseError::PosOverflow));
    // the wrong digit before the number is too large
    assert_eq!(parse_u32("9x9999999999"), Err(ParseError::InvalidDigit));
    // in one place the wrong digit counts
    assert_eq!(parse_u32("4294967295x"), Err(ParseError::InvalidDigit));
}

#[test]
fn parse_u32_reads_as_the_standard_library() {
    for text in TEXTS {
        assert_eq!(parse_u32(text), std_u32(text), "{:?}", text);
    }
}

#[test]
fn parse_u64_reads_as_the_standard_library() {
    for text in TEXTS {
        assert_eq!(parse_u64(text), std_u64(text), "{:?}", text);
    }
}

#[test]
fn every_number_reads_back() {
    let mut state = 0x6a09_e667_f3bc_c908u64;
    for _ in 0..200 {
        state ^= state << 13;
        state ^= state >> 7;
        state ^= state << 17;
        let n = state >> (state % 64);
        assert_eq!(parse_u64(&format!("{}", n)), Ok(n));
        assert_eq!(parse_u64(&format!("0x{:x}", n)), Ok(n));
        assert_eq!(parse_u64(&format!("0x{:X}", n)), Ok(n));
        assert_eq!(parse_u64(&format!("0o{:o}", n)), Ok(n));
        assert_eq!(parse_u64(&format!("0b{:b}", n)), Ok(n));
        assert_eq!(parse_u32(&format!("{}", n)), std_u32(&format!("{}", n)));
    }
}
