//! Unsigned integers in text: decimal, or in base 16, 8 or 2 behind the
//! prefix `0x`, `0o` or `0b`.

use vstd::prelude::*;
use vstd::string::StringSliceAdditionalSpecFns;

verus! {

/// Why a text is no number.
#[derive(Debug, Clone, Copy, PartialEq, Eq)]
pub enum ParseError {
    /// There is no text where the number should stand.
    Empty,
    /// A character is no digit of the base, or a sign stands alone.
    InvalidDigit,
    /// The number does not fit the integer type.
    PosOverflow,
}

/// The value of a character as a digit, for every base up to 36: the ten
/// numerals, then the letters in either case.
pub open spec fn digit_of(c: u8) -> Option<u32> {
    if 0x30 <= c <= 0x39 {
        Some((c - 0x30) as u32)
    } else if 0x61 <= c <= 0x7a {
        Some((c - 0x61 + 10) as u32)
    } else if 0x41 <= c <= 0x5a {
        Some((c - 0x41 + 10) as u32)
    } else {
        None
    }
}

/// The number that a run of digits writes in base `radix`, if it is at
/// most `max`. Of several faults the first one in the text counts, and in
/// one place a character that is no digit counts before the size of the
/// number.
pub open spec fn digits_value(digits: Seq<u8>, radix: u32, max: u64) -> Result<u64, ParseError>
    decreases digits.len(),
{
    if digits.len() == 0 {
        Ok(0)
    } else {
        match digits_value(digits.drop_last(), radix, max) {
            Err(e) => Err(e),
            Ok(v) => match digit_of(digits.last()) {
                Some(d) => if d >= radix {
                    Err(ParseError::InvalidDigit)
                } else if v * radix + d > max {
                    Err(ParseError::PosOverflow)
                } else {
                    Ok((v * radix + d) as u64)
                },
                None => Err(ParseError::InvalidDigit),
            },
        }
    }
}

/// The number that a text writes in base `radix`: digits, with or without
/// a plus sign before them.
pub open spec fn radix_value(text: Seq<u8>, radix: u32, max: u64) -> Result<u64, ParseError> {
    if text.len() == 0 {
        Err(ParseError::Empty)
    } else if text.len() == 1 && (text[0] == 0x2b || text[0] == 0x2d) {
        Err(ParseError::InvalidDigit)
    } else if text[0] == 0x2b {
        digits_value(text.skip(1), radix, max)
    } else {
        digits_value(text, radix, max)
    }
}

/// `text` begins with a zero and the letter `mark`.
pub open spec fn has_prefix(text: Seq<u8>, mark: u8) -> bool {
    text.len() >= 2 && text[0] == 0x30 && text[1] == mark
}

/// The number that a text writes, the base taken from its prefix.
pub open spec fn number_value(text: Seq<u8>, max: u64) -> Result<u64, ParseError> {
    if has_prefix(text, 0x78) {
        radix_value(text.skip(2), 16, max)
    } else if has_prefix(text, 0x6f) {
        radix_value(text.skip(2), 8, max)
    } else if has_prefix(text, 0x62) {
        radix_value(text.skip(2), 2, max)
    } else {
        radix_value(text, 10, max)
    }
}

/// A fault in a run of digits stays when more digits follow.
proof fn lemma_fault_stays(digits: Seq<u8>, n: int, radix: u32, max: u64)
    requires
        0 <= n <= digits.len(),
        digits_value(digits.take(n), radix, max) is Err,
    ensures
        digits_value(digits, radix, max) == digits_value(digits.take(n), radix, max),
    decreases digits.len() - n,
{
    if n < digits.len() {
        let more = digits.take(n + 1);
        assert(more.drop_last() =~= digits.take(n));
        lemma_fault_stays(digits, n + 1, radix, max);
    } else {
        assert(digits.take(n) =~= digits);
    }
}

/// The value of the character `c` as a digit of base `radix`.
fn digit(c: u8, radix: u32) -> (d: Option<u32>)
    ensures
        d == (match digit_of(c) {
            Some(v) => if v < radix {
                Some(v)
            } else {
                None
            },
            None => None,
        }),
{
    let v: u32 = if 0x30 <= c && c <= 0x39 {
        (c - 0x30) as u32
    } else if 0x61 <= c && c <= 0x7a {
        (c - 0x61 + 10) as u32
    } else if 0x41 <= c && c <= 0x5a {
        (c - 0x41 + 10) as u32
    } else {
        return None;
    };
    if v < radix {
        Some(v)
    } else {
        None
    }
}

/// Reads the digits of `text` from place `from` on.
fn parse_digits(text: &[u8], from: usize, radix: u32, max: u64) -> (res: Result<u64, ParseError>)
    requires
        from <= text@.len(),
    ensures
        res == digits_value(text@.skip(from as int), radix, max),
{
    let ghost digits = text@.skip(from as int);
    let mut value: u64 = 0;
    let mut i: usize = from;
    proof {
        assert(digits.take(0) =~= Seq::<u8>::empty());
    }
    while i < text.len()
        invariant
            from <= i <= text@.len(),
            digits == text@.skip(from as int),
            digits_value(digits.take(i - from), radix, max) == Ok::<u64, ParseError>(value),
        decreases text@.len() - i,
    {
        let ghost more = digits.take(i - from + 1);
        proof {
            assert(more.drop_last() =~= digits.take(i - from));
            assert(more.last() == text@[i as int]);
        }
        let d = match digit(text[i], radix) {
            Some(d) => d,
            None => {
                proof {
                    lemma_fault_stays(digits, i - from + 1, radix, max);
                }
                return Err(ParseError::InvalidDigit);
            },
        };
        let next = match value.checked_mul(radix as u64) {
            Some(scaled) => scaled.checked_add(d as u64),
            None => None,
        };
        value = match next {
            Some(v) if v <= max => v,
            _ => {
                proof {
                    lemma_fault_stays(digits, i - from + 1, radix, max);
                }
                return Err(ParseError::PosOverflow);
            },
        };
        i += 1;
    }
    proof {
        assert(digits.take(i - from) =~= digits);
    }
    Ok(value)
}

/// Reads a number in base `radix` from place `from` of `text` on.
fn parse_radix(text: &[u8], from: usize, radix: u32, max: u64) -> (res: Result<u64, ParseError>)
    requires
        from <= text@.len(),
    ensures
        res == radix_value(text@.skip(from as int), radix, max),
{
    let ghost rest = text@.skip(from as int);
    let len = text.len() - from;
    if len == 0 {
        return Err(ParseError::Empty);
    }
    let first = text[from];
    proof {
        assert(rest[0] == first);
    }
    if len == 1 && (first == 0x2b || first == 0x2d) {
        return Err(ParseError::InvalidDigit);
    }
    if first == 0x2b {
        proof {
            assert(rest.skip(1) =~= text@.skip(from + 1));
        }
        parse_digits(text, from + 1, radix, max)
    } else {
        parse_digits(text, from, radix, max)
    }
}

/// Reads a number of at most `max`, the base taken from its prefix.
fn parse_number(text: &[u8], max: u64) -> (res: Result<u64, ParseError>)
    ensures
        res == number_value(text@, max),
{
    proof {
        assert(text@.skip(0) =~= text@);
    }
    if text.len() >= 2 && text[0] == 0x30 {
        if text[1] == 0x78 {
            return parse_radix(text, 2, 16, max);
        } else if text[1] == 0x6f {
            return parse_radix(text, 2, 8, max);
        } else if text[1] == 0x62 {
            return parse_radix(text, 2, 2, max);
        }
    }
    parse_radix(text, 0, 10, max)
}

/// Reads a 32-bit number from `s`.
pub fn parse_u32(s: &str) -> (res: Result<u32, ParseError>)
    ensures
        res == (match number_value(s.spec_bytes(), 0xffff_ffff) {
            Ok(v) => Ok::<u32, ParseError>(v as u32),
            Err(e) => Err(e),
        }),
{
    match parse_number(s.as_bytes(), 0xffff_ffff) {
        Ok(v) => Ok(v as u32),
        Err(e) => Err(e),
    }
}

/// Reads a 64-bit number from `s`.
pub fn parse_u64(s: &str) -> (res: Result<u64, ParseError>)
    ensures
        res == number_value(s.spec_bytes(), 0xffff_ffff_ffff_ffff),
{
    parse_number(s.as_bytes(), 0xffff_ffff_ffff_ffff)
}

} // verus!
