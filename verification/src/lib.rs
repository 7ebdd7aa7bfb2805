//! CRC-32 checksums by Barrett reduction, verified with Verus.
//!
//! A checksum of this family is the remainder of the message, read as a
//! polynomial over GF(2), by a generator polynomial of degree 32. The
//! engine in [`crc`] takes the message in four bytes at a time: two
//! carry-less multiplications, by the reciprocal of the generator and by
//! the generator itself, do the work of 32 steps of the shift register.
//!
//! - [`gf2`] defines the product of binary polynomials and proves its
//!   algebra.
//! - [`pmul`] multiplies machine words without carries.
//! - [`pdiv`] divides binary polynomials with remainder.
//! - [`reflect`] reverses the bit order of a word.
//! - [`serial`] defines the checksum bit by bit, the way a shift register
//!   computes it.
//! - [`barrett`] proves that folding by two multiplications is 32 steps
//!   of the shift register.
//! - [`crc`] holds the engine and proves that it computes the checksum
//!   of [`serial`], and that checksums chain.
//! - [`parse`] reads numbers with the prefixes `0x`, `0o` and `0b`.
//! - [`search`] finds a suffix that gives a message a wanted checksum.

pub mod gf2;
pub mod pmul;
pub mod pdiv;
pub mod reflect;
pub mod serial;
pub mod barrett;
pub mod crc;
pub mod parse;
pub mod search;
