//! Codecs that map a 64-bit identifier to a short printable string and back.
//!
//! Two independent codecs are provided:
//!
//! - [`crockford_base32`]: a 32-symbol alphabet, five bits per symbol,
//!   case-insensitive on decode, with the confusable letters `I`, `L`, `O`
//!   remapped onto digits and `U` rejected outright.
//! - [`hashid_like`]: a 62-symbol alphabet (digits, lowercase, uppercase),
//!   case-sensitive, plain base-62 arithmetic.
//!
//! Both codecs emit the least-significant symbol first, so the encoded string
//! read left to right is little-endian in symbol significance. For every
//! `u64`, decoding the encoded string recovers the value exactly; malformed
//! input is rejected with `None` rather than decoded to a wrong number.

pub mod ascii;
pub mod crockford_base32;
pub mod hashid_like;
