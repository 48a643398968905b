//! ZOSCII codec: a reversible substitution code that replaces each byte of a
//! plaintext by the address of some occurrence of that byte value inside a
//! reference binary blob (the ROM).
//!
//! The crate provides the reverse index from byte value to ROM addresses,
//! legacy character-code converters, the randomized encoder, the deterministic
//! decoder, the little-endian address wire format, and the integer core of the
//! strength analysis.

pub mod region;
pub mod index;
pub mod convert;
pub mod encode;
pub mod decode;
pub mod wire;
pub mod strength;
