//! RLP scalar encoding of fixed-width two's-complement signed integers.
//!
//! [`Signed`] holds the bit pattern of an integer in 64-bit words.
//! `Signed::encode` writes the pattern as an RLP string without leading zero
//! bytes, `Signed::length` tells how many bytes that takes, and
//! `Signed::decode` reads such a string back.

pub mod radix;
pub mod rlp;
pub mod signed;
pub mod theorems;
pub mod wire;

pub use signed::Signed;
pub use wire::{DecodeError, RlpHeader};
