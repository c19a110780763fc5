//! Base-conversion arithmetic for a 5x5 matrix of 64-bit hash-state lanes.
//!
//! Bitwise steps of the hash round are simulated by ordinary arithmetic
//! once each 64-bit lane is spread out one bit per digit in a wider
//! positional base (base 13 for the linear steps, base 9 for the
//! non-linear one).  This crate provides the digit codecs, the lane
//! converters between binary, base-9 and base-13 representations, the
//! arbitrary-precision state container, and the bridge to fixed-width
//! field-element encodings.

pub mod bignum;
pub mod codec;
pub mod lane;
pub mod state;
pub mod bridge;
pub mod digits;
