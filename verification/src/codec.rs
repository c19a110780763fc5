//! Digit codecs: recover one boolean bit from one arithmetic digit.
//!
//! After several one-bit-per-digit lanes are summed digit-wise without
//! carries, each digit holds an arithmetic sum of bits.  `convert_b13_coef`
//! decodes a base-13 digit as the xor of the summed bits (their parity);
//! `convert_b9_coef` decodes a base-9 digit `2a + b + 3c + 2d` as the
//! non-linear combinator `a ^ (!b & c) ^ d`.

use vstd::prelude::*;

verus! {

/// Base of the native binary encoding of a lane.
pub const B2: u8 = 2;

/// Base used for the xor-heavy linear steps: up to 12 bits may be summed
/// per digit without carry.
pub const B13: u8 = 13;

/// Base used for the non-linear step: the combinator's arithmetic image
/// `2a + b + 3c + 2d` stays below 9.
pub const B9: u8 = 9;

/// Scaler of the first bit in the base-9 coefficient map
/// `f_arith(a, b, c, d) = 2a + b + 3c + 2d`, whose image in [0, 9)
/// injectively determines `f_logic(a, b, c, d) = a ^ (!b & c) ^ d`.
pub const A1: u64 = 2;

/// Scaler of the second bit in the base-9 coefficient map.
pub const A2: u64 = 1;

/// Scaler of the third bit in the base-9 coefficient map.
pub const A3: u64 = 3;

/// Scaler of the fourth bit in the base-9 coefficient map.
pub const A4: u64 = 2;

/// The bit encoded by a base-13 digit: its parity.
pub open spec fn coef13(x: u8) -> u8 {
    x % 2
}

/// The bit encoded by a base-9 digit, as fixed by the lookup table
/// `[0, 0, 1, 1, 0, 0, 1, 1, 0]` over the digits 0 through 8.
pub open spec fn coef9(x: u8) -> u8 {
    if x == 2 || x == 3 || x == 6 || x == 7 {
        1
    } else {
        0
    }
}

/// Decodes a base-13 digit, the carry-free sum of up to 12 bits, to the
/// xor of those bits: the sum is odd exactly when an odd number of bits
/// are set.
pub fn convert_b13_coef(x: u8) -> (r: u8)
    requires
        x < 13,
    ensures
        r == coef13(x),
        r == x % 2,
        r <= 1,
{
    proof {
        assert((x & 1) == x % 2) by (bit_vector);
    }
    x & 1
}

/// Decodes a base-9 digit, the arithmetic image `2a + b + 3c + 2d` of four
/// bits, to the combinator `a ^ (!b & c) ^ d`, by table lookup.
pub fn convert_b9_coef(x: u8) -> (r: u8)
    requires
        x < 9,
    ensures
        r == coef9(x),
        r <= 1,
{
    let bit_table: [u8; 9] = [0, 0, 1, 1, 0, 0, 1, 1, 0];
    bit_table[x as usize]
}

/// The table behind `coef9` agrees with the non-linear bit combinator:
/// for bits `a`, `b`, `c`, `d`, the digit `2a + b + 3c + 2d` decodes to
/// `a ^ (!b & c) ^ d`.
pub proof fn lemma_coef9_formula(a: u8, b: u8, c: u8, d: u8)
    by (bit_vector)
    requires
        a <= 1,
        b <= 1,
        c <= 1,
        d <= 1,
    ensures
        coef9((2 * a + b + 3 * c + 2 * d) as u8) == (a ^ ((!b) & c)) ^ d,
{
}

} // verus!
