//! Trusted boundary to the arbitrary-precision integers of `num_bigint`.
//!
//! A lane leaves the 64-bit range once it is spread out one bit per digit
//! in base 9 or base 13 (up to 65 base-13 digits, about 241 bits), so the
//! converters carry lanes as `num_bigint::BigUint` values.  Verus cannot
//! look inside that type; `big_value` names the natural number a value
//! represents, and each wrapper below states, over `big_value` and the
//! digit model of `crate::digits`, exactly what the underlying library
//! call does according to its source.

use vstd::prelude::*;

verus! {

use num_bigint::BigUint;
use crate::digits::digits_value;
use crate::digits::radix_le;
use vstd::arithmetic::power2::pow2;

#[verifier::external_type_specification]
#[verifier::external_body]
pub struct ExBigUint(BigUint);

/// The natural number that a `BigUint` represents.
pub uninterp spec fn big_value(x: BigUint) -> nat;

/// Relies on `<BigUint as From<u64>>::from`: the resulting integer has
/// exactly the given value.
#[verifier::external_body]
pub(crate) fn big_from_u64(x: u64) -> (r: BigUint)
    ensures
        big_value(r) == x as nat,
{
    BigUint::from(x)
}

/// Relies on `<BigUint as Clone>::clone`: the copy represents the same
/// value.
#[verifier::external_body]
pub(crate) fn big_clone(x: &BigUint) -> (r: BigUint)
    ensures
        big_value(r) == big_value(*x),
{
    x.clone()
}

/// Relies on `BigUint::to_radix_le`: the little-endian digits of the value
/// in the given base, with no high-order zero digit, and the single digit
/// 0 for the value zero.
#[verifier::external_body]
pub(crate) fn big_to_radix_le(x: &BigUint, radix: u32) -> (r: Vec<u8>)
    requires
        2 <= radix <= 256,
    ensures
        r@ == (if big_value(*x) == 0 {
            seq![0u8]
        } else {
            radix_le(big_value(*x), radix as nat)
        }),
{
    x.to_radix_le(radix)
}

/// Relies on `BigUint::from_radix_le`: reads each byte as one little-endian
/// digit in the given base; yields a value exactly when every digit is
/// below the base, and `None` otherwise.
#[verifier::external_body]
pub(crate) fn big_from_radix_le(buf: &Vec<u8>, radix: u32) -> (r: Option<BigUint>)
    requires
        2 <= radix <= 256,
    ensures
        (r is Some) <==> (forall|i: int| 0 <= i < buf@.len() ==> buf@[i] < radix),
        r matches Some(b) ==> big_value(b) == digits_value(buf@, radix as nat),
{
    BigUint::from_radix_le(buf.as_slice(), radix)
}

/// Relies on `BigUint::to_bytes_le`: the little-endian base-256 digits of
/// the value, with no high-order zero byte, and the single byte 0 for the
/// value zero.
#[verifier::external_body]
pub(crate) fn big_to_bytes_le(x: &BigUint) -> (r: Vec<u8>)
    ensures
        r@ == (if big_value(*x) == 0 {
            seq![0u8]
        } else {
            radix_le(big_value(*x), 256)
        }),
{
    x.to_bytes_le()
}

/// Relies on `BigUint::from_bytes_le`: reads the bytes as little-endian
/// base-256 digits; never fails.
#[verifier::external_body]
pub(crate) fn big_from_bytes_le(bytes: &Vec<u8>) -> (r: BigUint)
    ensures
        big_value(r) == digits_value(bytes@, 256),
{
    BigUint::from_bytes_le(bytes.as_slice())
}

/// Relies on `BigUint::to_u64_digits`: the little-endian 64-bit limbs of
/// the value, empty for zero, so the first limb is the value modulo 2^64.
#[verifier::external_body]
pub(crate) fn big_low_u64(x: &BigUint) -> (r: u64)
    ensures
        r as nat == big_value(*x) % pow2(64),
{
    x.to_u64_digits().first().copied().unwrap_or(0)
}

} // verus!
