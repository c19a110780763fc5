//! Lane converters between binary, base-9 and base-13 encodings.
//!
//! A 64-bit lane is spread out one bit per digit into a wider base
//! (`convert_b2_to_b13`, `convert_b2_to_b9`), remapped digit-wise between
//! bases (`convert_lane` and its base-9 instances), or pushed through the
//! rotation-aware fold of the linear step (`convert_b13_lane_to_b9`).

use vstd::prelude::*;

verus! {

use num_bigint::BigUint;
use crate::bignum::big_value;
use crate::bignum::big_from_u64;
use crate::bignum::big_to_radix_le;
use crate::bignum::big_from_radix_le;
use crate::bignum::big_low_u64;
use crate::codec::B2;
use crate::codec::B9;
use crate::codec::B13;
use crate::codec::coef9;
use crate::codec::coef13;
use crate::codec::convert_b9_coef;
use crate::codec::convert_b13_coef;
use crate::digits::digits_value;
use crate::digits::radix_le;
use crate::digits::pad_to;
use crate::digits::lemma_radix_le_digits;
use crate::digits::lemma_radix_le_of_digits;
use crate::digits::lemma_pad_value;
use crate::digits::lemma_zeros_value;
use vstd::arithmetic::power2::pow2;
use vstd::arithmetic::power2::lemma_pow2_adds;
use vstd::arithmetic::power2::lemma2_to64;
use vstd::arithmetic::power2::lemma2_to64_rest;
use vstd::arithmetic::div_mod::lemma_basic_div;
use vstd::arithmetic::div_mod::lemma_div_denominator;
use vstd::arithmetic::div_mod::lemma_fundamental_div_mod;
use vstd::arithmetic::div_mod::lemma_small_mod;
use vstd::arithmetic::power::pow;
use crate::digits::lemma_radix_le_len;
use vstd::bits::lemma_u64_shr_is_div;
use vstd::bits::lemma_u64_low_bits_mask_is_mod;
use vstd::bits::lemma_low_bits_mask_values;

/// The 64 bits of a word, least significant first, each as a digit 0 or 1.
pub open spec fn word_bits(w: u64) -> Seq<u8> {
    Seq::new(64, |i: int| ((w >> (i as u64)) & 1) as u8)
}

/// The digit sequence that the arbitrary-precision layer hands out for a
/// lane: the canonical expansion, except that zero is one zero digit.
pub open spec fn lane_digits_le(v: nat, base: nat) -> Seq<u8> {
    if v == 0 {
        seq![0u8]
    } else {
        radix_le(v, base)
    }
}

/// Recomposition with the silent zero default: a digit sequence whose
/// digits all fit the target base is read positionally; any out-of-range
/// digit makes the whole result zero.
pub open spec fn rebase_or_zero(d: Seq<u8>, to_base: nat) -> nat {
    if forall|i: int| 0 <= i < d.len() ==> d[i] < to_base {
        digits_value(d, to_base)
    } else {
        0
    }
}

/// Every digit of a sequence pushed through the base-9 codec.
pub open spec fn map_coef9(d: Seq<u8>) -> Seq<u8> {
    Seq::new(d.len(), |i: int| coef9(d[i]))
}

/// Every digit of a sequence pushed through the base-13 codec.
pub open spec fn map_coef13(d: Seq<u8>) -> Seq<u8> {
    Seq::new(d.len(), |i: int| coef13(d[i]))
}

/// What `convert_b9_lane_to_b13` returns: every base-9 digit decoded by
/// the non-linear codec, recomposed in base 13.
pub open spec fn b9_to_b13_spec(v: nat) -> nat {
    rebase_or_zero(map_coef9(lane_digits_le(v, 9)), 13)
}

/// What `convert_b9_lane_to_b2` computes before truncation: every base-9
/// digit decoded by the non-linear codec, recomposed in base 2.
pub open spec fn b9_to_b2_spec(v: nat) -> nat {
    rebase_or_zero(map_coef9(lane_digits_le(v, 9)), 2)
}

/// What the identity ("normal") re-basing to binary computes before
/// truncation: the base-`from_base` digits of `v` read unchanged as
/// binary digits.
pub open spec fn identity_rebase_spec(v: nat, from_base: nat) -> nat {
    rebase_or_zero(lane_digits_le(v, from_base), 2)
}

/// Every entry of `word_bits` is 0 or 1.
pub proof fn lemma_word_bits_range(w: u64)
    ensures
        forall|i: int| 0 <= i < 64 ==> word_bits(w)[i] <= 1,
{
    assert(forall|k: u64| ((w >> k) & 1) <= 1) by (bit_vector);
}

/// The bits of a word, read as binary digits, are worth the word itself.
pub proof fn lemma_word_bits_value(w: u64)
    ensures
        digits_value(word_bits(w), 2) == w as nat,
{
    lemma_word_bits_suffix(w, 0);
    assert(pow2(0) == 1) by {
        lemma2_to64();
    }
    assert(Seq::new(64, |j: int| ((w >> ((0 + j) as u64)) & 1) as u8) =~= word_bits(w));
    assert((w as nat) / 1 == w as nat) by {
        vstd::arithmetic::div_mod::lemma_div_basics(w as int);
    }
}

/// The bits of `w` from position `i` upward are worth `w / 2^i`.
proof fn lemma_word_bits_suffix(w: u64, i: nat)
    requires
        i <= 64,
    ensures
        digits_value(Seq::new((64 - i) as nat, |j: int| ((w >> ((i + j) as u64)) & 1) as u8), 2)
            == (w as nat) / pow2(i),
    decreases 64 - i,
{
    let s = Seq::new((64 - i) as nat, |j: int| ((w >> ((i + j) as u64)) & 1) as u8);
    if i == 64 {
        assert(w < pow2(64)) by {
            lemma2_to64_rest();
        }
        lemma_basic_div(w as int, pow2(64) as int);
    } else {
        lemma_word_bits_suffix(w, i + 1);
        let rest = Seq::new((64 - (i + 1)) as nat, |j: int| ((w >> (((i + 1) + j) as u64)) & 1) as u8);
        assert(s.drop_first() =~= rest);
        let q = (w as nat) / pow2(i);
        lemma_u64_shr_is_div(w, i as u64);
        assert((w >> (i as u64)) == q);
        lemma_low_bits_mask_values();
        lemma_u64_low_bits_mask_is_mod(w >> (i as u64), 1);
        assert(pow2(1) == 2) by {
            lemma2_to64();
        }
        assert(s[0] == ((w >> (i as u64)) & 1) as u8);
        assert(((w >> (i as u64)) & 1) as nat == q % 2);
        assert((w as nat) / pow2(i + 1) == q / 2) by {
            lemma_pow2_adds(i, 1);
            vstd::arithmetic::power2::lemma_pow2_pos(i);
            lemma_div_denominator(w as int, pow2(i) as int, 2);
        }
        lemma_fundamental_div_mod(q as int, 2);
        assert(digits_value(s, 2) == (q % 2) + 2 * (q / 2));
    }
}

/// The 64 bits of a word, least significant first, as a vector of digits.
fn bits_of_word(a: u64) -> (r: Vec<u8>)
    ensures
        r@ == word_bits(a),
{
    let mut bits: Vec<u8> = Vec::new();
    let mut i: usize = 0;
    while i < 64
        invariant
            0 <= i <= 64,
            bits@.len() == i,
            forall|j: int| 0 <= j < i ==> bits@[j] == word_bits(a)[j],
        decreases 64 - i,
    {
        let bit = ((a >> (i as u64)) & 1) as u8;
        bits.push(bit);
        i += 1;
    }
    assert(bits@ =~= word_bits(a));
    bits
}

/// Spreads a 64-bit word out one bit per base-13 digit: bit `i` of the
/// word becomes the coefficient of `13^i`.
pub fn convert_b2_to_b13(a: u64) -> (r: BigUint)
    ensures
        big_value(r) == digits_value(word_bits(a), 13),
        big_value(r) < pow(13, 64),
{
    let bits = bits_of_word(a);
    proof {
        lemma_word_bits_range(a);
        crate::digits::lemma_digits_value_bound(word_bits(a), 13);
    }
    big_from_radix_le(&bits, B13 as u32).unwrap()
}

/// Spreads a 64-bit word out one bit per base-9 digit: bit `i` of the
/// word becomes the coefficient of `9^i`.
pub fn convert_b2_to_b9(a: u64) -> (r: BigUint)
    ensures
        big_value(r) == digits_value(word_bits(a), 9),
        big_value(r) < pow(9, 64),
{
    let bits = bits_of_word(a);
    proof {
        lemma_word_bits_range(a);
        crate::digits::lemma_digits_value_bound(word_bits(a), 9);
    }
    big_from_radix_le(&bits, B9 as u32).unwrap()
}

/// Generic digit-wise base conversion: decompose `lane` into its
/// `from_base` digits, remap every digit independently with
/// `coef_transform`, and recompose the mapped digits in `to_base`.  A
/// mapped digit that does not fit the target base deterministically makes
/// the whole result zero.
pub fn convert_lane<F: Fn(u8) -> u8>(
    lane: BigUint,
    from_base: u8,
    to_base: u8,
    coef_transform: F,
) -> (r: BigUint)
    requires
        2 <= from_base,
        2 <= to_base,
        forall|x: u8| x < from_base ==> call_requires(coef_transform, (x,)),
    ensures
        exists|m: Seq<u8>|
            m.len() == lane_digits_le(big_value(lane), from_base as nat).len()
            && (forall|i: int| 0 <= i < m.len() ==> call_ensures(
                coef_transform,
                (lane_digits_le(big_value(lane), from_base as nat)[i],),
                m[i],
            ))
            && big_value(r) == rebase_or_zero(m, to_base as nat),
{
    let ghost d = lane_digits_le(big_value(lane), from_base as nat);
    let chunks = big_to_radix_le(&lane, from_base as u32);
    proof {
        lemma_radix_le_digits(big_value(lane), from_base as nat);
        assert(chunks@ == d);
    }
    let mut mapped: Vec<u8> = Vec::new();
    let mut i: usize = 0;
    while i < chunks.len()
        invariant
            i <= chunks@.len(),
            chunks@ == d,
            forall|k: int| 0 <= k < d.len() ==> d[k] < from_base,
            forall|x: u8| x < from_base ==> call_requires(coef_transform, (x,)),
            mapped@.len() == i,
            forall|k: int| 0 <= k < i ==> call_ensures(coef_transform, (d[k],), #[trigger] mapped@[k]),
        decreases chunks@.len() - i,
    {
        let y = coef_transform(chunks[i]);
        mapped.push(y);
        i += 1;
    }
    let res = match big_from_radix_le(&mapped, to_base as u32) {
        Some(x) => x,
        None => big_from_u64(0),
    };
    proof {
        assert(big_value(res) == rebase_or_zero(mapped@, to_base as nat));
        assert(mapped@.len() == d.len()
            && (forall|i: int| 0 <= i < mapped@.len() ==> call_ensures(
                coef_transform,
                (d[i],),
                mapped@[i],
            ))
            && big_value(res) == rebase_or_zero(mapped@, to_base as nat));
    }
    res
}

/// Re-encodes a base-9 lane into base 13, decoding every digit with the
/// non-linear codec on the way.
pub fn convert_b9_lane_to_b13(x: BigUint) -> (r: BigUint)
    ensures
        big_value(r) == b9_to_b13_spec(big_value(x)),
{
    let ghost v = big_value(x);
    let cl = |y: u8| -> (z: u8)
        requires
            y < 9,
        ensures
            z == coef9(y),
        {
            convert_b9_coef(y)
        };
    let r = convert_lane(x, B9, B13, cl);
    proof {
        let d = lane_digits_le(v, 9);
        let m = choose|m: Seq<u8>|
            m.len() == d.len()
            && (forall|i: int| 0 <= i < m.len() ==> call_ensures(cl, (d[i],), m[i]))
            && big_value(r) == rebase_or_zero(m, 13);
        assert(m =~= map_coef9(d));
    }
    r
}

/// Converts a base-9 lane back to a native word, decoding every digit
/// with the non-linear codec; only the low 64 bits of the recomposition
/// are kept.
pub fn convert_b9_lane_to_b2(x: BigUint) -> (r: u64)
    ensures
        r as nat == b9_to_b2_spec(big_value(x)) % pow2(64),
{
    let ghost v = big_value(x);
    let cl = |y: u8| -> (z: u8)
        requires
            y < 9,
        ensures
            z == coef9(y),
        {
            convert_b9_coef(y)
        };
    let converted = convert_lane(x, B9, B2, cl);
    proof {
        let d = lane_digits_le(v, 9);
        let m = choose|m: Seq<u8>|
            m.len() == d.len()
            && (forall|i: int| 0 <= i < m.len() ==> call_ensures(cl, (d[i],), m[i]))
            && big_value(converted) == rebase_or_zero(m, 2);
        assert(m =~= map_coef9(d));
    }
    big_low_u64(&converted)
}

/// Converts a base-9 lane back to a native word without reinterpreting
/// digits: the base-9 digits, already 0 or 1 in a canonical lane, are
/// read as binary digits; only the low 64 bits are kept.
pub fn convert_b9_lane_to_b2_normal(x: BigUint) -> (r: u64)
    ensures
        r as nat == identity_rebase_spec(big_value(x), 9) % pow2(64),
{
    let ghost v = big_value(x);
    let cl = |y: u8| -> (z: u8)
        ensures
            z == y,
        {
            y
        };
    let converted = convert_lane(x, B9, B2, cl);
    proof {
        let d = lane_digits_le(v, 9);
        let m = choose|m: Seq<u8>|
            m.len() == d.len()
            && (forall|i: int| 0 <= i < m.len() ==> call_ensures(cl, (d[i],), m[i]))
            && big_value(converted) == rebase_or_zero(m, 2);
        assert(m =~= d);
    }
    big_low_u64(&converted)
}

/// The 65 little-endian base-13 digits declared for a lane entering the
/// rotation-aware converter: the canonical expansion, zero-padded on the
/// high end.
pub open spec fn theta_input_digits(v: nat) -> Seq<u8> {
    pad_to(radix_le(v, 13), 65)
}

/// The rotation-fold on 65 little-endian base-13 digits: the boundary
/// digits 0 and 64, separated by an earlier accumulation step, are merged
/// into one `special` digit; the middle 63 digits are split at `63 - rot`
/// and swapped around `special`, so that the rotation amount decides
/// where the folded boundary digit lands.
pub open spec fn rotate_fold_digits(c: Seq<u8>, rot: nat) -> Seq<u8>
    recommends
        c.len() == 65,
        rot <= 63,
{
    let special = (c[0] + c[64]) as u8;
    let middle = c.subrange(1, 64);
    let left = middle.subrange(0, 63 - rot);
    let right = middle.subrange(63 - rot, 63);
    right + seq![special] + left
}

/// A lane below 13^64 fits the declared 65-digit window of the
/// rotation-aware converter, its boundary digit 64 is zero, and the fold
/// of the two boundary digits stays a valid base-13 digit.
pub proof fn lemma_theta_input_in_range(v: nat)
    requires
        v < pow(13, 64),
    ensures
        v < pow(13, 65),
        theta_input_digits(v)[64] == 0,
        theta_input_digits(v)[0] + theta_input_digits(v)[64] < 13,
{
    vstd::arithmetic::power::lemma_pow_strictly_increases(13, 64, 65);
    lemma_radix_le_len(v, 13, 64);
    lemma_radix_le_digits(v, 13);
    let c = theta_input_digits(v);
    let rl = radix_le(v, 13);
    assert(c[64] == 0);
    if v == 0 {
        assert(c[0] == 0);
    } else {
        assert(rl.len() >= 1);
        assert(c[0] == rl[0]);
    }
}

/// The rotation-aware converter of the linear step: decomposes a lane
/// into exactly 65 base-13 digits, folds the two boundary digits into
/// one, rotates the digit positions by `rot`, decodes every digit of the
/// resulting 64 with the parity codec, and recomposes in base 9.
///
/// The lane must fit the declared 65 digits, and the two boundary digits
/// must still sum to a valid base-13 digit; a rotation amount outside
/// [0, 63] is a contract violation.
pub fn convert_b13_lane_to_b9(x: BigUint, rot: u32) -> (r: BigUint)
    requires
        rot <= 63,
        big_value(x) < pow(13, 65),
        theta_input_digits(big_value(x))[0] + theta_input_digits(big_value(x))[64] < 13,
    ensures
        big_value(r) == digits_value(
            map_coef13(rotate_fold_digits(theta_input_digits(big_value(x)), rot as nat)),
            9,
        ),
{
    let ghost v = big_value(x);
    let ghost c = theta_input_digits(v);
    let mut chunks = big_to_radix_le(&x, 13);
    proof {
        lemma_radix_le_digits(v, 13);
        lemma_radix_le_len(v, 13, 65);
        assert(forall|i: int| 0 <= i < chunks@.len() ==> chunks@[i] == c[i]);
        assert(forall|i: int| 0 <= i < 65 ==> c[i] < 13);
    }
    while chunks.len() < 65
        invariant
            chunks@.len() <= 65,
            forall|i: int| 0 <= i < chunks@.len() ==> chunks@[i] == c[i],
            c.len() == 65,
            forall|i: int| chunks@.len() <= i < 65 ==> c[i] == 0,
        decreases 65 - chunks@.len(),
    {
        chunks.push(0);
    }
    proof {
        assert(chunks@ =~= c);
    }
    let ghost target = map_coef13(rotate_fold_digits(c, rot as nat));
    let offset: usize = 63 - (rot as usize);
    let special: u8 = chunks[0] + chunks[64];
    let mut rotated: Vec<u8> = Vec::new();
    let mut i: usize = 1 + offset;
    while i < 64
        invariant
            1 + offset <= i <= 64,
            offset == 63 - rot,
            rot <= 63,
            chunks@ == c,
            c.len() == 65,
            forall|k: int| 0 <= k < 65 ==> c[k] < 13,
            rotated@.len() == i - (1 + offset),
            target == map_coef13(rotate_fold_digits(c, rot as nat)),
            target.len() == 64,
            forall|k: int| 0 <= k < rotated@.len() ==> rotated@[k] == target[k],
        decreases 64 - i,
    {
        proof {
            let rf = rotate_fold_digits(c, rot as nat);
            let middle = c.subrange(1, 64);
            let right = middle.subrange(63 - rot, 63);
            let k: int = i - (1 + offset);
            assert(0 <= k < rot);
            assert(rf[k] == right[k]);
            assert(right[k] == middle[63 - rot + k]);
            assert(middle[63 - rot + k] == c[64 - rot + k]);
            assert(64 - rot + k == i);
            assert(target[k] == coef13(rf[k]));
        }
        rotated.push(convert_b13_coef(chunks[i]));
        i += 1;
    }
    proof {
        assert(target[rot as int] == coef13((c[0] + c[64]) as u8));
    }
    rotated.push(convert_b13_coef(special));
    let mut j: usize = 1;
    while j < 1 + offset
        invariant
            1 <= j <= 1 + offset,
            offset == 63 - rot,
            rot <= 63,
            chunks@ == c,
            c.len() == 65,
            forall|k: int| 0 <= k < 65 ==> c[k] < 13,
            special == (c[0] + c[64]) as u8,
            rotated@.len() == rot + j,
            target == map_coef13(rotate_fold_digits(c, rot as nat)),
            target.len() == 64,
            forall|k: int| 0 <= k < rotated@.len() ==> rotated@[k] == target[k],
        decreases 1 + offset - j,
    {
        proof {
            let rf = rotate_fold_digits(c, rot as nat);
            let middle = c.subrange(1, 64);
            let right = middle.subrange(63 - rot, 63);
            let left = middle.subrange(0, 63 - rot);
            let k: int = rot + j;
            assert(right.len() == rot);
            assert(rf[k] == left[j - 1]);
            assert(left[j - 1] == middle[j - 1]);
            assert(middle[j - 1] == c[j as int]);
            assert(target[k] == coef13(rf[k]));
        }
        rotated.push(convert_b13_coef(chunks[j]));
        j += 1;
    }
    proof {
        assert(rotated@ =~= target);
    }
    big_from_radix_le(&rotated, B9 as u32).unwrap()
}

/// The 65-digit window of a lane in the given base, low digit first and
/// zero-padded on the high end: the digit view that the rotation-aware
/// converter consumes and that diagnostics print.  The lane must fit the
/// declared 65 digits.
pub fn lane_chunks(x: &BigUint, base: u8) -> (r: Vec<u8>)
    requires
        2 <= base,
        big_value(*x) < pow(base as int, 65),
    ensures
        r@ == pad_to(lane_digits_le(big_value(*x), base as nat), 65),
{
    let ghost v = big_value(*x);
    let ghost c = pad_to(lane_digits_le(v, base as nat), 65);
    let mut chunks = big_to_radix_le(x, base as u32);
    proof {
        lemma_radix_le_len(v, base as nat, 65);
        assert(forall|i: int| 0 <= i < chunks@.len() ==> chunks@[i] == c[i]);
    }
    while chunks.len() < 65
        invariant
            chunks@.len() <= 65,
            c.len() == 65,
            forall|i: int| 0 <= i < chunks@.len() ==> chunks@[i] == c[i],
            forall|i: int| chunks@.len() <= i < 65 ==> c[i] == 0,
        decreases 65 - chunks@.len(),
    {
        chunks.push(0);
    }
    proof {
        assert(chunks@ =~= c);
    }
    chunks
}

/// Round-trip law of the one-bit-per-digit encodings: a 64-bit word
/// spread out one bit per digit in any byte-sized base and recomposed in
/// binary with the identity coefficient map is unchanged, with or without
/// the truncation to the low 64 bits.
pub proof fn lemma_binary_roundtrip(w: u64, base: nat)
    requires
        2 <= base <= 256,
    ensures
        identity_rebase_spec(digits_value(word_bits(w), base), base) == w as nat,
        identity_rebase_spec(digits_value(word_bits(w), base), base) % pow2(64) == w as nat,
{
    let bits = word_bits(w);
    lemma_word_bits_range(w);
    lemma_word_bits_value(w);
    let v = digits_value(bits, base);
    lemma_radix_le_of_digits(bits, base);
    if v == 0 {
        assert(radix_le(0, base) =~= Seq::<u8>::empty());
        assert(bits =~= Seq::new(64, |i: int| 0u8)) by {
            assert(pad_to(Seq::<u8>::empty(), 64) =~= Seq::new(64, |i: int| 0u8));
        }
        lemma_zeros_value(64, 2);
        assert(w as nat == 0);
        let zd = seq![0u8];
        assert(zd.len() == 1 && zd[0] == 0);
        assert(zd.drop_first() =~= Seq::<u8>::empty());
        assert(digits_value(zd.drop_first(), 2) == 0);
        assert(digits_value(zd, 2) == zd[0] as nat + 2 * digits_value(zd.drop_first(), 2));
        assert(identity_rebase_spec(0, base) == 0);
    } else {
        let rl = radix_le(v, base);
        assert(forall|i: int| 0 <= i < rl.len() ==> rl[i] == pad_to(rl, 64)[i]);
        assert(forall|i: int| 0 <= i < rl.len() ==> rl[i] <= 1);
        lemma_pad_value(rl, 64, 2);
        assert(digits_value(rl, 2) == digits_value(bits, 2));
        assert(identity_rebase_spec(v, base) == w as nat);
    }
    assert(w < pow2(64)) by {
        lemma2_to64_rest();
    }
    lemma_small_mod(w as nat, pow2(64));
}

} // verus!
