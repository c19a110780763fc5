use keccak_arith::bridge::state_bigint_to_field;
use keccak_arith::bridge::state_to_biguint;
use keccak_arith::bridge::state_to_state_bigint;
use keccak_arith::bridge::BridgeError;
use keccak_arith::bridge::FieldElement;
use keccak_arith::codec::convert_b13_coef;
use keccak_arith::codec::convert_b9_coef;
use keccak_arith::lane::convert_b13_lane_to_b9;
use keccak_arith::lane::convert_b2_to_b13;
use keccak_arith::lane::convert_b2_to_b9;
use keccak_arith::lane::convert_b9_lane_to_b13;
use keccak_arith::lane::convert_b9_lane_to_b2;
use keccak_arith::lane::convert_b9_lane_to_b2_normal;
use keccak_arith::lane::convert_lane;
use keccak_arith::lane::lane_chunks;
use keccak_arith::state::StateBigInt;
use num_bigint::BigUint;

#[test]
fn test_convert_b13_lane_to_b9() {
    // the number 1 is chosen that `convert_b13_coef` has no effect
    let mut a = vec![0, 1, 1, 1];
    a.resize(65, 0);
    let lane = BigUint::from_radix_le(&a, 13).unwrap_or_default();
    assert_eq!(
        convert_b13_lane_to_b9(lane.clone(), 0),
        BigUint::from_radix_le(&a, 9).unwrap_or_default()
    );

    // rotate by 4
    let mut b = vec![0, 0, 0, 0, 0, 1, 1, 1];
    b.resize(65, 0);
    assert_eq!(
        convert_b13_lane_to_b9(lane, 4),
        BigUint::from_radix_le(&b, 9).unwrap_or_default()
    );
}

#[test]
fn rotation_fold_merges_boundary_digits() {
    // digits 0 and 64 both set: the fold merges them into one digit whose
    // parity decides the bit, and 1 + 1 = 2 has parity 0
    let mut a = vec![0u8; 65];
    a[0] = 1;
    a[64] = 1;
    let lane = BigUint::from_radix_le(&a, 13).unwrap();
    assert_eq!(convert_b13_lane_to_b9(lane.clone(), 0), BigUint::from(0u32));
    assert_eq!(convert_b13_lane_to_b9(lane, 4), BigUint::from(0u32));
}

#[test]
fn rotation_fold_odd_sum_sets_bit() {
    // 1 + 2 = 3 has parity 1; at rotation 4 the folded digit lands at
    // position 4, so the result is 9^4
    let mut a = vec![0u8; 65];
    a[0] = 1;
    a[64] = 2;
    let lane = BigUint::from_radix_le(&a, 13).unwrap();
    assert_eq!(convert_b13_lane_to_b9(lane, 4), BigUint::from(6561u32));
}

#[test]
fn coef13_is_parity() {
    for x in 0u8..13 {
        assert_eq!(convert_b13_coef(x), x % 2);
    }
}

#[test]
fn coef9_matches_combinator() {
    for a in 0u8..2 {
        for b in 0u8..2 {
            for c in 0u8..2 {
                for d in 0u8..2 {
                    let digit = 2 * a + b + 3 * c + 2 * d;
                    let expected = (a ^ ((!b) & c)) ^ d;
                    assert_eq!(convert_b9_coef(digit), expected);
                }
            }
        }
    }
}

#[test]
fn base9_concrete_values() {
    // digits [1, 0, 1] in base 9: 1 + 0*9 + 1*81 = 82
    assert_eq!(convert_b2_to_b9(5), BigUint::from(82u32));
    // re-basing 82 from base 9 to binary with the identity coefficient
    assert_eq!(
        convert_lane(BigUint::from(82u32), 9, 2, |y| y),
        BigUint::from(5u32)
    );
    assert_eq!(convert_b9_lane_to_b2_normal(BigUint::from(82u32)), 5);
}

#[test]
fn base13_concrete_values() {
    // digits [1, 0, 1] in base 13: 1 + 0*13 + 1*169 = 170
    assert_eq!(convert_b2_to_b13(5), BigUint::from(170u32));
    assert_eq!(
        convert_lane(BigUint::from(170u32), 13, 2, |y| y),
        BigUint::from(5u32)
    );
}

#[test]
fn binary_roundtrip_base9() {
    for &w in &[0u64, 1, 5, 0xdead_beef, 0x8000_0000_0000_0001, u64::MAX] {
        assert_eq!(convert_b9_lane_to_b2_normal(convert_b2_to_b9(w)), w);
    }
}

#[test]
fn binary_roundtrip_base13() {
    for &w in &[0u64, 1, 5, 0xdead_beef, 0x8000_0000_0000_0001, u64::MAX] {
        assert_eq!(
            convert_lane(convert_b2_to_b13(w), 13, 2, |y| y),
            BigUint::from(w)
        );
    }
}

#[test]
fn nonlinear_codec_on_canonical_lane() {
    // On a canonical 0/1-digit base-9 lane, digits 0 and 1 both decode to
    // bit 0, so the non-linear codec erases a plain word.
    assert_eq!(convert_b9_lane_to_b2(convert_b2_to_b9(5)), 0);
    // A base-9 lane with digits [2, 3] decodes to bits [1, 1] in base 13:
    // 1 + 13 = 14.
    let lane = BigUint::from(2u32 + 3 * 9);
    assert_eq!(convert_b9_lane_to_b13(lane.clone()), BigUint::from(14u32));
    // and to binary 0b11 = 3
    assert_eq!(convert_b9_lane_to_b2(lane), 3);
}

#[test]
fn rebase_with_oversized_digit_defaults_to_zero() {
    // 8 is a valid base-9 digit but no binary digit: the identity re-basing
    // to base 2 must deterministically yield zero.
    assert_eq!(
        convert_lane(BigUint::from(8u32), 9, 2, |y| y),
        BigUint::from(0u32)
    );
}

#[test]
fn lane_chunks_pads_to_65() {
    let lane = BigUint::from_radix_le(&[0, 1, 1, 1], 13).unwrap();
    let chunks = lane_chunks(&lane, 13);
    assert_eq!(chunks.len(), 65);
    assert_eq!(&chunks[0..4], &[0, 1, 1, 1]);
    assert!(chunks[4..].iter().all(|&d| d == 0));
}

#[test]
fn zero_state_has_25_zero_lanes() {
    let s = StateBigInt::zero();
    for x in 0..5 {
        for y in 0..5 {
            assert_eq!(s.lane(x, y), &BigUint::from(0u32));
        }
    }
}

#[test]
fn set_lane_and_read_back() {
    let mut s = StateBigInt::zero();
    s.set_lane(2, 3, BigUint::from(77u32));
    assert_eq!(s.lane(2, 3), &BigUint::from(77u32));
    assert_eq!(s.lane(3, 2), &BigUint::from(0u32));
}

#[test]
fn transform_with_inverse_restores_state() {
    let mut words = [[0u64; 5]; 5];
    for x in 0..5 {
        for y in 0..5 {
            words[x][y] = (x * 5 + y) as u64 * 31 + 7;
        }
    }
    let original = StateBigInt::from_native_words(&words);
    let doubled = StateBigInt::from_state_big_int(&original, |lane| lane * 2u32);
    let restored = StateBigInt::from_state_big_int(&doubled, |lane| lane / 2u32);
    for x in 0..5 {
        for y in 0..5 {
            assert_eq!(restored.lane(x, y), original.lane(x, y));
        }
    }
}

#[test]
fn native_words_roundtrip() {
    let mut words = [[0u64; 5]; 5];
    for x in 0..5 {
        for y in 0..5 {
            words[x][y] = u64::MAX - (x * 5 + y) as u64;
        }
    }
    let s = StateBigInt::from_native_words(&words);
    assert_eq!(s.to_native_words(), words);
}

#[test]
fn bridge_roundtrip_within_bound() {
    let mut s = StateBigInt::zero();
    s.set_lane(0, 0, BigUint::from(u64::MAX));
    s.set_lane(4, 4, BigUint::from_radix_le(&[1; 65], 13).unwrap());
    let elems = state_bigint_to_field(&s).unwrap();
    assert_eq!(elems.len(), 25);
    for e in &elems {
        assert_eq!(e.bytes.len(), 32);
    }
    let back = state_to_biguint(&elems);
    for x in 0..5 {
        for y in 0..5 {
            assert_eq!(back.lane(x, y), s.lane(x, y));
        }
    }
}

#[test]
fn bridge_rejects_oversized_lane() {
    let mut s = StateBigInt::zero();
    // 33 bytes of 0xff: the smallest byte length beyond the 32-byte window
    s.set_lane(1, 1, BigUint::from_bytes_le(&[0xff; 33]));
    assert!(matches!(
        state_bigint_to_field(&s),
        Err(BridgeError::LaneOverflow)
    ));
}

#[test]
fn field_elements_to_native_words() {
    let mut elems: Vec<FieldElement> = Vec::new();
    for i in 0..25u64 {
        let mut bytes = (i * 1234567).to_le_bytes().to_vec();
        bytes.resize(32, 0);
        elems.push(FieldElement { bytes });
    }
    let words = state_to_state_bigint(&elems);
    for x in 0..5 {
        for y in 0..5 {
            assert_eq!(words[x][y], (x * 5 + y) as u64 * 1234567);
        }
    }
}
