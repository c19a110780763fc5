//! Field-element bridge: fixed-width scalar encodings of the lanes.
//!
//! The external constraint-validation layer consumes each lane as a
//! 32-byte little-endian scalar.  Encoding surfaces an explicit error for
//! a lane too wide for that window — never a silent truncation — and
//! decoding pads the bytes back out to the container's arbitrary-precision
//! lane form.

use vstd::prelude::*;

verus! {

use crate::bignum::big_value;
use crate::bignum::big_to_bytes_le;
use crate::bignum::big_from_bytes_le;
use crate::bignum::big_low_u64;
use crate::state::StateBigInt;
use crate::state::State;
use crate::digits::digits_value;
use crate::digits::pad_to;
use crate::digits::lemma_pad_value;
use crate::digits::lemma_radix_le_value;
use crate::digits::lemma_radix_le_len;
use vstd::arithmetic::power::pow;
use vstd::arithmetic::power2::pow2;
use vstd::arithmetic::div_mod::lemma_small_mod;
use vstd::arithmetic::div_mod::lemma_fundamental_div_mod_converse;

/// A fixed-width scalar of the external proving layer: 32 bytes in
/// little-endian order, encoding a value below 256^32.
#[derive(Debug, Clone, PartialEq, Eq)]
pub struct FieldElement {
    pub bytes: Vec<u8>,
}

impl FieldElement {
    /// A field element is well formed when it holds exactly 32 bytes.
    pub open spec fn wf(&self) -> bool {
        self.bytes@.len() == 32
    }

    /// The value the bytes encode, read little-endian in base 256.
    pub open spec fn value(&self) -> nat {
        digits_value(self.bytes@, 256)
    }
}

/// The error of the field-element bridge: a lane's magnitude exceeded the
/// fixed 32-byte width and could not be encoded without truncation.
#[derive(Debug, Clone, Copy, PartialEq, Eq, Structural)]
pub enum BridgeError {
    LaneOverflow,
}

/// Encodes each lane of the container as a 32-byte little-endian scalar.
/// Succeeds exactly when every lane fits the 32-byte width; a lane beyond
/// it yields an explicit error, never a truncated value.
pub fn state_bigint_to_field(state: &StateBigInt) -> (r: Result<Vec<FieldElement>, BridgeError>)
    requires
        state.wf(),
    ensures
        (r is Ok) <==> (forall|i: int| 0 <= i < 25 ==> state.lanes()[i] < pow(256, 32)),
        r matches Ok(v) ==> v@.len() == 25 && forall|i: int|
            0 <= i < 25 ==> (#[trigger] v@[i]).wf() && v@[i].value() == state.lanes()[i],
{
    let mut out: Vec<FieldElement> = Vec::new();
    let mut i: usize = 0;
    while i < 25
        invariant
            state.wf(),
            i <= 25,
            out@.len() == i,
            forall|j: int|
                0 <= j < i ==> (#[trigger] out@[j]).wf() && out@[j].value() == state.lanes()[j],
            forall|j: int| 0 <= j < i ==> state.lanes()[j] < pow(256, 32),
        decreases 25 - i,
    {
        let ghost v = state.lanes()[i as int];
        proof {
            assert(v == big_value(state.xy@[i as int]));
        }
        let mut bytes = big_to_bytes_le(&state.xy[i]);
        let ghost orig = bytes@;
        if bytes.len() > 32 {
            proof {
                assert(v != 0);
                if v < pow(256, 32) {
                    lemma_radix_le_len(v, 256, 32);
                }
            }
            return Err(BridgeError::LaneOverflow);
        }
        while bytes.len() < 32
            invariant
                orig.len() <= bytes@.len() <= 32,
                bytes@ == pad_to(orig, bytes@.len()),
            decreases 32 - bytes@.len(),
        {
            bytes.push(0);
            proof {
                assert(bytes@ =~= pad_to(orig, bytes@.len()));
            }
        }
        proof {
            lemma_pad_value(orig, 32, 256);
            if v == 0 {
                assert(orig == seq![0u8]);
                assert(orig.len() == 1 && orig[0] == 0);
                assert(orig.drop_first() =~= Seq::<u8>::empty());
                assert(digits_value(orig.drop_first(), 256) == 0);
                assert(digits_value(orig, 256) == orig[0] as nat + 256 * digits_value(
                    orig.drop_first(),
                    256,
                ));
            } else {
                lemma_radix_le_value(v, 256);
            }
            assert(digits_value(bytes@, 256) == v);
            crate::digits::lemma_digits_value_bound(bytes@, 256);
        }
        out.push(FieldElement { bytes });
        i += 1;
    }
    Ok(out)
}

/// Decodes 25 field elements back into the arbitrary-precision container,
/// lane for lane.
pub fn state_to_biguint(state: &Vec<FieldElement>) -> (r: StateBigInt)
    requires
        state@.len() == 25,
        forall|i: int| 0 <= i < 25 ==> (#[trigger] state@[i]).wf(),
    ensures
        r.wf(),
        forall|i: int| 0 <= i < 25 ==> #[trigger] r.lanes()[i] == state@[i].value(),
{
    let mut xy: Vec<num_bigint::BigUint> = Vec::new();
    let mut i: usize = 0;
    while i < 25
        invariant
            state@.len() == 25,
            i <= 25,
            xy@.len() == i,
            forall|j: int| 0 <= j < i ==> big_value(#[trigger] xy@[j]) == state@[j].value(),
        decreases 25 - i,
    {
        xy.push(big_from_bytes_le(&state[i].bytes));
        i += 1;
    }
    let r = StateBigInt { xy };
    proof {
        assert(forall|j: int| 0 <= j < 25 ==> #[trigger] r.lanes()[j] == big_value(r.xy@[j]));
    }
    r
}

/// Repacks 25 field elements into the native 5x5 matrix of 64-bit words.
/// Every element must fit its 64-bit window — all bytes beyond the first
/// eight zero — a wider one is a contract violation.
pub fn state_to_state_bigint(state: &Vec<FieldElement>) -> (r: State)
    requires
        state@.len() == 25,
        forall|i: int|
            0 <= i < 25 ==> (#[trigger] state@[i]).wf() && state@[i].value() < pow2(64),
    ensures
        forall|x: int, y: int|
            0 <= x < 5 && 0 <= y < 5 ==> #[trigger] r@[x]@[y] as nat == state@[x * 5 + y].value(),
{
    let mut w: Vec<u64> = Vec::new();
    let mut i: usize = 0;
    while i < 25
        invariant
            state@.len() == 25,
            forall|k: int|
                0 <= k < 25 ==> (#[trigger] state@[k]).wf() && state@[k].value() < pow2(64),
            i <= 25,
            w@.len() == i,
            forall|j: int| 0 <= j < i ==> #[trigger] w@[j] as nat == state@[j].value(),
        decreases 25 - i,
    {
        let lane = big_from_bytes_le(&state[i].bytes);
        proof {
            lemma_small_mod(state@[i as int].value(), pow2(64));
        }
        w.push(big_low_u64(&lane));
        i += 1;
    }
    let r: State = [
        [w[0], w[1], w[2], w[3], w[4]],
        [w[5], w[6], w[7], w[8], w[9]],
        [w[10], w[11], w[12], w[13], w[14]],
        [w[15], w[16], w[17], w[18], w[19]],
        [w[20], w[21], w[22], w[23], w[24]],
    ];
    proof {
        assert forall|x: int, y: int|
            0 <= x < 5 && 0 <= y < 5 implies #[trigger] r@[x]@[y] as nat
            == state@[x * 5 + y].value() by {
            lemma_fundamental_div_mod_converse(x * 5 + y, 5, x, y);
        }
    }
    r
}

/// Round-trip law of the field-element bridge: a container whose lanes
/// were encoded into field elements and decoded back keeps every lane
/// value.  (That the encoding succeeds exactly on lanes within the
/// 32-byte bound is part of the contract of `state_bigint_to_field`.)
pub proof fn lemma_bridge_roundtrip(s: StateBigInt, elems: Seq<FieldElement>, t: StateBigInt)
    requires
        s.wf(),
        t.wf(),
        elems.len() == 25,
        forall|i: int| 0 <= i < 25 ==> (#[trigger] elems[i]).value() == s.lanes()[i],
        forall|i: int| 0 <= i < 25 ==> #[trigger] t.lanes()[i] == elems[i].value(),
    ensures
        t.lanes() == s.lanes(),
{
    assert(s.lanes().len() == 25);
    assert(t.lanes().len() == 25);
    assert(t.lanes() =~= s.lanes());
}

} // verus!
