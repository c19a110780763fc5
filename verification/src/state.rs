//! The 5x5 state container of arbitrary-precision lanes.
//!
//! One hash-state snapshot holds 25 lanes, addressed by a coordinate pair
//! `(x, y)` with `0 <= x, y < 5` and stored row-major at offset
//! `x*5 + y`.  Out-of-range coordinates are contract violations, not
//! recoverable errors.  A container is transformed functionally, one
//! coordinate at a time, or mutated in place through `set_lane`.

use vstd::prelude::*;

verus! {

use num_bigint::BigUint;
use crate::bignum::big_value;
use crate::bignum::big_from_u64;
use crate::bignum::big_clone;
use crate::bignum::big_low_u64;
use vstd::arithmetic::power2::pow2;
use vstd::arithmetic::div_mod::lemma_small_mod;
use vstd::arithmetic::div_mod::lemma_fundamental_div_mod_converse;

/// A native 5x5 matrix of 64-bit words, one per lane.
pub type State = [[u64; 5]; 5];

/// The transform relation on lane values: some input lane worth `vin`
/// can be taken by `f` to some output lane worth `vout`.
pub open spec fn transforms_to<F: Fn(BigUint) -> BigUint>(f: F, vin: nat, vout: nat) -> bool {
    exists|b_in: BigUint, b_out: BigUint|
        big_value(b_in) == vin && #[trigger] call_ensures(f, (b_in,), b_out) && big_value(b_out)
            == vout
}

/// A 5x5 matrix of arbitrary-precision lanes.
#[derive(Debug, Clone)]
pub struct StateBigInt {
    pub xy: Vec<BigUint>,
}

impl StateBigInt {
    /// A container is well formed when it holds exactly 25 lanes.
    pub open spec fn wf(&self) -> bool {
        self.xy@.len() == 25
    }

    /// The lane values, row-major: entry `x*5 + y` is the lane at
    /// coordinate `(x, y)`.
    pub open spec fn lanes(&self) -> Seq<nat> {
        self.xy@.map_values(|b: BigUint| big_value(b))
    }

    /// The container with all 25 lanes zero.
    pub fn zero() -> (r: Self)
        ensures
            r.wf(),
            forall|i: int| 0 <= i < 25 ==> r.lanes()[i] == 0,
    {
        let mut xy: Vec<BigUint> = Vec::new();
        let mut i: usize = 0;
        while i < 25
            invariant
                i <= 25,
                xy@.len() == i,
                forall|j: int| 0 <= j < i ==> big_value(#[trigger] xy@[j]) == 0,
            decreases 25 - i,
        {
            xy.push(big_from_u64(0));
            i += 1;
        }
        let r = StateBigInt { xy };
        proof {
            assert(forall|j: int| 0 <= j < 25 ==> r.lanes()[j] == big_value(r.xy@[j]));
        }
        r
    }

    /// Bounds-checked coordinate access.
    pub fn lane(&self, x: usize, y: usize) -> (r: &BigUint)
        requires
            self.wf(),
            x < 5,
            y < 5,
        ensures
            big_value(*r) == self.lanes()[x as int * 5 + y as int],
    {
        proof {
            assert(self.lanes()[x as int * 5 + y as int] == big_value(self.xy@[x as int * 5 + y as int]));
        }
        &self.xy[x * 5 + y]
    }

    /// Bounds-checked in-place coordinate mutation.
    pub fn set_lane(&mut self, x: usize, y: usize, value: BigUint)
        requires
            old(self).wf(),
            x < 5,
            y < 5,
        ensures
            final(self).wf(),
            final(self).lanes() == old(self).lanes().update(
                x as int * 5 + y as int,
                big_value(value),
            ),
    {
        let idx = x * 5 + y;
        self.xy.remove(idx);
        self.xy.insert(idx, value);
        proof {
            assert(final(self).lanes() =~= old(self).lanes().update(
                x as int * 5 + y as int,
                big_value(value),
            ));
        }
    }

    /// Builds a new container by applying `lane_transform` to a copy of
    /// every lane of `a`, coordinate by coordinate; `a` is left untouched
    /// and shares nothing with the result.
    pub fn from_state_big_int<F: Fn(BigUint) -> BigUint>(a: &StateBigInt, lane_transform: F) -> (r:
        Self)
        requires
            a.wf(),
            forall|b: BigUint| #[trigger] call_requires(lane_transform, (b,)),
        ensures
            r.wf(),
            forall|i: int|
                0 <= i < 25 ==> transforms_to(lane_transform, a.lanes()[i], #[trigger] r.lanes()[i]),
    {
        let mut xy: Vec<BigUint> = Vec::new();
        let mut i: usize = 0;
        while i < 25
            invariant
                a.wf(),
                forall|b: BigUint| #[trigger] call_requires(lane_transform, (b,)),
                xy@.len() == i,
                i <= 25,
                forall|j: int|
                    0 <= j < i ==> transforms_to(
                        lane_transform,
                        a.lanes()[j],
                        big_value(#[trigger] xy@[j]),
                    ),
            decreases 25 - i,
        {
            let copied = big_clone(&a.xy[i]);
            proof {
                assert(big_value(copied) == a.lanes()[i as int]);
            }
            let ghost witness_in = copied;
            let transformed = lane_transform(copied);
            let ghost prev = xy@;
            xy.push(transformed);
            i += 1;
            proof {
                assert(forall|j: int| #![trigger xy@[j]] 0 <= j < prev.len() ==> xy@[j] == prev[j]);
                assert(transforms_to(
                    lane_transform,
                    a.lanes()[i - 1],
                    big_value(xy@[i - 1]),
                )) by {
                    assert(big_value(witness_in) == a.lanes()[i - 1] && call_ensures(
                        lane_transform,
                        (witness_in,),
                        transformed,
                    ) && big_value(transformed) == big_value(xy@[i - 1]));
                }
            }
        }
        let r = StateBigInt { xy };
        proof {
            assert(forall|i2: int| 0 <= i2 < 25 ==> #[trigger] r.lanes()[i2] == big_value(r.xy@[i2]));
        }
        r
    }

    /// Repacks a native 5x5 matrix of 64-bit words into the
    /// arbitrary-precision container, lane for lane.
    pub fn from_native_words(words: &State) -> (r: Self)
        ensures
            r.wf(),
            forall|x: int, y: int|
                0 <= x < 5 && 0 <= y < 5 ==> #[trigger] r.lanes()[x * 5 + y] == words@[x]@[y],
    {
        let mut xy: Vec<BigUint> = Vec::new();
        let mut i: usize = 0;
        while i < 25
            invariant
                i <= 25,
                xy@.len() == i,
                forall|j: int|
                    0 <= j < i ==> big_value(#[trigger] xy@[j]) == words@[j / 5]@[j % 5],
            decreases 25 - i,
        {
            let x = i / 5;
            let y = i % 5;
            xy.push(big_from_u64(words[x][y]));
            i += 1;
        }
        let r = StateBigInt { xy };
        proof {
            assert(forall|j: int| 0 <= j < 25 ==> #[trigger] r.lanes()[j] == big_value(r.xy@[j]));
            assert forall|x: int, y: int|
                0 <= x < 5 && 0 <= y < 5 implies #[trigger] r.lanes()[x * 5 + y]
                == words@[x]@[y] by {
                let j = x * 5 + y;
                lemma_fundamental_div_mod_converse(j, 5, x, y);
            }
        }
        r
    }

    /// Repacks the container into a native 5x5 matrix of 64-bit words.
    /// Every lane must fit its 64-bit window: a wider lane is a contract
    /// violation.
    pub fn to_native_words(&self) -> (r: State)
        requires
            self.wf(),
            forall|i: int| 0 <= i < 25 ==> self.lanes()[i] < pow2(64),
        ensures
            forall|x: int, y: int|
                0 <= x < 5 && 0 <= y < 5 ==> #[trigger] r@[x]@[y] == self.lanes()[x * 5 + y],
    {
        let mut w: Vec<u64> = Vec::new();
        let mut i: usize = 0;
        while i < 25
            invariant
                self.wf(),
                forall|k: int| 0 <= k < 25 ==> self.lanes()[k] < pow2(64),
                i <= 25,
                w@.len() == i,
                forall|j: int| 0 <= j < i ==> #[trigger] w@[j] as nat == self.lanes()[j],
            decreases 25 - i,
        {
            proof {
                assert(self.lanes()[i as int] == big_value(self.xy@[i as int]));
                lemma_small_mod(self.lanes()[i as int], pow2(64));
            }
            w.push(big_low_u64(&self.xy[i]));
            i += 1;
        }
        let r: State = [
            [w[0], w[1], w[2], w[3], w[4]],
            [w[5], w[6], w[7], w[8], w[9]],
            [w[10], w[11], w[12], w[13], w[14]],
            [w[15], w[16], w[17], w[18], w[19]],
            [w[20], w[21], w[22], w[23], w[24]],
        ];
        r
    }
}

impl Default for StateBigInt {
    /// The default container is the all-zero container.
    fn default() -> (r: Self)
        ensures
            r.wf(),
            forall|i: int| 0 <= i < 25 ==> r.lanes()[i] == 0,
    {
        StateBigInt::zero()
    }
}

/// Round-trip law of functional transformation: transforming every lane
/// with `f` and then with `g`, where `g` undoes `f` on lane values,
/// returns the original container value-for-value.
pub proof fn lemma_transform_roundtrip<F: Fn(BigUint) -> BigUint, G: Fn(BigUint) -> BigUint>(
    a: StateBigInt,
    b: StateBigInt,
    c: StateBigInt,
    f: F,
    g: G,
    fv: spec_fn(nat) -> nat,
    gv: spec_fn(nat) -> nat,
)
    requires
        a.wf(),
        b.wf(),
        c.wf(),
        forall|x: BigUint, y: BigUint|
            #[trigger] call_ensures(f, (x,), y) ==> big_value(y) == fv(big_value(x)),
        forall|x: BigUint, y: BigUint|
            #[trigger] call_ensures(g, (x,), y) ==> big_value(y) == gv(big_value(x)),
        forall|v: nat| #[trigger] gv(fv(v)) == v,
        forall|i: int| 0 <= i < 25 ==> transforms_to(f, a.lanes()[i], #[trigger] b.lanes()[i]),
        forall|i: int| 0 <= i < 25 ==> transforms_to(g, b.lanes()[i], #[trigger] c.lanes()[i]),
    ensures
        c.lanes() == a.lanes(),
{
    assert forall|i: int| 0 <= i < 25 implies c.lanes()[i] == a.lanes()[i] by {
        assert(transforms_to(f, a.lanes()[i], b.lanes()[i]));
        let (x1, y1) = choose|x1: BigUint, y1: BigUint|
            big_value(x1) == a.lanes()[i] && #[trigger] call_ensures(f, (x1,), y1)
                && big_value(y1) == b.lanes()[i];
        assert(b.lanes()[i] == fv(a.lanes()[i]));
        assert(transforms_to(g, b.lanes()[i], c.lanes()[i]));
        let (x2, y2) = choose|x2: BigUint, y2: BigUint|
            big_value(x2) == b.lanes()[i] && #[trigger] call_ensures(g, (x2,), y2)
                && big_value(y2) == c.lanes()[i];
        assert(c.lanes()[i] == gv(fv(a.lanes()[i])));
    }
    assert(a.lanes().len() == 25);
    assert(c.lanes().len() == 25);
    assert(c.lanes() =~= a.lanes());
}

} // verus!
