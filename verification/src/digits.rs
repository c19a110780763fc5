//! Mathematical model of positional-numeral digit sequences.
//!
//! A lane of the hash state is re-encoded as a little-endian sequence of
//! digits in some base `b`; this module defines what such a sequence is
//! worth (`digits_value`), the canonical digit expansion of a value
//! (`radix_le`), and the lemmas that tie the two together: the expansion
//! evaluates back to the value, digits are in range, canonical expansions
//! are unique up to zero padding, and the length of an expansion is pinned
//! by the magnitude of the value.  Digits are stored as `u8`, so only
//! bases up to 256 are meaningful; every lemma assumes such a base.

use vstd::prelude::*;

verus! {

use vstd::arithmetic::power::pow;
use vstd::arithmetic::power::lemma_pow_positive;
use vstd::arithmetic::div_mod::lemma_div_decreases;
use vstd::arithmetic::div_mod::lemma_fundamental_div_mod;
use vstd::arithmetic::div_mod::lemma_fundamental_div_mod_converse;
use vstd::arithmetic::div_mod::lemma_div_is_ordered;

/// The value of a little-endian digit sequence in base `base`:
/// `d[0] + d[1]*base + d[2]*base^2 + ...`.
pub open spec fn digits_value(digits: Seq<u8>, base: nat) -> nat
    decreases digits.len(),
{
    if digits.len() == 0 {
        0
    } else {
        digits[0] as nat + base * digits_value(digits.drop_first(), base)
    }
}

/// The canonical little-endian base-`base` expansion of `v`: least
/// significant digit first, no trailing (high-order) zero digits, and the
/// empty sequence for zero.
pub open spec fn radix_le(v: nat, base: nat) -> Seq<u8>
    decreases v via radix_le_decreases
{
    if v == 0 || base < 2 {
        Seq::empty()
    } else {
        seq![(v % base) as u8] + radix_le(v / base, base)
    }
}

#[via_fn]
proof fn radix_le_decreases(v: nat, base: nat) {
    if !(v == 0 || base < 2) {
        lemma_div_decreases(v as int, base as int);
    }
}

/// `s` extended on the high-order end with zero digits up to length `n`.
pub open spec fn pad_to(s: Seq<u8>, n: nat) -> Seq<u8> {
    if s.len() <= n {
        s + Seq::new((n - s.len()) as nat, |i: int| 0u8)
    } else {
        s
    }
}

/// A sequence of zero digits is worth zero.
pub proof fn lemma_zeros_value(n: nat, base: nat)
    ensures
        digits_value(Seq::new(n, |i: int| 0u8), base) == 0,
    decreases n,
{
    let s = Seq::new(n, |i: int| 0u8);
    if n > 0 {
        lemma_zeros_value((n - 1) as nat, base);
        assert(s.drop_first() =~= Seq::new((n - 1) as nat, |i: int| 0u8));
        assert(s[0] == 0);
        assert(digits_value(s, base) == s[0] as nat + base * digits_value(s.drop_first(), base));
    }
}

/// High-order zero padding does not change the value of a digit sequence.
pub proof fn lemma_pad_value(s: Seq<u8>, n: nat, base: nat)
    ensures
        digits_value(pad_to(s, n), base) == digits_value(s, base),
    decreases s.len(),
{
    if s.len() <= n {
        if s.len() == 0 {
            lemma_zeros_value(n, base);
            assert(pad_to(s, n) =~= Seq::new(n, |i: int| 0u8));
        } else {
            lemma_pad_value(s.drop_first(), (n - 1) as nat, base);
            assert(pad_to(s, n).drop_first() =~= pad_to(s.drop_first(), (n - 1) as nat));
            assert(pad_to(s, n)[0] == s[0]);
        }
    }
}

/// Every digit of a canonical expansion is below the base, and the
/// high-order digit is nonzero.
pub proof fn lemma_radix_le_digits(v: nat, base: nat)
    requires
        2 <= base <= 256,
    ensures
        forall|i: int| 0 <= i < radix_le(v, base).len() ==> radix_le(v, base)[i] < base,
        radix_le(v, base).len() > 0 ==> radix_le(v, base)[radix_le(v, base).len() - 1] != 0,
    decreases v,
{
    if v != 0 {
        let d = radix_le(v, base);
        lemma_div_decreases(v as int, base as int);
        lemma_radix_le_digits(v / base, base);
        let rest = radix_le(v / base, base);
        assert(d[0] == (v % base) as u8);
        assert(v % base < base);
        assert(forall|i: int| 1 <= i < d.len() ==> d[i] == rest[i - 1]);
        if rest.len() == 0 {
            assert(v / base == 0) by {
                if v / base != 0 {
                    assert(radix_le(v / base, base).len() > 0);
                }
            }
            lemma_fundamental_div_mod(v as int, base as int);
            assert(v % base != 0);
            assert(d[d.len() - 1] == (v % base) as u8);
        } else {
            assert(d[d.len() - 1] == rest[rest.len() - 1]);
        }
    }
}

/// The canonical expansion of `v` evaluates back to `v`.
pub proof fn lemma_radix_le_value(v: nat, base: nat)
    requires
        2 <= base <= 256,
    ensures
        digits_value(radix_le(v, base), base) == v,
    decreases v,
{
    if v != 0 {
        let d = radix_le(v, base);
        lemma_div_decreases(v as int, base as int);
        lemma_radix_le_value(v / base, base);
        assert(d.drop_first() =~= radix_le(v / base, base));
        assert(d[0] as nat == v % base);
        assert(digits_value(d, base) == (v % base) + base * (v / base));
        lemma_fundamental_div_mod(v as int, base as int);
    }
}

/// A digit sequence whose digits are all below the base is worth less than
/// `base^len`.
pub proof fn lemma_digits_value_bound(s: Seq<u8>, base: nat)
    requires
        base >= 2,
        forall|i: int| 0 <= i < s.len() ==> s[i] < base,
    ensures
        digits_value(s, base) < pow(base as int, s.len()),
    decreases s.len(),
{
    reveal(pow);
    lemma_pow_positive(base as int, s.len());
    if s.len() > 0 {
        lemma_digits_value_bound(s.drop_first(), base);
        let w = digits_value(s.drop_first(), base);
        let p = pow(base as int, (s.len() - 1) as nat);
        assert(pow(base as int, s.len()) == base * p);
        assert(w <= p - 1);
        assert(base * w <= base * (p - 1)) by (nonlinear_arith)
            requires w <= p - 1, base >= 2,
        ;
        assert(digits_value(s, base) <= (base - 1) + base * (p - 1));
        assert((base as int - 1) + base * (p - 1) < base * p) by (nonlinear_arith)
            requires base >= 2, p >= 1,
        ;
    }
}

/// A value below `base^n` has a canonical expansion of at most `n` digits.
pub proof fn lemma_radix_le_len(v: nat, base: nat, n: nat)
    requires
        base >= 2,
        v < pow(base as int, n),
    ensures
        radix_le(v, base).len() <= n,
    decreases v,
{
    reveal(pow);
    if v != 0 {
        lemma_div_decreases(v as int, base as int);
        assert(n >= 1) by {
            if n == 0 {
                assert(pow(base as int, 0) == 1);
            }
        }
        let p = pow(base as int, (n - 1) as nat);
        lemma_pow_positive(base as int, (n - 1) as nat);
        assert(pow(base as int, n) == base * p);
        // v / base < base^(n-1)
        assert(v as int <= base * p - 1);
        lemma_div_is_ordered(v as int, base * p - 1, base as int);
        assert(base * p - 1 == (p - 1) * base + (base - 1)) by (nonlinear_arith);
        lemma_fundamental_div_mod_converse(base * p - 1, base as int, p - 1, base as int - 1);
        assert((base * p - 1) / (base as int) == p - 1);
        lemma_radix_le_len(v / base, base, (n - 1) as nat);
    }
}

/// Uniqueness of positional representation: a digit sequence with in-range
/// digits is the zero padding of the canonical expansion of its own value.
pub proof fn lemma_radix_le_of_digits(s: Seq<u8>, base: nat)
    requires
        2 <= base <= 256,
        forall|i: int| 0 <= i < s.len() ==> s[i] < base,
    ensures
        radix_le(digits_value(s, base), base).len() <= s.len(),
        pad_to(radix_le(digits_value(s, base), base), s.len()) == s,
    decreases s.len(),
{
    let v = digits_value(s, base);
    if s.len() == 0 {
        assert(pad_to(radix_le(0, base), 0) =~= s);
    } else {
        let w = digits_value(s.drop_first(), base);
        lemma_radix_le_of_digits(s.drop_first(), base);
        if v == 0 {
            assert(base * w >= w) by (nonlinear_arith)
                requires base >= 2, w >= 0,
            ;
            assert(s[0] == 0);
            assert(w == 0);
            assert(radix_le(0, base) =~= Seq::<u8>::empty());
            assert(pad_to(radix_le(w, base), (s.len() - 1) as nat) == s.drop_first());
            assert(s.drop_first() =~= Seq::new((s.len() - 1) as nat, |i: int| 0u8));
            assert forall|i: int| 0 <= i < s.len() implies s[i] == 0 by {
                if i > 0 {
                    assert(s[i] == s.drop_first()[i - 1]);
                }
            }
            assert(pad_to(Seq::<u8>::empty(), s.len()) =~= s);
        } else {
            lemma_fundamental_div_mod_converse(v as int, base as int, w as int, s[0] as int);
            assert(v % base == s[0] as nat);
            assert(v / base == w);
            let r = radix_le(v, base);
            assert(r == seq![(v % base) as u8] + radix_le(w, base));
            let rw = radix_le(w, base);
            assert(pad_to(rw, (s.len() - 1) as nat) == s.drop_first());
            assert(r.len() == 1 + rw.len());
            assert(pad_to(r, s.len()) =~= s) by {
                assert forall|i: int| 0 <= i < s.len() implies pad_to(r, s.len())[i] == s[i] by {
                    if i == 0 {
                        assert(pad_to(r, s.len())[0] == (v % base) as u8);
                    } else {
                        assert(pad_to(r, s.len())[i] == pad_to(rw, (s.len() - 1) as nat)[i - 1]);
                        assert(s[i] == s.drop_first()[i - 1]);
                    }
                }
            }
        }
    }
}

} // verus!
