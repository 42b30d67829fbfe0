//! Bit-level model of IEEE-754 values.
//!
//! The library never holds a floating-point number: every element and every
//! query fraction travels as its raw bit pattern (`u64` for 64-bit values,
//! `u32` for 32-bit ones).  This module states, as integer arithmetic on
//! those patterns, the few facts about the encoding that the sketches need:
//! which patterns are acceptable quantile fractions, and how to take the
//! floor of `fraction * n` exactly.

use vstd::arithmetic::div_mod::{
    lemma_basic_div, lemma_div_is_ordered, lemma_div_multiples_vanish,
    lemma_fundamental_div_mod_converse,
};
use vstd::arithmetic::mul::{
    lemma_mul_inequality, lemma_mul_is_commutative, lemma_mul_is_distributive_sub,
    lemma_mul_strict_upper_bound, lemma_mul_upper_bound,
};
use vstd::arithmetic::power2::{
    lemma2_to64, lemma2_to64_rest, lemma_pow2_adds, lemma_pow2_pos, lemma_pow2_strictly_increases,
    lemma_pow2_unfold, pow2,
};
use vstd::bits::{lemma_u128_shr_is_div, lemma_u64_low_bits_mask_is_mod, lemma_u64_shr_is_div};
use vstd::prelude::*;

verus! {

/// Bit pattern of the 64-bit quiet not-a-number sentinel.
pub const NAN_BITS_F64: u64 = 0x7FF8_0000_0000_0000;

/// Bit pattern of the 32-bit quiet not-a-number sentinel.
pub const NAN_BITS_F32: u32 = 0x7FC0_0000;

/// Bit pattern of the 64-bit value one.
pub const ONE_BITS_F64: u64 = 0x3FF0_0000_0000_0000;

/// Sign bit of a 64-bit pattern; on its own it is the pattern of negative zero.
pub const SIGN_BIT_F64: u64 = 0x8000_0000_0000_0000;

/// Sign bit of a 32-bit pattern; on its own it is the pattern of negative zero.
pub const SIGN_BIT_F32: u32 = 0x8000_0000;

/// The biased exponent field of a 64-bit pattern.
pub open spec fn exp_field(b: u64) -> u64 {
    (b >> 52) & 0x7FF
}

/// The trailing-significand field of a 64-bit pattern.
pub open spec fn man_field(b: u64) -> u64 {
    b & 0xF_FFFF_FFFF_FFFF
}

/// Whether `b` encodes a fraction this library accepts for a quantile
/// query: a finite value lying between zero and one inclusive.
///
/// IEEE-754 orders non-negative patterns exactly as unsigned integers order
/// their bits, and every pattern at or below `ONE_BITS_F64` has the sign bit
/// clear, a finite exponent and a value of at most one; the only admissible
/// pattern with the sign bit set is negative zero.  Not-a-number and the
/// infinities have exponent field `0x7FF` and therefore sit strictly above
/// `ONE_BITS_F64`, so they are excluded.
pub open spec fn is_valid_fraction_bits(b: u64) -> bool {
    b <= ONE_BITS_F64 || b == SIGN_BIT_F64
}

/// The integer significand of the encoded value: with the implicit leading
/// bit for normal patterns, without it for subnormal ones.
pub open spec fn frac_sig(b: u64) -> nat {
    if exp_field(b) == 0 {
        man_field(b) as nat
    } else {
        (0x10_0000_0000_0000u64 + man_field(b)) as nat
    }
}

/// The binary scale of the pattern: a finite non-negative `b` encodes
/// exactly the rational `frac_sig(b) / pow2(frac_shift(b))`.
pub open spec fn frac_shift(b: u64) -> nat {
    if exp_field(b) == 0 {
        1074
    } else if exp_field(b) <= 1075 {
        (1075 - exp_field(b)) as nat
    } else {
        0
    }
}

/// `floor(v * n)`, where `v` is the non-negative fraction encoded by `b`.
pub open spec fn frac_scaled_floor(b: u64, n: nat) -> nat {
    frac_sig(b) * n / pow2(frac_shift(b))
}

/// Field-level consequences of fraction validity: the exponent stays at or
/// below the exponent of one, the significand fits in 53 bits, and the
/// encoded value is at most one.
pub proof fn lemma_valid_fraction_fields(b: u64)
    requires
        is_valid_fraction_bits(b),
    ensures
        exp_field(b) <= 1023,
        man_field(b) < 0x10_0000_0000_0000,
        frac_sig(b) < pow2(53),
        frac_sig(b) <= pow2(frac_shift(b)),
        frac_shift(b) >= 52,
{
    lemma2_to64();
    lemma2_to64_rest();
    assert((b <= 0x3FF0_0000_0000_0000u64 || b == 0x8000_0000_0000_0000u64) ==> ((b >> 52)
        & 0x7FF) <= 1023) by (bit_vector);
    assert(((b <= 0x3FF0_0000_0000_0000u64 || b == 0x8000_0000_0000_0000u64) && ((b >> 52) & 0x7FF)
        == 1023) ==> (b & 0xF_FFFF_FFFF_FFFF) == 0) by (bit_vector);
    assert((b & 0xF_FFFF_FFFF_FFFF) < 0x10_0000_0000_0000u64) by (bit_vector);
    let e = exp_field(b);
    if e == 0 {
        assert(frac_sig(b) < pow2(52));
        lemma_pow2_strictly_increases(52, 53);
        lemma_pow2_strictly_increases(52, 1074);
    } else if e == 1023 {
        assert(man_field(b) == 0);
        assert(frac_sig(b) == pow2(52));
        assert(frac_shift(b) == 52);
        lemma_pow2_strictly_increases(52, 53);
    } else {
        assert(frac_sig(b) < pow2(53));
        assert(frac_shift(b) >= 53);
        if frac_shift(b) > 53 {
            lemma_pow2_strictly_increases(53, frac_shift(b));
        }
    }
}

/// Accepts exactly the patterns of finite fractions in the closed unit
/// interval.
pub fn valid_fraction_bits(b: u64) -> (r: bool)
    ensures
        r == is_valid_fraction_bits(b),
{
    b <= ONE_BITS_F64 || b == SIGN_BIT_F64
}

/// Computes `floor(v * n)` exactly, where `v` is the fraction encoded by
/// `b`; the result never exceeds `n` because `v` is at most one.
pub fn frac_floor_mul(b: u64, n: u64) -> (r: u64)
    requires
        is_valid_fraction_bits(b),
    ensures
        r as nat == frac_scaled_floor(b, n as nat),
        r <= n,
{
    proof {
        lemma_valid_fraction_fields(b);
        lemma2_to64();
        lemma2_to64_rest();
    }
    let exp: u64 = (b >> 52) & 0x7FF;
    let man: u64 = b & 0xF_FFFF_FFFF_FFFF;
    let sig: u64 = if exp == 0 {
        man
    } else {
        0x10_0000_0000_0000u64 + man
    };
    let sh: u64 = if exp == 0 {
        1074
    } else {
        1075 - exp
    };
    proof {
        assert(sig as nat == frac_sig(b));
        assert(sh as nat == frac_shift(b));
        lemma_pow2_pos(sh as nat);
    }
    if sh >= 118 {
        proof {
            lemma_pow2_adds(53, 64);
            lemma_mul_upper_bound(sig as int, pow2(53) as int - 1, n as int, pow2(64) as int - 1);
            lemma_pow2_strictly_increases(117, sh as nat);
            assert((sig as int) * (n as int) < pow2(117));
            lemma_basic_div((sig as int) * (n as int), pow2(sh as nat) as int);
        }
        0
    } else {
        proof {
            lemma_pow2_adds(53, 64);
            lemma_mul_upper_bound(sig as int, pow2(53) as int - 1, n as int, pow2(64) as int - 1);
            assert((sig as int) * (n as int) < pow2(117));
        }
        let prod: u128 = (sig as u128) * (n as u128);
        let q: u128 = prod >> (sh as u128);
        proof {
            lemma_u128_shr_is_div(prod, sh as u128);
            assert(q as nat == prod as nat / pow2(sh as nat));
            lemma_mul_upper_bound(sig as int, pow2(sh as nat) as int, n as int, n as int);
            lemma_div_is_ordered(
                prod as int,
                (pow2(sh as nat) as int) * (n as int),
                pow2(sh as nat) as int,
            );
            lemma_div_multiples_vanish(n as int, pow2(sh as nat) as int);
        }
        q as u64
    }
}

/// The floor of the base-two logarithm.
pub open spec fn ilog2(m: nat) -> nat
    decreases m,
{
    if m < 2 {
        0
    } else {
        1 + ilog2(m / 2)
    }
}

/// `ilog2` brackets its argument between two consecutive powers of two.
pub proof fn lemma_ilog2_bounds(m: nat)
    requires
        m >= 1,
    ensures
        pow2(ilog2(m)) <= m < pow2(ilog2(m) + 1),
    decreases m,
{
    lemma2_to64();
    if m < 2 {
    } else {
        lemma_ilog2_bounds(m / 2);
        let p = ilog2(m / 2);
        lemma_pow2_unfold((p + 1) as nat);
        lemma_pow2_unfold((p + 2) as nat);
    }
}

/// The 64-bit pattern whose value is exactly `m / pow2(53)`, for
/// `m` between zero and `pow2(53)` inclusive.  Rank queries report their
/// result through this encoding, so the reported double is an exact dyadic
/// rational with 53 fractional bits.
pub open spec fn f64_bits_of_dyadic(m: nat) -> u64 {
    if m == 0 {
        0
    } else if m >= pow2(53) {
        ONE_BITS_F64
    } else {
        let p = ilog2(m);
        if p > 52 {
            0
        } else {
            (((p + 970) * pow2(52) + (m * pow2((52 - p) as nat) - pow2(52))) as u64)
        }
    }
}

/// The dyadic numerator encoded by a pattern produced by
/// `f64_bits_of_dyadic`: the value of the pattern times `pow2(53)`.
pub open spec fn dyadic_of_f64_bits(b: u64) -> nat {
    if b == 0 {
        0
    } else if b == ONE_BITS_F64 {
        pow2(53)
    } else if exp_field(b) > 1022 {
        0
    } else {
        ((pow2(52) + man_field(b)) as nat) / pow2((1022 - exp_field(b)) as nat)
    }
}

/// The dyadic encoding is exact: reading the numerator back from the
/// pattern returns it.  This pins down the value of every rank result.
pub proof fn lemma_dyadic_round_trip(m: nat)
    requires
        m <= pow2(53),
    ensures
        dyadic_of_f64_bits(f64_bits_of_dyadic(m)) == m,
{
    lemma2_to64();
    lemma2_to64_rest();
    if m == 0 {
    } else if m == pow2(53) {
        assert(f64_bits_of_dyadic(m) == ONE_BITS_F64);
    } else {
        let p = ilog2(m);
        lemma_ilog2_bounds(m);
        if p > 52 {
            lemma_pow2_strictly_increases(53, p);
            assert(false);
        }
        let sh = (52 - p) as nat;
        lemma_pow2_adds(p, sh);
        lemma_pow2_adds((p + 1) as nat, sh);
        lemma_pow2_pos(sh);
        lemma_pow2_pos(p);
        let full = m * pow2(sh);
        assert(full >= pow2(52)) by {
            lemma_mul_inequality(pow2(p) as int, m as int, pow2(sh) as int);
        }
        assert(full < pow2(53)) by {
            lemma_mul_inequality(m as int, pow2((p + 1) as nat) as int - 1, pow2(sh) as int);
            lemma_mul_is_commutative(pow2((p + 1) as nat) as int - 1, pow2(sh) as int);
            lemma_mul_is_distributive_sub(pow2(sh) as int, pow2((p + 1) as nat) as int, 1);
            lemma_mul_is_commutative(pow2((p + 1) as nat) as int, pow2(sh) as int);
            lemma_pow2_pos(sh);
        }
        let r = (full - pow2(52)) as nat;
        let e = (p + 970) as nat;
        let val = (e * pow2(52) + r) as nat;
        assert(e <= 1022);
        assert(val < 1023 * pow2(52)) by {
            lemma_mul_inequality(e as int, 1022, pow2(52) as int);
        }
        assert(f64_bits_of_dyadic(m) == val as u64);
        assert(val < 0x8000_0000_0000_0000);
        let b = val as u64;
        assert(b != 0);
        assert(b != ONE_BITS_F64);
        assert(exp_field(b) == e) by {
            lemma_u64_shr_is_div(b, 52);
            lemma_fundamental_div_mod_converse(b as int, pow2(52) as int, e as int, r as int);
            assert(b as nat / pow2(52) == e);
            assert(b >> 52 == e);
            let y = b >> 52;
            assert(y < 2048 ==> y & 0x7FF == y) by (bit_vector);
        }
        assert(man_field(b) == r) by {
            lemma_u64_low_bits_mask_is_mod(b, 52);
            vstd::bits::lemma_low_bits_mask_values();
            lemma_fundamental_div_mod_converse(b as int, pow2(52) as int, e as int, r as int);
            assert(b % (pow2(52) as u64) == r);
        }
        assert(exp_field(b) <= 1022);
        assert((1022 - exp_field(b)) as nat == sh);
        assert(dyadic_of_f64_bits(b) == (pow2(52) + r) / pow2(sh));
        assert(pow2(52) + r == full);
        assert(full / pow2(sh) == m) by {
            lemma_mul_is_commutative(m as int, pow2(sh) as int);
            lemma_div_multiples_vanish(m as int, pow2(sh) as int);
        }
    }
}

/// Builds the pattern of the dyadic rational `m / pow2(53)`.
#[verifier::loop_isolation(false)]
fn dyadic_to_f64_bits(m: u64) -> (r: u64)
    requires
        m <= 0x20_0000_0000_0000,
    ensures
        r == f64_bits_of_dyadic(m as nat),
{
    proof {
        lemma2_to64();
        lemma2_to64_rest();
    }
    if m == 0 {
        return 0;
    }
    if m == 0x20_0000_0000_0000 {
        return ONE_BITS_F64;
    }
    proof {
        lemma_ilog2_bounds(m as nat);
        if ilog2(m as nat) > 52 {
            lemma_pow2_strictly_increases(53, ilog2(m as nat));
        }
        assert(ilog2(m as nat) <= 52);
    }
    let mut p: u64 = 0;
    let mut t: u64 = m;
    while t >= 2
        invariant
            t >= 1,
            p <= 52,
            ilog2(m as nat) == p + ilog2(t as nat),
        decreases t,
    {
        proof {
            assert(ilog2(t as nat) >= 1);
        }
        t = t / 2;
        p = p + 1;
    }
    proof {
        assert(ilog2(t as nat) == 0);
        assert(p as nat == ilog2(m as nat));
    }
    let sh: u64 = 52 - p;
    let two_pow: u64 = 1u64 << sh;
    proof {
        vstd::bits::lemma_u64_shl_is_mul(1u64, sh);
        if (sh as nat) < 52 {
            lemma_pow2_strictly_increases(sh as nat, 52);
        }
        assert(two_pow == pow2(sh as nat));
        lemma_pow2_adds(p as nat, sh as nat);
        lemma_pow2_adds((p + 1) as nat, sh as nat);
        assert((m as nat) * (two_pow as nat) < pow2(53)) by {
            lemma_mul_inequality(m as int, pow2((p + 1) as nat) as int - 1, pow2(sh as nat) as int);
            lemma_mul_is_commutative(pow2((p + 1) as nat) as int - 1, pow2(sh as nat) as int);
            lemma_mul_is_distributive_sub(pow2(sh as nat) as int, pow2((p + 1) as nat) as int, 1);
            lemma_mul_is_commutative(pow2((p + 1) as nat) as int, pow2(sh as nat) as int);
            lemma_pow2_pos(sh as nat);
        }
        assert((m as nat) * (two_pow as nat) >= pow2(52)) by {
            lemma_mul_inequality(pow2(p as nat) as int, m as int, pow2(sh as nat) as int);
        }
    }
    let full: u64 = m * two_pow;
    let r: u64 = (p + 970) * 0x10_0000_0000_0000 + (full - 0x10_0000_0000_0000);
    proof {
        assert((p + 970) * 0x10_0000_0000_0000 <= 1022 * 0x10_0000_0000_0000) by {
            lemma_mul_inequality(p as int + 970, 1022, 0x10_0000_0000_0000);
        }
        assert(r == f64_bits_of_dyadic(m as nat));
    }
    r
}

/// The scaled rank numerator: `floor(cnt * pow2(53) / n)`.
pub open spec fn rank_scaled(cnt: nat, n: nat) -> nat {
    cnt * pow2(53) / n
}

/// Builds the pattern of the rank fraction `cnt / n`, rounded down to a
/// dyadic rational with 53 fractional bits.
pub fn rank_to_f64_bits(cnt: u64, n: u64) -> (r: u64)
    requires
        cnt <= n,
        n >= 1,
    ensures
        r == f64_bits_of_dyadic(rank_scaled(cnt as nat, n as nat)),
{
    proof {
        lemma2_to64();
        lemma2_to64_rest();
        lemma_pow2_adds(64, 53);
        lemma_mul_upper_bound(cnt as int, pow2(64) as int - 1, pow2(53) as int, pow2(53) as int);
    }
    let prod: u128 = (cnt as u128) * 0x20_0000_0000_0000u128;
    let q: u128 = prod / (n as u128);
    proof {
        assert(q as nat == rank_scaled(cnt as nat, n as nat));
        assert(q <= 0x20_0000_0000_0000) by {
            lemma_mul_inequality(cnt as int, n as int, pow2(53) as int);
            lemma_div_is_ordered((cnt as int) * (pow2(53) as int), (n as int) * (pow2(53) as int), n as int);
            lemma_mul_is_commutative(n as int, pow2(53) as int);
            lemma_div_multiples_vanish(pow2(53) as int, n as int);
        }
    }
    dyadic_to_f64_bits(q as u64)
}

} // verus!
