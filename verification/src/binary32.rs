//! IEEE 754 single-precision numbers, held as their 32-bit patterns.
//!
//! Every finite number of this format is a whole multiple of two to the -149,
//! so its value is stated exactly as an integer in that unit.

use crate::rounding::Scaled;
use vstd::arithmetic::power2::*;
use vstd::prelude::*;

verus! {

/// The pattern of one.
pub const ONE: u32 = 0x3f80_0000;

/// The value of one, in units of two to the -149.
pub open spec fn one() -> nat {
    pow2(149)
}

/// Whether the pattern is one of those that stand for no number.
pub open spec fn is_nan(bits: u32) -> bool {
    bits % 0x8000_0000 > 0x7f80_0000
}

/// The absolute value, in units of two to the -149. An infinity has the value
/// that its pattern would have if the exponents went on.
pub open spec fn magnitude(bits: u32) -> nat {
    let exponent = (bits % 0x8000_0000) / 0x80_0000;
    let fraction = (bits % 0x80_0000) as nat;
    if exponent == 0 {
        fraction
    } else {
        (fraction + 0x80_0000) * pow2((exponent - 1) as nat)
    }
}

/// The value, in units of two to the -149.
pub open spec fn value(bits: u32) -> int {
    if bits >= 0x8000_0000 {
        -(magnitude(bits) as int)
    } else {
        magnitude(bits) as int
    }
}

/// The pattern brought into the range from zero to one: what lies below gives
/// zero, what lies above gives one, and so does no number give zero.
pub open spec fn clamped(bits: u32) -> u32 {
    if is_nan(bits) || value(bits) < 0 {
        0
    } else if value(bits) > one() {
        ONE
    } else {
        bits
    }
}

/// The patterns without a sign stand to the pattern of one, and to that of
/// zero, as their values do.
pub proof fn patterns_are_ordered(bits: u32)
    requires
        bits < 0x8000_0000,
    ensures
        bits > ONE <==> magnitude(bits) > one(),
        bits < ONE <==> magnitude(bits) < one(),
        magnitude(bits) == 0 <==> bits == 0,
{
    let exponent = bits / 0x80_0000;
    let fraction = (bits % 0x80_0000) as nat;
    lemma2_to64();
    lemma_pow2_adds(23, 126);
    if exponent == 0 {
        lemma_pow2_strictly_increases(23, 149);
    } else {
        let e = (exponent - 1) as nat;
        lemma_pow2_pos(e);
        lemma_pow2_adds(23, e);
        lemma_pow2_adds(24, e);
        let k = pow2(e);
        assert(0x80_0000 * k <= (fraction + 0x80_0000) * k < 0x100_0000 * k) by (nonlinear_arith)
            requires
                fraction < 0x80_0000,
                k > 0,
        ;
        if exponent < 127 {
            if e + 24 < 149 {
                lemma_pow2_strictly_increases(e + 24, 149);
            }
        } else if exponent == 127 {
            assert(fraction > 0 ==> (fraction + 0x80_0000) * k > 0x80_0000 * k) by (nonlinear_arith)
                requires
                    k > 0,
            ;
        } else {
            lemma_pow2_strictly_increases(149, 23 + e);
        }
    }
}

/// The sign does not enter the magnitude.
pub(crate) proof fn lemma_magnitude_sign(bits: u32)
    requires
        bits >= 0x8000_0000,
    ensures
        magnitude(bits) == magnitude((bits - 0x8000_0000) as u32),
{
}

/// Brings a pattern into the range from zero to one.
pub fn clamp(bits: u32) -> (r: u32)
    ensures
        r == clamped(bits),
        !is_nan(r),
        0 <= value(r) <= one(),
{
    proof {
        patterns_are_ordered(0);
        patterns_are_ordered(ONE);
        if bits < 0x8000_0000 {
            patterns_are_ordered(bits);
        } else {
            lemma_magnitude_sign(bits);
            patterns_are_ordered((bits - 0x8000_0000) as u32);
        }
        lemma_pow2_pos(149);
    }
    if bits % 0x8000_0000 > 0x7f80_0000 || bits > 0x8000_0000 {
        0
    } else if bits < 0x8000_0000 && bits > ONE {
        ONE
    } else {
        bits
    }
}

/// Splits the pattern of a number between zero and one into its parts.
pub(crate) fn decode(bits: u32) -> (r: Scaled)
    requires
        bits <= ONE,
    ensures
        r.value() == magnitude(bits),
        r.mant <= 0x100_0000,
        r.exp <= 126,
        bits < ONE ==> r.exp <= 125,
{
    let exponent: u32 = bits / 0x80_0000;
    let fraction: u32 = bits % 0x80_0000;
    proof {
        lemma2_to64();
    }
    if exponent == 0 {
        assert(fraction as nat * 1 == fraction as nat);
        Scaled { mant: fraction as u64, exp: 0 }
    } else {
        Scaled { mant: fraction as u64 + 0x80_0000, exp: exponent - 1 }
    }
}

/// What is in range stays as it is, so that clamping twice is clamping once.
pub proof fn clamping_is_idempotent(bits: u32)
    ensures
        !is_nan(bits) && 0 <= value(bits) <= one() ==> clamped(bits) == bits,
        clamped(clamped(bits)) == clamped(bits),
{
    patterns_are_ordered(0);
    patterns_are_ordered(ONE);
    lemma_pow2_pos(149);
}

/// The patterns without a sign count upwards from zero. From one to the next the
/// value grows by one unit in the last place: two to the exponent, less one
/// where there is an exponent. So one pattern after the other, each has its
/// value.
pub proof fn the_next_pattern_is_one_unit_up(bits: u32)
    requires
        bits < 0x7fff_ffff,
    ensures
        magnitude(0) == 0,
        bits < 0x80_0000 ==> magnitude((bits + 1) as u32) == magnitude(bits) + 1,
        bits >= 0x80_0000 ==> magnitude((bits + 1) as u32) == magnitude(bits) + pow2(
            (bits / 0x80_0000 - 1) as nat,
        ),
{
    let next = (bits + 1) as u32;
    let (exponent, fraction) = (bits / 0x80_0000, (bits % 0x80_0000) as nat);
    lemma2_to64();
    if exponent == 0 {
        if fraction + 1 == 0x80_0000 {
            assert(next == 0x80_0000);
            assert((0nat + 0x80_0000) * pow2(0) == 0x80_0000);
        }
    } else {
        let k = pow2((exponent - 1) as nat);
        if fraction + 1 < 0x80_0000 {
            assert(next / 0x80_0000 == exponent && next % 0x80_0000 == fraction + 1);
            assert((fraction + 1 + 0x80_0000) * k == (fraction + 0x80_0000) * k + k)
                by (nonlinear_arith);
        } else {
            assert(next / 0x80_0000 == exponent + 1 && next % 0x80_0000 == 0);
            lemma_pow2_unfold(exponent as nat);
            assert((0nat + 0x80_0000) * (2 * k) == (fraction + 0x80_0000) * k + k)
                by (nonlinear_arith)
                requires
                    fraction == 0x7f_ffff,
            ;
        }
    }
}

/// The first bit is the sign: with it, a pattern stands for the opposite.
pub proof fn the_sign_negates(bits: u32)
    requires
        bits < 0x8000_0000,
    ensures
        value(bits) == magnitude(bits),
        value((bits + 0x8000_0000) as u32) == -value(bits),
        is_nan((bits + 0x8000_0000) as u32) == is_nan(bits),
        is_nan(bits) <==> bits > 0x7f80_0000,
{
    lemma_magnitude_sign((bits + 0x8000_0000) as u32);
}

/// Clamping gives the nearest number from zero to one, and zero for no number.
pub proof fn clamping_gives_the_nearest_in_range(bits: u32)
    ensures
        !is_nan(clamped(bits)),
        is_nan(bits) ==> value(clamped(bits)) == 0,
        !is_nan(bits) && value(bits) <= 0 ==> value(clamped(bits)) == 0,
        !is_nan(bits) && 0 <= value(bits) <= one() ==> value(clamped(bits)) == value(bits),
        !is_nan(bits) && value(bits) >= one() ==> value(clamped(bits)) == one(),
        one() == pow2(149),
        value(ONE) == pow2(149),
{
    patterns_are_ordered(0);
    patterns_are_ordered(ONE);
    lemma_pow2_pos(149);
}

} // verus!
