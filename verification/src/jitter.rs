//! Random variation of a delay.
//!
//! A delay is multiplied by a number near one that a random sample picks. The
//! numbers on the way are single- and double-precision ones; here each of them
//! is an integer in a small enough unit, and each operation on them is an
//! exact one followed by the rounding that the format asks for. Only the number
//! near one is rounded so that it does not leave the range it is picked from.

use crate::binary32::{
    clamp, clamped, clamping_gives_the_nearest_in_range, decode, is_nan, lemma_magnitude_sign, magnitude,
    one, patterns_are_ordered, value, ONE,
};
use crate::duration::{Duration, NANOS_PER_SEC};
use crate::rounding::{
    a_number_is_rounded_to_the_nearest, bit_len, digits, divide_nearest, lemma_bit_len_at_most, lemma_bit_len_bounds,
    lemma_nearest_even_at_most, lemma_nearest_even_error, lemma_nearest_even_exact,
    lemma_nearest_even_ordered, lemma_nearest_even_scale, lemma_round_bits_at_most_power,
    lemma_round_bits_error, lemma_round_bits_near_power, lemma_round_bits_ordered,
    lemma_round_bits_scale, lemma_round_bits_tail, lemma_round_directed_near_power,
    lemma_round_quotient_error, lemma_round_within_error, lemma_round_within_nearest, lemma_round_within_ordered,
    lemma_round_within_range, lemma_round_within_scale, lemma_round_within_significant,
    lemma_u128_limit, nearest_even, power_of_two, round_bits, round_quotient, round_to,
    round_to_within, round_within, unit, Scaled,
};
use vstd::arithmetic::div_mod::*;
use vstd::arithmetic::mul::*;
use vstd::arithmetic::power2::*;
use vstd::prelude::*;

verus! {

/// Whether `sample` is a number from zero up to, but not at, one.
pub open spec fn is_sample(sample: u32) -> bool {
    sample < ONE
}

/// Whether the sample lengthens the delay.
pub open spec fn swings_up(sample: u32) -> bool {
    2 * magnitude(sample) >= one()
}

/// How far the sample, doubled and less one, lies from zero: a
/// single-precision number, in units of two to the -149.
pub open spec fn swing(sample: u32) -> nat {
    let doubled = 2 * magnitude(sample);
    round_bits(
        if swings_up(sample) {
            (doubled - one()) as nat
        } else {
            (one() - doubled) as nat
        },
        24,
    )
}

/// One, plus or minus the sample's swing times `fraction`, in units of two to
/// the -298.
pub open spec fn exact_multiplier(fraction: u32, sample: u32) -> nat {
    let change = swing(sample) * magnitude(fraction);
    if swings_up(sample) {
        one() * one() + change
    } else {
        (one() * one() - change) as nat
    }
}

/// One less `fraction`, in units of two to the -298.
pub open spec fn least_multiplier(fraction: u32) -> nat {
    (one() * (one() - magnitude(fraction))) as nat
}

/// One and `fraction`, in units of two to the -298.
pub open spec fn greatest_multiplier(fraction: u32) -> nat {
    one() * (one() + magnitude(fraction))
}

/// One, plus or minus the sample's swing times `fraction`: of the
/// single-precision numbers that differ from one by at most `fraction`, the
/// nearest, in units of two to the -298.
pub open spec fn multiplier(fraction: u32, sample: u32) -> nat {
    round_within(
        exact_multiplier(fraction, sample),
        least_multiplier(fraction),
        greatest_multiplier(fraction),
        24,
    )
}

/// The seconds of `base`: a double-precision number, in units of two to the
/// -82. The whole seconds and the rest are rounded before they are added.
pub open spec fn seconds(base: Duration) -> nat {
    let whole = round_bits(base.secs() as nat, 53);
    let part = round_quotient(base.nanos() as nat * pow2(82), NANOS_PER_SEC as nat, 53);
    round_bits(whole * pow2(82) + part, 53)
}

/// The seconds of `base` times `factor`: a double-precision number, in units
/// of two to the -380, where `factor` is in units of two to the -298.
pub open spec fn product(base: Duration, factor: nat) -> nat {
    round_bits(seconds(base) * factor, 53)
}

/// That product as whole nanoseconds.
pub open spec fn product_nanos(base: Duration, factor: nat) -> nat {
    nearest_even(product(base, factor) * NANOS_PER_SEC as nat, pow2(380))
}

/// Whether that product is a number of seconds that a [`Duration`] can hold.
pub open spec fn product_fits(base: Duration, factor: nat) -> bool {
    product(base, factor) < pow2(444)
}

/// Whether the delay is not varied at all.
pub open spec fn is_steady(fraction: u32) -> bool {
    !is_nan(fraction) && magnitude(clamped(fraction)) == 0
}

/// Whether [`jittered`] can hold its result. With a fraction that is no number
/// the result is empty; with a fraction of zero it is `base`.
pub open spec fn fits(base: Duration, fraction: u32, sample: u32) -> bool {
    is_nan(fraction) || is_steady(fraction) || product_fits(
        base,
        multiplier(clamped(fraction), sample),
    )
}

/// The length of the varied delay, in nanoseconds.
pub open spec fn jittered_nanos(base: Duration, fraction: u32, sample: u32) -> nat {
    if is_nan(fraction) {
        0
    } else if is_steady(fraction) {
        base@
    } else {
        product_nanos(base, multiplier(clamped(fraction), sample))
    }
}

proof fn lemma_mul_swap(a: nat, b: nat, c: nat, d: nat)
    ensures
        (a * b) * (c * d) == (a * c) * (b * d),
{
    assert((a * b) * (c * d) == (a * c) * (b * d)) by (nonlinear_arith);
}

/// A product of two numbers in scientific form.
proof fn lemma_scaled_product(a: Scaled, b: Scaled)
    ensures
        a.value() * b.value() == (a.mant as nat * b.mant as nat) * pow2((a.exp + b.exp) as nat),
{
    lemma_mul_swap(a.mant as nat, pow2(a.exp as nat), b.mant as nat, pow2(b.exp as nat));
    lemma_pow2_adds(a.exp as nat, b.exp as nat);
}

/// Puts another `e` binary places behind a rounded number.
proof fn lemma_scaled_shift(n: nat, r: Scaled, e: nat, s: Scaled, p: nat)
    requires
        r.value() == round_bits(n, p),
        s.mant == r.mant,
        s.exp == r.exp + e,
    ensures
        s.value() == round_bits(n * pow2(e), p),
{
    lemma_round_bits_scale(n, e, p);
    lemma_pow2_adds(r.exp as nat, e);
    let (m, x, y) = (r.mant as nat, pow2(r.exp as nat), pow2(e));
    assert(m * (x * y) == (m * x) * y) by (nonlinear_arith);
}

proof fn lemma_mul_bound(a: nat, x: nat, b: nat, y: nat)
    requires
        a <= pow2(x),
        b <= pow2(y),
    ensures
        a * b <= pow2(x + y),
{
    lemma_pow2_adds(x, y);
    let (p, q) = (pow2(x), pow2(y));
    assert(a * b <= p * q) by (nonlinear_arith)
        requires
            a <= p,
            b <= q,
    ;
}

proof fn lemma_pow2_le(x: nat, y: nat)
    requires
        x <= y,
    ensures
        pow2(x) <= pow2(y),
{
    if x < y {
        lemma_pow2_strictly_increases(x, y);
    }
}

/// The sample's swing, and whether it lengthens the delay.
fn swing_of(sample: u32) -> (r: (bool, Scaled))
    requires
        is_sample(sample),
    ensures
        r.0 == swings_up(sample),
        r.1.value() == swing(sample),
        r.1.value() <= one(),
        r.1.mant <= 0x100_0000,
        101 <= r.1.exp <= 126,
{
    let s: Scaled = decode(sample);
    proof {
        lemma2_to64();
        patterns_are_ordered(sample);
        lemma_pow2_unfold((s.exp + 1) as nat);
        let (m, k) = (s.mant as nat, pow2(s.exp as nat));
        assert(2 * (m * k) == m * (2 * k)) by (nonlinear_arith);
        assert(2 * magnitude(sample) == m * pow2((s.exp + 1) as nat));
    }
    if s.exp <= 99 {
        proof {
            let x = 2 * magnitude(sample);
            lemma_pow2_le((s.exp + 1) as nat, 100);
            lemma_mul_bound(s.mant as nat, 24, pow2((s.exp + 1) as nat), 100);
            lemma_pow2_strictly_increases(124, 149);
            lemma_round_bits_near_power(149, x, 24);
            lemma_pow2_adds(23, 126);
        }
        (false, Scaled { mant: 0x80_0000, exp: 126 })
    } else {
        let k: u32 = 148 - s.exp;
        let p: u128 = power_of_two(k);
        let m: u128 = s.mant as u128;
        let ghost e = (s.exp + 1) as nat;
        proof {
            lemma_pow2_adds(k as nat, e);
            lemma_pow2_pos(e);
            lemma_pow2_le(24, (k + 1) as nat);
            lemma_pow2_unfold((k + 1) as nat);
            assert(one() == p as nat * pow2(e));
        }
        let up: bool = m >= p;
        let n: u128 = if up {
            m - p
        } else {
            p - m
        };
        proof {
            let w = pow2(e);
            let (pp, mm) = (p as nat, m as nat);
            assert(mm >= pp ==> mm * w >= pp * w && (mm - pp) * w == mm * w - pp * w)
                by (nonlinear_arith)
                requires
                    w > 0,
            ;
            assert(mm < pp ==> mm * w < pp * w && (pp - mm) * w == pp * w - mm * w)
                by (nonlinear_arith)
                requires
                    w > 0,
            ;
            assert(n <= p) by {
                lemma_pow2_le(k as nat, 48);
            }
            assert(n as nat * w == if up {
                (2 * magnitude(sample) - one()) as nat
            } else {
                (one() - 2 * magnitude(sample)) as nat
            });
            assert(n < pow2((k + 1) as nat));
            lemma_bit_len_at_most(n as nat, (k + 1) as nat);
        }
        let r: Scaled = round_to(n, 24);
        let s2: Scaled = Scaled { mant: r.mant, exp: r.exp + (s.exp + 1) };
        proof {
            lemma_scaled_shift(n as nat, r, e, s2, 24);
            let (a, b, w) = (n as nat, p as nat, pow2(e));
            assert(a * w <= b * w) by (nonlinear_arith)
                requires
                    a <= b,
            ;
            lemma_round_bits_at_most_power(a * w, 149, 24);
        }
        (up, s2)
    }
}

/// The number that a delay is multiplied by.
fn multiplier_of(fraction: u32, sample: u32) -> (r: Scaled)
    requires
        fraction <= ONE,
        is_sample(sample),
    ensures
        r.value() == multiplier(fraction, sample),
        r.mant <= 0x100_0000,
        r.exp <= 298,
{
    let f: Scaled = decode(fraction);
    let ghost (o, x) = (one(), magnitude(fraction));
    proof {
        lemma2_to64();
        patterns_are_ordered(fraction);
        lemma_pow2_adds(149, 149);
        assert(o * (o - x) == o * o - o * x && o * (o + x) == o * o + o * x) by (nonlinear_arith);
    }
    if f.exp <= 100 {
        // No other number is that near to one.
        proof {
            lemma_pow2_le(f.exp as nat, 100);
            lemma_mul_bound(f.mant as nat, 24, pow2(f.exp as nat), 100);
            lemma_mul_bound(o, 149, x, 124);
            lemma_pow2_strictly_increases(273, 274);
            lemma_round_directed_near_power(298, o * x, 24);
            assert(1 * pow2(298) == pow2(298));
        }
        return Scaled { mant: 1, exp: 298 };
    }
    let (up, s): (bool, Scaled) = swing_of(sample);
    let g: u32 = s.exp + f.exp;
    let a: u128 = power_of_two(149 - s.exp);
    let b: u128 = power_of_two(149 - f.exp);
    let ghost (w, k) = (pow2(g as nat), (298 - g) as nat);
    proof {
        lemma_u128_limit();
        lemma_pow2_le((149 - s.exp) as nat, 48);
        lemma_pow2_le((149 - f.exp) as nat, 48);
        lemma_pow2_adds((149 - s.exp) as nat, (149 - f.exp) as nat);
        lemma_pow2_adds((149 - s.exp) as nat, s.exp as nat);
        lemma_pow2_adds((149 - f.exp) as nat, f.exp as nat);
        lemma_pow2_adds(s.exp as nat, f.exp as nat);
        lemma_pow2_adds(k, g as nat);
        lemma_pow2_pos(s.exp as nat);
        lemma_pow2_pos(f.exp as nat);
        lemma_pow2_pos(g as nat);
        lemma_mul_bound(a as nat, 48, b as nat, 48);
        lemma_mul_bound(a as nat, 48, f.mant as nat, 24);
        lemma_mul_bound(s.mant as nat, 24, f.mant as nat, 24);
        lemma_pow2_strictly_increases(48, 96);
        lemma_pow2_strictly_increases(72, 96);
        lemma_pow2_unfold(97);
        lemma_pow2_strictly_increases(97, 126);
        lemma_pow2_strictly_increases(126, 128);
    }
    let whole: u128 = a * b;
    let span: u128 = a * f.mant as u128;
    let change: u128 = s.mant as u128 * f.mant as u128;
    proof {
        // In units of two to the `g`.
        let (aa, bb, sm, fm) = (a as nat, b as nat, s.mant as nat, f.mant as nat);
        let (v, y) = (pow2(s.exp as nat), pow2(f.exp as nat));
        assert(sm <= aa) by (nonlinear_arith)
            requires
                sm * v <= aa * v,
                v > 0,
        ;
        assert(fm <= bb) by (nonlinear_arith)
            requires
                fm * y <= bb * y,
                y > 0,
        ;
        assert(sm * fm <= aa * fm && aa * fm <= aa * bb) by (nonlinear_arith)
            requires
                sm <= aa,
                fm <= bb,
        ;
        lemma_mul_swap(aa, v, fm, y);
        lemma_mul_swap(sm, v, fm, y);
        assert(o * x == span as nat * w);
        assert(swing(sample) * x == change as nat * w);
        assert(o * o == whole as nat * w);
    }
    let n: u128 = if up {
        whole + change
    } else {
        whole - change
    };
    let (lo, hi): (u128, u128) = (whole - span, whole + span);
    proof {
        assert(pow2(k) == whole);
        assert(lo <= pow2(k) <= hi);
        let (q, d, t) = (whole as nat, change as nat, span as nat);
        assert((q + d) * w == q * w + d * w && (q - d) * w == q * w - d * w) by (nonlinear_arith);
        assert((q + t) * w == q * w + t * w && (q - t) * w == q * w - t * w) by (nonlinear_arith);
        lemma_pow2_unfold(k + 1);
        lemma_pow2_strictly_increases(k + 1, k + 2);
        lemma_bit_len_at_most(hi as nat, k + 2);
    }
    let r: Scaled = round_to_within(n, lo, hi, 24);
    let m: Scaled = Scaled { mant: r.mant, exp: r.exp + g };
    proof {
        lemma_round_within_scale(n as nat, lo as nat, hi as nat, g as nat, 24);
        lemma_pow2_adds(r.exp as nat, g as nat);
        let (c, d) = (r.mant as nat, pow2(r.exp as nat));
        assert(c * (d * w) == (c * d) * w) by (nonlinear_arith);
    }
    m
}

/// The part of a second as a double-precision number, in units of two to the
/// -82.
fn part_of(nanos: u32) -> (r: u128)
    requires
        nanos < NANOS_PER_SEC,
    ensures
        r == round_quotient(nanos as nat * pow2(82), NANOS_PER_SEC as nat, 53),
        r <= pow2(82),
{
    let d: u128 = 1_000_000_000;
    let w: u128 = power_of_two(82);
    proof {
        lemma2_to64();
        lemma_u128_limit();
        lemma_mul_bound(nanos as nat, 30, w as nat, 82);
        lemma_pow2_strictly_increases(112, 128);
        lemma_pow2_pos(82);
    }
    let n: u128 = nanos as u128 * w;
    let t: u128 = n / d;
    let l: u32 = digits(t);
    let ghost (nn, dd, tt) = (n as nat, d as nat, t as nat);
    proof {
        lemma_fundamental_div_mod(n as int, d as int);
        assert(t < pow2(82)) by (nonlinear_arith)
            requires
                n == nanos * w,
                nanos < d,
                w == pow2(82),
                n == d * t + n % d,
                n % d >= 0,
                w > 0,
        ;
        lemma_bit_len_at_most(tt, 82);
    }
    let u: u128 = if l <= 53 {
        1
    } else {
        power_of_two(l - 53)
    };
    proof {
        assert(u == unit(tt, 53));
        lemma_pow2_le(0, (if l <= 53 { 0 } else { l - 53 }) as nat);
        lemma_pow2_le((if l <= 53 { 0 } else { l - 53 }) as nat, 29);
        assert(u <= 0x2000_0000);
    }
    let q: u128 = divide_nearest(n, d * u);
    proof {
        // The quotient has at most 53 digits in front of the unit.
        let cap = pow2(53);
        if tt > 0 {
            lemma_bit_len_bounds(tt);
        }
        lemma_pow2_pos(53);
        if l <= 53 {
            lemma_pow2_le(l as nat, 53);
        } else {
            lemma_pow2_adds(53, (l - 53) as nat);
        }
        assert(tt + 1 <= cap * u) by {
            assert(cap * 1 == cap);
        }
        let uu = u as nat;
        lemma_mul_is_distributive_add(dd as int, tt as int, 1);
        assert(dd * (tt + 1) <= cap * (dd * uu)) by (nonlinear_arith)
            requires
                tt + 1 <= cap * uu,
        ;
        lemma_nearest_even_at_most(nn, dd * uu, cap);
        let qq = q as nat;
        assert(qq * uu <= cap * uu) by (nonlinear_arith)
            requires
                qq <= cap,
        ;
        if l <= 53 {
            lemma_pow2_strictly_increases(53, 82);
        } else {
            lemma_pow2_le(l as nat, 82);
        }
        lemma_pow2_strictly_increases(82, 128);
        assert(qq * uu == round_quotient(nn, dd, 53));
    }
    q * u
}

/// The seconds of `base` as a double-precision number.
fn seconds_of(base: &Duration) -> (r: Scaled)
    ensures
        r.value() == seconds(*base),
        r.mant <= pow2(53),
        r.exp <= 128,
{
    let part: u128 = part_of(base.subsec_nanos());
    let a: Scaled = round_to(base.as_secs() as u128, 53);
    proof {
        lemma2_to64();
        lemma_u128_limit();
        lemma_bit_len_at_most(base.secs() as nat, 64);
        lemma_round_bits_at_most_power(base.secs() as nat, 64, 53);
        lemma_pow2_strictly_increases(64, 128);
        assert(a.exp <= 11);
    }
    let whole: u128 = a.mant as u128 * power_of_two(a.exp);
    proof {
        assert(whole <= 0x1_0000_0000_0000_0000);
    }
    let limit: u128 = power_of_two(45);
    if whole < limit {
        let w: u128 = power_of_two(82);
        proof {
            lemma_mul_bound(whole as nat, 45, w as nat, 82);
            lemma_pow2_strictly_increases(82, 127);
            lemma_pow2_unfold(128);
        }
        let r: Scaled = round_to(whole * w + part, 53);
        r
    } else {
        let w: u128 = power_of_two(46);
        let v: u128 = power_of_two(36);
        proof {
            lemma_pow2_adds(46, 36);
            lemma_mul_bound(whole as nat, 64, w as nat, 46);
            lemma_pow2_pos(36);
            lemma_fundamental_div_mod(part as int, v as int);
            lemma_pow2_strictly_increases(82, 110);
            lemma_pow2_unfold(111);
            lemma_pow2_unfold(112);
            lemma_pow2_unfold(113);
            lemma_pow2_strictly_increases(113, 128);
        }
        let high: u128 = part / v;
        let tail: u128 = part % v;
        proof {
            assert(high <= part) by (nonlinear_arith)
                requires
                    part == v * high + tail,
                    v > 0,
                    tail >= 0,
                    high >= 0,
            ;
        }
        let n: u128 = whole * w + high;
        let b: u128 = if tail > 0 {
            1
        } else {
            0
        };
        let r: Scaled = round_to(2 * n + b, 53);
        let s: Scaled = Scaled { mant: r.mant, exp: r.exp + 35 };
        proof {
            // At least 91 digits stand in front of the tail.
            lemma_pow2_adds(45, 46);
            let (ww, lim, hi) = (w as nat, limit as nat, whole as nat);
            assert(hi * ww >= lim * ww) by (nonlinear_arith)
                requires
                    hi >= lim,
            ;
            lemma_pow2_pos(91);
            if bit_len(n as nat) <= 54 {
                lemma_bit_len_bounds(n as nat);
                lemma_pow2_le(bit_len(n as nat), 54);
                lemma_pow2_strictly_increases(54, 91);
            }
            lemma_bit_len_at_most((2 * n + b) as nat, 113);
            lemma_round_bits_tail(n as nat, tail as nat, 36, 53);
            let (m, x, y) = (r.mant as nat, pow2(r.exp as nat), pow2(35));
            lemma_pow2_adds(r.exp as nat, 35);
            assert(m * (x * y) == (m * x) * y) by (nonlinear_arith);
            let (vv, t, h) = (v as nat, tail as nat, high as nat);
            assert((hi * ww + h) * vv + t == hi * (ww * vv) + (vv * h + t)) by (nonlinear_arith);
        }
        s
    }
}

/// The seconds of `base` times `factor`, in whole nanoseconds; nothing where
/// that is more than a [`Duration`] can hold.
fn scale(base: &Duration, factor: Scaled) -> (r: Option<Duration>)
    requires
        factor.mant <= 0x100_0000,
        factor.exp <= 298,
    ensures
        r is Some <==> product_fits(*base, factor.value()),
        r matches Some(d) ==> d.wf() && d@ == product_nanos(*base, factor.value()),
{
    let s: Scaled = seconds_of(base);
    proof {
        lemma2_to64();
        lemma_u128_limit();
        lemma_mul_bound(s.mant as nat, 53, factor.mant as nat, 24);
        lemma_pow2_strictly_increases(77, 128);
        lemma_scaled_product(s, factor);
    }
    let n: u128 = s.mant as u128 * factor.mant as u128;
    let p: Scaled = round_to(n, 53);
    let ghost e0 = (s.exp + factor.exp) as nat;
    let e: u32 = p.exp + (s.exp + factor.exp);
    let m: u128 = p.mant as u128;
    let ghost whole = product(*base, factor.value());
    proof {
        let q = Scaled { mant: p.mant, exp: e };
        lemma_scaled_shift(n as nat, p, e0, q, 53);
        assert(whole == m as nat * pow2(e as nat));
        lemma_pow2_strictly_increases(53, 64);
        lemma_pow2_adds(64, 380);
        lemma_pow2_pos(380);
        lemma_mul_bound(m as nat, 53, NANOS_PER_SEC as nat, 30);
        lemma_pow2_strictly_increases(83, 89);
        lemma_pow2_strictly_increases(89, 128);
    }
    if e >= 380 {
        if m == 0 {
            proof {
                let w = pow2(e as nat);
                assert(0 * w == 0) by (nonlinear_arith);
                lemma_nearest_even_exact(0, pow2(380));
                lemma_pow2_pos(444);
            }
            return Some(Duration::from_secs(0));
        }
        if e >= 444 {
            proof {
                lemma_pow2_le(444, e as nat);
                let (mm, w) = (m as nat, pow2(e as nat));
                assert(mm * w >= w) by (nonlinear_arith)
                    requires
                        mm >= 1,
                ;
            }
            return None;
        }
        let k: u128 = power_of_two(e - 380);
        proof {
            lemma_pow2_adds((e - 380) as nat, 380);
            lemma_pow2_le((e - 380) as nat, 63);
            lemma_mul_bound(m as nat, 53, k as nat, 63);
            lemma_pow2_strictly_increases(116, 128);
        }
        let secs: u128 = m * k;
        let ghost (ss, w) = (secs as nat, pow2(380));
        proof {
            let (mm, kk) = (m as nat, k as nat);
            assert(mm * (kk * w) == ss * w) by (nonlinear_arith)
                requires
                    ss == mm * kk,
            ;
            assert(ss * w < 0x1_0000_0000_0000_0000 * w <==> ss < 0x1_0000_0000_0000_0000)
                by (nonlinear_arith)
                requires
                    w > 0,
            ;
        }
        if secs >= 0x1_0000_0000_0000_0000 {
            return None;
        }
        proof {
            let g = NANOS_PER_SEC as nat;
            assert((ss * w) * g == (ss * g) * w) by (nonlinear_arith);
            lemma_nearest_even_exact(ss * g, w);
        }
        Some(Duration::from_nanos(secs * 1_000_000_000))
    } else {
        let k: u32 = 380 - e;
        let nanos: u128 = m * 1_000_000_000;
        proof {
            lemma_pow2_le(e as nat, 380);
            lemma_pow2_strictly_increases(380, 444);
            let (mm, x, y) = (m as nat, pow2(e as nat), pow2(380));
            lemma_pow2_pos(e as nat);
            assert(mm * x < 0x1_0000_0000_0000_0000 * y) by (nonlinear_arith)
                requires
                    mm < 0x1_0000_0000_0000_0000,
                    x <= y,
                    x > 0,
            ;
            lemma_pow2_adds(k as nat, e as nat);
            let g = NANOS_PER_SEC as nat;
            assert((mm * x) * g == (mm * g) * x) by (nonlinear_arith);
            lemma_pow2_pos(k as nat);
            lemma_nearest_even_scale(nanos as nat, pow2(k as nat), x);
        }
        if k >= 90 {
            proof {
                // Less than half a nanosecond.
                lemma_pow2_unfold(90);
                lemma_pow2_le(90, k as nat);
                lemma_small_mod(nanos as nat, pow2(k as nat));
                lemma_basic_div(nanos as int, pow2(k as nat) as int);
            }
            return Some(Duration::from_secs(0));
        }
        let d: u128 = power_of_two(k);
        proof {
            lemma_pow2_strictly_increases(k as nat, 127);
            lemma_pow2_unfold(128);
            let (nn, dd) = (nanos as nat, d as nat);
            assert(nn <= nn * dd) by (nonlinear_arith)
                requires
                    dd > 0,
            ;
            lemma_nearest_even_at_most(nn, dd, nn);
        }
        Some(Duration::from_nanos(divide_nearest(nanos, d)))
    }
}

/// Whether the varied delay is one that a [`Duration`] can hold.
pub fn jitter_fits(base: &Duration, fraction: u32, sample: u32) -> (r: bool)
    requires
        is_sample(sample),
    ensures
        r == fits(*base, fraction, sample),
{
    checked_jittered(base, fraction, sample).is_some()
}

/// The varied delay; nothing where a [`Duration`] cannot hold it.
fn checked_jittered(base: &Duration, fraction: u32, sample: u32) -> (r: Option<Duration>)
    requires
        is_sample(sample),
    ensures
        r is Some <==> fits(*base, fraction, sample),
        r matches Some(d) ==> d.wf() && d@ == jittered_nanos(*base, fraction, sample),
{
    if fraction % 0x8000_0000 > 0x7f80_0000 {
        return Some(Duration::from_secs(0));
    }
    let f: u32 = clamp(fraction);
    proof {
        use_type_invariant(base);
        if f < 0x8000_0000 {
            patterns_are_ordered(f);
        } else {
            lemma_magnitude_sign(f);
            patterns_are_ordered((f - 0x8000_0000) as u32);
        }
    }
    if f % 0x8000_0000 == 0 {
        return Some(*base);
    }
    scale(base, multiplier_of(f, sample))
}

/// Varies `base` by up to `fraction` of its length, up or down, as `sample`
/// picks; both are single-precision numbers, given by their patterns.
///
/// `fraction` is first brought into the range from zero to one. With zero the
/// delay is `base` itself.
pub fn jittered(base: &Duration, fraction: u32, sample: u32) -> (d: Duration)
    requires
        is_sample(sample),
        fits(*base, fraction, sample),
    ensures
        d.wf(),
        d@ == jittered_nanos(*base, fraction, sample),
{
    checked_jittered(base, fraction, sample).unwrap()
}

// ---------------------------------------------------------------------------
// Laws

/// A fraction of zero, or below, leaves the delay as it is, whatever is drawn.
pub proof fn no_fraction_keeps_the_delay(base: Duration, fraction: u32, sample: u32)
    requires
        !is_nan(fraction),
        value(fraction) <= 0,
    ensures
        fits(base, fraction, sample),
        jittered_nanos(base, fraction, sample) == base@,
{
    patterns_are_ordered(0);
}

/// A fraction above one counts as one.
pub proof fn fraction_above_one_counts_as_one(base: Duration, fraction: u32, sample: u32)
    requires
        !is_nan(fraction),
        value(fraction) >= one(),
    ensures
        fits(base, fraction, sample) == fits(base, ONE, sample),
        jittered_nanos(base, fraction, sample) == jittered_nanos(base, ONE, sample),
{
    lemma_pow2_pos(149);
    patterns_are_ordered(ONE);
    if fraction < 0x8000_0000 {
        patterns_are_ordered(fraction);
    }
}

/// Bringing a fraction into range beforehand makes no difference.
pub proof fn clamping_makes_no_difference(base: Duration, fraction: u32, sample: u32)
    requires
        !is_nan(fraction),
    ensures
        fits(base, clamped(fraction), sample) == fits(base, fraction, sample),
        jittered_nanos(base, clamped(fraction), sample) == jittered_nanos(base, fraction, sample),
{
    lemma_pow2_pos(149);
    patterns_are_ordered(0);
    patterns_are_ordered(ONE);
}

/// The seconds of a span are off by at most two roundings.
proof fn lemma_seconds_error(base: Duration)
    requires
        base.wf(),
    ensures
        ({
            let w = pow2(53) as int;
            let exact = base@ * pow2(82);
            let got = seconds(base) * NANOS_PER_SEC * (w * w);
            exact * ((w - 1) * (w - 1)) <= got <= exact * ((w + 1) * (w + 1))
        }),
{
    let w = pow2(53) as int;
    let k = pow2(82) as int;
    let g = NANOS_PER_SEC as int;
    let (s, n) = (base.secs() as int, base.nanos() as int);
    let whole = round_bits(base.secs() as nat, 53) as int;
    let rest = base.nanos() as nat * pow2(82);
    let part = round_quotient(rest, NANOS_PER_SEC as nat, 53) as int;
    lemma2_to64();
    lemma_pow2_pos(53);
    lemma_pow2_pos(82);
    lemma_round_bits_error(base.secs() as nat, 53);
    if n == 0 {
        assert(rest == 0) by (nonlinear_arith)
            requires
                rest == n * k,
                n == 0,
        ;
    } else {
        // A nanosecond is more than two to the -30.
        let t = rest / NANOS_PER_SEC as nat;
        lemma_pow2_adds(52, 30);
        let low = pow2(52) as int;
        assert(low * g <= n * k) by (nonlinear_arith)
            requires
                k == low * 0x4000_0000,
                g <= 0x4000_0000,
                n >= 1,
                low >= 0,
        ;
        lemma_div_is_ordered(low * g, rest as int, g);
        lemma_div_by_multiple(low, g);
        if bit_len(t) < 53 {
            lemma_pow2_pos(52);
            lemma_bit_len_bounds(t);
            lemma_pow2_le(bit_len(t), 52);
        }
    }
    lemma_round_quotient_error(rest, NANOS_PER_SEC as nat, 53);
    let sum = whole * k + part;
    let exact = base@ * k;
    assert(exact == s * k * g + n * k) by (nonlinear_arith)
        requires
            exact == (s * g + n) * k,
    ;
    let a = whole * w;
    assert((s * w - s) * k <= a * k <= (s * w + s) * k) by (nonlinear_arith)
        requires
            s * w - s <= a <= s * w + s,
            k > 0,
    ;
    assert((s * w - s) * k * g <= a * k * g <= (s * w + s) * k * g) by (nonlinear_arith)
        requires
            (s * w - s) * k <= a * k <= (s * w + s) * k,
            g > 0,
    ;
    let both = sum * g * w;
    assert(both == a * k * g + part * g * w) by (nonlinear_arith)
        requires
            both == (whole * k + part) * g * w,
            a == whole * w,
    ;
    assert((s * w + s) * k * g + (n * k * w + n * k) == exact * (w + 1)) by (nonlinear_arith)
        requires
            exact == s * k * g + n * k,
    ;
    assert((s * w - s) * k * g + (n * k * w - n * k) == exact * (w - 1)) by (nonlinear_arith)
        requires
            exact == s * k * g + n * k,
    ;
    assert(exact * (w - 1) <= both <= exact * (w + 1));
    lemma_round_bits_error(sum as nat, 53);
    let sec = seconds(base) as int;
    assert(sum * (w - 1) <= sec * w <= sum * (w + 1)) by (nonlinear_arith)
        requires
            sum * w - sum <= sec * w <= sum * w + sum,
    ;
    let c = g * w;
    assert((sum * (w - 1)) * c <= (sec * w) * c <= (sum * (w + 1)) * c) by (nonlinear_arith)
        requires
            sum * (w - 1) <= sec * w <= sum * (w + 1),
            c > 0,
    ;
    assert((sum * (w + 1)) * c == both * (w + 1)) by (nonlinear_arith)
        requires
            both == sum * g * w,
            c == g * w,
    ;
    assert((sum * (w - 1)) * c == both * (w - 1)) by (nonlinear_arith)
        requires
            both == sum * g * w,
            c == g * w,
    ;
    assert(both * (w + 1) <= (exact * (w + 1)) * (w + 1)) by (nonlinear_arith)
        requires
            both <= exact * (w + 1),
            w > 0,
    ;
    assert(both * (w - 1) >= (exact * (w - 1)) * (w - 1)) by (nonlinear_arith)
        requires
            both >= exact * (w - 1),
            w > 0,
    ;
    assert((exact * (w + 1)) * (w + 1) == exact * ((w + 1) * (w + 1))) by (nonlinear_arith);
    assert((exact * (w - 1)) * (w - 1) == exact * ((w - 1) * (w - 1))) by (nonlinear_arith);
    assert((sec * w) * c == sec * g * (w * w)) by (nonlinear_arith)
        requires
            c == g * w,
    ;
}

/// The swing of a sample is at most one.
proof fn lemma_swing_bound(sample: u32)
    requires
        is_sample(sample),
    ensures
        swing(sample) <= one(),
{
    patterns_are_ordered(sample);
    let doubled = 2 * magnitude(sample);
    lemma_round_bits_at_most_power(
        if swings_up(sample) {
            (doubled - one()) as nat
        } else {
            (one() - doubled) as nat
        },
        149,
        24,
    );
}

/// The multiplier differs from one by at most the fraction. It is a
/// single-precision number: rounding it to 24 bits changes nothing.
pub proof fn the_multiplier_stays_within_the_fraction(fraction: u32, sample: u32)
    requires
        magnitude(fraction) <= one(),
    ensures
        one() * (one() - magnitude(fraction)) <= multiplier(fraction, sample) <= one() * (one()
            + magnitude(fraction)),
        round_bits(multiplier(fraction, sample), 24) == multiplier(fraction, sample),
{
    lemma_multiplier_range(fraction);
    let (lo, hi) = (least_multiplier(fraction), greatest_multiplier(fraction));
    lemma_round_within_range(exact_multiplier(fraction, sample), lo, hi, 298, 24);
    lemma_round_within_significant(exact_multiplier(fraction, sample), lo, hi, 24);
}

/// The range around one that the multiplier is taken from.
proof fn lemma_multiplier_range(fraction: u32)
    requires
        magnitude(fraction) <= one(),
    ensures
        least_multiplier(fraction) == one() * (one() - magnitude(fraction)),
        least_multiplier(fraction) <= pow2(298) <= greatest_multiplier(fraction),
        one() * one() == pow2(298),
{
    let (o, f) = (one() as int, magnitude(fraction) as int);
    lemma_pow2_adds(149, 149);
    assert(0 <= o * (o - f) <= o * o && o * o <= o * (o + f)) by (nonlinear_arith)
        requires
            0 <= f <= o,
    ;
}

/// The exact multiplier lies in that range.
proof fn lemma_exact_multiplier_range(fraction: u32, sample: u32)
    requires
        is_sample(sample),
        magnitude(fraction) <= one(),
    ensures
        swing(sample) * magnitude(fraction) <= one() * one(),
        least_multiplier(fraction) <= exact_multiplier(fraction, sample) <= greatest_multiplier(
            fraction,
        ),
{
    let (o, f, s) = (one() as int, magnitude(fraction) as int, swing(sample) as int);
    lemma_multiplier_range(fraction);
    lemma_swing_bound(sample);
    assert(0 <= s * f <= o * f && o * f <= o * o) by (nonlinear_arith)
        requires
            0 <= s <= o,
            0 <= f <= o,
    ;
    assert(o * (o - f) == o * o - o * f && o * (o + f) == o * o + o * f) by (nonlinear_arith);
}

/// No single-precision number that differs from one by at most the fraction is
/// nearer to the exact multiplier than the multiplier is. Such a number is
/// `mant`, of 24 bits, times two to the `exp`.
pub proof fn the_multiplier_is_the_nearest(fraction: u32, sample: u32, mant: nat, exp: nat)
    requires
        is_sample(sample),
        magnitude(fraction) <= one(),
        mant < pow2(24),
        one() * (one() - magnitude(fraction)) <= mant * pow2(exp) <= one() * (one() + magnitude(
            fraction,
        )),
    ensures
        ({
            let (exact, got) = (
                exact_multiplier(fraction, sample) as int,
                multiplier(fraction, sample) as int,
            );
            let other = (mant * pow2(exp)) as int;
            &&& got <= exact ==> exact - got <= other - exact || exact - got <= exact - other
            &&& got >= exact ==> got - exact <= other - exact || got - exact <= exact - other
        }),
{
    lemma_multiplier_range(fraction);
    lemma_exact_multiplier_range(fraction, sample);
    lemma_round_within_nearest(
        exact_multiplier(fraction, sample),
        least_multiplier(fraction),
        greatest_multiplier(fraction),
        mant,
        exp,
        24,
    );
}

/// Three roundings to 53 bits add up to less than four of them.
proof fn lemma_three_roundings(w: int)
    requires
        w == pow2(53),
    ensures
        (w + 1) * (w + 1) * (w + 1) <= (w * w) * (w + 4),
        (w - 1) * (w - 1) * (w - 1) >= (w * w) * (w - 4),
        w > 4,
{
    lemma2_to64();
    lemma_pow2_adds(21, 32);
    let sq = w * w;
    assert((w + 1) * (w + 1) * (w + 1) == sq * w + 3 * sq + 3 * w + 1) by (nonlinear_arith)
        requires
            sq == w * w,
    ;
    assert((w - 1) * (w - 1) * (w - 1) == sq * w - 3 * sq + 3 * w - 1) by (nonlinear_arith)
        requires
            sq == w * w,
    ;
    assert(3 * w + 1 <= sq) by (nonlinear_arith)
        requires
            sq == w * w,
            w >= 4,
    ;
    assert(sq * (w + 4) == sq * w + 4 * sq && sq * (w - 4) == sq * w - 4 * sq)
        by (nonlinear_arith);
}

/// Multiplying a span by a factor: what the roundings leave of it.
pub(crate) proof fn lemma_product_error(base: Duration, m: nat, lo: int, hi: int)
    requires
        base.wf(),
        0 <= lo <= m <= hi,
    ensures
        ({
            let w = pow2(53) as int;
            let exact = base@ * pow2(82);
            let got = product(base, m) * NANOS_PER_SEC * w;
            exact * lo * (w - 4) <= got <= exact * hi * (w + 4)
        }),
{
    let w = pow2(53) as int;
    let g = NANOS_PER_SEC as int;
    let sec = seconds(base) as int;
    let exact = (base@ * pow2(82)) as int;
    let prod = product(base, m) as int;
    let y = m as int;
    lemma_three_roundings(w);
    lemma_seconds_error(base);
    lemma_round_bits_error(seconds(base) * m, 53);
    let raw = sec * y;
    assert(raw * (w - 1) <= prod * w <= raw * (w + 1)) by (nonlinear_arith)
        requires
            raw * w - raw <= prod * w <= raw * w + raw,
    ;
    // Bring everything to the denominator w^3.
    let sq = w * w;
    let c = g * sq;
    assert(sq > 0) by (nonlinear_arith)
        requires
            sq == w * w,
            w > 4,
    ;
    assert(c > 0) by (nonlinear_arith)
        requires
            c == g * sq,
            g > 0,
            sq > 0,
    ;
    assert((raw * (w - 1)) * c <= (prod * w) * c <= (raw * (w + 1)) * c) by (nonlinear_arith)
        requires
            raw * (w - 1) <= prod * w <= raw * (w + 1),
            c > 0,
    ;
    let x = sec * g * sq;
    assert((raw * (w + 1)) * c == (x * y) * (w + 1)) by (nonlinear_arith)
        requires
            raw == sec * y,
            c == g * sq,
            x == sec * g * sq,
    ;
    assert((raw * (w - 1)) * c == (x * y) * (w - 1)) by (nonlinear_arith)
        requires
            raw == sec * y,
            c == g * sq,
            x == sec * g * sq,
    ;
    let (u, v) = ((w + 1) * (w + 1), (w - 1) * (w - 1));
    let (xh, xl) = (exact * u, exact * v);
    assert(exact >= 0 && xl >= 0) by (nonlinear_arith)
        requires
            exact == base@ * pow2(82),
            v == (w - 1) * (w - 1),
            xl == exact * v,
    ;
    assert(xl * lo <= x * y <= xh * hi) by (nonlinear_arith)
        requires
            0 <= xl <= x <= xh,
            0 <= lo <= y <= hi,
    ;
    assert((xl * lo) * (w - 1) <= (x * y) * (w - 1)) by (nonlinear_arith)
        requires
            xl * lo <= x * y,
            w > 4,
    ;
    assert((x * y) * (w + 1) <= (xh * hi) * (w + 1)) by (nonlinear_arith)
        requires
            x * y <= xh * hi,
            w > 4,
    ;
    let (a, b) = ((w + 1) * (w + 1) * (w + 1), (w - 1) * (w - 1) * (w - 1));
    let (eh, el) = (exact * hi, exact * lo);
    assert((xh * hi) * (w + 1) == eh * a) by (nonlinear_arith)
        requires
            xh == exact * u,
            u == (w + 1) * (w + 1),
            eh == exact * hi,
            a == (w + 1) * (w + 1) * (w + 1),
    ;
    assert((xl * lo) * (w - 1) == el * b) by (nonlinear_arith)
        requires
            xl == exact * v,
            v == (w - 1) * (w - 1),
            el == exact * lo,
            b == (w - 1) * (w - 1) * (w - 1),
    ;
    assert(eh >= 0 && el >= 0) by (nonlinear_arith)
        requires
            exact >= 0,
            0 <= lo <= hi,
            eh == exact * hi,
            el == exact * lo,
    ;
    assert(eh * a <= eh * (sq * (w + 4))) by (nonlinear_arith)
        requires
            a <= sq * (w + 4),
            eh >= 0,
    ;
    assert(el * b >= el * (sq * (w - 4))) by (nonlinear_arith)
        requires
            b >= sq * (w - 4),
            el >= 0,
    ;
    let got = prod * g * w;
    assert((prod * w) * c == got * sq) by (nonlinear_arith)
        requires
            got == prod * g * w,
            c == g * sq,
    ;
    let (top, bottom) = (eh * (w + 4), el * (w - 4));
    assert(eh * (sq * (w + 4)) == top * sq && el * (sq * (w - 4)) == bottom * sq)
        by (nonlinear_arith)
        requires
            top == eh * (w + 4),
            bottom == el * (w - 4),
    ;
    assert(bottom <= got <= top) by (nonlinear_arith)
        requires
            bottom * sq <= got * sq <= top * sq,
            sq > 0,
    ;
}

/// The whole nanoseconds of such a product, where the factor lies between `lo`
/// and `hi` in units of two to the -149.
pub(crate) proof fn lemma_product_nanos_error(base: Duration, m: nat, lo: int, hi: int)
    requires
        base.wf(),
        0 <= lo,
        one() * lo <= m <= one() * hi,
    ensures
        ({
            let (w, o, n) = (pow2(53) as int, one() as int, base@ as int);
            let got = product_nanos(base, m) as int;
            &&& 2 * (got * o) * w <= 2 * ((n * hi) * (w + 4)) + o * w
            &&& 2 * (got * o) * w + o * w >= 2 * ((n * lo) * (w - 4))
        }),
{
    let (w, o, n) = (pow2(53) as int, one() as int, base@ as int);
    let got = product_nanos(base, m) as int;
    let g = NANOS_PER_SEC as int;
    let prod = product(base, m) as int;
    let (p, k, j) = (pow2(380) as int, pow2(82) as int, pow2(231) as int);
    let (olo, ohi) = (o * lo, o * hi);
    lemma_pow2_pos(149);
    lemma_pow2_pos(380);
    lemma_pow2_pos(231);
    lemma_pow2_pos(53);
    lemma_pow2_adds(82, 149);
    lemma_pow2_adds(231, 149);
    assert(olo >= 0) by (nonlinear_arith)
        requires
            olo == o * lo,
            o > 0,
            lo >= 0,
    ;
    lemma_product_error(base, m, olo, ohi);
    lemma_nearest_even_error((prod * g) as nat, p as nat);
    let (top, bottom) = ((n * hi) * (w + 4), (n * lo) * (w - 4));
    assert((n * k) * ohi * (w + 4) == top * j) by (nonlinear_arith)
        requires
            j == k * o,
            ohi == o * hi,
            top == (n * hi) * (w + 4),
    ;
    assert((n * k) * olo * (w - 4) == bottom * j) by (nonlinear_arith)
        requires
            j == k * o,
            olo == o * lo,
            bottom == (n * lo) * (w - 4),
    ;
    let pg = prod * g;
    let r = got * o;
    assert(2 * (got * p) == 2 * r * j && p == o * j) by (nonlinear_arith)
        requires
            p == j * o,
            r == got * o,
    ;
    assert((2 * r * w - o * w) * j <= 2 * (pg * w)) by (nonlinear_arith)
        requires
            2 * r * j <= 2 * pg + o * j,
            w > 0,
    ;
    assert((2 * r * w + o * w) * j >= 2 * (pg * w)) by (nonlinear_arith)
        requires
            2 * r * j + o * j >= 2 * pg,
            w > 0,
    ;
    assert(2 * r * w - o * w <= 2 * top) by (nonlinear_arith)
        requires
            (2 * r * w - o * w) * j <= 2 * (top * j),
            j > 0,
    ;
    assert(2 * r * w + o * w >= 2 * bottom) by (nonlinear_arith)
        requires
            (2 * r * w + o * w) * j >= 2 * (bottom * j),
            j > 0,
    ;
}

/// A varied delay stays within the fraction of its base: it differs from `base`
/// by at most `fraction` times `base`, but for the rounding on the way, which
/// is at most one part in two to the 50 of `base` and half a nanosecond.
///
/// With the fraction in units of two to the -149, all sides are multiplied by
/// two and by the value of one.
pub proof fn jitter_stays_within_the_fraction(base: Duration, fraction: u32, sample: u32)
    requires
        base.wf(),
        !is_nan(fraction),
        is_sample(sample),
    ensures
        ({
            let f = magnitude(clamped(fraction)) as int;
            let o = one() as int;
            let slack = pow2(99) as int;
            let got = jittered_nanos(base, fraction, sample) as int;
            &&& 2 * (got * o) <= 2 * (base@ * (o + f + slack)) + o
            &&& 2 * (got * o) + o >= 2 * (base@ * (o - f - slack))
        }),
{
    let c = clamped(fraction);
    let f = magnitude(c) as int;
    let o = one() as int;
    let q = pow2(99) as int;
    let n = base@ as int;
    let got = jittered_nanos(base, fraction, sample) as int;
    lemma2_to64();
    lemma_pow2_pos(149);
    lemma_pow2_pos(99);
    lemma_clamped_magnitude(fraction);
    if is_steady(fraction) {
        assert(n * (o + f + q) >= n * o && n * (o - f - q) <= n * o) by (nonlinear_arith)
            requires
                n >= 0,
                f >= 0,
                q >= 0,
        ;
    } else {
        let w = pow2(53) as int;
        the_multiplier_stays_within_the_fraction(c, sample);
        lemma_product_nanos_error(base, multiplier(c, sample), o - f, o + f);
        // Four parts in 2^53 of at most twice the base.
        lemma_pow2_adds(50, 99);
        lemma_pow2_adds(50, 3);
        lemma_pow2_pos(50);
        let t = pow2(50) as int;
        assert(w == 8 * t && o == t * q);
        let (high, low) = (n * (o + f + q), n * (o - f - q));
        assert((n * (o + f)) * (w + 4) <= high * w) by {
            assert(4 * (o + f) <= q * w) by (nonlinear_arith)
                requires
                    0 <= f <= o,
                    o == t * q,
                    w == 8 * t,
            ;
            assert((n * (o + f)) * (w + 4) == n * ((o + f) * w) + n * (4 * (o + f)))
                by (nonlinear_arith);
            assert(n * (4 * (o + f)) <= n * (q * w)) by (nonlinear_arith)
                requires
                    4 * (o + f) <= q * w,
                    n >= 0,
            ;
            assert(high * w == n * ((o + f) * w) + n * (q * w)) by (nonlinear_arith)
                requires
                    high == n * (o + f + q),
            ;
        }
        assert((n * (o - f)) * (w - 4) >= low * w) by {
            assert(4 * (o - f) <= q * w) by (nonlinear_arith)
                requires
                    0 <= f <= o,
                    o == t * q,
                    w == 8 * t,
                    o >= 0,
            ;
            assert((n * (o - f)) * (w - 4) == n * ((o - f) * w) - n * (4 * (o - f)))
                by (nonlinear_arith);
            assert(n * (4 * (o - f)) <= n * (q * w)) by (nonlinear_arith)
                requires
                    4 * (o - f) <= q * w,
                    n >= 0,
            ;
            assert(low * w == n * ((o - f) * w) - n * (q * w)) by (nonlinear_arith)
                requires
                    low == n * (o - f - q),
            ;
        }
        let r = got * o;
        assert(2 * r <= 2 * high + o) by (nonlinear_arith)
            requires
                2 * r * w <= 2 * (high * w) + o * w,
                w > 0,
        ;
        assert(2 * r + o >= 2 * low) by (nonlinear_arith)
            requires
                2 * r * w + o * w >= 2 * (low * w),
                w > 0,
        ;
    }
}

/// A clamped fraction lies between zero and one.
proof fn lemma_clamped_magnitude(fraction: u32)
    requires
        !is_nan(fraction),
    ensures
        magnitude(clamped(fraction)) <= one(),
{
    patterns_are_ordered(0);
    patterns_are_ordered(ONE);
}

/// A delay can be varied, whatever is drawn, where the longest that comes of
/// it, with one part in two to the 50 for the rounding, is less than two to the
/// 64 seconds.
pub proof fn a_delay_fits_up_to_the_limit(base: Duration, fraction: u32, sample: u32)
    requires
        base.wf(),
        is_sample(sample),
        base@ * (one() + magnitude(clamped(fraction)) + pow2(99)) < pow2(64) * NANOS_PER_SEC
            * one(),
    ensures
        fits(base, fraction, sample),
{
    if !is_nan(fraction) && !is_steady(fraction) {
        let c = clamped(fraction);
        let f = magnitude(c) as int;
        let o = one() as int;
        let (w, k, g) = (pow2(53) as int, pow2(82) as int, NANOS_PER_SEC as int);
        let n = base@ as int;
        let q = pow2(99) as int;
        let m = multiplier(c, sample);
        let (lo, hi) = (o * (o - f), o * (o + f));
        let prod = product(base, m) as int;
        lemma2_to64();
        lemma_pow2_pos(149);
        lemma_pow2_pos(82);
        lemma_clamped_magnitude(fraction);
        lemma_multiplier_range(c);
        the_multiplier_stays_within_the_fraction(c, sample);
        lemma_product_error(base, m, lo, hi);
        lemma_pow2_adds(50, 99);
        lemma_pow2_adds(50, 3);
        lemma_pow2_pos(50);
        let t = pow2(50) as int;
        assert((o + f) * (w + 4) <= (o + f + q) * w) by (nonlinear_arith)
            requires
                0 <= f <= o,
                o == t * q,
                w == 8 * t,
        ;
        let e = k * o;
        let (x, y) = ((o + f) * (w + 4), (o + f + q) * w);
        assert((n * k) * hi * (w + 4) == (n * x) * e) by (nonlinear_arith)
            requires
                hi == o * (o + f),
                e == k * o,
                x == (o + f) * (w + 4),
        ;
        assert(n * x <= n * y) by (nonlinear_arith)
            requires
                x <= y,
                n >= 0,
        ;
        let lim = pow2(64) as int;
        assert(n * y == (n * (o + f + q)) * w) by (nonlinear_arith)
            requires
                y == (o + f + q) * w,
        ;
        let z = lim * g * o;
        assert((n * (o + f + q)) * w < z * w) by (nonlinear_arith)
            requires
                n * (o + f + q) < z,
                w > 0,
        ;
        assert(e > 0) by (nonlinear_arith)
            requires
                e == k * o,
                k > 0,
                o > 0,
        ;
        assert((n * x) * e < (z * w) * e) by (nonlinear_arith)
            requires
                n * x < z * w,
                e > 0,
        ;
        let cap = lim * (o * e);
        assert((z * w) * e == cap * g * w) by (nonlinear_arith)
            requires
                z == lim * g * o,
                cap == lim * (o * e),
        ;
        assert(prod < cap) by (nonlinear_arith)
            requires
                prod * g * w < cap * g * w,
                g > 0,
                w > 0,
        ;
        lemma_pow2_adds(82, 149);
        lemma_pow2_adds(149, 231);
        lemma_pow2_adds(64, 380);
    }
}

/// A larger sample gives no shorter delay, and where the delay of the larger
/// one fits, that of the smaller one does.
pub proof fn a_larger_sample_gives_no_shorter_delay(
    base: Duration,
    fraction: u32,
    smaller: u32,
    larger: u32,
)
    requires
        !is_nan(fraction),
        is_sample(smaller),
        is_sample(larger),
        value(smaller) <= value(larger),
    ensures
        jittered_nanos(base, fraction, smaller) <= jittered_nanos(base, fraction, larger),
        fits(base, fraction, larger) ==> fits(base, fraction, smaller),
{
    if !is_steady(fraction) {
        let c = clamped(fraction);
        lemma_clamped_magnitude(fraction);
        lemma_exact_multiplier_ordered(c, smaller, larger);
        lemma_multiplier_range(c);
        lemma_round_within_ordered(
            exact_multiplier(c, smaller),
            exact_multiplier(c, larger),
            least_multiplier(c),
            greatest_multiplier(c),
            298,
            24,
        );
        let (a, b, s) = (multiplier(c, smaller), multiplier(c, larger), seconds(base));
        assert(s * a <= s * b) by (nonlinear_arith)
            requires
                a <= b,
        ;
        lemma_round_bits_ordered(s * a, s * b, 53);
        lemma_pow2_pos(380);
        let (x, y, g) = (product(base, a), product(base, b), NANOS_PER_SEC as nat);
        assert(x * g <= y * g) by (nonlinear_arith)
            requires
                x <= y,
        ;
        lemma_nearest_even_ordered(x * g, y * g, pow2(380));
    }
}

proof fn lemma_exact_multiplier_ordered(fraction: u32, smaller: u32, larger: u32)
    requires
        magnitude(fraction) <= one(),
        is_sample(smaller),
        is_sample(larger),
        value(smaller) <= value(larger),
    ensures
        exact_multiplier(fraction, smaller) <= exact_multiplier(fraction, larger),
{
    lemma_exact_multiplier_range(fraction, smaller);
    lemma_exact_multiplier_range(fraction, larger);
    patterns_are_ordered(smaller);
    patterns_are_ordered(larger);
    let (a, b) = (2 * magnitude(smaller), 2 * magnitude(larger));
    let o = one();
    if swings_up(smaller) {
        lemma_round_bits_ordered((a - o) as nat, (b - o) as nat, 24);
    } else if !swings_up(larger) {
        lemma_round_bits_ordered((o - b) as nat, (o - a) as nat, 24);
    }
    let (s, l, f) = (swing(smaller), swing(larger), magnitude(fraction));
    assert((s <= l ==> s * f <= l * f) && (l <= s ==> l * f <= s * f)) by (nonlinear_arith);
}

/// What the multiplier is rounded from is one, and the swing times the fraction,
/// added where the sample is a half or more and taken away where it is less. The
/// swing is a single-precision number, and none is nearer to the distance of the
/// sample, doubled, from one. Such a number is `mant`, of 24 bits, times two to
/// the `exp`.
pub proof fn the_swing_is_the_nearest(fraction: u32, sample: u32, mant: nat, exp: nat)
    requires
        is_sample(sample),
        !is_nan(fraction),
        0 <= value(fraction) <= one(),
        mant < pow2(24),
    ensures
        ({
            let (o, f, s) = (pow2(149) as int, value(fraction), value(sample));
            let (got, other) = (swing(sample) as int, (mant * pow2(exp)) as int);
            let distance = if 2 * s >= o {
                2 * s - o
            } else {
                o - 2 * s
            };
            &&& exact_multiplier(fraction, sample) == (if 2 * s >= o {
                o * o + got * f
            } else {
                o * o - got * f
            })
            &&& round_bits(swing(sample), 24) == got
            &&& got <= distance ==> distance - got <= other - distance || distance - got <= distance
                - other
            &&& got >= distance ==> got - distance <= other - distance || got - distance <= distance
                - other
        }),
{
    let (o, s) = (one() as int, magnitude(sample) as int);
    patterns_are_ordered(sample);
    lemma_pow2_pos(149);
    lemma_exact_multiplier_range(fraction, sample);
    let distance = if 2 * s >= o {
        2 * s - o
    } else {
        o - 2 * s
    };
    a_number_is_rounded_to_the_nearest(distance as nat, 24, mant, exp);
}

/// The multiplier follows the sample: it is one, and the sample, doubled and
/// less one, times the fraction, up to the roundings of the swing and of the
/// multiplier itself: five parts in two to the 24.
pub proof fn the_multiplier_follows_the_sample(fraction: u32, sample: u32)
    requires
        is_sample(sample),
        !is_nan(fraction),
        0 <= value(fraction) <= one(),
    ensures
        ({
            let (o, f, s) = (pow2(149) as int, value(fraction), value(sample));
            let exact = o * o + (2 * s - o) * f;
            exact - 5 * pow2(274) <= multiplier(fraction, sample) <= exact + 5 * pow2(274)
        }),
{
    let (o, f, s) = (one() as int, magnitude(fraction) as int, magnitude(sample) as int);
    let (t, e) = (pow2(24) as int, pow2(274) as int);
    let x = o * o + (2 * s - o) * f;
    patterns_are_ordered(sample);
    lemma2_to64();
    lemma_pow2_pos(149);
    lemma_pow2_pos(274);
    lemma_multiplier_range(fraction);
    lemma_exact_multiplier_range(fraction, sample);
    lemma_pow2_adds(24, 274);
    let q = o * o;
    assert(q == t * e);
    // The swing.
    let up = swings_up(sample);
    let a = if up {
        2 * s - o
    } else {
        o - 2 * s
    };
    let w = swing(sample) as int;
    lemma_round_bits_error(a as nat, 24);
    assert(a * f <= q) by (nonlinear_arith)
        requires
            0 <= a <= o,
            0 <= f <= o,
            q == o * o,
    ;
    let (af, wf) = (a * f, w * f);
    assert(wf * t <= af * t + af && wf * t + af >= af * t) by (nonlinear_arith)
        requires
            w * t <= a * t + a,
            w * t + a >= a * t,
            af == a * f,
            wf == w * f,
            f >= 0,
    ;
    assert(-e <= wf - af <= e) by (nonlinear_arith)
        requires
            wf * t <= af * t + af,
            wf * t + af >= af * t,
            af <= t * e,
            t > 0,
    ;
    assert((2 * s - o) * f == if up {
        af
    } else {
        -af
    }) by {
        assert((o - 2 * s) * f == -((2 * s - o) * f)) by (nonlinear_arith);
    }
    let n = exact_multiplier(fraction, sample) as int;
    assert(x - e <= n <= x + e);
    // The multiplier.
    let (lo, hi) = (least_multiplier(fraction), greatest_multiplier(fraction));
    lemma_round_within_error(n as nat, lo, hi, 24);
    let m = multiplier(fraction, sample) as int;
    let h = pow2(23) as int;
    assert(n <= 2 * q) by {
        assert(o * (o + f) <= 2 * (o * o)) by (nonlinear_arith)
            requires
                0 <= f <= o,
        ;
    }
    assert(-4 * e <= m - n <= 4 * e) by (nonlinear_arith)
        requires
            m * h <= n * h + n,
            m * h + n >= n * h,
            n <= 2 * (t * e),
            t == 2 * h,
            h > 0,
    ;
}

/// What the roundings to 53 bits leave of a product with the multiplier.
proof fn lemma_product_follows_the_sample(fraction: u32, sample: u32)
    requires
        is_sample(sample),
        !is_nan(fraction),
        0 <= value(fraction) <= one(),
    ensures
        ({
            let (o, f, s) = (pow2(149) as int, value(fraction), value(sample));
            let (w, e) = (pow2(53) as int, pow2(274) as int);
            let exact = o * o + (2 * s - o) * f;
            let m = multiplier(fraction, sample) as int;
            (exact - 6 * e) * w <= m * (w - 4) <= m * (w + 4) <= (exact + 6 * e) * w
        }),
{
    let (o, f, s) = (pow2(149) as int, value(fraction), value(sample));
    let (w, e) = (pow2(53) as int, pow2(274) as int);
    let x = o * o + (2 * s - o) * f;
    let m = multiplier(fraction, sample) as int;
    patterns_are_ordered(0);
    lemma_pow2_pos(149);
    lemma_pow2_pos(274);
    lemma2_to64();
    the_multiplier_follows_the_sample(fraction, sample);
    the_multiplier_stays_within_the_fraction(fraction, sample);
    lemma_pow2_adds(149, 149);
    lemma_pow2_adds(24, 274);
    lemma_pow2_adds(21, 32);
    let g = magnitude(fraction) as int;
    assert(o * (o + g) <= 2 * (o * o)) by (nonlinear_arith)
        requires
            0 <= g <= o,
    ;
    assert(4 * m <= e * w) by (nonlinear_arith)
        requires
            m <= 2 * (0x100_0000 * e),
            w >= 0x800_0000,
            e > 0,
    ;
    assert(m * (w - 4) == m * w - 4 * m && m * (w + 4) == m * w + 4 * m) by (nonlinear_arith);
    assert((x - 6 * e) * w + e * w <= m * w && m * w + e * w <= (x + 6 * e) * w)
        by (nonlinear_arith)
        requires
            x - 5 * e <= m <= x + 5 * e,
            w > 0,
    ;
}

/// A varied delay follows the sample. With the fraction `f` brought into the
/// range from zero to one, it is `base` times one and `f` times the sample,
/// doubled and less one: at zero `f` less than `base`, at a half `base` itself,
/// towards one `f` more. The rounding on the way is at most six parts in two to
/// the 24 of `base` and half a nanosecond.
///
/// With values in units of two to the -149, all sides are multiplied by two and
/// by the square of the value of one.
pub proof fn a_delay_follows_the_sample(base: Duration, fraction: u32, sample: u32)
    requires
        base.wf(),
        !is_nan(fraction),
        is_sample(sample),
    ensures
        ({
            let (o, s) = (pow2(149) as int, value(sample));
            let f = if value(fraction) < 0 {
                0
            } else if value(fraction) > o {
                o
            } else {
                value(fraction)
            };
            let n = base.secs() * 1_000_000_000 + base.nanos();
            let (exact, slack) = (o * o + (2 * s - o) * f, 6 * pow2(274) as int);
            let got = jittered_nanos(base, fraction, sample) as int;
            &&& 2 * (got * (o * o)) <= 2 * (n * (exact + slack)) + o * o
            &&& 2 * (got * (o * o)) + o * o >= 2 * (n * (exact - slack))
        }),
{
    let (o, s) = (one() as int, value(sample));
    let c = clamped(fraction);
    let f = value(c);
    let (w, e, n) = (pow2(53) as int, pow2(274) as int, base@ as int);
    let x = o * o + (2 * s - o) * f;
    let q = o * o;
    let got = jittered_nanos(base, fraction, sample) as int;
    lemma_pow2_pos(149);
    lemma_pow2_pos(274);
    clamping_gives_the_nearest_in_range(fraction);
    lemma_clamped_magnitude(fraction);
    assert(q >= 0) by (nonlinear_arith)
        requires
            q == o * o,
    ;
    if is_steady(fraction) {
        assert(x == q) by (nonlinear_arith)
            requires
                x == q + (2 * s - o) * f,
                f == 0,
        ;
        assert(n * (q + 6 * e) >= n * q && n * (q - 6 * e) <= n * q) by (nonlinear_arith)
            requires
                n >= 0,
                e > 0,
        ;
    } else {
        let m = multiplier(c, sample);
        lemma_product_follows_the_sample(c, sample);
        lemma_product_nanos_exact(base, m);
        let (mm, high, low) = (m as int, x + 6 * e, x - 6 * e);
        assert((n * mm) * (w + 4) <= (n * high) * w) by (nonlinear_arith)
            requires
                mm * (w + 4) <= high * w,
                n >= 0,
        ;
        assert((n * mm) * (w - 4) >= (n * low) * w) by (nonlinear_arith)
            requires
                mm * (w - 4) >= low * w,
                n >= 0,
        ;
        let r = got * q;
        lemma_pow2_pos(53);
        assert(2 * r <= 2 * (n * high) + q) by (nonlinear_arith)
            requires
                2 * r * w <= 2 * ((n * high) * w) + q * w,
                w > 0,
        ;
        assert(2 * r + q >= 2 * (n * low)) by (nonlinear_arith)
            requires
                2 * r * w + q * w >= 2 * ((n * low) * w),
                w > 0,
        ;
    }
}

/// The whole nanoseconds of a product, with the factor in units of two to the
/// -298.
proof fn lemma_product_nanos_exact(base: Duration, m: nat)
    requires
        base.wf(),
    ensures
        ({
            let (w, q, n) = (pow2(53) as int, (one() * one()) as int, base@ as int);
            let got = product_nanos(base, m) as int;
            &&& 2 * (got * q) * w <= 2 * ((n * m) * (w + 4)) + q * w
            &&& 2 * (got * q) * w + q * w >= 2 * ((n * m) * (w - 4))
        }),
{
    let (w, q, n, mm) = (pow2(53) as int, (one() * one()) as int, base@ as int, m as int);
    let got = product_nanos(base, m) as int;
    let (p, k, g) = (pow2(380) as int, pow2(82) as int, NANOS_PER_SEC as int);
    let pg = product(base, m) as int * g;
    lemma_pow2_pos(380);
    lemma_pow2_pos(82);
    lemma_pow2_pos(53);
    lemma_pow2_adds(149, 149);
    lemma_pow2_adds(82, 298);
    lemma_product_error(base, m, mm, mm);
    lemma_nearest_even_error(pg as nat, p as nat);
    let (top, bottom, r) = ((n * mm) * (w + 4), (n * mm) * (w - 4), got * q);
    assert((n * k) * mm * (w + 4) == top * k && (n * k) * mm * (w - 4) == bottom * k)
        by (nonlinear_arith)
        requires
            top == (n * mm) * (w + 4),
            bottom == (n * mm) * (w - 4),
    ;
    assert(got * p == r * k && p == q * k) by (nonlinear_arith)
        requires
            p == k * q,
            r == got * q,
    ;
    assert((2 * r * w) * k <= (2 * top + q * w) * k) by (nonlinear_arith)
        requires
            2 * (r * k) <= 2 * pg + q * k,
            pg * w <= top * k,
            w > 0,
    ;
    assert((2 * r * w + q * w) * k >= (2 * bottom) * k) by (nonlinear_arith)
        requires
            2 * (r * k) + q * k >= 2 * pg,
            pg * w >= bottom * k,
            w > 0,
    ;
    assert(2 * r * w <= 2 * top + q * w && 2 * r * w + q * w >= 2 * bottom) by (nonlinear_arith)
        requires
            (2 * r * w) * k <= (2 * top + q * w) * k,
            (2 * r * w + q * w) * k >= (2 * bottom) * k,
            k > 0,
    ;
}

/// A varied delay is `base` times the multiplier, but for one part in two to the
/// 50 of `base` and half a nanosecond.
pub proof fn a_delay_is_the_base_times_the_multiplier(base: Duration, fraction: u32, sample: u32)
    requires
        base.wf(),
        is_sample(sample),
        !is_nan(fraction),
        0 < value(fraction) <= one(),
    ensures
        ({
            let (q, n, m) = (
                pow2(298) as int,
                base.secs() * 1_000_000_000 + base.nanos(),
                multiplier(fraction, sample) as int,
            );
            let got = jittered_nanos(base, fraction, sample) as int;
            &&& 2 * (got * q) <= 2 * (n * (m + pow2(248))) + q
            &&& 2 * (got * q) + q >= 2 * (n * (m - pow2(248)))
        }),
{
    let (w, q, n) = (pow2(53) as int, pow2(298) as int, base@ as int);
    let (m, t) = (multiplier(fraction, sample) as int, pow2(248) as int);
    let (o, f) = (one() as int, magnitude(fraction) as int);
    let got = jittered_nanos(base, fraction, sample) as int;
    lemma_pow2_pos(53);
    lemma_pow2_pos(248);
    lemma_multiplier_range(fraction);
    the_multiplier_stays_within_the_fraction(fraction, sample);
    lemma_product_nanos_exact(base, m as nat);
    lemma_pow2_adds(50, 248);
    lemma_pow2_adds(50, 3);
    lemma2_to64();
    assert(o * (o + f) <= 2 * (o * o)) by (nonlinear_arith)
        requires
            0 <= f <= o,
    ;
    assert(4 * m <= t * w) by (nonlinear_arith)
        requires
            m <= 2 * q,
            q == pow2(50) * t,
            w == pow2(50) * 8,
    ;
    assert((n * m) * (w + 4) <= (n * (m + t)) * w) by (nonlinear_arith)
        requires
            4 * m <= t * w,
            n >= 0,
    ;
    assert((n * m) * (w - 4) >= (n * (m - t)) * w) by (nonlinear_arith)
        requires
            4 * m <= t * w,
            n >= 0,
    ;
    let (r, high, low) = (got * q, n * (m + t), n * (m - t));
    assert(2 * r <= 2 * high + q) by (nonlinear_arith)
        requires
            2 * r * w <= 2 * (high * w) + q * w,
            w > 0,
    ;
    assert(2 * r + q >= 2 * low) by (nonlinear_arith)
        requires
            2 * r * w + q * w >= 2 * (low * w),
            w > 0,
    ;
}

/// Whether a varied delay can be held is decided by its own length: it can be
/// where that is less than two to the 64 seconds, and cannot where it is not,
/// with six parts in two to the 24 of `base` for the rounding. A delay that is
/// not varied, or that is empty because the fraction is no number, always can.
pub proof fn a_delay_fits_where_it_is_in_range(base: Duration, fraction: u32, sample: u32)
    requires
        base.wf(),
        is_sample(sample),
    ensures
        is_nan(fraction) || value(fraction) <= 0 ==> fits(base, fraction, sample),
        !is_nan(fraction) && value(fraction) > 0 ==> ({
            let (o, s) = (pow2(149) as int, value(sample));
            let f = if value(fraction) > o {
                o
            } else {
                value(fraction)
            };
            let n = base.secs() * 1_000_000_000 + base.nanos();
            let (exact, slack) = (o * o + (2 * s - o) * f, 6 * pow2(274) as int);
            let limit = pow2(64) * 1_000_000_000 * (o * o);
            &&& n * (exact + slack) < limit ==> fits(base, fraction, sample)
            &&& n * (exact - slack) >= limit ==> !fits(base, fraction, sample)
        }),
{
    clamping_gives_the_nearest_in_range(fraction);
    if !is_nan(fraction) {
        lemma_clamped_magnitude(fraction);
    }
    patterns_are_ordered(0);
    lemma_pow2_pos(149);
    if !is_nan(fraction) && value(fraction) > 0 {
        let (o, s) = (one() as int, value(sample));
        let c = clamped(fraction);
        let f = value(c);
        let (w, e, n) = (pow2(53) as int, pow2(274) as int, base@ as int);
        let (q, k, g) = (o * o, pow2(82) as int, 1_000_000_000int);
        let x = q + (2 * s - o) * f;
        let m = multiplier(c, sample) as int;
        let prod = product(base, m as nat) as int;
        let lim = pow2(64) as int;
        lemma_product_follows_the_sample(c, sample);
        lemma_product_error(base, m as nat, m, m);
        lemma_pow2_pos(53);
        lemma_pow2_pos(82);
        lemma_pow2_adds(149, 149);
        lemma_pow2_adds(82, 298);
        lemma_pow2_adds(64, 380);
        let (high, low) = (n * (x + 6 * e), n * (x - 6 * e));
        assert((n * k) * m * (w + 4) <= (high * k) * w) by (nonlinear_arith)
            requires
                m * (w + 4) <= (x + 6 * e) * w,
                high == n * (x + 6 * e),
                n >= 0,
                k > 0,
        ;
        assert((n * k) * m * (w - 4) >= (low * k) * w) by (nonlinear_arith)
            requires
                m * (w - 4) >= (x - 6 * e) * w,
                low == n * (x - 6 * e),
                n >= 0,
                k > 0,
        ;
        let pg = prod * g;
        assert(low * k <= pg <= high * k) by (nonlinear_arith)
            requires
                (low * k) * w <= pg * w <= (high * k) * w,
                w > 0,
        ;
        let cap = lim * (k * q);
        assert(lim * g * q * k == cap * g) by (nonlinear_arith)
            requires
                cap == lim * (k * q),
        ;
        if high < lim * g * q {
            assert(high * k < lim * g * q * k) by (nonlinear_arith)
                requires
                    high < lim * g * q,
                    k > 0,
            ;
        }
        if low >= lim * g * q {
            assert(low * k >= lim * g * q * k) by (nonlinear_arith)
                requires
                    low >= lim * g * q,
                    k > 0,
            ;
        }
    }
}

/// A fraction that is no number leaves no delay.
pub proof fn no_number_leaves_no_delay(base: Duration, fraction: u32, sample: u32)
    requires
        is_nan(fraction),
    ensures
        fits(base, fraction, sample),
        jittered_nanos(base, fraction, sample) == 0,
{
}

/// A delay is not varied exactly where the fraction is zero or below.
pub proof fn a_delay_is_steady_without_a_fraction(fraction: u32)
    ensures
        is_steady(fraction) <==> !is_nan(fraction) && value(fraction) <= 0,
{
    patterns_are_ordered(0);
    lemma_pow2_pos(149);
    patterns_are_ordered(ONE);
}

/// The samples are the numbers from zero up to, but not at, one.
pub proof fn samples_are_below_one(sample: u32)
    ensures
        is_sample(sample) <==> sample < 0x8000_0000 && value(sample) < pow2(149),
        is_sample(sample) ==> 0 <= value(sample),
{
    if sample < 0x8000_0000 {
        patterns_are_ordered(sample);
    }
}

} // verus!
