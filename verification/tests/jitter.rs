//! The variation of delays, against single- and double-precision arithmetic.

use easi_job::binary32::{clamp, ONE};
use easi_job::jitter::{jitter_fits, jittered};
use easi_job::Duration;

fn draw() -> u32 {
    fastrand::f32().to_bits()
}

fn vary(base: Duration, fraction: f32) -> Duration {
    jittered(&base, fraction.to_bits(), draw())
}

fn secs_f64(d: Duration) -> f64 {
    std::time::Duration::new(d.as_secs(), d.subsec_nanos()).as_secs_f64()
}

/// The number next to `multiplier` where it differs from one by more than
/// `fraction`.
fn within(multiplier: f32, fraction: f32) -> f32 {
    let (exact, fraction) = (f64::from(multiplier), f64::from(fraction));
    if exact < 1.0 - fraction {
        f32::from_bits(multiplier.to_bits() + 1)
    } else if exact > 1.0 + fraction {
        f32::from_bits(multiplier.to_bits() - 1)
    } else {
        multiplier
    }
}

/// The same variation, in floating point.
fn reference(base: Duration, fraction: f32, sample: f32) -> Option<Duration> {
    let base = std::time::Duration::new(base.as_secs(), base.subsec_nanos());
    let fraction = fraction.clamp(0.0, 1.0);
    let delay = if fraction == 0.0 {
        base
    } else {
        let r = sample.mul_add(2.0, -1.0);
        let multiplier = within(r.mul_add(fraction, 1.0), fraction);
        let secs = base.as_secs_f64() * f64::from(multiplier);
        match std::time::Duration::try_from_secs_f64(secs.max(0.0)) {
            Ok(delay) => delay,
            Err(_) => return None,
        }
    };
    Some(Duration::new(delay.as_secs(), delay.subsec_nanos()))
}

fn check(base: Duration, fraction: f32, sample: f32) {
    let expected = reference(base, fraction, sample);
    let (fraction, sample) = (fraction.to_bits(), sample.to_bits());
    assert_eq!(
        jitter_fits(&base, fraction, sample),
        expected.is_some(),
        "{base:?} {fraction:#x} {sample:#x}"
    );
    if let Some(expected) = expected {
        assert_eq!(
            jittered(&base, fraction, sample),
            expected,
            "{base:?} {fraction:#x} {sample:#x}"
        );
    }
}

#[test]
fn jittered_zero_fraction_returns_base() {
    let base = Duration::from_secs(100);
    assert_eq!(vary(base, 0.0), base);
    assert_eq!(vary(base, -0.5), base);
}

#[test]
fn jittered_stays_within_bounds() {
    let base = Duration::from_secs(100);
    for _ in 0..1000 {
        let r = vary(base, 0.1);
        let secs = secs_f64(r);
        assert!(secs >= 90.0, "{secs} below lower bound");
        assert!(secs <= 110.0, "{secs} above upper bound");
    }
}

#[test]
fn jittered_clamps_fraction_above_one() {
    let base = Duration::from_secs(100);
    for _ in 0..100 {
        let r = vary(base, 5.0);
        let secs = secs_f64(r);
        assert!(secs >= 0.0);
        assert!(secs <= 200.0);
    }
}

#[test]
fn a_given_sample_gives_a_given_delay() {
    let base = Duration::from_secs(100);
    let tenth = 0.1f32.to_bits();
    // The middle of the range leaves the delay alone; the ends move it by the
    // fraction, as far as single precision goes without leaving it.
    assert_eq!(jittered(&base, tenth, 0.5f32.to_bits()), base);
    assert_eq!(
        jittered(&base, tenth, 0.0f32.to_bits()),
        Duration::new(90, 3576)
    );
    assert_eq!(
        jittered(&base, tenth, 0.75f32.to_bits()),
        Duration::new(104, 999995232)
    );
    // The largest sample: the nearest multiplier is above 1.1, so it is the one
    // below.
    assert_eq!(
        jittered(&base, tenth, ONE - 1),
        Duration::new(109, 999990463)
    );
    assert_eq!(jittered(&base, ONE, 0.0f32.to_bits()), Duration::from_secs(0));
    assert_eq!(jittered(&base, ONE, 0.25f32.to_bits()), Duration::from_secs(50));
}

#[test]
fn a_fraction_that_is_no_number_gives_no_delay() {
    let base = Duration::from_secs(100);
    assert_eq!(vary(base, f32::NAN), Duration::from_secs(0));
    assert_eq!(reference(base, f32::NAN, 0.5), Some(Duration::from_secs(0)));
}

#[test]
fn infinite_fractions_are_clamped() {
    let base = Duration::from_secs(100);
    assert_eq!(vary(base, f32::NEG_INFINITY), base);
    for sample in [0.0f32, 0.1, 0.3, 0.5, 0.9] {
        assert_eq!(
            jittered(&base, f32::INFINITY.to_bits(), sample.to_bits()),
            jittered(&base, ONE, sample.to_bits())
        );
    }
}

#[test]
fn clamp_is_the_clamp_of_single_precision() {
    let numbers = [
        0.0f32,
        -0.0,
        1.0,
        -1.0,
        0.5,
        f32::MIN_POSITIVE,
        -f32::MIN_POSITIVE,
        f32::from_bits(1),
        f32::from_bits(0x8000_0001),
        f32::from_bits(ONE - 1),
        f32::from_bits(ONE + 1),
        f32::MAX,
        f32::MIN,
        f32::INFINITY,
        f32::NEG_INFINITY,
    ];
    for number in numbers {
        let expected = if number < 0.0 {
            0.0
        } else if number > 1.0 {
            1.0
        } else {
            number
        };
        assert_eq!(clamp(number.to_bits()), expected.to_bits(), "{number}");
    }
    for nan in [f32::NAN.to_bits(), 0x7f80_0001, 0xff80_0001, 0xffff_ffff] {
        assert_eq!(clamp(nan), 0);
    }
    for _ in 0..100_000 {
        let bits = fastrand::u32(..);
        let number = f32::from_bits(bits);
        let expected = if number.is_nan() || number < 0.0 {
            0.0
        } else if number > 1.0 {
            1.0
        } else {
            number
        };
        assert_eq!(clamp(bits), expected.to_bits());
        assert_eq!(clamp(clamp(bits)), clamp(bits));
        if !number.is_nan() {
            let (base, sample) = (Duration::from_secs(100), draw());
            assert_eq!(
                jittered(&base, clamp(bits), sample),
                jittered(&base, bits, sample)
            );
        }
    }
}

fn any_base() -> Duration {
    let bits = fastrand::u32(0..=64);
    let secs = if bits == 0 {
        0
    } else {
        fastrand::u64(..) >> (64 - bits)
    };
    let nanos = match fastrand::u32(0..4) {
        0 => 0,
        1 => fastrand::u32(0..1000),
        2 => 999_999_999 - fastrand::u32(0..1000),
        _ => fastrand::u32(0..1_000_000_000),
    };
    Duration::new(secs, nanos)
}

fn any_below_one() -> f32 {
    match fastrand::u32(0..4) {
        0 => fastrand::f32(),
        1 => f32::from_bits(fastrand::u32(0..ONE)),
        2 => f32::from_bits(ONE - 1 - fastrand::u32(0..100)),
        _ => f32::from_bits((fastrand::u32(100..127) << 23) | fastrand::u32(0..3)),
    }
}

#[test]
fn jitter_agrees_with_floating_point() {
    for _ in 0..200_000 {
        let fraction = if fastrand::u32(0..10) == 0 {
            1.0
        } else {
            any_below_one()
        };
        check(any_base(), fraction, any_below_one());
    }
}

#[test]
fn jitter_agrees_with_floating_point_at_the_edges() {
    let secs = [
        0,
        1,
        2,
        (1 << 45) - 1,
        1 << 45,
        (1 << 46) + 1,
        (1 << 53) - 1,
        1 << 53,
        (1 << 53) + 1,
        (1 << 53) + 3,
        (1 << 63) - 1,
        1 << 63,
        u64::MAX - 1024,
        u64::MAX - 1023,
        u64::MAX,
    ];
    let nanos = [0, 1, 2, 3, 499_999_999, 500_000_000, 500_000_001, 999_999_998, 999_999_999];
    let fractions = [
        0.0f32,
        -0.0,
        f32::from_bits(1),
        f32::MIN_POSITIVE,
        f32::from_bits(0x3280_0000),
        f32::from_bits(0x3300_0000),
        f32::from_bits(0x3380_0000),
        0.1,
        0.5,
        f32::from_bits(ONE - 1),
        1.0,
    ];
    let samples = [
        0.0f32,
        f32::from_bits(1),
        f32::from_bits(0x3200_0000),
        f32::from_bits(0x3280_0000),
        f32::from_bits(0x3300_0001),
        0.25,
        f32::from_bits(0x3eff_ffff),
        0.5,
        f32::from_bits(0x3f00_0001),
        0.75,
        f32::from_bits(ONE - 1),
    ];
    for secs in secs {
        for nanos in nanos {
            for fraction in fractions {
                for sample in samples {
                    check(Duration::new(secs, nanos), fraction, sample);
                }
            }
        }
    }
}

#[test]
fn a_delay_beyond_the_range_does_not_fit() {
    let base = Duration::new(u64::MAX, 999_999_999);
    let tenth = 0.1f32.to_bits();
    assert!(!jitter_fits(&base, tenth, ONE - 1));
    assert!(jitter_fits(&base, tenth, 0.0f32.to_bits()));
    assert!(jitter_fits(&base, 0.0f32.to_bits(), ONE - 1));
    assert!(jitter_fits(&Duration::from_secs((1 << 62) - 1), ONE, ONE - 1));
    assert!(jitter_fits(&Duration::from_secs((1 << 63) - (1 << 20)), ONE, ONE - 1));
    assert!(!jitter_fits(&Duration::from_secs(u64::MAX), ONE, ONE - 1));
}

#[test]
fn any_jitter_is_within_the_fraction_and_its_rounding() {
    for _ in 0..100_000 {
        let base = Duration::new(fastrand::u64(0..1 << 40), fastrand::u32(0..1_000_000_000));
        let fraction = any_below_one();
        let sample = any_below_one();
        let delay = jittered(&base, fraction.to_bits(), sample.to_bits());
        let (base, delay) = (secs_f64(base) * 1e9, secs_f64(delay) * 1e9);
        let slack = base / (1u64 << 49) as f64 + 1.0;
        assert!((delay - base).abs() <= base * f64::from(fraction) + slack);
    }
}

fn nanos(d: Duration) -> u128 {
    u128::from(d.as_secs()) * 1_000_000_000 + u128::from(d.subsec_nanos())
}

#[test]
fn a_tenth_is_never_left() {
    let tenth = 0.1f32.to_bits();
    for _ in 0..100_000 {
        let base = Duration::new(fastrand::u64(1..1 << 40), fastrand::u32(0..1_000_000_000));
        for sample in [0, draw(), any_below_one().to_bits(), ONE - 1] {
            let (exact, delay) = (nanos(base), nanos(jittered(&base, tenth, sample)));
            assert!(9 * exact <= 10 * delay && 10 * delay <= 11 * exact);
        }
    }
    // Of a few nanoseconds, half a one may be lost.
    assert_eq!(jittered(&Duration::new(0, 5), tenth, 0), Duration::new(0, 5));
    assert_eq!(jittered(&Duration::new(0, 14), tenth, 0), Duration::new(0, 13));
    assert_eq!(jittered(&Duration::new(0, 16), tenth, 0), Duration::new(0, 14));
}

#[test]
fn a_larger_sample_gives_no_shorter_delay() {
    for _ in 0..100_000 {
        let base = Duration::new(fastrand::u64(0..1 << 40), fastrand::u32(0..1_000_000_000));
        let fraction = any_below_one().to_bits();
        let (a, b) = (any_below_one(), any_below_one());
        let (smaller, larger) = (a.min(b).to_bits(), a.max(b).to_bits());
        assert!(
            nanos(jittered(&base, fraction, smaller)) <= nanos(jittered(&base, fraction, larger))
        );
    }
}

#[test]
fn durations_have_their_parts() {
    assert_eq!(Duration::from_secs(3), Duration::new(3, 0));
    assert!(Duration::from_secs(0).is_zero());
    assert!(!Duration::new(0, 1).is_zero());
    assert_eq!(Duration::new(7, 8).as_secs(), 7);
    assert_eq!(Duration::new(7, 8).subsec_nanos(), 8);
}
