//! When a periodic job ticks.

use crate::binary32::{
    clamp, clamped, clamping_gives_the_nearest_in_range, clamping_is_idempotent, is_nan, lemma_magnitude_sign, magnitude, one,
    patterns_are_ordered, value,
};
use crate::duration::{Duration, NANOS_PER_SEC};
use crate::jitter::{
    a_delay_follows_the_sample, exact_multiplier, fits, greatest_multiplier, is_sample, is_steady,
    jitter_fits, jitter_stays_within_the_fraction, jittered, jittered_nanos, least_multiplier,
    lemma_product_nanos_error, multiplier, no_fraction_keeps_the_delay,
};
use crate::rounding::{
    lemma_bit_len_unique, lemma_quotient, lemma_round_directed_scale, lemma_round_within_range,
    round_down, round_up, unit,
};
use vstd::arithmetic::power2::*;
use vstd::prelude::*;

verus! {

/// The single-precision number nearest to a tenth, as its pattern.
pub const TENTH: u32 = 0x3dcc_cccd;

/// When the first tick runs.
#[derive(Debug, Clone, Copy, PartialEq, Eq, Structural)]
pub enum FirstTick {
    /// Run a tick at once, then wait one period between ticks.
    Immediate,
    /// Wait one period, varied like the others, before the first tick. Keeps
    /// many jobs that start together from running together.
    SkipImmediate,
    /// Wait this long before the first tick. Useful to stagger replicas that
    /// start together.
    After(Duration),
}

/// The cadence of a periodic job: the wait between two ticks, the wait before
/// the first one, and how much the waits vary.
///
/// A schedule names no job, so one can drive several.
#[derive(Debug)]
pub struct Schedule {
    every: Duration,
    first_tick: FirstTick,
    jitter_fraction: u32,
}

impl Schedule {
    /// The wait between two ticks, before it is varied.
    pub closed spec fn every(self) -> Duration {
        self.every
    }

    /// When the first tick runs.
    pub closed spec fn first_tick(self) -> FirstTick {
        self.first_tick
    }

    /// The fraction by which waits vary, as the pattern of a single-precision
    /// number.
    pub closed spec fn jitter_fraction(self) -> u32 {
        self.jitter_fraction
    }

    /// The fraction is a number from zero to one.
    #[verifier::type_invariant]
    pub open spec fn wf(self) -> bool {
        !is_nan(self.jitter_fraction()) && 0 <= value(self.jitter_fraction()) <= one()
    }

    /// How long the job waits between two ticks when `sample` is drawn, in
    /// nanoseconds.
    pub open spec fn wait_nanos(self, sample: u32) -> nat {
        jittered_nanos(self.every(), self.jitter_fraction(), sample)
    }

    /// Whether that wait is one that a [`Duration`] can hold.
    pub open spec fn wait_fits(self, sample: u32) -> bool {
        fits(self.every(), self.jitter_fraction(), sample)
    }

    /// How long the job waits before its first tick when `sample` is drawn, in
    /// nanoseconds.
    pub open spec fn first_wait_nanos(self, sample: u32) -> nat {
        match self.first_tick() {
            FirstTick::Immediate => 0,
            FirstTick::SkipImmediate => self.wait_nanos(sample),
            FirstTick::After(wait) => wait@,
        }
    }

    /// A tick every `every`, the first one after one such wait, with waits
    /// that vary by a tenth.
    #[must_use]
    pub fn new(every: Duration) -> (s: Schedule)
        ensures
            s.every() == every,
            s.first_tick() == FirstTick::SkipImmediate,
            s.jitter_fraction() == TENTH,
            s.wf(),
    {
        proof {
            patterns_are_ordered(TENTH);
        }
        Schedule { every, first_tick: FirstTick::SkipImmediate, jitter_fraction: TENTH }
    }

    /// The same cadence with another first tick.
    #[must_use]
    pub fn with_first_tick(self, first_tick: FirstTick) -> (s: Schedule)
        ensures
            s.every() == self.every(),
            s.first_tick() == first_tick,
            s.jitter_fraction() == self.jitter_fraction(),
            s.wf(),
    {
        proof {
            use_type_invariant(&self);
        }
        Schedule { every: self.every, first_tick, jitter_fraction: self.jitter_fraction }
    }

    /// The same cadence with waits that vary by `fraction`, a single-precision
    /// number given by its pattern. Zero turns the variation off. What lies
    /// outside the range from zero to one is brought into it, and what is no
    /// number counts as zero.
    #[must_use]
    pub fn with_jitter(self, fraction: u32) -> (s: Schedule)
        ensures
            s.every() == self.every(),
            s.first_tick() == self.first_tick(),
            s.jitter_fraction() == clamped(fraction),
            is_nan(fraction) || value(fraction) <= 0 ==> value(s.jitter_fraction()) == 0,
            !is_nan(fraction) && 0 <= value(fraction) <= one() ==> s.jitter_fraction() == fraction,
            !is_nan(fraction) && value(fraction) >= one() ==> value(s.jitter_fraction()) == one(),
            s.wf(),
    {
        proof {
            clamping_gives_the_nearest_in_range(fraction);
            clamping_is_idempotent(fraction);
        }
        Schedule {
            every: self.every,
            first_tick: self.first_tick,
            jitter_fraction: clamp(fraction),
        }
    }

    /// Whether a wait depends on the sample that is drawn for it.
    pub fn varies(&self) -> (r: bool)
        ensures
            r == !is_steady(self.jitter_fraction()),
            r == (value(self.jitter_fraction()) > 0),
    {
        proof {
            use_type_invariant(self);
            lemma_steady_pattern(self.jitter_fraction);
        }
        self.jitter_fraction % 0x8000_0000 != 0
    }

    /// Whether the job waits one period before its first tick.
    pub(crate) fn skips_immediate(&self) -> (r: bool)
        ensures
            r == (self.first_tick() == FirstTick::SkipImmediate),
    {
        matches!(self.first_tick, FirstTick::SkipImmediate)
    }

    /// Whether the wait between two ticks is one that a [`Duration`] can hold
    /// when `sample` is drawn.
    pub fn can_wait(&self, sample: u32) -> (r: bool)
        requires
            is_sample(sample),
        ensures
            r == self.wait_fits(sample),
            r == fits(self.every(), self.jitter_fraction(), sample),
    {
        jitter_fits(&self.every, self.jitter_fraction, sample)
    }

    /// The wait between two ticks when `sample` is drawn.
    pub fn wait(&self, sample: u32) -> (d: Duration)
        requires
            is_sample(sample),
            self.wait_fits(sample),
        ensures
            d@ == self.wait_nanos(sample),
            d@ == jittered_nanos(self.every(), self.jitter_fraction(), sample),
            d.wf(),
    {
        jittered(&self.every, self.jitter_fraction, sample)
    }

    /// The wait before the first tick when `sample` is drawn.
    pub fn first_wait(&self, sample: u32) -> (d: Duration)
        requires
            is_sample(sample),
            self.first_tick() == FirstTick::SkipImmediate ==> self.wait_fits(sample),
        ensures
            d@ == self.first_wait_nanos(sample),
            match self.first_tick() {
                FirstTick::Immediate => d@ == 0,
                FirstTick::SkipImmediate => d@ == jittered_nanos(
                    self.every(),
                    self.jitter_fraction(),
                    sample,
                ),
                FirstTick::After(wait) => d == wait,
            },
            d.wf(),
    {
        match self.first_tick {
            FirstTick::Immediate => Duration::from_secs(0),
            FirstTick::SkipImmediate => self.wait(sample),
            FirstTick::After(wait) => {
                proof {
                    use_type_invariant(&wait);
                }
                wait
            },
        }
    }
}

impl Clone for Schedule {
    fn clone(&self) -> (s: Schedule)
        ensures
            s == *self,
    {
        proof {
            use_type_invariant(self);
        }
        Schedule {
            every: self.every,
            first_tick: self.first_tick,
            jitter_fraction: self.jitter_fraction,
        }
    }
}

/// The patterns of zero are those without a digit behind the sign.
proof fn lemma_steady_pattern(fraction: u32)
    requires
        !is_nan(fraction),
        0 <= value(fraction) <= one(),
    ensures
        clamped(fraction) == fraction,
        is_steady(fraction) <==> fraction % 0x8000_0000 == 0,
{
    patterns_are_ordered(fraction % 0x8000_0000);
}

/// The wait between two ticks is the period, varied by the schedule's fraction as
/// the sample picks. With the fraction `f` and the sample `s` it is the period
/// times one and `f` times two `s` less one, up to six parts in two to the 24 of
/// the period and half a nanosecond. Without a fraction it is the period itself.
///
/// With values in units of two to the -149, all sides are multiplied by two and
/// by the square of the value of one.
pub proof fn a_wait_is_the_period_varied_by_the_fraction(schedule: Schedule, sample: u32)
    requires
        schedule.wf(),
        schedule.every().wf(),
        is_sample(sample),
    ensures
        ({
            let (o, f, s) = (
                pow2(149) as int,
                value(schedule.jitter_fraction()),
                value(sample),
            );
            let n = schedule.every().secs() * 1_000_000_000 + schedule.every().nanos();
            let (exact, slack) = (o * o + (2 * s - o) * f, 6 * pow2(274) as int);
            let got = schedule.wait_nanos(sample) as int;
            &&& 2 * (got * (o * o)) <= 2 * (n * (exact + slack)) + o * o
            &&& 2 * (got * (o * o)) + o * o >= 2 * (n * (exact - slack))
            &&& f == 0 ==> got == n
        }),
        schedule.wait_nanos(sample) == jittered_nanos(
            schedule.every(),
            schedule.jitter_fraction(),
            sample,
        ),
        schedule.wait_fits(sample) == fits(schedule.every(), schedule.jitter_fraction(), sample),
{
    a_delay_follows_the_sample(schedule.every(), schedule.jitter_fraction(), sample);
    if value(schedule.jitter_fraction()) == 0 {
        no_fraction_keeps_the_delay(schedule.every(), schedule.jitter_fraction(), sample);
    }
}

/// The wait between two ticks never differs from the period by more than the
/// schedule's fraction of it, but for one part in two to the 50 of the period and
/// half a nanosecond. With a tenth and a period of a second or more it is at
/// least nine and at most eleven tenths of the period.
pub proof fn a_wait_stays_within_the_fraction_of_the_period(schedule: Schedule, sample: u32)
    requires
        schedule.wf(),
        schedule.every().wf(),
        is_sample(sample),
    ensures
        ({
            let (o, f) = (pow2(149) as int, value(schedule.jitter_fraction()));
            let n = schedule.every().secs() * 1_000_000_000 + schedule.every().nanos();
            let got = schedule.wait_nanos(sample) as int;
            &&& 2 * (got * o) <= 2 * (n * (o + f + pow2(99))) + o
            &&& 2 * (got * o) + o >= 2 * (n * (o - f - pow2(99)))
            &&& schedule.jitter_fraction() == 0x3dcc_cccd && n >= 1_000_000_000 ==> 9 * n <= 10
                * got <= 11 * n
        }),
{
    let fraction = schedule.jitter_fraction();
    clamping_is_idempotent(fraction);
    jitter_stays_within_the_fraction(schedule.every(), fraction, sample);
    patterns_are_ordered(0);
    if fraction >= 0x8000_0000 {
        lemma_magnitude_sign(fraction);
    }
    if fraction == TENTH {
        a_tenth_stays_between_nine_and_eleven_tenths(schedule.every(), sample);
    }
}

/// The wait before the first tick is the one that the policy asks for: nothing,
/// the wait between two ticks, or the span that was given, whatever the period
/// and its variation.
pub proof fn the_first_wait_is_the_one_asked_for(schedule: Schedule, sample: u32)
    ensures
        schedule.first_tick() == FirstTick::Immediate ==> schedule.first_wait_nanos(sample) == 0,
        schedule.first_tick() == FirstTick::SkipImmediate ==> schedule.first_wait_nanos(sample)
            == jittered_nanos(schedule.every(), schedule.jitter_fraction(), sample),
        schedule.first_tick() matches FirstTick::After(wait) ==> schedule.first_wait_nanos(sample)
            == wait.secs() * 1_000_000_000 + wait.nanos(),
{
}

/// What a new schedule varies by is a tenth: ten times it is one, up to one
/// part in two to the 26.
pub proof fn a_new_schedule_varies_by_a_tenth()
    ensures
        10 * magnitude(TENTH) == one() + pow2(123),
        one() == pow2(26) * pow2(123),
{
    lemma2_to64();
    lemma_pow2_adds(27, 122);
    lemma_pow2_adds(26, 123);
    lemma_pow2_unfold(123);
    let k = pow2(122);
    assert(10 * (0xcc_cccd * k) == 0x800_0000 * k + 2 * k) by (nonlinear_arith);
}

/// With a tenth, the multiplier lies between nine and eleven tenths, and not at
/// the ends, in units of two to the -271.
proof fn lemma_tenth_multiplier(sample: u32)
    ensures
        pow2(149) * (120_795_960 * pow2(122)) <= multiplier(TENTH, sample) <= pow2(149) * (
        147_639_488 * pow2(122)),
{
    let (k, e) = (pow2(122), pow2(271));
    lemma2_to64();
    lemma_pow2_adds(27, 122);
    lemma_pow2_adds(149, 122);
    lemma_pow2_adds(149, 149);
    lemma_pow2_adds(27, 271);
    let o = one();
    assert(magnitude(TENTH) == 0xcc_cccd * k);
    assert(o == 0x800_0000 * k);
    assert(o * (0x800_0000 * k - 0xcc_cccd * k) == 120_795_955 * (o * k)) by (nonlinear_arith);
    assert(o * (0x800_0000 * k + 0xcc_cccd * k) == 147_639_501 * (o * k)) by (nonlinear_arith);
    lemma_bit_len_unique(120_795_955, 26);
    lemma_bit_len_unique(147_639_501, 27);
    lemma_quotient(120_795_955, 8, 15_099_494, 3);
    lemma_quotient(147_639_501, 16, 9_227_468, 13);
    assert(unit(120_795_955, 24) == 8 && unit(147_639_501, 24) == 16);
    assert(round_up(120_795_955, 24) == 120_795_960);
    assert(round_down(147_639_501, 24) == 147_639_488);
    lemma_round_directed_scale(120_795_955, 271, 24);
    lemma_round_directed_scale(147_639_501, 271, 24);
    assert(120_795_955 * e <= 0x800_0000 * e <= 147_639_501 * e) by (nonlinear_arith)
        requires
            e >= 0,
    ;
    lemma_round_within_range(
        exact_multiplier(TENTH, sample),
        least_multiplier(TENTH),
        greatest_multiplier(TENTH),
        298,
        24,
    );
    assert(o * (120_795_960 * k) == 120_795_960 * (o * k)) by (nonlinear_arith);
    assert(o * (147_639_488 * k) == 147_639_488 * (o * k)) by (nonlinear_arith);
}

/// What varies by a tenth is at least nine and at most eleven tenths of `base`,
/// whatever is drawn. Half a nanosecond is allowed for where `base` is less
/// than a second.
pub proof fn a_tenth_stays_between_nine_and_eleven_tenths(base: Duration, sample: u32)
    requires
        base.wf(),
        is_sample(sample),
    ensures
        ({
            let got = jittered_nanos(base, TENTH, sample);
            &&& 9 * base@ <= 10 * got + 5
            &&& 10 * got <= 11 * base@ + 5
            &&& base@ >= NANOS_PER_SEC ==> 9 * base@ <= 10 * got <= 11 * base@
        }),
{
    patterns_are_ordered(TENTH);
    lemma_tenth_multiplier(sample);
    lemma2_to64();
    lemma_pow2_pos(122);
    lemma_pow2_adds(27, 122);
    lemma_pow2_adds(21, 32);
    let (k, w, o, n) = (pow2(122) as int, pow2(53) as int, one() as int, base@ as int);
    let got = jittered_nanos(base, TENTH, sample) as int;
    let (lo, hi, t) = (120_795_960int, 147_639_488int, 0x800_0000int);
    lemma_product_nanos_error(base, multiplier(TENTH, sample), lo * k, hi * k);
    assert(2 * (got * o) * w == (2 * (got * t) * w) * k) by (nonlinear_arith)
        requires
            o == t * k,
    ;
    assert(2 * ((n * (hi * k)) * (w + 4)) + o * w == (2 * ((n * hi) * (w + 4)) + t * w) * k)
        by (nonlinear_arith)
        requires
            o == t * k,
    ;
    assert(2 * ((n * (lo * k)) * (w - 4)) == (2 * ((n * lo) * (w - 4))) * k) by (nonlinear_arith);
    assert(o * w == (t * w) * k) by (nonlinear_arith)
        requires
            o == t * k,
    ;
    let r = 2 * (got * t) * w;
    assert(r <= 2 * ((n * hi) * (w + 4)) + t * w) by (nonlinear_arith)
        requires
            r * k <= (2 * ((n * hi) * (w + 4)) + t * w) * k,
            k > 0,
    ;
    assert(r + t * w >= 2 * ((n * lo) * (w - 4))) by (nonlinear_arith)
        requires
            r * k + (t * w) * k >= (2 * ((n * lo) * (w - 4))) * k,
            k > 0,
    ;
    let nw = n * w;
    assert(20_000_000_000 * n <= nw) by (nonlinear_arith)
        requires
            nw == n * w,
            w >= 20_000_000_000,
            n >= 0,
    ;
    assert((n * hi) * (w + 4) == hi * nw + 4 * hi * n) by (nonlinear_arith)
        requires
            nw == n * w,
    ;
    assert((n * lo) * (w - 4) == lo * nw - 4 * lo * n) by (nonlinear_arith)
        requires
            nw == n * w,
    ;
    assert(r == (2 * t * got) * w) by (nonlinear_arith)
        requires
            r == 2 * (got * t) * w,
    ;
    assert(20 * t * got <= 22 * t * n - 255 * n + 10 * t) by (nonlinear_arith)
        requires
            10 * ((2 * t * got) * w) <= (22 * t - 255) * nw + 10 * (t * w),
            nw == n * w,
            w > 0,
    ;
    assert(20 * t * got + 10 * t >= 18 * t * n + 95 * n) by (nonlinear_arith)
        requires
            10 * ((2 * t * got) * w) + 10 * (t * w) >= (18 * t + 95) * nw,
            nw == n * w,
            w > 0,
    ;
}

} // verus!
