//! Spans of time.

use vstd::prelude::*;

verus! {

/// The number of nanoseconds in a second.
pub const NANOS_PER_SEC: u32 = 1_000_000_000;

/// A span of time in whole nanoseconds, with the range of
/// `std::time::Duration`: 64 bits of seconds and a part of a second.
///
/// Its view is its length in nanoseconds.
#[derive(Debug, Clone, Copy, PartialEq, Eq, Structural)]
pub struct Duration {
    secs: u64,
    nanos: u32,
}

impl View for Duration {
    type V = nat;

    open spec fn view(&self) -> nat {
        self.secs() as nat * NANOS_PER_SEC as nat + self.nanos() as nat
    }
}

impl Duration {
    /// The whole seconds.
    pub closed spec fn secs(self) -> u64 {
        self.secs
    }

    /// The nanoseconds beyond the whole seconds.
    pub closed spec fn nanos(self) -> u32 {
        self.nanos
    }

    /// The part beyond the whole seconds is less than a second.
    #[verifier::type_invariant]
    pub open spec fn wf(self) -> bool {
        self.nanos() < NANOS_PER_SEC
    }

    /// The span of `secs` seconds and `nanos` nanoseconds.
    pub fn new(secs: u64, nanos: u32) -> (d: Duration)
        requires
            nanos < NANOS_PER_SEC,
        ensures
            d@ == secs as nat * NANOS_PER_SEC as nat + nanos as nat,
            d.secs() == secs,
            d.nanos() == nanos,
            d.wf(),
    {
        Duration { secs, nanos }
    }

    /// The span of `secs` seconds.
    pub fn from_secs(secs: u64) -> (d: Duration)
        ensures
            d@ == secs as nat * NANOS_PER_SEC as nat,
            d.secs() == secs,
            d.nanos() == 0,
            d.wf(),
    {
        Duration { secs, nanos: 0 }
    }

    /// The whole seconds of the span.
    pub fn as_secs(&self) -> (secs: u64)
        ensures
            secs == self.secs(),
    {
        self.secs
    }

    /// The nanoseconds of the span beyond its whole seconds.
    pub fn subsec_nanos(&self) -> (nanos: u32)
        ensures
            nanos == self.nanos(),
            nanos < NANOS_PER_SEC,
    {
        proof {
            use_type_invariant(self);
        }
        self.nanos
    }

    /// Whether the span is empty.
    pub fn is_zero(&self) -> (zero: bool)
        ensures
            zero == (self@ == 0),
    {
        self.secs == 0 && self.nanos == 0
    }

    /// The span of `nanos` nanoseconds.
    pub(crate) fn from_nanos(nanos: u128) -> (d: Duration)
        requires
            nanos < 0x1_0000_0000_0000_0000 * NANOS_PER_SEC,
        ensures
            d@ == nanos,
            d.wf(),
    {
        Duration {
            secs: (nanos / 1_000_000_000) as u64,
            nanos: (nanos % 1_000_000_000) as u32,
        }
    }
}

/// A span is determined by its length.
pub proof fn duration_is_its_length(a: Duration, b: Duration)
    requires
        a.wf(),
        b.wf(),
        a@ == b@,
    ensures
        a == b,
{
}

/// The length of a span is its seconds, a thousand million nanoseconds each, and
/// the nanoseconds beyond them.
pub proof fn a_length_is_seconds_and_nanoseconds(span: Duration)
    ensures
        span@ == span.secs() * 1_000_000_000 + span.nanos(),
        span.wf() <==> span.nanos() < 1_000_000_000,
{
}

} // verus!
