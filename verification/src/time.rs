//! Spans of time, counted in nanoseconds, with the range of
//! `std::time::Duration` (up to `u64::MAX` seconds and 999 999 999 nanoseconds).
use vstd::prelude::*;

verus! {

/// The largest span, in nanoseconds.
pub const MAX_NANOS: u128 = 18446744073709551615999999999u128;

/// A span of time.
#[derive(Debug, Clone, Copy, PartialEq, Eq, Structural)]
pub struct Duration {
    pub nanos: u128,
}

impl View for Duration {
    type V = nat;

    open spec fn view(&self) -> nat {
        self.nanos as nat
    }
}

impl Duration {
    /// Well-formed spans never exceed the largest one.
    pub open spec fn wf(self) -> bool {
        self@ <= MAX_NANOS
    }

    /// The empty span.
    pub fn zero() -> (d: Duration)
        ensures
            d@ == 0,
            d.wf(),
    {
        Duration { nanos: 0 }
    }

    /// A span of `secs` seconds.
    pub fn from_secs(secs: u64) -> (d: Duration)
        ensures
            d@ == secs * 1_000_000_000,
            d.wf(),
    {
        Duration { nanos: secs as u128 * 1_000_000_000 }
    }

    /// A span of `millis` milliseconds.
    pub fn from_millis(millis: u64) -> (d: Duration)
        ensures
            d@ == millis * 1_000_000,
            d.wf(),
    {
        Duration { nanos: millis as u128 * 1_000_000 }
    }

    /// The span in nanoseconds.
    pub fn as_nanos(&self) -> (n: u128)
        ensures
            n == self@,
    {
        self.nanos
    }

    /// `self * k`, saturating at the largest span.
    pub fn saturating_mul(&self, k: u32) -> (d: Duration)
        requires
            self.wf(),
        ensures
            d@ == if self@ * k <= MAX_NANOS { self@ * k } else { MAX_NANOS as int },
            d.wf(),
    {
        // self <= MAX_NANOS < 2^95 and k < 2^32, so the product fits in u128.
        assert(self.nanos * (k as u128) <= 18446744073709551615999999999u128 * 4294967295u128)
            by (nonlinear_arith)
            requires
                self.nanos <= 18446744073709551615999999999u128,
                k <= 4294967295u32,
        ;
        let p = self.nanos * (k as u128);
        if p <= MAX_NANOS {
            Duration { nanos: p }
        } else {
            Duration { nanos: MAX_NANOS }
        }
    }

    /// The shorter of two spans.
    pub fn min(self, other: Duration) -> (d: Duration)
        ensures
            d@ == if self@ <= other@ { self@ } else { other@ },
    {
        if self.nanos <= other.nanos {
            self
        } else {
            other
        }
    }

    /// `self + other`, `None` past the largest span.
    pub fn checked_add(self, other: Duration) -> (d: Option<Duration>)
        requires
            self.wf(),
            other.wf(),
        ensures
            d is Some <==> self@ + other@ <= MAX_NANOS,
            d matches Some(x) ==> x@ == self@ + other@ && x.wf(),
    {
        let s = self.nanos + other.nanos;
        if s <= MAX_NANOS {
            Some(Duration { nanos: s })
        } else {
            None
        }
    }
}

/// The saturating sum that `+` computes.
pub open spec fn saturating_sum(a: Duration, b: Duration) -> Duration {
    if a.nanos <= MAX_NANOS && b.nanos <= MAX_NANOS && a.nanos + b.nanos <= MAX_NANOS {
        Duration { nanos: (a.nanos + b.nanos) as u128 }
    } else {
        Duration { nanos: MAX_NANOS }
    }
}

impl vstd::std_specs::ops::AddSpecImpl for Duration {
    open spec fn obeys_add_spec() -> bool {
        true
    }

    open spec fn add_req(self, rhs: Duration) -> bool {
        true
    }

    open spec fn add_spec(self, rhs: Duration) -> Duration {
        saturating_sum(self, rhs)
    }
}

impl core::ops::Add for Duration {
    type Output = Duration;

    /// Sum of two spans, saturating at the largest span.
    fn add(self, other: Duration) -> (d: Duration)
    {
        if other.nanos <= MAX_NANOS && self.nanos <= MAX_NANOS - other.nanos {
            Duration { nanos: self.nanos + other.nanos }
        } else {
            Duration { nanos: MAX_NANOS }
        }
    }
}

/// `std::time::Instant`, carried as an opaque value.
#[verifier::external_type_specification]
#[verifier::external_body]
pub struct ExInstant(std::time::Instant);

/// `Instant::now()`: the current moment; nothing is claimed of it.
#[verifier::external_body]
pub(crate) fn instant_now() -> std::time::Instant {
    std::time::Instant::now()
}

/// `Instant::elapsed()`, in nanoseconds: the time since `t`; nothing is
/// claimed of it, since it depends on the clock.
#[verifier::external_body]
pub(crate) fn age_nanos(t: &std::time::Instant) -> u128 {
    t.elapsed().as_nanos()
}

} // verus!
