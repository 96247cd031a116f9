//! Spans of time.

use vstd::prelude::*;

verus! {

/// A span of time, to the nanosecond. Monotonic clock readings are given as the span since
/// the clock's origin.
#[derive(Debug, Clone, Copy, PartialEq, Eq, PartialOrd, Ord, Hash, Structural)]
pub struct Duration {
    secs: u64,
    nanos: u32,
}

impl Duration {
    #[verifier::type_invariant]
    spec fn wf(self) -> bool {
        self.nanos < 1_000_000_000
    }

    /// The length in nanoseconds.
    pub closed spec fn nanoseconds(self) -> nat {
        (self.secs * 1_000_000_000 + self.nanos) as nat
    }

    /// `secs` seconds and `nanos` nanoseconds.
    pub fn new(secs: u64, nanos: u32) -> (d: Duration)
        requires
            nanos < 1_000_000_000,
        ensures
            d.nanoseconds() == secs * 1_000_000_000 + nanos,
    {
        Duration { secs, nanos }
    }

    /// `secs` seconds.
    pub fn from_secs(secs: u64) -> (d: Duration)
        ensures
            d.nanoseconds() == secs * 1_000_000_000,
    {
        Duration { secs, nanos: 0 }
    }

    /// `millis` thousandths of a second.
    pub fn from_millis(millis: u64) -> (d: Duration)
        ensures
            d.nanoseconds() == millis * 1_000_000,
    {
        Duration { secs: millis / 1000, nanos: (millis % 1000) as u32 * 1_000_000 }
    }

    /// What is left of `window` after `elapsed`, if anything is.
    pub fn left(window: Duration, elapsed: Duration) -> (r: Option<Duration>)
        ensures
            match r {
                Some(d) => elapsed.nanoseconds() < window.nanoseconds() && d.nanoseconds()
                    == window.nanoseconds() - elapsed.nanoseconds(),
                None => elapsed.nanoseconds() >= window.nanoseconds(),
            },
    {
        let (w, e) = (window.as_nanos(), elapsed.as_nanos());
        if e >= w {
            return None;
        }
        let n: u128 = w - e;
        proof {
            use_type_invariant(&window);
        }
        let secs: u64 = (n / 1_000_000_000) as u64;
        let nanos: u32 = (n % 1_000_000_000) as u32;
        Some(Duration { secs, nanos })
    }

    /// The length in nanoseconds.
    pub fn as_nanos(&self) -> (n: u128)
        ensures
            n == self.nanoseconds(),
            n < 0x4000_0000_0000_0000_0000_0000,
    {
        self.secs as u128 * 1_000_000_000 + self.nanos as u128
    }
}

} // verus!
