//! Media timing helpers.

use vstd::prelude::*;

use crate::pipeline::time::Duration;

verus! {

/// Converts monotonic capture timestamps into 90 kHz presentation timestamps (the MPEG
/// clock used by the TS muxer), anchored so the first sample is PTS 0.
///
/// Capture backends report a frame's time as a monotonic [`Duration`] (elapsed since some
/// fixed origin); this maps that onto the shared 90 kHz timeline, relative to the first
/// sample seen.
#[derive(Debug)]
pub struct PtsClock {
    base: Option<Duration>,
}

/// The 90 kHz timestamp of a sample at `t` nanoseconds, with the zero point at `base`
/// nanoseconds: whole ticks, never before the zero point, and no more than 64 bits.
pub open spec fn ticks(base: nat, t: nat) -> nat {
    let elapsed = if t > base {
        (t - base) as nat
    } else {
        0
    };
    let n = elapsed * 9 / 100_000;
    if n <= u64::MAX {
        n
    } else {
        u64::MAX as nat
    }
}

impl Default for PtsClock {
    fn default() -> (clock: Self)
        ensures
            clock.anchor() is None,
    {
        PtsClock { base: None }
    }
}

impl PtsClock {
    /// The time of the first sample, in nanoseconds.
    pub closed spec fn anchor(&self) -> Option<nat> {
        match self.base {
            Some(d) => Some(d.nanoseconds()),
            None => None,
        }
    }

    /// The zero point that a sample at `t` nanoseconds is measured from.
    pub open spec fn zero_for(&self, t: nat) -> nat {
        match self.anchor() {
            Some(base) => base,
            None => t,
        }
    }

    /// A fresh clock that anchors on its first sample.
    #[must_use]
    pub fn new() -> (clock: Self)
        ensures
            clock.anchor() is None,
    {
        Self::default()
    }

    /// 90 kHz PTS for a sample captured at monotonic time `t`. The first call anchors the
    /// zero point; subsequent values are measured relative to it. Robust to a `t` that
    /// momentarily goes backwards (clamped to the anchor).
    pub fn pts(&mut self, t: Duration) -> (pts: u64)
        ensures
            pts == ticks(old(self).zero_for(t.nanoseconds()), t.nanoseconds()),
            final(self).anchor() == Some(old(self).zero_for(t.nanoseconds())),
    {
        let base: Duration = match self.base {
            Some(base) => base,
            None => t,
        };
        self.base = Some(base);
        let (from, to) = (base.as_nanos(), t.as_nanos());
        let elapsed: u128 = if to > from {
            to - from
        } else {
            0
        };
        // ns * 90_000 / 1_000_000_000  ==  ns * 9 / 100_000
        let n: u128 = elapsed * 9 / 100_000;
        if n <= u64::MAX as u128 {
            n as u64
        } else {
            u64::MAX
        }
    }
}

/// The sample at the zero point has timestamp 0, and so has every sample before it.
pub proof fn law_clock_starts_at_zero(base: nat, t: nat)
    requires
        t <= base,
    ensures
        ticks(base, t) == 0,
{
}

/// Later samples never have earlier timestamps.
pub proof fn law_clock_is_monotonic(base: nat, t: nat, later: nat)
    requires
        t <= later,
    ensures
        ticks(base, t) <= ticks(base, later),
{
}

/// One second is 90 000 ticks: a sample a second later is exactly that much later on the
/// timeline, where neither timestamp is cut off at 64 bits.
pub proof fn law_clock_rate(base: nat, t: nat)
    requires
        base <= t,
        (t + 1_000_000_000 - base) * 9 / 100_000 <= u64::MAX,
    ensures
        ticks(base, t + 1_000_000_000) == ticks(base, t) + 90_000,
{
}

/// A timestamp is the number of whole ticks of 1/90 000 s that have passed since the zero
/// point, as far as 64 bits hold it.
pub proof fn law_clock_counts_whole_ticks(base: nat, t: nat)
    requires
        base <= t,
    ensures
        ticks(base, t) < u64::MAX ==> ticks(base, t) * 1_000_000_000 <= (t - base) * 90_000 < (
        ticks(base, t) + 1) * 1_000_000_000,
        ticks(base, t) == u64::MAX ==> u64::MAX * 1_000_000_000 <= (t - base) * 90_000,
        ticks(base, t) <= u64::MAX,
{
}

/// Only the time since the zero point counts: where both move, the timestamp stays.
pub proof fn law_clock_is_relative(base: nat, t: nat, shift: nat)
    ensures
        ticks(base + shift, t + shift) == ticks(base, t),
{
}

/// A clock measures every sample from its first one: where it has none yet, from the sample
/// at hand.
pub proof fn law_zero_point(clock: PtsClock, t: nat, base: nat)
    ensures
        clock.anchor() == Some(base) ==> clock.zero_for(t) == base,
        clock.anchor() is None ==> clock.zero_for(t) == t,
{
}

} // verus!
