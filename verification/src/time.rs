//! Points in time and spans between them, counted in nanoseconds.

use vstd::prelude::*;

verus! {

pub const NANOS_PER_SEC: u128 = 1_000_000_000;

/// A span of time.
#[derive(Debug, Clone, Copy, PartialEq, Eq, Structural, PartialOrd, Ord, Hash)]
pub struct Duration {
    pub nanos: u128,
}

impl Duration {
    pub fn from_secs(secs: u64) -> (r: Self)
        ensures
            r.nanos == secs * NANOS_PER_SEC,
    {
        Duration { nanos: secs as u128 * NANOS_PER_SEC }
    }
}

/// A point in time, counted from the start of 1970 (UTC).
#[derive(Debug, Clone, Copy, PartialEq, Eq, Structural, PartialOrd, Ord, Hash)]
pub struct Timestamp {
    pub nanos: u128,
}

impl Timestamp {
    /// The start of 1970.
    pub fn epoch() -> (r: Self)
        ensures
            r.nanos == 0,
    {
        Timestamp { nanos: 0 }
    }

    /// `secs` seconds and `nanos` nanoseconds after the start of 1970.
    pub fn after_epoch(secs: u64, nanos: u32) -> (r: Self)
        ensures
            r.nanos == secs * NANOS_PER_SEC + nanos,
    {
        Timestamp { nanos: secs as u128 * NANOS_PER_SEC + nanos as u128 }
    }

    /// The span from `earlier` to here: nothing where `earlier` is in fact
    /// later.
    pub open spec fn since(self, earlier: Timestamp) -> Option<Duration> {
        if earlier.nanos <= self.nanos {
            Some(Duration { nanos: (self.nanos - earlier.nanos) as u128 })
        } else {
            None
        }
    }

    pub fn duration_since(self, earlier: Timestamp) -> (r: Option<Duration>)
        ensures
            r == self.since(earlier),
    {
        if earlier.nanos <= self.nanos {
            Some(Duration { nanos: self.nanos - earlier.nanos })
        } else {
            None
        }
    }
}

/// A span reaches from the earlier time to the later one; there is none backwards.
pub proof fn spans_reach_from_one_time_to_another(early: Timestamp, late: Timestamp)
    ensures
        late.since(early) is Some <==> early.nanos <= late.nanos,
        late.since(early) matches Some(span) ==> early.nanos + span.nanos == late.nanos,
{
}

} // verus!
