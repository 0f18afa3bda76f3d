//! Spans of time, counted in whole nanoseconds.

use vstd::prelude::*;

verus! {

/// Nanoseconds in one second.
pub const NANOS_PER_SEC: u128 = 1_000_000_000;

/// Nanoseconds in one microsecond.
pub const NANOS_PER_MICRO: u128 = 1_000;

/// A non-negative span of time with nanosecond resolution.
///
/// The view of a `Duration` is its length in nanoseconds.
#[derive(Clone, Copy, Debug, PartialEq, Eq, Hash, Structural)]
pub struct Duration {
    /// The length in nanoseconds.
    pub nanos: u128,
}

impl View for Duration {
    type V = nat;

    open spec fn view(&self) -> nat {
        self.nanos as nat
    }
}

impl Duration {
    /// The duration of `nanos` nanoseconds, where that many fit in 128 bits.
    pub open spec fn of_nanos(nanos: nat) -> Duration {
        Duration { nanos: nanos as u128 }
    }

    /// The span of `secs` whole seconds.
    pub fn from_secs(secs: u64) -> (d: Duration)
        ensures
            d@ == secs * NANOS_PER_SEC,
    {
        Duration { nanos: (secs as u128) * NANOS_PER_SEC }
    }

    /// The span of `micros` whole microseconds.
    pub fn from_micros(micros: u64) -> (d: Duration)
        ensures
            d@ == micros * NANOS_PER_MICRO,
    {
        Duration { nanos: (micros as u128) * NANOS_PER_MICRO }
    }

    /// The span of `nanos` nanoseconds.
    pub fn from_nanos(nanos: u128) -> (d: Duration)
        ensures
            d@ == nanos,
    {
        Duration { nanos }
    }

    /// The length in nanoseconds.
    pub fn as_nanos(&self) -> (n: u128)
        ensures
            n == self@,
    {
        self.nanos
    }

    /// The length in whole microseconds, rounded down.
    pub fn as_micros(&self) -> (n: u128)
        ensures
            n == self@ / (NANOS_PER_MICRO as nat),
    {
        self.nanos / NANOS_PER_MICRO
    }

    /// The sum of two spans, or `None` where it exceeds 128 bits of
    /// nanoseconds.
    pub fn checked_add(self, rhs: Duration) -> (sum: Option<Duration>)
        ensures
            sum matches Some(d) ==> d@ == self@ + rhs@,
            sum is Some <==> self@ + rhs@ <= u128::MAX,
    {
        match self.nanos.checked_add(rhs.nanos) {
            Some(nanos) => Some(Duration { nanos }),
            None => None,
        }
    }

    /// The difference of two spans, or zero where `rhs` is the longer one.
    pub fn saturating_sub(self, rhs: Duration) -> (d: Duration)
        ensures
            d@ == if self@ >= rhs@ { self@ - rhs@ } else { 0 },
    {
        if self.nanos >= rhs.nanos {
            Duration { nanos: self.nanos - rhs.nanos }
        } else {
            Duration { nanos: 0 }
        }
    }
}

/// The two durations reported for a node.
#[derive(Clone, Copy, Debug, PartialEq, Eq, Structural)]
pub struct NodeDuration {
    /// The part of the time that the user might be able to improve.
    pub user: Duration,
    /// All wall time spent on the node.
    pub total: Duration,
}

impl NodeDuration {
    /// The weight of a node in the critical-path calculation, in
    /// nanoseconds: the length of `user`.
    pub open spec fn cost(&self) -> nat {
        self.user@
    }

    /// The duration that enters the critical-path calculation: `user`.
    pub fn critical_path_duration(&self) -> (d: Duration)
        ensures
            d == self.user,
            d@ == self.cost(),
    {
        self.user
    }

    /// The duration of a node that carries no time of its own.
    pub open spec fn zero_spec() -> NodeDuration {
        NodeDuration { user: Duration::of_nanos(0), total: Duration::of_nanos(0) }
    }

    /// The duration of a node that carries no time of its own.
    #[verifier::when_used_as_spec(zero_spec)]
    pub fn zero() -> (d: NodeDuration)
        ensures
            d == Self::zero_spec(),
            d.user@ == 0,
            d.total@ == 0,
    {
        NodeDuration { user: Duration::from_secs(0), total: Duration::from_secs(0) }
    }
}

} // verus!
