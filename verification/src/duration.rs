//! A span of time.

use core::cmp::Ordering;

use vstd::prelude::*;

verus! {

/// A span of time, to the nanosecond.
#[derive(Debug, Clone, Copy, PartialEq, Eq, Structural)]
pub struct Duration {
    secs: u64,
    nanos: u32,
}

impl Duration {
    #[verifier::type_invariant]
    spec fn well_formed(self) -> bool {
        self.nanos < 1_000_000_000
    }

    /// The length of the span in nanoseconds.
    pub closed spec fn nanoseconds(self) -> nat {
        (self.secs * 1_000_000_000 + self.nanos) as nat
    }

    /// The span of that many seconds and nanoseconds.
    pub fn new(secs: u64, nanos: u32) -> (d: Duration)
        requires
            secs + nanos / 1_000_000_000 <= u64::MAX,
        ensures
            d.nanoseconds() == secs * 1_000_000_000 + nanos,
    {
        Duration { secs: secs + (nanos / 1_000_000_000) as u64, nanos: nanos % 1_000_000_000 }
    }

    /// The span of that many whole seconds.
    pub fn from_secs(secs: u64) -> (d: Duration)
        ensures
            d.nanoseconds() == secs * 1_000_000_000,
    {
        Duration { secs, nanos: 0 }
    }

    /// The span of that many milliseconds.
    pub fn from_millis(millis: u64) -> (d: Duration)
        ensures
            d.nanoseconds() == millis * 1_000_000,
    {
        Duration { secs: millis / 1000, nanos: (millis % 1000) as u32 * 1_000_000 }
    }

    /// The whole seconds of the span.
    pub fn as_secs(&self) -> (secs: u64)
        ensures
            secs as nat == self.nanoseconds() / 1_000_000_000,
    {
        proof {
            use_type_invariant(self);
        }
        self.secs
    }

    /// What the span has beyond its whole seconds, in nanoseconds.
    pub fn subsec_nanos(&self) -> (nanos: u32)
        ensures
            nanos as nat == self.nanoseconds() % 1_000_000_000,
    {
        proof {
            use_type_invariant(self);
        }
        self.nanos
    }
}

/// Spans are ordered by their length.
impl PartialOrd for Duration {
    fn partial_cmp(&self, other: &Duration) -> (r: Option<Ordering>) {
        proof {
            use_type_invariant(self);
            use_type_invariant(other);
        }
        if self.secs < other.secs {
            Some(Ordering::Less)
        } else if self.secs > other.secs {
            Some(Ordering::Greater)
        } else if self.nanos < other.nanos {
            Some(Ordering::Less)
        } else if self.nanos > other.nanos {
            Some(Ordering::Greater)
        } else {
            Some(Ordering::Equal)
        }
    }
}

impl vstd::std_specs::cmp::PartialOrdSpecImpl for Duration {
    open spec fn obeys_partial_cmp_spec() -> bool {
        true
    }

    open spec fn partial_cmp_spec(&self, other: &Duration) -> Option<Ordering> {
        if self.nanoseconds() < other.nanoseconds() {
            Some(Ordering::Less)
        } else if self.nanoseconds() > other.nanoseconds() {
            Some(Ordering::Greater)
        } else {
            Some(Ordering::Equal)
        }
    }
}

} // verus!
