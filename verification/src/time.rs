//! Instants and lengths of time.

use vstd::prelude::*;

verus! {

/// An instant, counted from the Unix epoch. What lies before the epoch counts
/// as the epoch.
#[derive(Clone, Copy, Debug, PartialEq, Eq, PartialOrd, Ord, Structural)]
pub struct Time {
    pub nanos: u128,
}

/// A length of time.
#[derive(Clone, Copy, Debug, PartialEq, Eq, PartialOrd, Ord, Structural)]
pub struct Span {
    pub nanos: u128,
}

/// How many nanoseconds a second has.
pub const NANOS_PER_SEC: u128 = 1_000_000_000;

/// How many nanoseconds a millisecond has.
pub const NANOS_PER_MILLI: u128 = 1_000_000;

/// `std::time::SystemTime::now` reads the clock of the machine. Nothing is
/// claimed of what it says: the clock may stand anywhere, and may go
/// backwards from one reading to the next.
#[verifier::external_body]
pub(crate) fn now() -> (time: Time) {
    let since = std::time::SystemTime::now().duration_since(std::time::UNIX_EPOCH);
    Time { nanos: since.unwrap_or_default().as_nanos() }
}

impl Time {
    /// The whole milliseconds between the epoch and this instant, as far as
    /// they can be counted.
    pub open spec fn whole_millis(self) -> u64 {
        if self.nanos / NANOS_PER_MILLI <= u64::MAX {
            (self.nanos / NANOS_PER_MILLI) as u64
        } else {
            u64::MAX
        }
    }

    /// The whole milliseconds between the epoch and this instant, as far as
    /// they can be counted.
    pub fn millis(&self) -> (millis: u64)
        ensures
            millis == self.whole_millis(),
    {
        let millis: u128 = self.nanos / NANOS_PER_MILLI;
        if millis <= u64::MAX as u128 {
            millis as u64
        } else {
            u64::MAX
        }
    }
}

impl Time {
    /// The instant some time after this one, as far as instants go.
    pub open spec fn later(self, span: Span) -> Time {
        if self.nanos + span.nanos <= u128::MAX {
            Time { nanos: (self.nanos + span.nanos) as u128 }
        } else {
            Time { nanos: u128::MAX }
        }
    }

    /// The instant some time after this one, as far as instants go.
    pub fn plus(&self, span: Span) -> (time: Time)
        ensures
            time == self.later(span),
    {
        if self.nanos <= u128::MAX - span.nanos {
            Time { nanos: self.nanos + span.nanos }
        } else {
            Time { nanos: u128::MAX }
        }
    }

    /// How long after `earlier` this instant is; nothing when it is before.
    pub open spec fn elapsed(self, earlier: Time) -> Span {
        if self.nanos >= earlier.nanos {
            Span { nanos: (self.nanos - earlier.nanos) as u128 }
        } else {
            Span { nanos: 0 }
        }
    }

    /// How long after `earlier` this instant is; nothing when it is before.
    pub fn since(&self, earlier: Time) -> (span: Span)
        ensures
            span == self.elapsed(earlier),
    {
        if self.nanos >= earlier.nanos {
            Span { nanos: self.nanos - earlier.nanos }
        } else {
            Span { nanos: 0 }
        }
    }
}

impl Span {
    /// The whole seconds of the length, as far as they can be counted.
    pub open spec fn whole_secs(self) -> u64 {
        if self.nanos / NANOS_PER_SEC <= u64::MAX {
            (self.nanos / NANOS_PER_SEC) as u64
        } else {
            u64::MAX
        }
    }

    /// The whole seconds of the length, as far as they can be counted.
    pub fn as_secs(&self) -> (secs: u64)
        ensures
            secs == self.whole_secs(),
    {
        let secs: u128 = self.nanos / NANOS_PER_SEC;
        if secs <= u64::MAX as u128 {
            secs as u64
        } else {
            u64::MAX
        }
    }

    /// The length of some seconds.
    pub open spec fn of_secs(secs: u64) -> Span {
        Span { nanos: (secs * NANOS_PER_SEC) as u128 }
    }

    /// The length of some seconds.
    pub fn from_secs(secs: u64) -> (span: Span)
        ensures
            span.nanos == secs * NANOS_PER_SEC,
            span == Span::of_secs(secs),
    {
        Span { nanos: secs as u128 * NANOS_PER_SEC }
    }
}

/// Time is counted in nanoseconds, a thousand million to the second and a
/// million to the millisecond; what has elapsed of it is the difference, and
/// nothing when it has not come yet.
pub proof fn time_is_counted_in_nanoseconds(earlier: Time, later: Time, span: Span, secs: u64)
    requires
        earlier.nanos <= later.nanos,
    ensures
        later.elapsed(earlier).nanos == later.nanos - earlier.nanos,
        earlier.elapsed(later).nanos == 0,
        earlier.nanos + span.nanos <= u128::MAX ==> earlier.later(span).nanos == earlier.nanos
            + span.nanos,
        earlier.nanos / 1_000_000 <= u64::MAX ==> earlier.whole_millis() == earlier.nanos
            / 1_000_000,
        span.nanos / 1_000_000_000 <= u64::MAX ==> span.whole_secs() == span.nanos / 1_000_000_000,
        Span::of_secs(secs).nanos == secs * 1_000_000_000,
        Span::of_secs(secs).whole_secs() == secs,
{
}


} // verus!
