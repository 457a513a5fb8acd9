//! The hybrid logical clock ordering log entries.
//!
//! Machines need one agreed order over entries written concurrently, and
//! that order has to stay close to wall time. A hybrid logical clock gives
//! both: it advances with wall time when wall time moves forward, and with a
//! counter when it does not, so it never goes backwards and never drifts far
//! from the real seconds.
//!
//! One machine with a badly wrong clock is contained: a remote reading more
//! than five minutes ahead of us does not drag our own clock with it (see
//! [`Clock::observe`]).

use crate::ordmap::{Place, Ranked};
use crate::time::{now, Time, NANOS_PER_MILLI};
use vstd::prelude::*;

verus! {

/// How far ahead of local wall time a peer's reading is allowed to push our
/// clock, in milliseconds: five minutes.
pub const MAX_DRIFT_MILLIS: u64 = 300_000;

/// A hybrid logical clock reading.
///
/// Ordering is `millis` first, then `counter`. Two machines can produce the
/// same reading, which the log breaks by entry id.
#[derive(Clone, Copy, Debug, PartialEq, Eq, PartialOrd, Ord, Structural)]
pub struct Hlc {
    /// Milliseconds since the unix epoch, as far as the clock knows.
    pub millis: u64,
    /// Disambiguates events sharing a millisecond, and keeps the clock moving
    /// while wall time does not.
    pub counter: u16,
}

impl Default for Hlc {
    fn default() -> (hlc: Hlc)
        ensures
            hlc == (Hlc { millis: 0, counter: 0 }),
    {
        Hlc { millis: 0, counter: 0 }
    }
}

impl Ranked for Hlc {
    open spec fn rank(self) -> int {
        self.millis * 0x1_0000 + self.counter
    }

    proof fn rank_is_unique(a: Self, b: Self) {
    }

    fn place(&self, other: &Self) -> (place: Place) {
        if self.millis < other.millis || (self.millis == other.millis && self.counter
            < other.counter) {
            Place::Before
        } else if self.millis == other.millis && self.counter == other.counter {
            Place::Same
        } else {
            Place::After
        }
    }
}

impl Hlc {
    /// The later of two readings.
    pub open spec fn later(self, other: Hlc) -> Hlc {
        if self.rank() < other.rank() {
            other
        } else {
            self
        }
    }

    /// The later of two readings.
    pub fn max(self, other: Hlc) -> (later: Hlc)
        ensures
            later == self.later(other),
    {
        match self.place(&other) {
            Place::Before => other,
            _ => self,
        }
    }

    /// The wall-clock instant this reading claims to be at.
    pub fn as_system_time(self) -> (time: Time)
        ensures
            time.nanos == self.millis * NANOS_PER_MILLI,
    {
        Time { nanos: self.millis as u128 * NANOS_PER_MILLI }
    }
}

/// The reading that follows `last` while the wall clock says `wall`: the wall
/// clock when it has moved on, else one more on the counter, and the next
/// millisecond once the counter is full. Only the last reading there is has
/// none after it.
pub open spec fn next_reading(last: Hlc, wall: u64) -> Hlc {
    if wall > last.millis {
        Hlc { millis: wall, counter: 0 }
    } else if last.counter < u16::MAX {
        Hlc { millis: last.millis, counter: (last.counter + 1) as u16 }
    } else if last.millis < u64::MAX {
        Hlc { millis: (last.millis + 1) as u64, counter: 0 }
    } else {
        last
    }
}

/// Whether a remote reading is believed while the wall clock says `wall`: it is
/// when it is no further ahead than the drift allows.
pub open spec fn believed(remote: Hlc, wall: u64) -> bool {
    remote.millis <= wall + MAX_DRIFT_MILLIS
}

/// Where the clock stands after it has taken a remote reading into account. One
/// that is not believed is not adopted: the clock is brought up to the wall
/// clock, and no further.
pub open spec fn observed(last: Hlc, remote: Hlc, wall: u64) -> Hlc {
    if believed(remote, wall) {
        next_reading(last.later(remote), wall)
    } else {
        last.later(Hlc { millis: wall, counter: 0 })
    }
}

/// A machine's clock: the highest reading it has produced or seen.
#[derive(Clone, Copy, Debug)]
pub struct Clock {
    last: Hlc,
}

impl View for Clock {
    type V = Hlc;

    closed spec fn view(&self) -> Hlc {
        self.last
    }
}

impl Default for Clock {
    fn default() -> (clock: Clock)
        ensures
            clock@ == (Hlc { millis: 0, counter: 0 }),
    {
        Clock { last: Hlc { millis: 0, counter: 0 } }
    }
}

impl Clock {
    /// Resumes from a persisted reading, so a restart (or a wall clock that
    /// jumped backwards) cannot re-issue readings already used.
    pub fn resume(last: Hlc) -> (clock: Self)
        ensures
            clock@ == last,
    {
        Clock { last }
    }

    /// The last reading, to persist.
    pub fn last(self) -> (last: Hlc)
        ensures
            last == self@,
    {
        self.last
    }

    /// Stamps a local event while the wall clock says `wall`.
    pub fn tick_at(&mut self, wall: u64) -> (reading: Hlc)
        ensures
            final(self)@ == next_reading(old(self)@, wall),
            reading == final(self)@,
    {
        self.last = if wall > self.last.millis {
            Hlc { millis: wall, counter: 0 }
        } else if self.last.counter < u16::MAX {
            Hlc { millis: self.last.millis, counter: self.last.counter + 1 }
        } else if self.last.millis < u64::MAX {
            Hlc { millis: self.last.millis + 1, counter: 0 }
        } else {
            self.last
        };
        self.last
    }

    /// Stamps a local event.
    pub fn tick(&mut self) -> (reading: Hlc)
        ensures
            exists|wall: u64| final(self)@ == #[trigger] next_reading(old(self)@, wall),
            reading == final(self)@,
    {
        let wall = wall_millis();
        self.tick_at(wall)
    }

    /// Takes a remote reading into account while the wall clock says `wall`.
    pub fn observe_at(&mut self, remote: Hlc, wall: u64)
        ensures
            final(self)@ == observed(old(self)@, remote, wall),
    {
        let ceiling: u64 = wall.saturating_add(MAX_DRIFT_MILLIS);
        if remote.millis > ceiling {
            self.last = self.last.max(Hlc { millis: wall, counter: 0 });
        } else {
            self.last = self.last.max(remote);
            self.tick_at(wall);
        }
    }

    /// Takes a remote reading into account, so anything we stamp afterwards
    /// sorts after what we have seen.
    ///
    /// A reading further than the drift ahead of our wall clock is not
    /// adopted: the entry keeps the reading its author gave it, but a peer
    /// whose clock is years off cannot push ours along with it.
    pub fn observe(&mut self, remote: Hlc)
        ensures
            exists|wall: u64| final(self)@ == #[trigger] observed(old(self)@, remote, wall),
    {
        let wall = wall_millis();
        self.observe_at(remote, wall);
    }
}

/// Milliseconds since the unix epoch, clamped at the epoch for a system clock
/// set before it.
pub fn wall_millis() -> (wall: u64) {
    now().millis()
}

/// Readings never go backwards and never repeat, wherever the wall clock
/// stands: a restart, or a wall clock that jumped backwards, cannot re-issue
/// one. The last reading there is, which has none after it, is left out.
pub proof fn readings_go_forward(last: Hlc, wall: u64)
    requires
        last != (Hlc { millis: u64::MAX, counter: u16::MAX }),
    ensures
        last.rank() < next_reading(last, wall).rank(),
{
}

/// What is stamped after a peer's reading was observed sorts after it, unless
/// the peer's clock was too far ahead to be believed.
pub proof fn observing_orders_us_after(last: Hlc, remote: Hlc, wall: u64, later_wall: u64)
    requires
        believed(remote, wall) || remote.rank() <= last.rank(),
        observed(last, remote, wall) != (Hlc { millis: u64::MAX, counter: u16::MAX }),
    ensures
        remote.rank() < next_reading(observed(last, remote, wall), later_wall).rank(),
        last.rank() < next_reading(observed(last, remote, wall), later_wall).rank(),
{
}

/// A peer's clock that is further ahead than the drift allows does not push
/// ours along with it: ours stays where it was, or where the wall clock is.
pub proof fn a_wrong_clock_is_contained(last: Hlc, remote: Hlc, wall: u64)
    requires
        remote.millis > wall + MAX_DRIFT_MILLIS,
    ensures
        observed(last, remote, wall) == last || observed(last, remote, wall) == (Hlc {
            millis: wall,
            counter: 0,
        }),
        last.millis <= wall ==> observed(last, remote, wall).millis <= wall,
{
}

/// Whether a reading is after another: by its milliseconds, and by its counter
/// within a millisecond.
pub open spec fn is_after(a: Hlc, b: Hlc) -> bool {
    a.millis > b.millis || (a.millis == b.millis && a.counter > b.counter)
}

/// A reading is the first there is after the last one and not before the wall
/// clock.
pub proof fn a_reading_is_the_first_there_is(last: Hlc, wall: u64, other: Hlc)
    requires
        last != (Hlc { millis: u64::MAX, counter: u16::MAX }),
        is_after(other, last),
        other.millis >= wall,
    ensures
        is_after(next_reading(last, wall), last),
        next_reading(last, wall).millis >= wall,
        !is_after(next_reading(last, wall), other),
{
}

/// A peer's reading counts when it is no more than five minutes ahead: the clock
/// then stands at the first reading after it, after the last one and not before
/// the wall clock. Otherwise the clock stands no further than it did, or than
/// the wall clock does.
pub proof fn a_reading_within_five_minutes_counts(last: Hlc, remote: Hlc, wall: u64, other: Hlc)
    requires
        last != (Hlc { millis: u64::MAX, counter: u16::MAX }),
        remote != (Hlc { millis: u64::MAX, counter: u16::MAX }),
    ensures
        ({
            let stands = observed(last, remote, wall);
            if remote.millis <= wall + 5 * 60 * 1000 {
                &&& is_after(stands, last)
                &&& is_after(stands, remote)
                &&& stands.millis >= wall
                &&& is_after(other, last) && is_after(other, remote) && other.millis >= wall
                    ==> !is_after(stands, other)
            } else {
                &&& !is_after(last, stands)
                &&& stands.millis >= wall
                &&& !is_after(other, stands) || is_after(other, last) && is_after(
                    other,
                    Hlc { millis: wall, counter: 0 },
                )
                &&& stands == last || stands == (Hlc { millis: wall, counter: 0 })
            }
        }),
{
}

} // verus!
