//! Jittered exponential backoff, shared by the loops that retry.

use crate::time::Span;
use vstd::prelude::*;

verus! {

/// Returns growing delays, up to a ceiling, and goes back to the floor once
/// whatever it guards has been stable.
#[derive(Debug)]
pub struct Backoff {
    pub min: Span,
    pub max: Span,
    pub current: Span,
}

/// Twice a delay, up to a ceiling.
pub open spec fn doubled(delay: Span, max: Span) -> Span {
    if delay.nanos * 2 <= max.nanos {
        Span { nanos: (delay.nanos * 2) as u128 }
    } else {
        max
    }
}

/// A whole, in the parts a jitter is counted in.
pub const WHOLE: u64 = 1_000_000;

/// The least share of a delay that is waited: four fifths.
pub const SHARE_MIN: u64 = 800_000;

/// The share of a delay that is no longer waited: six fifths.
pub const SHARE_MAX: u64 = 1_200_000;

/// Whether a delay may be waited for that share of it.
pub open spec fn fair(share: u64) -> bool {
    SHARE_MIN <= share < SHARE_MAX
}

/// A share of a delay. One too long to take a share of is left as it is.
pub open spec fn jittered(delay: Span, share: u64) -> Span {
    if delay.nanos * share <= u128::MAX {
        Span { nanos: (delay.nanos * share / WHOLE as int) as u128 }
    } else {
        delay
    }
}

/// `rand::random_range` draws a number from a range that is not empty. Nothing
/// is claimed of which.
#[verifier::external_body]
fn random_between(from: u64, to: u64) -> (n: u64)
    requires
        from < to,
    ensures
        from <= n < to,
{
    rand::random_range(from..to)
}

impl Backoff {
    /// Delays that start at `min` and grow up to `max`.
    pub fn new(min: Span, max: Span) -> (backoff: Self)
        ensures
            backoff == (Backoff { min, max, current: min }),
    {
        Backoff { min, max, current: min }
    }

    /// The next delay to wait, moving the following one toward the ceiling.
    /// Jittered by a fifth either way, so several loops backing off together do
    /// not retry in lockstep.
    pub fn next_delay(&mut self) -> (delay: Span)
        ensures
            exists|share: u64| #[trigger]
                fair(share) && delay == jittered(old(self).current, share),
            *final(self) == (Backoff {
                current: doubled(old(self).current, old(self).max),
                ..*old(self)
            }),
    {
        let share: u64 = random_between(SHARE_MIN, SHARE_MAX);
        assert(fair(share));
        self.delay_of(share)
    }

    /// That share of the next delay to wait, moving the following one toward
    /// the ceiling.
    pub fn delay_of(&mut self, share: u64) -> (delay: Span)
        ensures
            delay == jittered(old(self).current, share),
            *final(self) == (Backoff {
                current: doubled(old(self).current, old(self).max),
                ..*old(self)
            }),
    {
        let delay = self.current;
        self.current = if delay.nanos <= self.max.nanos / 2 {
            Span { nanos: delay.nanos * 2 }
        } else {
            self.max
        };
        match delay.nanos.checked_mul(share as u128) {
            Some(nanos) => Span { nanos: nanos / WHOLE as u128 },
            None => delay,
        }
    }

    /// Returns to the floor delay.
    pub fn reset(&mut self)
        ensures
            *final(self) == (Backoff { current: old(self).min, ..*old(self) }),
    {
        self.current = self.min;
    }
}

/// The delay after `n` failures in a row.
pub open spec fn delay_after(min: Span, max: Span, n: nat) -> Span
    decreases n,
{
    if n == 0 {
        min
    } else {
        doubled(delay_after(min, max, (n - 1) as nat), max)
    }
}

/// Delays grow from one failure to the next, and never past the ceiling.
pub proof fn delays_grow_up_to_a_ceiling(min: Span, max: Span, n: nat)
    requires
        min.nanos <= max.nanos,
    ensures
        delay_after(min, max, n).nanos <= delay_after(min, max, n + 1).nanos <= max.nanos,
    decreases n,
{
    if n > 0 {
        delays_grow_up_to_a_ceiling(min, max, (n - 1) as nat);
    }
}

/// A delay is waited to within a fifth of it, either way.
pub proof fn delays_are_jittered_by_a_fifth(delay: Span, share: u64)
    requires
        fair(share),
    ensures
        4 * delay.nanos <= 5 * jittered(delay, share).nanos + 5,
        5 * jittered(delay, share).nanos <= 6 * delay.nanos,
{
    let n = delay.nanos as int;
    let s = share as int;
    assert(n * 800_000 <= n * s <= n * 1_200_000) by (nonlinear_arith)
        requires
            0 <= n,
            800_000 <= s < 1_200_000,
    ;
}

/// The first delay is the least there is, and every further one is twice the one
/// before, until that would be more than the most there is, which it is then.
pub proof fn delays_double(min: Span, max: Span, n: nat)
    ensures
        delay_after(min, max, 0) == min,
        delay_after(min, max, n).nanos * 2 <= max.nanos ==> delay_after(min, max, n + 1).nanos
            == delay_after(min, max, n).nanos * 2,
        delay_after(min, max, n).nanos * 2 > max.nanos ==> delay_after(min, max, n + 1) == max,
{
}


} // verus!
