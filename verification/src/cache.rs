//! Answers that are kept for a short time.
//!
//! Times are nanoseconds of a clock that never goes back.

use vstd::prelude::*;

verus! {

/// How many whole seconds an answer is kept.
pub const KEEP_SECONDS: u64 = 30;

/// The nanoseconds of a second.
pub const NANOS_PER_SECOND: u64 = 1_000_000_000;

/// An answer and the time when it was made.
#[derive(Debug, PartialEq, Eq)]
pub struct CachedResponse<T> {
    pub data: T,
    pub at: u64,
}

/// The whole seconds that have passed since a time; none before it.
pub open spec fn whole_seconds_since(at: u64, now: u64) -> int {
    if now <= at {
        0
    } else {
        (now - at) / (NANOS_PER_SECOND as int)
    }
}

/// Whether an answer made at one time is still given at another.
pub open spec fn is_fresh(at: u64, now: u64) -> bool {
    whole_seconds_since(at, now) < KEEP_SECONDS
}

/// An answer is given until thirty seconds have passed, and not after that.
pub proof fn lemma_freshness(at: u64, now: u64)
    requires
        at <= now,
    ensures
        is_fresh(at, now) <==> now - at < KEEP_SECONDS * NANOS_PER_SECOND,
{
}

impl<T> CachedResponse<T> {
    /// Decides [`is_fresh`].
    pub fn fresh(&self, now: u64) -> (fresh: bool)
        ensures
            fresh == is_fresh(self.at, now),
    {
        let elapsed: u64 = if now <= self.at {
            0
        } else {
            now - self.at
        };
        elapsed / NANOS_PER_SECOND < KEEP_SECONDS
    }
}

}
