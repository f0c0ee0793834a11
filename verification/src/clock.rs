//! Points in time, as the components record them.

use vstd::prelude::*;

verus! {

/// An instant: whole seconds since the Unix epoch and the nanoseconds past
/// that second.
#[derive(Clone, Copy, Debug, PartialEq, Eq, Structural)]
pub struct Timestamp {
    pub secs: i64,
    pub nanos: u32,
}

impl Timestamp {
    /// Whether `self` lies strictly after `other`.
    pub open spec fn later_than(self, other: Timestamp) -> bool {
        self.secs > other.secs || (self.secs == other.secs && self.nanos > other.nanos)
    }

    pub fn is_later_than(&self, other: &Timestamp) -> (r: bool)
        ensures
            r == self.later_than(*other),
    {
        self.secs > other.secs || (self.secs == other.secs && self.nanos > other.nanos)
    }
}

/// Reads the wall clock through `chrono::Utc::now`.
///
/// Trusted: chrono builds the value from the time elapsed since the Unix
/// epoch, so the seconds it reports are not negative and the sub-second
/// part stays below one second. Nothing else is claimed: two calls may
/// return anything relative to each other. chrono aborts when the system
/// clock reads earlier than 1970.
#[verifier::external_body]
pub(crate) fn now() -> (t: Timestamp)
    ensures
        t.secs >= 0,
        t.nanos < 1_000_000_000,
{
    let now = chrono::Utc::now();
    Timestamp { secs: now.timestamp(), nanos: now.timestamp_subsec_nanos() }
}

} // verus!
