//! Points in time, as the reconciliation rules read them.

use vstd::prelude::*;

verus! {

/// A point in time: milliseconds since 1970-01-01T00:00:00 UTC.
///
/// The reconciliation rules only ever order two timestamps, so the value is
/// held as a plain integer.
#[derive(Clone, Copy, Debug, PartialEq, Eq, Structural, PartialOrd, Ord, Hash)]
pub struct Timestamp {
    pub millis: i64,
}

impl Timestamp {
    /// The later of two timestamps.
    pub open spec fn spec_later_of(self, other: Timestamp) -> Timestamp {
        if self.millis >= other.millis {
            self
        } else {
            other
        }
    }

    /// The later of `self` and an optional earlier mark; `self` when there is no mark.
    pub open spec fn spec_advance(self, mark: Option<Timestamp>) -> Timestamp {
        match mark {
            Some(m) => self.spec_later_of(m),
            None => self,
        }
    }

    /// Whether `self` lies strictly after the bound; with no bound, everything does.
    pub open spec fn spec_is_since(self, bound: Option<Timestamp>) -> bool {
        match bound {
            Some(b) => self.millis > b.millis,
            None => true,
        }
    }

    /// The point in time that many milliseconds after the epoch.
    pub fn from_millis(millis: i64) -> (t: Timestamp)
        ensures
            t.millis == millis,
    {
        Timestamp { millis }
    }

    /// Milliseconds since the epoch.
    pub fn millis(&self) -> (m: i64)
        ensures
            m == self.millis,
    {
        self.millis
    }

    /// Whether `self` is strictly later than `other`.
    pub fn is_after(&self, other: &Timestamp) -> (r: bool)
        ensures
            r == (self.millis > other.millis),
    {
        self.millis > other.millis
    }

    /// The later of two timestamps.
    #[verifier::when_used_as_spec(spec_later_of)]
    pub fn later_of(self, other: Timestamp) -> (t: Timestamp)
        ensures
            t == self.spec_later_of(other),
    {
        if self.millis >= other.millis {
            self
        } else {
            other
        }
    }

    /// The later of `self` and an optional earlier mark; `self` when there is no mark.
    #[verifier::when_used_as_spec(spec_advance)]
    pub fn advance(self, mark: Option<Timestamp>) -> (t: Timestamp)
        ensures
            t == self.spec_advance(mark),
    {
        match mark {
            Some(m) => self.later_of(m),
            None => self,
        }
    }

    /// Whether `self` lies strictly after the bound; with no bound, everything does.
    #[verifier::when_used_as_spec(spec_is_since)]
    pub fn is_since(self, bound: Option<Timestamp>) -> (r: bool)
        ensures
            r == self.spec_is_since(bound),
    {
        match bound {
            Some(b) => self.millis > b.millis,
            None => true,
        }
    }
}

/// Reads the system clock through `chrono::Utc::now` and converts the reading
/// with `DateTime::timestamp_millis`.
///
/// Nothing is claimed of the reading: two calls may return any two values.
/// `Utc::now` panics if the system clock is set before 1970.
#[verifier::external_body]
pub(crate) fn clock_now() -> (t: Timestamp) {
    Timestamp { millis: chrono::Utc::now().timestamp_millis() }
}

} // verus!
