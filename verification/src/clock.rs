//! Moments of the calendar clock, and the nanoseconds of a steady clock.

use std::time::Instant;
use vstd::prelude::*;

verus! {

#[verifier::external_type_specification]
#[verifier::external_body]
pub struct ExInstant(std::time::Instant);

/// A moment: the seconds since the Unix epoch, and the nanoseconds that have
/// passed since that second began.
#[derive(Clone, Copy, PartialEq, Eq, Structural, Debug)]
pub struct UtcTime {
    pub secs: i64,
    pub nanos: u32,
}

impl UtcTime {
    /// The moment is later than `other`.
    pub open spec fn later_than(self, other: UtcTime) -> bool {
        self.secs > other.secs || (self.secs == other.secs && self.nanos > other.nanos)
    }

    /// The whole milliseconds since the Unix epoch.
    pub open spec fn millis(self) -> int {
        self.secs * 1000 + self.nanos as int / 1_000_000
    }

    /// Whether the moment is later than `other`.
    pub fn is_after(&self, other: &UtcTime) -> (r: bool)
        ensures
            r == self.later_than(*other),
    {
        self.secs > other.secs || (self.secs == other.secs && self.nanos > other.nanos)
    }

    /// The whole milliseconds since the Unix epoch.
    pub fn timestamp_millis(&self) -> (r: i128)
        ensures
            r == self.millis(),
    {
        (self.secs as i128) * 1000 + (self.nanos / 1_000_000) as i128
    }
}

/// The moment that an RFC 3339 text denotes, as seconds and nanoseconds.
pub uninterp spec fn rfc3339_value(s: Seq<char>) -> Option<(i64, u32)>;

/// `DateTime::parse_from_rfc3339`, `DateTime::timestamp` and
/// `DateTime::timestamp_subsec_nanos`: the moment is a function of the text.
#[verifier::external_body]
fn parse_rfc3339(s: &str) -> (r: Option<(i64, u32)>)
    ensures
        r == rfc3339_value(s@),
{
    let moment = chrono::DateTime::parse_from_rfc3339(s).ok()?;
    Some((moment.timestamp(), moment.timestamp_subsec_nanos()))
}

/// The moment that an RFC 3339 text denotes.
pub open spec fn utc_value(s: Seq<char>) -> Option<UtcTime> {
    match rfc3339_value(s) {
        Some((secs, nanos)) => Some(UtcTime { secs, nanos }),
        None => None,
    }
}

/// The moment that the RFC 3339 text `s` denotes, if it is one.
pub fn parse_utc(s: &str) -> (r: Option<UtcTime>)
    ensures
        r == utc_value(s@),
{
    match parse_rfc3339(s) {
        Some((secs, nanos)) => Some(UtcTime { secs, nanos }),
        None => None,
    }
}

/// `Utc::now`, of which nothing is claimed but that the moment is one of those
/// that a `DateTime` can hold, less than 263000 years from the epoch; it does
/// not return where the clock of the system stands before the Unix epoch.
#[verifier::external_body]
pub(crate) fn utc_now() -> (r: UtcTime)
    ensures
        -8_400_000_000_000 <= r.secs <= 8_400_000_000_000,
        r.nanos < 2_000_000_000,
{
    let now = chrono::Utc::now();
    UtcTime { secs: now.timestamp(), nanos: now.timestamp_subsec_nanos() }
}

/// `Instant::now`, of which nothing is claimed.
#[verifier::external_body]
pub(crate) fn instant_now() -> (r: Instant) {
    Instant::now()
}

/// `Instant::elapsed` in nanoseconds, of which nothing is claimed.
#[verifier::external_body]
pub(crate) fn nanos_since(start: &Instant) -> (r: u64) {
    u64::try_from(start.elapsed().as_nanos()).unwrap_or(u64::MAX)
}

/// Moments are ordered as the nanoseconds since the epoch are, and the
/// milliseconds are those of which whole ones have passed.
pub proof fn lemma_moments(a: UtcTime, b: UtcTime)
    requires
        a.nanos < 1_000_000_000,
        b.nanos < 1_000_000_000,
    ensures
        a.later_than(b) == (a.secs * 1_000_000_000 + a.nanos > b.secs * 1_000_000_000 + b.nanos),
        a.millis() * 1_000_000 <= a.secs * 1_000_000_000 + a.nanos,
        a.secs * 1_000_000_000 + a.nanos < (a.millis() + 1) * 1_000_000,
{
}

/// Of two different moments one is later than the other, and none is later than
/// itself.
pub proof fn lemma_moments_ordered(a: UtcTime, b: UtcTime)
    ensures
        a != b ==> a.later_than(b) != b.later_than(a),
        !a.later_than(a),
        a.secs > b.secs ==> a.later_than(b),
{
}

/// A text denotes the moment that RFC 3339 gives it.
pub proof fn lemma_utc_value(s: Seq<char>)
    ensures
        utc_value(s) is Some == rfc3339_value(s) is Some,
        utc_value(s) is Some ==> (utc_value(s)->0.secs, utc_value(s)->0.nanos) == rfc3339_value(
            s,
        )->0,
{
}

} // verus!
