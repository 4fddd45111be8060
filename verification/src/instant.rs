//! Points in time, and their RFC 3339 form.

use vstd::prelude::*;
use chrono::DateTime;
use chrono::Utc;

verus! {

/// A point in time: whole seconds since 1970-01-01T00:00:00Z, and the
/// nanoseconds past that second.
#[derive(Clone, Copy, Debug, PartialEq, Eq, Structural)]
pub struct Instant {
    pub seconds: i64,
    pub nanos: u32,
}

/// What `chrono` reads from a text as a UTC date and time: the seconds and
/// nanoseconds of the instant, or `None` where the text is not a date and
/// time in the relaxed RFC 3339 form that `chrono` accepts.
pub uninterp spec fn parsed_instant(text: Seq<char>) -> Option<(i64, u32)>;

/// The RFC 3339 text that `chrono` writes for an instant, or `None` where
/// `chrono` has no date for it.
pub uninterp spec fn rfc3339_text(seconds: i64, nanos: u32) -> Option<Seq<char>>;

/// Calls `str::parse::<chrono::DateTime<chrono::Utc>>` and takes the result
/// apart with `DateTime::timestamp` and `DateTime::timestamp_subsec_nanos`.
/// Trusted: the result is what `chrono` reads from the text, and, as
/// `DateTime::from_timestamp` documents its round trip with those two
/// accessors, an instant that was read has an RFC 3339 text.
#[verifier::external_body]
fn chrono_parse(text: &str) -> (r: Option<(i64, u32)>)
    ensures
        r == parsed_instant(text@),
        r matches Some((seconds, nanos)) ==> rfc3339_text(seconds, nanos) is Some,
{
    match text.parse::<DateTime<Utc>>() {
        Ok(t) => Some((t.timestamp(), t.timestamp_subsec_nanos())),
        Err(_) => None,
    }
}

/// Builds the date with `chrono::DateTime::from_timestamp` and writes it
/// with `DateTime::to_rfc3339`. Trusted: the result is the text that `chrono`
/// writes for the instant, and `None` exactly where `from_timestamp` has no
/// date for it.
#[verifier::external_body]
fn chrono_rfc3339(seconds: i64, nanos: u32) -> (r: Option<String>)
    ensures
        match r {
            Some(text) => rfc3339_text(seconds, nanos) == Some(text@),
            None => rfc3339_text(seconds, nanos) is None,
        },
{
    match DateTime::from_timestamp(seconds, nanos) {
        Some(t) => Some(t.to_rfc3339()),
        None => None,
    }
}

impl Instant {
    /// The instant that a text denotes.
    pub open spec fn parsed(text: Seq<char>) -> Option<Instant> {
        match parsed_instant(text) {
            Some((seconds, nanos)) => Some(Instant { seconds, nanos }),
            None => None,
        }
    }

    /// The RFC 3339 text of the instant.
    pub open spec fn rfc3339(self) -> Option<Seq<char>> {
        rfc3339_text(self.seconds, self.nanos)
    }

    /// The instant of the given seconds and nanoseconds.
    pub fn new(seconds: i64, nanos: u32) -> (t: Instant)
        ensures
            t == (Instant { seconds, nanos }),
    {
        Instant { seconds, nanos }
    }

    /// Reads an instant from its RFC 3339 text. An instant that was read
    /// can be written again.
    pub fn parse(text: &str) -> (r: Option<Instant>)
        ensures
            r == Instant::parsed(text@),
            r matches Some(t) ==> t.rfc3339() is Some,
    {
        match chrono_parse(text) {
            Some((seconds, nanos)) => Some(Instant { seconds, nanos }),
            None => None,
        }
    }

    /// Writes the instant in RFC 3339 form; `None` where it is beyond the
    /// dates that can be written.
    pub fn to_rfc3339(&self) -> (r: Option<String>)
        ensures
            match r {
                Some(text) => self.rfc3339() == Some(text@),
                None => self.rfc3339() is None,
            },
    {
        chrono_rfc3339(self.seconds, self.nanos)
    }
}

} // verus!
