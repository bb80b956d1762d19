//! Points in time as the log writes them.
use vstd::prelude::*;

verus! {

/// A point in time: whole seconds since the Unix epoch, and the nanoseconds
/// past that second (more than a second's worth only inside a leap second).
#[derive(Clone, Copy, Debug, PartialEq, Eq, Structural)]
pub struct Stamp {
    pub secs: i64,
    pub nanos: u32,
}

impl Stamp {
    /// Nanoseconds since the Unix epoch; stamps are ordered and subtracted by it.
    pub open spec fn instant(self) -> int {
        self.secs as int * 1_000_000_000 + self.nanos as int
    }

    pub fn new(secs: i64, nanos: u32) -> (r: Stamp)
        ensures
            r.secs == secs,
            r.nanos == nanos,
    {
        Stamp { secs, nanos }
    }

    /// Whole seconds since the Unix epoch.
    pub fn timestamp(&self) -> (r: i64)
        ensures
            r == self.secs,
    {
        self.secs
    }

    pub fn instant_exec(&self) -> (r: i128)
        ensures
            r as int == self.instant(),
    {
        self.secs as i128 * 1_000_000_000 + self.nanos as i128
    }
}

/// What chrono reads from an RFC 3339 date-time: its Unix timestamp and the
/// nanoseconds past that second, or nothing when the text is not one.
pub uninterp spec fn rfc3339_instant(text: Seq<char>) -> Option<(i64, u32)>;

/// Relies on chrono's `DateTime::parse_from_rfc3339`, and on `timestamp` and
/// `timestamp_subsec_nanos` of what it returns.
#[verifier::external_body]
fn rfc3339_parts(text: &str) -> (r: Option<(i64, u32)>)
    ensures
        r == rfc3339_instant(text@),
{
    match chrono::DateTime::parse_from_rfc3339(text) {
        Ok(d) => Some((d.timestamp(), d.timestamp_subsec_nanos())),
        Err(_) => None,
    }
}

pub open spec fn stamp_from_text(text: Seq<char>) -> Option<Stamp> {
    match rfc3339_instant(text) {
        Some((secs, nanos)) => Some(Stamp { secs, nanos }),
        None => None,
    }
}

/// Reads an RFC 3339 date-time such as `2021-03-17T20:30:45.111Z`.
pub fn parse_stamp(text: &str) -> (r: Option<Stamp>)
    ensures
        r == stamp_from_text(text@),
{
    match rfc3339_parts(text) {
        Some((secs, nanos)) => Some(Stamp { secs, nanos }),
        None => None,
    }
}

} // verus!
