use vstd::prelude::*;
use chrono::{Datelike, Timelike};

verus! {

/// A wall-clock time of day, to the minute.
#[derive(PartialEq, Eq, Structural, Clone, Copy, Debug)]
pub struct Clock {
    pub hour: u8,
    pub minute: u8,
}

/// A calendar date as written in the timestamp (local to its offset).
#[derive(PartialEq, Eq, Structural, Clone, Copy, Debug)]
pub struct Date {
    pub year: i32,
    pub month: u8,
    pub day: u8,
}

/// A point in time that keeps the UTC offset it was recorded with.
#[derive(PartialEq, Eq, Structural, Clone, Copy, Debug)]
pub struct Stamp {
    pub date: Date,
    pub clock: Clock,
    /// Seconds east of UTC.
    pub offset_secs: i32,
    /// Seconds since the Unix epoch of the instant.
    pub epoch_secs: i64,
    /// Nanoseconds past `epoch_secs`.
    pub nanos: u32,
}

/// The kind of an attendance punch; `Other` is any unrecognised type word.
#[derive(PartialEq, Eq, Structural, Clone, Copy, Debug)]
pub enum Kind {
    Start,
    BreakStart,
    BreakEnd,
    Finish,
    Other,
}

/// One attendance punch.
#[derive(Debug)]
pub struct Event {
    pub stamp: Stamp,
    pub kind: Kind,
    pub content: Option<String>,
}

impl Clock {
    pub open spec fn wf(self) -> bool {
        self.hour < 24 && self.minute < 60
    }

    /// Minutes since midnight.
    pub open spec fn minutes(self) -> int {
        self.hour as int * 60 + self.minute as int
    }
}

impl Date {
    pub open spec fn wf(self) -> bool {
        0 <= self.year <= 9999 && 1 <= self.month <= 12 && 1 <= self.day <= 31
    }
}

impl Stamp {
    pub open spec fn wf(self) -> bool {
        self.date.wf() && self.clock.wf()
    }

    /// `self` is a strictly earlier instant than `o`.
    pub open spec fn before(self, o: Stamp) -> bool {
        self.epoch_secs < o.epoch_secs || (self.epoch_secs == o.epoch_secs && self.nanos
            < o.nanos)
    }

    pub fn is_before(&self, o: &Stamp) -> (r: bool)
        ensures
            r == self.before(*o),
    {
        self.epoch_secs < o.epoch_secs || (self.epoch_secs == o.epoch_secs && self.nanos
            < o.nanos)
    }
}

/// What an RFC 3339 date-time text denotes, if it is one.
pub uninterp spec fn rfc3339_stamp(s: Seq<char>) -> Option<Stamp>;

/// Relies on chrono's `DateTime::parse_from_rfc3339`: the result depends on the
/// text alone; its year has four digits, its month, day, hour and minute are in range.
#[verifier::external_body]
pub(crate) fn parse_rfc3339(s: &str) -> (r: Option<Stamp>)
    ensures
        r == rfc3339_stamp(s@),
        r matches Some(t) ==> t.wf(),
{
    match chrono::DateTime::parse_from_rfc3339(s) {
        Ok(dt) => Some(Stamp {
            date: Date { year: dt.year(), month: dt.month() as u8, day: dt.day() as u8 },
            clock: Clock { hour: dt.hour() as u8, minute: dt.minute() as u8 },
            offset_secs: dt.offset().local_minus_utc(),
            epoch_secs: dt.timestamp(),
            nanos: dt.timestamp_subsec_nanos(),
        }),
        Err(_) => None,
    }
}

} // verus!
