//! The calendar model: a point in time is a day index together with a time
//! of day in seconds. Day 1 is a Monday, so `(date + 6) % 7` is the index of
//! the weekday counted from Monday.

use vstd::prelude::*;

use crate::timeblock::SECONDS_PER_DAY;

verus! {

/// The largest day index the engine works with; far enough out to cover any
/// real calendar date while keeping day arithmetic free of overflow.
pub const MAX_DAY: u64 = 0x4000_0000;

/// A point in time: a day index and a time of day in seconds since midnight.
#[derive(Clone, Copy, Debug, PartialEq, Eq, Structural)]
pub struct DateTime {
    pub date: u64,
    pub time: u32,
}

/// The weekday index of a day, counted from Monday as 0 through Sunday as 6.
pub open spec fn spec_weekday(date: u64) -> int {
    (date + 6) % 7
}

impl DateTime {
    /// A representable point in time: the time of day lies within the day
    /// and the day index is in range.
    pub open spec fn valid(self) -> bool {
        self.time < SECONDS_PER_DAY && self.date <= MAX_DAY
    }

    /// Chronological order, non-strict.
    pub open spec fn spec_le(self, other: DateTime) -> bool {
        self.date < other.date || (self.date == other.date && self.time <= other.time)
    }

    /// Chronological order, strict.
    pub open spec fn spec_lt(self, other: DateTime) -> bool {
        self.date < other.date || (self.date == other.date && self.time < other.time)
    }

    /// Whether `self` is at or before `other`.
    pub fn le(&self, other: &DateTime) -> (r: bool)
        ensures
            r == self.spec_le(*other),
    {
        self.date < other.date || (self.date == other.date && self.time <= other.time)
    }

    /// The later of the two points.
    pub fn later(self, other: DateTime) -> (r: DateTime)
        ensures
            r == if self.spec_le(other) {
                other
            } else {
                self
            },
            self.spec_le(r) && other.spec_le(r),
    {
        if self.le(&other) {
            other
        } else {
            self
        }
    }
}

/// The weekday index of a day, counted from Monday.
pub fn weekday_of(date: u64) -> (r: usize)
    requires
        date <= MAX_DAY,
    ensures
        r == spec_weekday(date),
        r < 7,
{
    ((date + 6) % 7) as usize
}

/// The current local date and time. Relies on chrono::Local::now for the
/// instant, on chrono::Datelike::num_days_from_ce for the day index (day 1
/// of the common era, a Monday, maps to day index 1; chrono's largest date
/// stays far below [`MAX_DAY`], and a clock before the common era saturates
/// to day 0), and on chrono::Timelike::num_seconds_from_midnight for the
/// time of day, which chrono keeps below 86400.
#[verifier::external_body]
pub fn now_datetime() -> (r: DateTime)
    ensures
        r.valid(),
{
    let now = chrono::Local::now().naive_local();
    DateTime {
        date: chrono::Datelike::num_days_from_ce(&now.date()).max(0) as u64,
        time: chrono::Timelike::num_seconds_from_midnight(&now.time()),
    }
}

} // verus!
