//! A time block: one contiguous span of availability within a single day.
//!
//! Times of day are measured in whole seconds since midnight; a full day is
//! `86400` seconds, and a block is a half-open interval `[start, end)` with
//! `start < end <= 86400`.

use vstd::prelude::*;

verus! {

/// Seconds in one day; also the exclusive upper bound of a block's span.
pub const SECONDS_PER_DAY: u32 = 86400;

/// A half-open interval `[start, end)` of time-of-day, in seconds since
/// midnight.
#[derive(Clone, Copy, Debug, PartialEq, Eq, Structural)]
pub struct TimeBlock {
    pub start: u32,
    pub end: u32,
}

impl TimeBlock {
    /// A block is well formed when it is non-empty and lies within one day.
    pub open spec fn wf(self) -> bool {
        self.start < self.end && self.end <= SECONDS_PER_DAY
    }

    /// Two blocks overlap when either one's start lies within the other's
    /// span.
    pub open spec fn spec_overlaps(self, other: TimeBlock) -> bool {
        (self.start >= other.start && self.start < other.end)
        || (other.start >= self.start && other.start < self.end)
    }

    /// The length of the intersection of `[t0, t1)` with this block's span.
    pub open spec fn spec_time_between(self, t0: int, t1: int) -> int {
        let lo = if t0 > self.start { t0 } else { self.start as int };
        let hi = if t1 < self.end { t1 } else { self.end as int };
        if lo >= hi {
            0
        } else {
            hi - lo
        }
    }

    /// Builds the block `[start, end)`.
    pub fn from_start_end(start: u32, end: u32) -> (r: TimeBlock)
        requires
            start < end,
            end <= SECONDS_PER_DAY,
        ensures
            r == (TimeBlock { start, end }),
            r.wf(),
    {
        TimeBlock { start, end }
    }

    /// The length of the block, in seconds.
    pub fn duration(&self) -> (r: u32)
        requires
            self.wf(),
        ensures
            r == self.end - self.start,
    {
        self.end - self.start
    }

    /// How much of `[t0, t1)` falls inside this block, in seconds.
    pub fn time_between(&self, t0: u32, t1: u32) -> (r: u32)
        requires
            self.wf(),
        ensures
            r == self.spec_time_between(t0 as int, t1 as int),
    {
        let lo = if t0 > self.start { t0 } else { self.start };
        let hi = if t1 < self.end { t1 } else { self.end };
        if lo >= hi {
            0
        } else {
            hi - lo
        }
    }

    /// Whether this block overlaps `other`.
    pub fn overlaps(&self, other: &TimeBlock) -> (r: bool)
        ensures
            r == self.spec_overlaps(*other),
    {
        (self.start >= other.start && self.start < other.end)
        || (other.start >= self.start && other.start < self.end)
    }
}

} // verus!
