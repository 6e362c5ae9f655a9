//! Free-time windows and the effect of blocking a range out of them.

use vstd::prelude::*;

verus! {

/// A half-open range of instants (seconds since the epoch): `start` and
/// every moment up to but not including `end`.
#[derive(Debug, Clone, Copy, PartialEq, Eq, Structural)]
pub struct DateTimeRange {
    pub start: i64,
    pub end: i64,
}

/// What is left of a free window after a range is blocked out of it:
/// nothing, or still one single range.
#[derive(Debug, Clone, Copy, PartialEq, Eq, Structural)]
pub enum FreeTime {
    Blocked,
    Single(DateTimeRange),
}

impl DateTimeRange {
    /// Whether this range spans `other` entirely.
    pub open spec fn overlaps_spec(self, other: DateTimeRange) -> bool {
        self.start <= other.start && self.end >= other.end
    }

    /// What blocking `other` leaves of this range: nothing when it spans
    /// `other`, and the range untouched otherwise.
    pub open spec fn block_spec(self, other: DateTimeRange) -> FreeTime {
        if !self.overlaps_spec(other) {
            FreeTime::Single(self)
        } else {
            FreeTime::Blocked
        }
    }

    fn new(start: i64, end: i64) -> (r: Self)
        ensures
            r == (DateTimeRange { start, end }),
    {
        Self { start, end }
    }

    fn block(&self, other: &Self) -> (r: FreeTime)
        ensures
            r == self.block_spec(*other),
    {
        if !self.overlaps(other) {
            FreeTime::Single(*self)
        } else {
            FreeTime::Blocked
        }
    }

    fn overlaps(&self, other: &Self) -> (r: bool)
        ensures
            r == self.overlaps_spec(*other),
    {
        self.start <= other.start && self.end >= other.end
    }
}

impl FreeTime {
    /// What blocking `range` leaves of this window.
    pub open spec fn block_spec(self, range: DateTimeRange) -> FreeTime {
        match self {
            FreeTime::Blocked => FreeTime::Blocked,
            FreeTime::Single(single) => single.block_spec(range),
        }
    }

    /// A still-free window covering `[start, end)`.
    pub fn new(start: i64, end: i64) -> (r: Self)
        ensures
            r == FreeTime::Single(DateTimeRange { start, end }),
    {
        Self::Single(DateTimeRange::new(start, end))
    }

    /// Blocks `range` out of this window: blocked stays blocked, and a
    /// single range is blocked exactly when it spans `range`.
    pub fn block(&self, range: &DateTimeRange) -> (r: Self)
        ensures
            r == self.block_spec(*range),
    {
        match self {
            Self::Blocked => Self::Blocked,
            Self::Single(single) => single.block(range),
        }
    }
}

} // verus!
