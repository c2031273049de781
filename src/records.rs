//! The stored records: time entries, manual flex entries and work-time overrides.
use vstd::prelude::*;
use crate::calendar::{Day, Stamp};

verus! {

/// A worked stretch of time with its break, filed under `date`.
#[derive(Clone, Copy, Debug, PartialEq, Eq, Structural)]
pub struct DateLine {
    pub start: Stamp,
    pub end: Stamp,
    pub break_time_minutes: i32,
    pub date: Day,
}

impl DateLine {
    /// Valid stamps and date, and the end strictly after the start.
    pub open spec fn wf(self) -> bool {
        &&& self.start.wf()
        &&& self.end.wf()
        &&& self.date.wf()
        &&& self.start.abs_minutes() < self.end.abs_minutes()
    }

    /// Minutes from start to end, less the break (negative when the break is longer).
    pub open spec fn worked(self) -> int {
        self.end.abs_minutes() - self.start.abs_minutes() - self.break_time_minutes
    }

    /// Minutes from start to end, less the break.
    pub fn worked_minutes(&self) -> (r: i64)
        ensures
            r == self.worked(),
    {
        self.end.minutes() - self.start.minutes() - self.break_time_minutes as i64
    }
}

/// A manual adjustment of the flex balance.
#[derive(Clone, Debug)]
pub struct FlexLine {
    pub date: Day,
    pub flex_minutes: i32,
    pub comment: String,
}

/// A window `[start, end)` of days whose expected workday is `minutes_of_work`;
/// without `end` the window is still open.
#[derive(Clone, Copy, Debug, PartialEq, Eq, Structural)]
pub struct DailyTimeOverrideLine {
    pub id: i32,
    pub start: Day,
    pub end: Option<Day>,
    pub minutes_of_work: i32,
}

impl DailyTimeOverrideLine {
    /// Whether the window holds the day numbered `d`.
    pub open spec fn covers(self, d: int) -> bool {
        &&& self.start.num() <= d
        &&& match self.end {
            None => true,
            Some(e) => d < e.num(),
        }
    }

    /// Whether the window holds `day`.
    pub fn covers_day(&self, day: Day) -> (r: bool)
        ensures
            r == self.covers(day.num()),
    {
        if day.days_from_ce < self.start.days_from_ce {
            return false;
        }
        match self.end {
            None => true,
            Some(e) => day.days_from_ce < e.days_from_ce,
        }
    }
}

} // verus!
