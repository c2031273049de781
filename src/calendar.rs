//! Calendar days as day numbers, clock stamps, and the weekend rule.
use vstd::prelude::*;
use crate::text::{clock_text, clock_to_text};

verus! {

/// Day number of 9999-12-31; day 1 is 0001-01-01 of the proleptic Gregorian calendar.
pub const LAST_DAY: i32 = 3_652_059;

/// Minutes in a day.
pub const MINUTES_PER_DAY: u32 = 1440;

/// Day number of `year-month-day`, counted from 0001-01-01 as day 1.
pub uninterp spec fn civil_day_number(year: int, month: int, day: int) -> int;

/// `YYYY-MM-DD` text of a day number.
pub uninterp spec fn iso_date_text(day_number: int) -> Seq<char>;

pub open spec fn is_leap_year(year: int) -> bool {
    (year % 4 == 0 && year % 100 != 0) || year % 400 == 0
}

pub open spec fn days_in_month(year: int, month: int) -> int {
    if month == 2 {
        if is_leap_year(year) { 29 } else { 28 }
    } else if month == 4 || month == 6 || month == 9 || month == 11 {
        30
    } else {
        31
    }
}

/// A month and day that exist in the given year, for the years 1 to 9999.
pub open spec fn is_civil_date(year: int, month: int, day: int) -> bool {
    &&& 1 <= year <= 9999
    &&& 1 <= month <= 12
    &&& 1 <= day <= days_in_month(year, month)
}

/// Relies on chrono's `NaiveDate::from_ymd_opt`, which yields a date exactly for
/// existing dates in its year range (which holds the years 1 to 9999), and on
/// `Datelike::num_days_from_ce`, which counts 0001-01-01 as day 1.
#[verifier::external_body]
fn chrono_day_number(year: i32, month: u32, day: u32) -> (r: Option<i32>)
    requires
        1 <= year <= 9999,
    ensures
        r is Some <==> is_civil_date(year as int, month as int, day as int),
        r is Some ==> r->0 == civil_day_number(year as int, month as int, day as int),
        r is Some ==> 1 <= r->0 <= LAST_DAY,
{
    chrono::NaiveDate::from_ymd_opt(year, month, day).map(|d| chrono::Datelike::num_days_from_ce(&d))
}

/// Relies on chrono's `NaiveDate::from_num_days_from_ce_opt`, which yields a date
/// for every day of the years 1 to 9999, and on its `%Y-%m-%d` format.
#[verifier::external_body]
fn chrono_iso_text(day_number: i32) -> (r: String)
    requires
        1 <= day_number <= LAST_DAY,
    ensures
        r@ == iso_date_text(day_number as int),
{
    chrono::NaiveDate::from_num_days_from_ce_opt(day_number).map(|d| d.format("%Y-%m-%d").to_string()).unwrap_or_default()
}

/// Saturday or Sunday, for a day number counted from a Monday as day 1.
pub open spec fn is_weekend_number(d: int) -> bool {
    (d - 1) % 7 >= 5
}

/// A calendar day, as its day number (0001-01-01 is day 1, a Monday).
#[derive(Clone, Copy, Debug, PartialEq, Eq, Structural)]
pub struct Day {
    pub days_from_ce: i32,
}

impl Day {
    /// A day of the years 1 to 9999.
    pub open spec fn wf(self) -> bool {
        1 <= self.days_from_ce <= LAST_DAY
    }

    pub open spec fn num(self) -> int {
        self.days_from_ce as int
    }

    /// 0 for Monday up to 6 for Sunday.
    pub open spec fn weekday(self) -> int {
        (self.days_from_ce - 1) % 7
    }

    pub open spec fn is_weekend_spec(self) -> bool {
        is_weekend_number(self.num())
    }

    /// Whether the day is a Saturday or a Sunday.
    pub fn is_weekend(&self) -> (r: bool)
        requires
            self.wf(),
        ensures
            r == self.is_weekend_spec(),
    {
        let w: i32 = (self.days_from_ce - 1) % 7;
        w >= 5
    }

    /// The day `year-month-day`, if it exists and lies in the years 1 to 9999.
    pub fn from_ymd(year: i32, month: u32, day: u32) -> (r: Option<Day>)
        ensures
            r is Some <==> is_civil_date(year as int, month as int, day as int),
            r is Some ==> r->0.wf() && r->0.num() == civil_day_number(year as int, month as int, day as int),
    {
        if year < 1 || year > 9999 {
            return None;
        }
        match chrono_day_number(year, month, day) {
            Some(n) => Some(Day { days_from_ce: n }),
            None => None,
        }
    }

    /// The day `n` days earlier, if that is still day 1 or later.
    pub fn minus_days(&self, n: u64) -> (r: Option<Day>)
        requires
            self.wf(),
        ensures
            r is Some <==> n < self.num(),
            r is Some ==> r->0.num() == self.num() - n && r->0.wf(),
    {
        if n >= self.days_from_ce as u64 {
            None
        } else {
            Some(Day { days_from_ce: self.days_from_ce - n as i32 })
        }
    }

    /// The next day, if it is still in the year 9999.
    pub fn succ(&self) -> (r: Option<Day>)
        requires
            self.wf(),
        ensures
            r is Some <==> self.num() < LAST_DAY,
            r is Some ==> r->0.num() == self.num() + 1 && r->0.wf(),
    {
        if self.days_from_ce >= LAST_DAY {
            None
        } else {
            Some(Day { days_from_ce: self.days_from_ce + 1 })
        }
    }

    /// `YYYY-MM-DD`.
    pub fn to_text(&self) -> (r: String)
        requires
            self.wf(),
        ensures
            r@ == iso_date_text(self.num()),
    {
        chrono_iso_text(self.days_from_ce)
    }
}

/// A local wall-clock instant: a day and a minute of that day.
#[derive(Clone, Copy, Debug, PartialEq, Eq, Structural)]
pub struct Stamp {
    pub day: Day,
    pub minute_of_day: u32,
}

impl Stamp {
    pub open spec fn wf(self) -> bool {
        self.day.wf() && self.minute_of_day < MINUTES_PER_DAY
    }

    /// Minutes since the start of day 0.
    pub open spec fn abs_minutes(self) -> int {
        self.day.num() * 1440 + self.minute_of_day
    }

    /// The stamp at `hour:minute` of `day`, if that is a time of the day.
    pub fn at(day: Day, hour: u32, minute: u32) -> (r: Option<Stamp>)
        requires
            day.wf(),
        ensures
            r is Some <==> hour < 24 && minute < 60,
            r is Some ==> r->0.wf() && r->0.day == day && r->0.minute_of_day == hour * 60 + minute,
    {
        if hour < 24 && minute < 60 {
            Some(Stamp { day, minute_of_day: hour * 60 + minute })
        } else {
            None
        }
    }

    /// Minutes since the start of day 0.
    pub fn minutes(&self) -> (r: i64)
        ensures
            r == self.abs_minutes(),
    {
        self.day.days_from_ce as i64 * 1440 + self.minute_of_day as i64
    }

    /// `HH:MM`.
    pub fn clock(&self) -> (r: String)
        requires
            self.wf(),
        ensures
            r@ == clock_text(self.minute_of_day as int),
    {
        clock_to_text(self.minute_of_day)
    }
}

} // verus!
