//! Reporting days: calendar days of the fixed UTC+3 civil calendar, numbered
//! as chrono numbers them (1 January of year 1 is day 1).

use chrono::{Datelike, NaiveDate};
use vstd::prelude::*;

verus! {

/// The first day that this library handles: 1 January of year 1.
pub const FIRST_DAY: i32 = 1;

/// The last day that this library handles: 31 December 9999.
pub const LAST_DAY: i32 = 3_652_059;

/// The text that chrono's `%Y-%m-%d` format gives for day `day`.
pub uninterp spec fn iso_date_of(day: int) -> Seq<char>;

/// The day of the month of day `day`, as chrono gives it.
pub uninterp spec fn month_day_of(day: int) -> int;

/// Relies on chrono's `NaiveDate::from_num_days_from_ce_opt`, which accepts every day
/// of years 1 to 9999, and on `format("%Y-%m-%d")`: the text depends on the day alone.
#[verifier::external_body]
fn iso_label(day: i32) -> (r: String)
    requires
        FIRST_DAY <= day <= LAST_DAY,
    ensures
        r@ == iso_date_of(day as int),
{
    NaiveDate::from_num_days_from_ce_opt(day).unwrap().format("%Y-%m-%d").to_string()
}

/// Relies on chrono's `NaiveDate::from_num_days_from_ce_opt` and `Datelike::day`, which
/// is documented to range from 1 to 31.
#[verifier::external_body]
fn month_day(day: i32) -> (r: u32)
    requires
        FIRST_DAY <= day <= LAST_DAY,
    ensures
        r as int == month_day_of(day as int),
        1 <= r <= 31,
{
    NaiveDate::from_num_days_from_ce_opt(day).unwrap().day()
}

/// A day of the reporting calendar.
#[derive(Clone, Copy, Debug, PartialEq, Eq, Structural)]
pub struct ReportingDay {
    pub days_from_ce: i32,
}

impl ReportingDay {
    pub open spec fn wf(self) -> bool {
        FIRST_DAY <= self.days_from_ce <= LAST_DAY
    }

    /// The day numbered `days_from_ce`, if the library handles it.
    pub fn from_days(days_from_ce: i32) -> (r: Option<ReportingDay>)
        ensures
            r matches Some(d) ==> d.wf() && d.days_from_ce == days_from_ce,
            r is None <==> !(FIRST_DAY <= days_from_ce <= LAST_DAY),
    {
        if FIRST_DAY <= days_from_ce && days_from_ce <= LAST_DAY {
            Some(ReportingDay { days_from_ce })
        } else {
            None
        }
    }

    /// The day `days` days before this one, if the library handles it.
    pub fn days_before(self, days: i64) -> (r: Option<ReportingDay>)
        requires
            self.wf(),
        ensures
            r matches Some(d) ==> d.wf() && d.days_from_ce == self.days_from_ce - days,
            r is None <==> !(FIRST_DAY <= self.days_from_ce - days <= LAST_DAY),
    {
        if days > self.days_from_ce as i64 - FIRST_DAY as i64
            || days < self.days_from_ce as i64 - LAST_DAY as i64 {
            None
        } else {
            Some(ReportingDay { days_from_ce: (self.days_from_ce as i64 - days) as i32 })
        }
    }

    /// The `YYYY-MM-DD` label of this day.
    pub fn label(self) -> (r: String)
        requires
            self.wf(),
        ensures
            r@ == iso_date_of(self.days_from_ce as int),
    {
        iso_label(self.days_from_ce)
    }

    /// The day of the month, from 1 to 31.
    pub fn day_of_month(self) -> (r: u32)
        requires
            self.wf(),
        ensures
            r as int == month_day_of(self.days_from_ce as int),
            1 <= r <= 31,
    {
        month_day(self.days_from_ce)
    }
}

/// The label of `today` and its day of the month.
pub fn moscow_time(today: ReportingDay) -> (r: (String, i64))
    requires
        today.wf(),
    ensures
        r.0@ == iso_date_of(today.days_from_ce as int),
        r.1 == month_day_of(today.days_from_ce as int),
{
    (today.label(), today.day_of_month() as i64)
}

/// The label of the day `days` days before `today`, if the library handles that day.
pub fn moscow_last_(today: ReportingDay, days: i64) -> (r: Option<String>)
    requires
        today.wf(),
    ensures
        r matches Some(s) ==> s@ == iso_date_of(today.days_from_ce - days),
        r is None <==> !(FIRST_DAY <= today.days_from_ce - days <= LAST_DAY),
{
    match today.days_before(days) {
        Some(d) => Some(d.label()),
        None => None,
    }
}

/// The span of days that a shift listing covers.
#[derive(Clone, Copy, Debug, PartialEq, Eq, Structural)]
pub enum Dates {
    /// The last seven days, today included.
    Week,
    /// From the first of the current month to today.
    ThisMonth,
    /// From a given number of days back to today.
    Custom,
}

/// How many days before today the span of `dates` starts, given the number of
/// days back of a custom span and today's day of the month.
pub open spec fn days_back(dates: Dates, offset: int, month_day: int) -> int {
    match dates {
        Dates::Week => 6,
        Dates::ThisMonth => month_day - 1,
        Dates::Custom => offset,
    }
}

/// The first and last day of the span of `dates` that ends `today`, `offset` days
/// long for a custom span, if the library handles its first day.
pub fn date_bounds(dates: Dates, offset: i64, today: ReportingDay) -> (r: Option<(ReportingDay, ReportingDay)>)
    requires
        today.wf(),
    ensures
        1 <= month_day_of(today.days_from_ce as int) <= 31,
        r matches Some(b) ==> b.0.wf() && b.1 == today && b.0.days_from_ce == today.days_from_ce
            - days_back(dates, offset as int, month_day_of(today.days_from_ce as int)),
        r is None <==> !(FIRST_DAY <= today.days_from_ce - days_back(
            dates,
            offset as int,
            month_day_of(today.days_from_ce as int),
        ) <= LAST_DAY),
{
    let month_day = today.day_of_month();
    let back: i64 = match dates {
        Dates::Week => 6,
        Dates::ThisMonth => month_day as i64 - 1,
        Dates::Custom => offset,
    };
    match today.days_before(back) {
        Some(from) => Some((from, today)),
        None => None,
    }
}

} // verus!
