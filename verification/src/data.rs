//! The stand-alone date/time record of one notice line.

use vstd::prelude::*;
use vstd::string::*;
use crate::client::KPLCError;
use crate::dates::{spec_parse_date, parse_date_core, SpecDateParts};

verus! {

/// A clock-time window, kept as display strings.
pub struct Interval {
    pub from: String,
    pub to: String,
}

/// One outage date: the weekday name, day of month, month, year, and the
/// time window of the outage.
pub struct Date {
    /// The weekday name.
    pub day: String,
    /// The day of the month, 1 to 31.
    pub day_date: usize,
    /// The month, 1 to 12.
    pub month_date: usize,
    /// The year.
    pub year: usize,
    /// The time window.
    pub interval: Interval,
}

/// Reads a date/time line such as
/// `DATE: Sunday 19.06.2022   TIME: 9.00 A.M. - 5.00 P.M.`
/// into a `Date`, or reports a `DateTimeFormatViolation` carrying the line
/// when it does not follow the date-line grammar.
pub fn parse_date(date_line: &str) -> (r: Result<Date, KPLCError>)
    ensures
        match r {
            Ok(d) => spec_parse_date(date_line@) == Some(
                SpecDateParts {
                    weekday: d.day@,
                    day: d.day_date as u32,
                    month: d.month_date as u32,
                    year: d.year as u32,
                    from: d.interval.from@,
                    to: d.interval.to@,
                },
            ) && 1 <= d.day_date <= 31 && 1 <= d.month_date <= 12 && d.year <= u32::MAX,
            Err(e) => spec_parse_date(date_line@) is None && e@ == crate::client::ErrV::DateTimeFormat(
                date_line@,
            ),
        },
{
    match parse_date_core(date_line) {
        Some(p) => {
            let d = Date {
                day: p.weekday,
                day_date: p.day as usize,
                month_date: p.month as usize,
                year: p.year as usize,
                interval: Interval { from: p.from, to: p.to },
            };
            Ok(d)
        },
        None => Err(KPLCError::DateTimeFormatViolation(String::from_str(date_line))),
    }
}

} // verus!
