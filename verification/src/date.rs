//! Calendar dates, held as plain year, month and day fields.
//!
//! A date is valid when the month and day fall inside the Gregorian
//! calendar, leap years included, and the year is between 0 and 9999 as the
//! storage schema expects.  Dates arrive from transport code already split
//! into fields; `Date::new` is the checked constructor.

use vstd::prelude::*;
use chrono::Datelike;

verus! {

/// A calendar date, without a time component.
#[derive(Clone, Copy, Debug, PartialEq, Eq, Structural)]
pub struct Date {
    pub year: i32,
    pub month: u8,
    pub day: u8,
}

/// Gregorian leap-year rule.
pub open spec fn is_leap_year(y: int) -> bool {
    y % 4 == 0 && (y % 100 != 0 || y % 400 == 0)
}

/// Days in a month of the given year.
pub open spec fn days_in_month(y: int, m: int) -> int {
    if m == 2 {
        if is_leap_year(y) { 29 } else { 28 }
    } else if m == 4 || m == 6 || m == 9 || m == 11 {
        30
    } else {
        31
    }
}

impl Date {
    /// The fields name a real calendar date within the schema's year range.
    pub open spec fn valid(self) -> bool {
        &&& 0 <= self.year <= 9999
        &&& 1 <= self.month <= 12
        &&& 1 <= self.day <= days_in_month(self.year as int, self.month as int)
    }

    /// Checked constructor: the fields as given, if they name a valid date.
    pub fn new(year: i32, month: u8, day: u8) -> (r: Option<Date>)
        ensures
            ({
                let d = Date { year, month, day };
                if d.valid() {
                    r == Some(d)
                } else {
                    r == None::<Date>
                }
            }),
    {
        let d = Date { year, month, day };
        if d.is_valid() {
            Some(d)
        } else {
            None
        }
    }

    /// Runtime validity check, matching `valid` exactly.
    pub fn is_valid(&self) -> (b: bool)
        ensures
            b == self.valid(),
    {
        if self.year < 0 || self.year > 9999 {
            return false;
        }
        if self.month < 1 || self.month > 12 {
            return false;
        }
        let dim: u8 = if self.month == 2 {
            let leap = self.year % 4 == 0 && (self.year % 100 != 0 || self.year % 400 == 0);
            if leap { 29 } else { 28 }
        } else if self.month == 4 || self.month == 6 || self.month == 9 || self.month == 11 {
            30
        } else {
            31
        };
        self.day >= 1 && self.day <= dim
    }
}

/// Relies on chrono's `Local::now` (via `date_naive`) for the server's
/// current calendar date.  chrono always hands back a real Gregorian date;
/// this service assumes its clock reads a year within the schema's
/// 0..=9999 range, which holds of any present-day clock.
#[verifier::external_body]
pub(crate) fn current_date() -> (d: Date)
    ensures
        d.valid(),
{
    let now = chrono::Local::now().date_naive();
    Date { year: now.year(), month: now.month() as u8, day: now.day() as u8 }
}

} // verus!
