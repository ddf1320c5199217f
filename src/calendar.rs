//! Calendar dates of day numbers, as chrono computes them.
use vstd::prelude::*;
use chrono::{Datelike, NaiveDate};
use crate::query::{FIRST_DAY, LAST_DAY};

verus! {

/// A date of the proleptic Gregorian calendar.
#[derive(Clone, Copy, Debug, PartialEq, Eq, Structural)]
pub struct CivilDate {
    pub year: i32,
    pub month: u32,
    pub day: u32,
}

/// A date between 0001-01-01 and 9999-12-31 whose fields are in range.
pub open spec fn valid_civil(d: CivilDate) -> bool {
    1 <= d.year <= 9999 && 1 <= d.month <= 12 && 1 <= d.day <= 31
}

/// Year, month and day of the day numbered `day`, counting 0001-01-01 as day 1.
pub uninterp spec fn civil_of(day: int) -> (int, int, int);

/// Relies on chrono's `NaiveDate::from_num_days_from_ce_opt`, which numbers
/// days of the proleptic Gregorian calendar from 0001-01-01 as day 1, one
/// date per number, and has a date for every number up to that of
/// 9999-12-31; and on the `year`, `month` and `day` accessors of the date it
/// returns.
#[verifier::external_body]
pub(crate) fn civil_date(day: i32) -> (r: CivilDate)
    requires
        FIRST_DAY <= day <= LAST_DAY,
    ensures
        (r.year as int, r.month as int, r.day as int) == civil_of(day as int),
        valid_civil(r),
        forall|other: int| FIRST_DAY <= other <= LAST_DAY && other != day ==> #[trigger] civil_of(other) != (r.year as int, r.month as int, r.day as int),
{
    let d = NaiveDate::from_num_days_from_ce_opt(day).expect("day within the supported calendar");
    CivilDate { year: d.year(), month: d.month(), day: d.day() }
}

} // verus!
