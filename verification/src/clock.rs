//! The local clock, reached through the `time` crate.
//!
//! Nothing here can be proved: what the clock answers depends on the
//! machine.  Each wrapper states only what holds of every outcome, and
//! the rest of the library takes the resulting `Date` values as plain
//! arguments.

use vstd::prelude::*;

use crate::date::{day_number, Date};

verus! {

#[verifier::external_type_specification]
#[verifier::external_body]
pub struct ExOffsetDateTime(time::OffsetDateTime);

/// Relies on `time::OffsetDateTime::now_local`: the current moment in the
/// local offset, `None` when that offset cannot be determined.
#[verifier::external_body]
fn now_local() -> Option<time::OffsetDateTime> {
    time::OffsetDateTime::now_local().ok()
}

/// Relies on `time::Date::checked_add` (with `time::Duration::days`,
/// which stays far from overflow for the day counts admitted here): it
/// shifts a calendar date by exactly `days` whole days, through the same
/// Julian-day count that `day_number` states, or answers `None` when the
/// result leaves the calendar's range.  `time::Date::from_calendar_date`
/// and the year/month/day accessors only convert between the crate's
/// date and its plain parts.
#[verifier::external_body]
fn shift_date(d: &Date, days: i64) -> (r: Option<Date>)
    requires
        d.wf(),
        d.year >= 0,
        -10000 <= days <= 10000,
    ensures
        r matches Some(e) ==> e.wf() && day_number(e) == day_number(*d) + days,
{
    let month = match time::Month::try_from(d.month) {
        Ok(month) => month,
        Err(_) => return None,
    };
    let date = match time::Date::from_calendar_date(d.year, month, d.day) {
        Ok(date) => date,
        Err(_) => return None,
    };
    let shifted = date.checked_add(time::Duration::days(days))?;
    Some(Date { year: shifted.year(), month: shifted.month() as u8, day: shifted.day() })
}

/// Relies on `time::OffsetDateTime::year`: without the crate's
/// `large-dates` feature, years stay within ±9999.
#[verifier::external_body]
fn year_of(t: &time::OffsetDateTime) -> (r: i32)
    ensures
        -9999 <= r <= 9999,
{
    t.year()
}

/// Relies on `time::OffsetDateTime::month`: the month as a number is
/// within 1..=12.
#[verifier::external_body]
fn month_of(t: &time::OffsetDateTime) -> (r: u8)
    ensures
        1 <= r <= 12,
{
    t.month() as u8
}

/// Relies on `time::OffsetDateTime::day`: the day of the month is within
/// 1..=31.
#[verifier::external_body]
fn day_of(t: &time::OffsetDateTime) -> (r: u8)
    ensures
        1 <= r <= 31,
{
    t.day()
}

/// The calendar date of a moment, as plain values.
fn date_of(t: &time::OffsetDateTime) -> (d: Date)
    ensures
        d.wf(),
{
    Date { year: year_of(t), month: month_of(t), day: day_of(t) }
}

/// Today's date in local time, or `None` when the local offset cannot be
/// determined.
pub fn today() -> (r: Option<Date>)
    ensures
        r matches Some(d) ==> d.wf(),
{
    match now_local() {
        None => None,
        Some(t) => Some(date_of(&t)),
    }
}

/// The chart's date window, hung off today's local date `t`: it starts
/// exactly 28 days before `t` and ends exactly one day after it.  `None`
/// when the clock is unavailable or the window leaves the calendar's
/// range.
pub fn chart_window() -> (r: Option<(Date, Date)>)
    ensures
        r matches Some(w) ==> exists|t: Date|
            {
                &&& #[trigger] t.wf()
                &&& w.0.wf()
                &&& w.1.wf()
                &&& day_number(w.0) == day_number(t) - 28
                &&& day_number(w.1) == day_number(t) + 1
            },
{
    let t = match today() {
        None => {
            return None;
        },
        Some(t) => t,
    };
    if t.year < 0 {
        return None;
    }
    let start = match shift_date(&t, -28) {
        None => {
            return None;
        },
        Some(start) => start,
    };
    let end = match shift_date(&t, 1) {
        None => {
            return None;
        },
        Some(end) => end,
    };
    proof {
        let t0 = t;
        assert(t0.wf() && start.wf() && end.wf() && day_number(start) == day_number(t0) - 28
            && day_number(end) == day_number(t0) + 1);
    }
    Some((start, end))
}

} // verus!
