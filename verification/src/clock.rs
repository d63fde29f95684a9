//! Reading the clock and the calendar, and whether a window may be booked.

use vstd::prelude::*;
use crate::interval::Interval;

verus! {

/// The number of days from 1970-01-01 to the given day of the proleptic Gregorian calendar
/// (negative before it), for months 1 to 12.
pub open spec fn days_from_civil(year: int, month: int, day: int) -> int {
    let y = if month <= 2 { year - 1 } else { year };
    let era = y / 400;
    let year_of_era = y - era * 400;
    let shifted_month = if month > 2 { month - 3 } else { month + 9 };
    let day_of_year = (153 * shifted_month + 2) / 5 + day - 1;
    let day_of_era = year_of_era * 365 + year_of_era / 4 - year_of_era / 100 + day_of_year;
    era * 146097 + day_of_era - 719468
}

/// Calls `chrono::NaiveDate::from_ymd_opt`, then `NaiveDate::and_hms_opt(0, 0, 0)` and
/// `NaiveDateTime::and_utc().timestamp()`: the timestamp of midnight at the start of the day.
/// Claimed, as chrono documents: an invalid month gives `None`; every month from 1 to 12 and
/// day from 1 to 28 of a year that chrono can represent (-262143 to 262142) gives `Some` of
/// the day's seconds since 1970-01-01 in the proleptic Gregorian calendar, without leap
/// seconds. Days 29 to 31 are left unsaid.
#[verifier::external_body]
fn midnight_timestamp(year: i32, month: u32, day: u32) -> (r: Option<i64>)
    ensures
        !(1 <= month <= 12) ==> r is None,
        1 <= month <= 12 && 1 <= day <= 28 && -262143 <= year <= 262142 ==> r == Some(
            (days_from_civil(year as int, month as int, day as int) * 86400) as i64,
        ),
{
    match chrono::NaiveDate::from_ymd_opt(year, month, day) {
        Some(date) => match date.and_hms_opt(0, 0, 0) {
            Some(time) => Some(time.and_utc().timestamp()),
            None => None,
        },
        None => None,
    }
}

/// Calls `chrono::Utc::now()` and takes its `timestamp()`: the current time in whole seconds
/// since 1970-01-01 00:00:00. Claimed: nothing of its value but that it is not negative, since
/// chrono panics on a system clock set before 1970 (a fault of the machine that no
/// precondition here can rule out).
#[verifier::external_body]
pub(crate) fn current_time() -> (r: i64)
    ensures
        r >= 0,
{
    chrono::Utc::now().timestamp()
}

/// The current time in whole seconds since 1970-01-01 00:00:00.
pub fn now() -> (r: i64)
    ensures
        r >= 0,
{
    current_time()
}

/// Midnight at the start of the year 10000: no booked window may end after it.
pub open spec fn booking_horizon() -> i64 {
    (days_from_civil(10000, 1, 1) * 86400) as i64
}

/// The horizon is 253402300800 seconds after 1970-01-01.
pub proof fn lemma_booking_horizon_value()
    ensures
        booking_horizon() == 253402300800,
{
    assert(days_from_civil(10000, 1, 1) == 2932897);
}

/// A window may be booked at time `now` when it starts no earlier than `now` and ends no
/// later than the horizon.
pub open spec fn is_valid_at_spec(interval: Interval, now: i64) -> bool {
    interval.start_time >= now && interval.end_time <= booking_horizon()
}

/// Whether `interval` may be booked at time `now`.
pub fn is_valid_at(interval: &Interval, now: i64) -> (r: bool)
    ensures
        r == is_valid_at_spec(*interval, now),
{
    let horizon = midnight_timestamp(10000, 1, 1).unwrap();
    interval.start_time >= now && interval.end_time <= horizon
}

/// Whether `interval` may be booked now.
pub fn is_valid(interval: &Interval) -> (r: bool)
    ensures
        exists|now: i64| now >= 0 && r == is_valid_at_spec(*interval, now),
{
    let now = current_time();
    is_valid_at(interval, now)
}

} // verus!
