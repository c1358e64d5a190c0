//! The wall clock and the calendar, as `chrono` gives them.

use vstd::prelude::*;
use chrono::{Datelike, Timelike};

verus! {

/// The month, counted from 0, and the day of the month of the UTC date on
/// which second `ts` of the Unix epoch falls.
pub uninterp spec fn utc_date(ts: u32) -> (u32, u32);

/// Seconds since the Unix epoch, read from `chrono::Local::now()` by
/// `DateTime::timestamp`. Nothing is claimed of the value.
#[verifier::external_body]
pub(crate) fn unix_now() -> (secs: i64) {
    chrono::Local::now().timestamp()
}

/// The month (from 0), day of month, hour and minute at second `ts` of the
/// Unix epoch in UTC, from `chrono::DateTime::from_timestamp` and the
/// accessors `month0`, `day`, `hour` and `minute`.
///
/// Claimed of `chrono`: every `u32` number of seconds is in its range; the
/// hour and minute are those of the second within its day of 86 400
/// seconds; month and day are a function of `ts` alone, which is given a
/// name and not worked out here.
#[verifier::external_body]
pub(crate) fn utc_fields(ts: u32) -> (r: Option<(u32, u32, u32, u32)>)
    ensures
        r == Some((utc_date(ts).0, utc_date(ts).1, ts % 86_400 / 3_600, ts % 3_600 / 60)),
{
    chrono::DateTime::from_timestamp(ts as i64, 0).map(
        |dt| (dt.month0(), dt.day(), dt.hour(), dt.minute()),
    )
}

} // verus!
