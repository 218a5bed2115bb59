//! The one place where the library reads the wall clock.

use vstd::prelude::*;
use chrono::Datelike;
use chrono::TimeZone;
use crate::calendar::{end_of_day_ts, valid_ymd};

verus! {

/// Relies on `chrono::Local::now` and `chrono::DateTime::timestamp`: the
/// current wall-clock time as Unix epoch seconds. Nothing can be promised
/// of a clock reading, so callers state what holds of every outcome.
#[verifier::external_body]
pub fn now_epoch_seconds() -> i64 {
    chrono::Local::now().timestamp()
}

/// Relies on `chrono::Local::now` and `chrono::Datelike::{year, month, day}`:
/// today's date in the local time zone. The `Datelike` documentation fixes
/// the ranges: month 1 to 12, day 1 to 31.
#[verifier::external_body]
pub fn today_local() -> (r: (i32, u32, u32))
    ensures
        1 <= r.1 <= 12,
        1 <= r.2 <= 31,
{
    let now = chrono::Local::now();
    (now.year(), now.month(), now.day())
}

/// Relies on `chrono::TimeZone::with_ymd_and_hms` on `Local` and `Utc`:
/// the timestamp of 23:59:59 local time on the given day. The result
/// depends on the machine's time zone, so only this holds of every
/// outcome: a zone offset never reaches 25 hours (POSIX caps offsets at
/// 24:59:59), so the result stays within 90000 seconds of the UTC end of
/// that day. When the local zone skips that second (a zone transition),
/// the earliest reading or the UTC one stands in.
#[verifier::external_body]
pub fn local_end_of_day(year: i32, month: u32, day: u32) -> (ts: i64)
    requires
        valid_ymd(year as int, month as int, day as int),
    ensures
        end_of_day_ts(year as int, month as int, day as int) - 90000 <= ts <= end_of_day_ts(
            year as int,
            month as int,
            day as int,
        ) + 90000,
{
    match chrono::Local.with_ymd_and_hms(year, month, day, 23, 59, 59) {
        chrono::LocalResult::Single(dt) => dt.timestamp(),
        chrono::LocalResult::Ambiguous(dt, _) => dt.timestamp(),
        chrono::LocalResult::None => {
            chrono::Utc.with_ymd_and_hms(year, month, day, 23, 59, 59).unwrap().timestamp()
        },
    }
}

} // verus!
