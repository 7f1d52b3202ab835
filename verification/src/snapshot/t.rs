//! Timestamps, the years they fall in, and where snapshots lie.

use std::time::{Duration, SystemTime, SystemTimeError};

use chrono::{format::SecondsFormat, DateTime, Datelike};
use vstd::prelude::*;

verus! {

/// The directory under a volume's root that holds its snapshots, as in
/// `/.pmbs/2025/1756392923`.
pub const DIR_PMBS: &'static str = ".pmbs";

/// The marker in that directory that points at the latest snapshot, as
/// `2025/1756392923`.
pub const SYMLINK_LATEST: &'static str = "latest";

/// The last second of the last year whose dates can be held: the end of the
/// year 262142.
pub const LAST_SECOND: u64 = 8_210_266_876_799;

/// A point in time as the system clock gives it.
#[verifier::external_type_specification]
#[verifier::external_body]
pub struct ExSystemTime(SystemTime);

/// What comes back where a point in time lies before another than it is
/// measured from.
#[verifier::external_type_specification]
#[verifier::external_body]
pub struct ExSystemTimeError(SystemTimeError);

/// `SystemTime::now` of the standard library: the clock's reading. Nothing
/// holds of every reading.
#[verifier::external_body]
fn now() -> SystemTime {
    SystemTime::now()
}

/// `SystemTime::duration_since` of the standard library, measured from the
/// epoch. It fails where the clock reads a time before the epoch.
#[verifier::external_body]
fn since_epoch(time: &SystemTime) -> Result<Duration, SystemTimeError> {
    time.duration_since(SystemTime::UNIX_EPOCH)
}

/// `Duration::as_secs` of the standard library: the whole seconds of a span
/// of time.
#[verifier::external_body]
fn whole_seconds(span: &Duration) -> u64 {
    span.as_secs()
}

/// The current time in seconds since the epoch, or `None` where the clock
/// reads a time before the epoch.
pub fn get_t() -> Option<u64> {
    let time = now();
    match since_epoch(&time) {
        Ok(span) => Some(whole_seconds(&span)),
        Err(_) => None,
    }
}

/// The days from 1 January 1970 to 1 January of the given year, 1970 or
/// later, in the Gregorian calendar: 365 for each year, and one more for each
/// leap year among them.
pub open spec fn days_before_year(year: int) -> int {
    365 * (year - 1970) + (year - 1969) / 4 - (year - 1901) / 100 + (year - 1601) / 400
}

/// The second `t` since the epoch falls in the given year, in UTC.
pub open spec fn is_year_of(t: int, year: int) -> bool {
    year >= 1970 && 86400 * days_before_year(year) <= t < 86400 * days_before_year(year + 1)
}

/// Later years begin later.
pub proof fn lemma_years_begin_in_order(a: int, b: int)
    requires
        1970 <= a <= b,
    ensures
        days_before_year(a) <= days_before_year(b),
        a < b ==> days_before_year(a + 1) <= days_before_year(b),
    decreases b - a,
{
    if a < b {
        lemma_years_begin_in_order(a + 1, b);
        assert(days_before_year(a) <= days_before_year(a + 1));
    }
}

/// A second falls in one year only.
pub proof fn lemma_year_is_unique(t: int, a: int, b: int)
    requires
        is_year_of(t, a),
        is_year_of(t, b),
    ensures
        a == b,
{
    if a < b {
        lemma_years_begin_in_order(a, b);
    }
    if b < a {
        lemma_years_begin_in_order(b, a);
    }
}

/// `DateTime::from_timestamp` of chrono, with no nanoseconds, and
/// `Datelike::year` of what it returns.
///
/// chrono counts seconds without leap seconds from 1 January 1970 UTC and
/// reads dates in the Gregorian calendar. It holds the dates up to the end of
/// the year 262142 and returns `None` for a later second. Nothing is said
/// here of seconds before the epoch.
#[verifier::external_body]
fn utc_year(secs: i64) -> (r: Option<i32>)
    ensures
        0 <= secs <= LAST_SECOND ==> r.is_some() && is_year_of(secs as int, r.unwrap() as int),
        secs > LAST_SECOND ==> r.is_none(),
{
    match DateTime::from_timestamp(secs, 0) {
        Some(d) => Some(d.year()),
        None => None,
    }
}

/// The year in which the second `t` since the epoch falls, in UTC, or `None`
/// where `t` lies behind the last date that can be held.
pub fn year_of(t: u64) -> (r: Option<i32>)
    ensures
        r.is_some() <==> t <= LAST_SECOND,
        r matches Some(y) ==> is_year_of(t as int, y as int),
{
    if t > LAST_SECOND {
        None
    } else {
        utc_year(t as i64)
    }
}

/// The year in which the second `t` since the epoch falls, in UTC.
pub fn get_year(t: u64) -> (year: i32)
    requires
        t <= LAST_SECOND,
    ensures
        is_year_of(t as int, year as int),
{
    year_of(t).unwrap()
}

/// The year 1970 begins at the epoch, and no year from then on has fewer
/// than 365 days.
pub proof fn lemma_year_is_four_digits(t: int, year: int)
    requires
        is_year_of(t, year),
    ensures
        year >= 1970,
        t >= 0,
{
    lemma_years_begin_in_order(1970, year);
}

/// The second `t` since the epoch as text: the date and the time of day in
/// UTC as RFC 3339 writes them, with whole seconds and `Z` for the zone, as
/// in `2025-08-28T14:55:23Z`.
pub uninterp spec fn rfc3339_utc(t: u64) -> Seq<char>;

/// `DateTime::from_timestamp` of chrono, with no nanoseconds, and
/// `DateTime::to_rfc3339_opts` of what it returns, with whole seconds and `Z`
/// for the zone.
///
/// chrono holds every second up to `LAST_SECOND`, and what it writes of one
/// depends on that second alone: `rfc3339_utc` is the name of that text.
#[verifier::external_body]
pub fn format_t(t: u64) -> (r: String)
    requires
        t <= LAST_SECOND,
    ensures
        r@ == rfc3339_utc(t),
{
    DateTime::from_timestamp(t as i64, 0).unwrap().to_rfc3339_opts(SecondsFormat::Secs, true)
}

} // verus!
