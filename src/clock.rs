//! Calendar and time-zone computations, done by chrono and chrono-tz.
//!
//! The library counts instants in seconds since 1970-01-01 00:00 UTC, and
//! wall-clock readings of a zone in seconds since 1970-01-01 00:00 on that
//! wall clock; days are numbered from 1970-01-01, which is day 0.

use vstd::prelude::*;
use chrono::{Datelike, Offset, TimeZone, Timelike};

verus! {

/// The hour and minute read from `s` in the form `HH:MM`.
pub uninterp spec fn clock_time_of(s: Seq<char>) -> Option<(u32, u32)>;

/// The number of the day read from `s` in the form `YYYY-MM-DD`.
pub uninterp spec fn epoch_day_of(s: Seq<char>) -> Option<i32>;

/// The instant at which the wall clock of the zone named `zone` reads `local`.
pub uninterp spec fn utc_of_local(zone: Seq<char>, local: int) -> Option<i64>;

/// How many seconds the clock of the zone named `zone` is ahead of UTC at
/// `instant`.
pub uninterp spec fn utc_offset_at(zone: Seq<char>, instant: int) -> Option<i32>;

/// What the wall clock of the zone named `zone` reads at `instant`.
pub open spec fn local_of_utc(zone: Seq<char>, instant: int) -> Option<int> {
    match utc_offset_at(zone, instant) {
        Some(o) => Some(instant + o),
        None => None,
    }
}

/// The year and month of day number `day`.
pub uninterp spec fn year_month_of(day: int) -> Option<(i32, u32)>;

/// Relies on chrono's `NaiveTime::parse_from_str` with the format `%H:%M`,
/// and on `Timelike::{hour, minute}`, which stay below 24 and 60.
#[verifier::external_body]
pub(crate) fn parse_clock_time(s: &str) -> (r: Option<(u32, u32)>)
    ensures
        r == clock_time_of(s@),
        r matches Some((h, m)) ==> h < 24 && m < 60,
{
    match chrono::NaiveTime::parse_from_str(s, "%H:%M") {
        Ok(t) => Some((t.hour(), t.minute())),
        Err(_) => None,
    }
}

/// Relies on chrono's `NaiveDate::parse_from_str` with the format
/// `%Y-%m-%d`, and on `NaiveDate::to_epoch_days` for the day number.
#[verifier::external_body]
pub(crate) fn parse_calendar_date(s: &str) -> (r: Option<i32>)
    ensures
        r == epoch_day_of(s@),
{
    match chrono::NaiveDate::parse_from_str(s, "%Y-%m-%d") {
        Ok(d) => Some(d.to_epoch_days()),
        Err(_) => None,
    }
}

/// Relies on chrono-tz's zone database (`Tz` from its IANA name) and on
/// chrono's `TimeZone::from_local_datetime(..).single()`: `None` for an
/// unknown zone, and for a reading that the zone's clock skips or shows twice.
#[verifier::external_body]
pub(crate) fn zone_local_to_utc(zone: &str, local: i64) -> (r: Option<i64>)
    ensures
        r == utc_of_local(zone@, local as int),
{
    let tz: chrono_tz::Tz = match zone.parse() {
        Ok(tz) => tz,
        Err(_) => return None,
    };
    let naive = match chrono::DateTime::from_timestamp(local, 0) {
        Some(t) => t.naive_utc(),
        None => return None,
    };
    match tz.from_local_datetime(&naive).single() {
        Some(t) => Some(t.timestamp()),
        None => None,
    }
}

/// Relies on chrono-tz's zone database (`Tz` from its IANA name) and on
/// chrono's `DateTime::with_timezone`, `Offset::fix` and
/// `FixedOffset::local_minus_utc`; a `FixedOffset` stays strictly within a
/// day of UTC.
#[verifier::external_body]
pub(crate) fn zone_offset_at(zone: &str, instant: i64) -> (r: Option<i32>)
    ensures
        r == utc_offset_at(zone@, instant as int),
        r matches Some(o) ==> -86400 < o < 86400,
{
    let tz: chrono_tz::Tz = match zone.parse() {
        Ok(tz) => tz,
        Err(_) => return None,
    };
    match chrono::DateTime::from_timestamp(instant, 0) {
        Some(t) => Some(t.with_timezone(&tz).offset().fix().local_minus_utc()),
        None => None,
    }
}

/// Relies on chrono's `NaiveDate::from_epoch_days` and `Datelike::{year,
/// month}`; months are numbered 1 to 12.
#[verifier::external_body]
pub(crate) fn calendar_month_of_day(day: i32) -> (r: Option<(i32, u32)>)
    ensures
        r == year_month_of(day as int),
        r matches Some((y, m)) ==> 1 <= m <= 12,
{
    match chrono::NaiveDate::from_epoch_days(day) {
        Some(d) => Some((d.year(), d.month())),
        None => None,
    }
}

} // verus!
