//! Reading `HH:MM-HH:MM` ranges on a calendar day in a time zone.

use vstd::prelude::*;
use crate::error::ScheduleError;
use crate::rounding::rounded_minutes;
use crate::text::{split_last, cut_at, last_pos};
use crate::clock::{
    clock_time_of, epoch_day_of, utc_of_local, local_of_utc, parse_clock_time,
    parse_calendar_date, zone_local_to_utc, zone_offset_at,
};

verus! {

pub const SECONDS_PER_DAY: i64 = 86400;

pub open spec fn fits_i64(x: int) -> bool {
    i64::MIN <= x <= i64::MAX
}

/// Wall-clock readings of a range on day `day`: the start minute rounded
/// down, the end minute rounded up, and an end before the start taken to be
/// on the next day.
pub open spec fn local_span_model(day: int, start: int, end: int, interval: int) -> (int, int) {
    let end_day = if end < start {
        day + 1
    } else {
        day
    };
    (
        day * 86400 + rounded_minutes(start, interval, false) * 60,
        end_day * 86400 + rounded_minutes(end, interval, true) * 60,
    )
}

pub open spec fn hm_minutes(t: (u32, u32)) -> int {
    t.0 * 60 + t.1
}

/// `local_span_model` where both readings fit an `i64`.
pub open spec fn local_span_fit(day: int, start: (u32, u32), end: (u32, u32), interval: int) -> Option<
    (i64, i64),
> {
    let (s, e) = local_span_model(day, hm_minutes(start), hm_minutes(end), interval);
    if fits_i64(s) && fits_i64(e) {
        Some((s as i64, e as i64))
    } else {
        None
    }
}

/// The wall-clock readings of the range from `start` to `end` (hour and
/// minute) on day `day`, rounded to `interval` minutes.
pub fn local_span(day: i64, start: (u32, u32), end: (u32, u32), interval: u32) -> (r: Option<
    (i64, i64),
>)
    requires
        start.0 < 24 && start.1 < 60,
        end.0 < 24 && end.1 < 60,
        interval > 0,
    ensures
        r == local_span_fit(day as int, start, end, interval as int),
{
    let s: i128 = start.0 as i128 * 60 + start.1 as i128;
    let e: i128 = end.0 as i128 * 60 + end.1 as i128;
    let iv = interval as i128;
    let sr = s % iv;
    let er = e % iv;
    let s_rounded = s - sr;
    let e_rounded = if er == 0 {
        e
    } else {
        e + (iv - er)
    };
    let end_day: i128 = if e < s {
        day as i128 + 1
    } else {
        day as i128
    };
    let ls: i128 = day as i128 * 86400 + s_rounded * 60;
    let le: i128 = end_day * 86400 + e_rounded * 60;
    assert(sr == 0 ==> s_rounded == rounded_minutes(s as int, iv as int, false));
    if ls < i64::MIN as i128 || ls > i64::MAX as i128 || le < i64::MIN as i128 || le
        > i64::MAX as i128 {
        None
    } else {
        Some((ls as i64, le as i64))
    }
}

/// The instants of the range from `start` to `end` (hour and minute) on day
/// `day` in zone `zone`.
pub open spec fn hm_span_outcome(day: int, start: (u32, u32), end: (u32, u32), interval: int, zone: Seq<char>) -> Result<
    (i64, i64),
    ScheduleError,
> {
    match local_span_fit(day, start, end, interval) {
        Some((ls, le)) => match (utc_of_local(zone, ls as int), utc_of_local(zone, le as int)) {
            (Some(us), Some(ue)) => Ok((us, ue)),
            _ => Err(ScheduleError::UnresolvedTime),
        },
        None => Err(ScheduleError::UnresolvedTime),
    }
}

/// The start and end instants of the range from `start` to `end` on day
/// `day` in the zone named `zone`, rounded to `interval` minutes.
pub fn span_on_day(day: i64, start: (u32, u32), end: (u32, u32), interval: u32, zone: &str) -> (r: Result<
    (i64, i64),
    ScheduleError,
>)
    requires
        start.0 < 24 && start.1 < 60,
        end.0 < 24 && end.1 < 60,
        interval > 0,
    ensures
        r == hm_span_outcome(day as int, start, end, interval as int, zone@),
{
    let (ls, le) = match local_span(day, start, end, interval) {
        Some(p) => p,
        None => return Err(ScheduleError::UnresolvedTime),
    };
    match (zone_local_to_utc(zone, ls), zone_local_to_utc(zone, le)) {
        (Some(us), Some(ue)) => Ok((us, ue)),
        _ => Err(ScheduleError::UnresolvedTime),
    }
}

/// The outcome of reading the range `ts` on day `day` in zone `zone`.
pub open spec fn span_outcome(ts: Seq<char>, day: int, interval: int, zone: Seq<char>) -> Result<
    (i64, i64),
    ScheduleError,
> {
    match cut_at(ts, last_pos(ts, '-')) {
        None => Err(ScheduleError::InvalidFormat),
        Some((a, b)) => match (clock_time_of(a), clock_time_of(b)) {
            (Some(s), Some(e)) => hm_span_outcome(day, s, e, interval, zone),
            _ => Err(ScheduleError::InvalidFormat),
        },
    }
}

/// Reads the range `timespan` (`HH:MM-HH:MM`, split at its last `-`) on day
/// `day` in the zone named `zone`, rounding the start down and the end up to
/// `interval` minutes, and returns its start and end instants.
pub fn parse_range_on_day(timespan: &str, day: i64, interval: u32, zone: &str) -> (r: Result<
    (i64, i64),
    ScheduleError,
>)
    requires
        interval > 0,
    ensures
        r == span_outcome(timespan@, day as int, interval as int, zone@),
{
    let (start_text, end_text) = match split_last(timespan, '-') {
        Some(p) => p,
        None => return Err(ScheduleError::InvalidFormat),
    };
    let start = match parse_clock_time(start_text.as_str()) {
        Some(t) => t,
        None => return Err(ScheduleError::InvalidFormat),
    };
    let end = match parse_clock_time(end_text.as_str()) {
        Some(t) => t,
        None => return Err(ScheduleError::InvalidFormat),
    };
    span_on_day(day, start, end, interval, zone)
}

/// The day number of the date `text` (`YYYY-MM-DD`).
pub fn calendar_day(text: &str) -> (r: Option<i64>)
    ensures
        match epoch_day_of(text@) {
            Some(d) => r == Some(d as i64),
            None => r is None,
        },
{
    match parse_calendar_date(text) {
        Some(d) => Some(d as i64),
        None => None,
    }
}

pub open spec fn text_opt(t: Option<&str>) -> Option<Seq<char>> {
    match t {
        Some(s) => Some(s@),
        None => None,
    }
}

/// The day a range is read on: the given date, or else the day that the
/// zone's clock shows at `now`.
pub open spec fn day_outcome(date: Option<Seq<char>>, now: int, zone: Seq<char>) -> Result<
    int,
    ScheduleError,
> {
    match date {
        Some(d) => match epoch_day_of(d) {
            Some(k) => Ok(k as int),
            None => Err(ScheduleError::InvalidFormat),
        },
        None => match local_of_utc(zone, now) {
            Some(l) => Ok(l / 86400),
            None => Err(ScheduleError::UnresolvedTime),
        },
    }
}

pub open spec fn range_outcome(
    ts: Seq<char>,
    date: Option<Seq<char>>,
    now: int,
    interval: int,
    zone: Seq<char>,
) -> Result<(i64, i64), ScheduleError> {
    if last_pos(ts, '-') is None {
        Err(ScheduleError::InvalidFormat)
    } else {
        match day_outcome(date, now, zone) {
            Ok(day) => span_outcome(ts, day, interval, zone),
            Err(e) => Err(e),
        }
    }
}

/// What the clock of the zone named `zone` reads at `instant`.
pub fn local_reading(zone: &str, instant: i64) -> (r: Option<i128>)
    ensures
        match local_of_utc(zone@, instant as int) {
            Some(l) => r == Some(l as i128),
            None => r is None,
        },
        r matches Some(l) ==> instant - 86400 < l < instant + 86400,
{
    match zone_offset_at(zone, instant) {
        Some(o) => Some(instant as i128 + o as i128),
        None => None,
    }
}

/// The day number shown by the zone's clock at `instant`.
pub fn local_day(zone: &str, instant: i64) -> (r: Option<i64>)
    ensures
        r == (match local_of_utc(zone@, instant as int) {
            Some(l) => Some((l / 86400) as i64),
            None => None,
        }),
{
    match local_reading(zone, instant) {
        Some(l) => {
            let day = l.checked_div_euclid(SECONDS_PER_DAY as i128).unwrap();
            assert(i64::MIN <= day <= i64::MAX) by (nonlinear_arith)
                requires
                    day == l / 86400,
                    i64::MIN - 86400 < l < i64::MAX + 86400,
            ;
            Some(day as i64)
        },
        None => None,
    }
}

/// Reads the range `timespan` on `date` (`YYYY-MM-DD`), or on today in the
/// zone named `zone` when no date is given, `now` being the current instant.
pub fn parse_datetime_range(
    timespan: &str,
    date: Option<&str>,
    now: i64,
    interval: u32,
    zone: &str,
) -> (r: Result<(i64, i64), ScheduleError>)
    requires
        interval > 0,
    ensures
        r == range_outcome(timespan@, text_opt(date), now as int, interval as int, zone@),
{
    if split_last(timespan, '-').is_none() {
        return Err(ScheduleError::InvalidFormat);
    }
    let day: i64 = match date {
        Some(d) => match parse_calendar_date(d) {
            Some(k) => k as i64,
            None => return Err(ScheduleError::InvalidFormat),
        },
        None => match local_day(zone, now) {
            Some(k) => k,
            None => return Err(ScheduleError::UnresolvedTime),
        },
    };
    parse_range_on_day(timespan, day, interval, zone)
}

} // verus!
