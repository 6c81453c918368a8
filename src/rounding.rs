//! Discretising times of day, instants and durations to a rounding interval
//! given in minutes.

use vstd::prelude::*;

verus! {

pub const MINUTES_PER_DAY: u64 = 1440;

/// A wall-clock time of day.
#[derive(Clone, Copy, Debug, PartialEq, Eq, Structural)]
pub struct TimeOfDay {
    pub hour: u32,
    pub minute: u32,
    pub second: u32,
}

impl TimeOfDay {
    pub open spec fn wf(self) -> bool {
        self.hour < 24 && self.minute < 60 && self.second < 60
    }

    pub open spec fn minutes(self) -> int {
        self.hour * 60 + self.minute
    }
}

/// `m` moved to a multiple of `interval`: down, or up when `up` holds.
pub open spec fn rounded_minutes(m: int, interval: int, up: bool) -> int {
    let r = m % interval;
    if r == 0 {
        m
    } else if up {
        m + (interval - r)
    } else {
        m - r
    }
}

/// `m` rounded to a multiple of `interval`, counting minutes from midnight;
/// seconds are dropped and a result past midnight wraps around the clock.
pub fn round_time_to_interval(time: TimeOfDay, interval: u32, round_up: bool) -> (r: TimeOfDay)
    requires
        interval > 0,
        time.wf(),
    ensures
        r.wf(),
        r.second == 0,
        r.minutes() == rounded_minutes(time.minutes(), interval as int, round_up) % 1440,
{
    let minutes: u64 = time.hour as u64 * 60 + time.minute as u64;
    let interval = interval as u64;
    let remainder = minutes % interval;
    assert(remainder <= minutes) by (nonlinear_arith)
        requires
            remainder == minutes % interval,
            interval > 0,
    ;
    let new_minutes: u64 = if remainder == 0 {
        minutes
    } else if round_up {
        minutes + (interval - remainder)
    } else {
        minutes - remainder
    };
    let wrapped = new_minutes % MINUTES_PER_DAY;
    TimeOfDay { hour: (wrapped / 60) as u32, minute: (wrapped % 60) as u32, second: 0 }
}

/// A duration of `minutes` minutes, rounded up to a multiple of `interval`.
pub fn round_duration_up(minutes: u32, interval: u32) -> (r: u64)
    requires
        interval > 0,
    ensures
        r == rounded_minutes(minutes as int, interval as int, true),
{
    let minutes = minutes as u64;
    let interval = interval as u64;
    let remainder = minutes % interval;
    if remainder > 0 {
        minutes + (interval - remainder)
    } else {
        minutes
    }
}

/// The instant `t` (seconds since the epoch, UTC) with its seconds dropped and
/// its minute of the day rounded to a multiple of `interval`; a result past
/// midnight falls on the next day.
pub open spec fn rounded_instant(t: int, interval: int, up: bool) -> int {
    let whole_minutes = t / 60;
    let day = whole_minutes / 1440;
    (day * 1440 + rounded_minutes(whole_minutes % 1440, interval, up)) * 60
}

/// `rounded_instant`, computed without overflow.
pub fn round_instant_wide(t: i64, interval: u32, round_up: bool) -> (r: i128)
    requires
        interval > 0,
    ensures
        r == rounded_instant(t as int, interval as int, round_up),
        -0x1_0000_0000_0000_0000_0000_0000 < r < 0x1_0000_0000_0000_0000_0000_0000,
{
    let whole_minutes = t.checked_div_euclid(60).unwrap();
    let day = whole_minutes.checked_div_euclid(1440).unwrap();
    let in_day = whole_minutes.checked_rem_euclid(1440).unwrap();
    let interval = interval as i128;
    let in_day = in_day as i128;
    let remainder = in_day % interval;
    assert(0 <= remainder < interval && remainder <= in_day) by (nonlinear_arith)
        requires
            remainder == in_day % interval,
            interval > 0,
            in_day >= 0,
    ;
    let new_in_day: i128 = if remainder == 0 {
        in_day
    } else if round_up {
        in_day + (interval - remainder)
    } else {
        in_day - remainder
    };
    assert(-0x1_0000_0000_0000_0000 < day < 0x1_0000_0000_0000_0000);
    assert(0 <= new_in_day <= 1440 + 0x1_0000_0000);
    (day as i128 * 1440 + new_in_day) * 60
}

/// `rounded_instant`, or `None` where it does not fit an `i64`.
pub fn round_instant(t: i64, interval: u32, round_up: bool) -> (r: Option<i64>)
    requires
        interval > 0,
    ensures
        r == (if i64::MIN <= rounded_instant(t as int, interval as int, round_up) <= i64::MAX {
            Some(rounded_instant(t as int, interval as int, round_up) as i64)
        } else {
            None
        }),
{
    let total = round_instant_wide(t, interval, round_up);
    if total < i64::MIN as i128 || total > i64::MAX as i128 {
        None
    } else {
        Some(total as i64)
    }
}

} // verus!
