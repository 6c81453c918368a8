//! Read-only queries over an event set: conflicts with a range, the first
//! free slot in a window, the next event of a label, the current event.

use vstd::prelude::*;
use crate::event::{ScheduleEvent, EventView, views};
use crate::error::ScheduleError;
use crate::rounding::{rounded_instant, round_instant_wide};
use crate::range::{parse_datetime_range, range_outcome, text_opt};
use crate::text::same_chars;

verus! {

/// Whether `e` strictly overlaps the range from `s` to `t`.
pub open spec fn meets(e: EventView, s: int, t: int) -> bool {
    s < e.end && t > e.start
}

/// The events of `es` that overlap the range from `s` to `t`, in order.
pub open spec fn conflicts(es: Seq<EventView>, s: int, t: int) -> Seq<EventView>
    decreases es.len(),
{
    if es.len() == 0 {
        seq![]
    } else if meets(es.last(), s, t) {
        conflicts(es.drop_last(), s, t).push(es.last())
    } else {
        conflicts(es.drop_last(), s, t)
    }
}

pub open spec fn slot_free(es: Seq<EventView>, s: int, t: int) -> bool {
    forall|i: int| 0 <= i < es.len() ==> !meets(#[trigger] es[i], s, t)
}

proof fn lemma_conflicts_empty(es: Seq<EventView>, s: int, t: int)
    ensures
        conflicts(es, s, t).len() == 0 <==> slot_free(es, s, t),
    decreases es.len(),
{
    if es.len() > 0 {
        let d = es.drop_last();
        lemma_conflicts_empty(d, s, t);
        assert forall|i: int| 0 <= i < d.len() implies d[i] == es[i] by {}
        if !meets(es.last(), s, t) && slot_free(d, s, t) {
            assert forall|i: int| 0 <= i < es.len() implies !meets(#[trigger] es[i], s, t) by {
                if i < d.len() {
                    assert(d[i] == es[i]);
                }
            }
        }
        if slot_free(es, s, t) {
            assert(!meets(es[es.len() - 1], s, t));
            assert forall|i: int| 0 <= i < d.len() implies !meets(#[trigger] d[i], s, t) by {
                assert(d[i] == es[i]);
            }
        }
    }
}

/// `Ok(true)` when no event overlaps the range from `start_time` to
/// `end_time`; otherwise the overlapping events, in order.
pub fn is_slot_free(events: &Vec<ScheduleEvent>, start_time: i64, end_time: i64) -> (r: Result<
    bool,
    Vec<ScheduleEvent>,
>)
    ensures
        match r {
            Ok(b) => b && slot_free(views(events@), start_time as int, end_time as int),
            Err(v) => views(v@) == conflicts(views(events@), start_time as int, end_time as int)
                && !slot_free(views(events@), start_time as int, end_time as int),
        },
{
    let ghost es = views(events@);
    let mut found: Vec<ScheduleEvent> = Vec::new();
    let mut i: usize = 0;
    while i < events.len()
        invariant
            0 <= i <= events.len(),
            es == views(events@),
            views(found@) == conflicts(es.take(i as int), start_time as int, end_time as int),
        decreases events.len() - i,
    {
        assert(es.take(i + 1).drop_last() =~= es.take(i as int));
        assert(es.take(i + 1).last() == events@[i as int]@);
        if start_time < events[i].end_time && end_time > events[i].start_time {
            found.push(events[i].copied());
        }
        i = i + 1;
    }
    assert(es.take(i as int) =~= es);
    proof {
        lemma_conflicts_empty(es, start_time as int, end_time as int);
    }
    if found.len() == 0 {
        Ok(true)
    } else {
        Err(found)
    }
}

fn slot_is_free(events: &Vec<ScheduleEvent>, s: i128, t: i128) -> (r: bool)
    ensures
        r == slot_free(views(events@), s as int, t as int),
{
    let mut i: usize = 0;
    while i < events.len()
        invariant
            0 <= i <= events.len(),
            forall|k: int| 0 <= k < i ==> !meets(#[trigger] views(events@)[k], s as int, t as int),
        decreases events.len() - i,
    {
        assert(views(events@)[i as int] == events@[i as int]@);
        if s < events[i].end_time as i128 && t > events[i].start_time as i128 {
            return false;
        }
        i = i + 1;
    }
    true
}

/// Where the slot search begins: the window start, or the current instant
/// rounded up to the rounding interval if that is later.
pub open spec fn search_begin(window_start: int, now: int, rounding: int) -> int {
    let r = rounded_instant(now, rounding, true);
    if window_start < r {
        r
    } else {
        window_start
    }
}

/// The `k`-th candidate slot's start.
pub open spec fn candidate(begin: int, len: int, k: int) -> int {
    begin + k * len
}

/// What the slot search returns: the first free candidate slot of
/// `duration` minutes inside the window, or `NotFound` when every candidate
/// that fits the window meets an event.
pub open spec fn slot_result(
    es: Seq<EventView>,
    window_start: int,
    window_end: int,
    duration: int,
    rounding: int,
    now: int,
    r: Result<(i64, i64), ScheduleError>,
) -> bool {
    let begin = search_begin(window_start, now, rounding);
    let len = duration * 60;
    match r {
        Ok((s, t)) => exists|k: int|
            #![trigger candidate(begin, len, k)]
            0 <= k && s == candidate(begin, len, k) && t == s + len && t <= window_end
                && slot_free(es, s as int, t as int) && forall|j: int|
                0 <= j < k ==> !slot_free(
                    es,
                    #[trigger] candidate(begin, len, j),
                    candidate(begin, len, j) + len,
                ),
        Err(e) => e == ScheduleError::NotFound && forall|j: int|
            0 <= j && #[trigger] candidate(begin, len, j) + len <= window_end ==> !slot_free(
                es,
                candidate(begin, len, j),
                candidate(begin, len, j) + len,
            ),
    }
}

/// The first slot of `duration_minutes` minutes that lies in the window,
/// starts `begin + k * duration` for some `k >= 0`, and meets no event.
/// `NotFound` when the candidates run out.
pub fn find_slot(
    events: &Vec<ScheduleEvent>,
    window_start: i64,
    window_end: i64,
    duration_minutes: u32,
    rounding: u32,
    now: i64,
) -> (r: Result<(i64, i64), ScheduleError>)
    requires
        duration_minutes > 0,
        rounding > 0,
    ensures
        slot_result(
            views(events@),
            window_start as int,
            window_end as int,
            duration_minutes as int,
            rounding as int,
            now as int,
            r,
        ),
{
    let ghost begin = search_begin(window_start as int, now as int, rounding as int);
    let ghost es = views(events@);
    let len: i128 = duration_minutes as i128 * 60;
    let rounded = round_instant_wide(now, rounding, true);
    let mut current: i128 = if (window_start as i128) < rounded {
        rounded
    } else {
        window_start as i128
    };
    let ghost mut k: int = 0;
    while current + len <= window_end as i128
        invariant
            len == duration_minutes * 60,
            len > 0,
            k >= 0,
            current == candidate(begin, len as int, k),
            current >= window_start,
            current < 0x1_0000_0000_0000_0000_0000_0000,
            begin == search_begin(window_start as int, now as int, rounding as int),
            es == views(events@),
            forall|j: int|
                0 <= j < k ==> !slot_free(
                    es,
                    #[trigger] candidate(begin, len as int, j),
                    candidate(begin, len as int, j) + len,
                ),
        decreases window_end - current,
    {
        if slot_is_free(events, current, current + len) {
            assert(candidate(begin, len as int, k) == current);
            return Ok((current as i64, (current + len) as i64));
        }
        assert(candidate(begin, len as int, k + 1) == current + len) by (nonlinear_arith)
            requires
                current == candidate(begin, len as int, k),
        ;
        current = current + len;
        proof {
            k = k + 1;
        }
    }
    assert forall|j: int|
        0 <= j && #[trigger] candidate(begin, len as int, j) + len <= window_end implies !slot_free(
        es,
        candidate(begin, len as int, j),
        candidate(begin, len as int, j) + len,
    ) by {
        if j >= k {
            assert(candidate(begin, len as int, j) >= candidate(begin, len as int, k))
                by (nonlinear_arith)
                requires
                    j >= k,
                    len > 0,
            ;
        }
    }
    Err(ScheduleError::NotFound)
}

/// Reads the window `timespan` (on `date`, or today in `zone`) and finds
/// the first free slot of `duration_minutes` minutes in it.
pub fn find_free_slot(
    events: &Vec<ScheduleEvent>,
    timespan: &str,
    date: Option<&str>,
    duration_minutes: u32,
    rounding: u32,
    zone: &str,
    now: i64,
) -> (r: Result<(i64, i64), ScheduleError>)
    requires
        duration_minutes > 0,
        rounding > 0,
    ensures
        match range_outcome(timespan@, text_opt(date), now as int, rounding as int, zone@) {
            Err(e) => r == Err::<(i64, i64), ScheduleError>(e),
            Ok((s, t)) => slot_result(
                views(events@),
                s as int,
                t as int,
                duration_minutes as int,
                rounding as int,
                now as int,
                r,
            ),
        },
{
    let (start_time, end_time) = match parse_datetime_range(timespan, date, now, rounding, zone) {
        Ok(p) => p,
        Err(e) => return Err(e),
    };
    find_slot(events, start_time, end_time, duration_minutes, rounding, now)
}

/// Whether `e` is labelled `label`, starts at or after `now`, and is longer
/// than `len` seconds.
pub open spec fn hosts(e: EventView, label: Seq<char>, len: int, now: int) -> bool {
    e.summary == label && e.start >= now && e.end > e.start + len
}

/// The position of the earliest-starting event that hosts; the first such
/// one among events that start together.
pub open spec fn earliest_host(es: Seq<EventView>, label: Seq<char>, len: int, now: int) -> Option<
    int,
>
    decreases es.len(),
{
    if es.len() == 0 {
        None
    } else {
        let b = earliest_host(es.drop_last(), label, len, now);
        let e = es.last();
        if hosts(e, label, len, now) && (b is None || e.start < es[b->0].start) {
            Some(es.len() - 1)
        } else {
            b
        }
    }
}

proof fn lemma_earliest_host_bound(es: Seq<EventView>, label: Seq<char>, len: int, now: int)
    ensures
        earliest_host(es, label, len, now) matches Some(i) ==> 0 <= i < es.len() && hosts(
            es[i],
            label,
            len,
            now,
        ),
    decreases es.len(),
{
    if es.len() > 0 {
        lemma_earliest_host_bound(es.drop_last(), label, len, now);
    }
}

/// The first `duration_minutes` minutes of the earliest event labelled
/// `project_task` that starts at or after `now` and is longer than that;
/// `NotFound` if there is none.
pub fn find_next_event_time(
    events: &Vec<ScheduleEvent>,
    project_task: &str,
    duration_minutes: u32,
    now: i64,
) -> (r: Result<(i64, i64), ScheduleError>)
    ensures
        match earliest_host(views(events@), project_task@, duration_minutes * 60, now as int) {
            Some(i) => r matches Ok((s, t)) && s == views(events@)[i].start && t == s
                + duration_minutes * 60,
            None => r == Err::<(i64, i64), ScheduleError>(ScheduleError::NotFound),
        },
{
    let ghost es = views(events@);
    let len: i64 = duration_minutes as i64 * 60;
    let mut best: Option<usize> = None;
    let mut i: usize = 0;
    while i < events.len()
        invariant
            0 <= i <= events.len(),
            es == views(events@),
            len == duration_minutes * 60,
            match best {
                Some(b) => b < i && earliest_host(es.take(i as int), project_task@, len as int, now as int)
                    == Some(b as int),
                None => earliest_host(es.take(i as int), project_task@, len as int, now as int) is None,
            },
        decreases events.len() - i,
    {
        let ghost pre = es.take(i as int);
        assert(es.take(i + 1).drop_last() =~= pre);
        assert(es.take(i + 1).last() == events@[i as int]@);
        let e = &events[i];
        let fits = e.start_time as i128 + (len as i128) < e.end_time as i128;
        if same_chars(e.summary.as_str(), project_task) && e.start_time >= now && fits {
            let earlier = match best {
                Some(b) => {
                    assert(es.take(i + 1)[b as int] == events@[b as int]@);
                    e.start_time < events[b].start_time
                },
                None => true,
            };
            if earlier {
                best = Some(i);
            }
        } else {
            proof {
                if let Some(b) = best {
                    assert(es.take(i + 1)[b as int] == pre[b as int]);
                }
            }
        }
        proof {
            if let Some(b) = best {
                if b < i {
                    assert(es.take(i + 1)[b as int] == pre[b as int]);
                }
            }
        }
        i = i + 1;
    }
    assert(es.take(i as int) =~= es);
    proof {
        lemma_earliest_host_bound(es, project_task@, len as int, now as int);
    }
    match best {
        Some(b) => {
            let s = events[b].start_time;
            Ok((s, s + len))
        },
        None => Err(ScheduleError::NotFound),
    }
}

/// Whether `e` is under way at `now`.
pub open spec fn running(e: EventView, now: int) -> bool {
    e.start <= now < e.end
}

/// The position of the first event under way at `now`.
pub fn current_event(events: &Vec<ScheduleEvent>, now: i64) -> (r: Option<usize>)
    ensures
        match r {
            Some(i) => i < events@.len() && running(events@[i as int]@, now as int) && forall|j: int|
                0 <= j < i ==> !running(#[trigger] events@[j]@, now as int),
            None => forall|j: int|
                0 <= j < events@.len() ==> !running(#[trigger] events@[j]@, now as int),
        },
{
    let mut i: usize = 0;
    while i < events.len()
        invariant
            0 <= i <= events.len(),
            forall|j: int| 0 <= j < i ==> !running(#[trigger] events@[j]@, now as int),
        decreases events.len() - i,
    {
        if events[i].start_time <= now && now < events[i].end_time {
            return Some(i);
        }
        i = i + 1;
    }
    None
}

/// The events of `es` that end after `cutoff`, in order.
pub open spec fn ending_after(es: Seq<EventView>, cutoff: int) -> Seq<EventView>
    decreases es.len(),
{
    if es.len() == 0 {
        seq![]
    } else if es.last().end > cutoff {
        ending_after(es.drop_last(), cutoff).push(es.last())
    } else {
        ending_after(es.drop_last(), cutoff)
    }
}

/// Drops the events that ended `days` days before `now` or earlier.
pub fn cleanup_events(events: &mut Vec<ScheduleEvent>, days: u32, now: i64)
    ensures
        views(final(events)@) == ending_after(views(old(events)@), now - days * 86400),
{
    let ghost es = views(events@);
    let cutoff: i128 = now as i128 - days as i128 * 86400;
    let mut kept: Vec<ScheduleEvent> = Vec::new();
    let mut i: usize = 0;
    while i < events.len()
        invariant
            0 <= i <= events.len(),
            es == views(events@),
            cutoff == now - days * 86400,
            views(kept@) == ending_after(es.take(i as int), cutoff as int),
        decreases events.len() - i,
    {
        assert(es.take(i + 1).drop_last() =~= es.take(i as int));
        assert(es.take(i + 1).last() == events@[i as int]@);
        if events[i].end_time as i128 > cutoff {
            kept.push(events[i].copied());
        }
        i = i + 1;
    }
    assert(es.take(i as int) =~= es);
    *events = kept;
}

} // verus!
