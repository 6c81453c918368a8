//! What a day listing shows: the events of a day, the free time between
//! them, and the route of places visited.

use vstd::prelude::*;
use crate::event::{ScheduleEvent, EventView, views};
use crate::clock::local_of_utc;
use crate::range::local_day;

verus! {

/// The places visited in order: the locations of the events that have
/// one, with immediate repeats dropped.
pub open spec fn route(es: Seq<EventView>) -> Seq<Seq<char>>
    decreases es.len(),
{
    if es.len() == 0 {
        seq![]
    } else {
        let r = route(es.drop_last());
        match es.last().location {
            Some(l) => if r.len() > 0 && r.last() == l {
                r
            } else {
                r.push(l)
            },
            None => r,
        }
    }
}

pub open spec fn texts(s: Seq<String>) -> Seq<Seq<char>> {
    s.map_values(|t: String| t@)
}

/// The route of places visited by `events`.
pub fn travel_route(events: &Vec<ScheduleEvent>) -> (r: Vec<String>)
    ensures
        texts(r@) == route(views(events@)),
{
    let ghost es = views(events@);
    let mut r: Vec<String> = Vec::new();
    let mut i: usize = 0;
    while i < events.len()
        invariant
            0 <= i <= events.len(),
            es == views(events@),
            texts(r@) == route(es.take(i as int)),
        decreases events.len() - i,
    {
        assert(es.take(i + 1).drop_last() =~= es.take(i as int));
        assert(es.take(i + 1).last() == events@[i as int]@);
        match &events[i].location {
            Some(l) => {
                let n = r.len();
                let repeat = n > 0 && r[n - 1] == *l;
                if !repeat {
                    let ghost before = texts(r@);
                    r.push(l.clone());
                    assert(texts(r@) =~= before.push(l@));
                } else {
                    assert(texts(r@)[n - 1] == r@[n - 1]@);
                }
            },
            None => {},
        }
        i = i + 1;
    }
    assert(es.take(i as int) =~= es);
    r
}

/// Whether `e` starts on day `day` of the clock of `zone`.
pub open spec fn starts_on(e: EventView, day: int, zone: Seq<char>) -> bool {
    match local_of_utc(zone, e.start) {
        Some(l) => l / 86400 == day,
        None => false,
    }
}

/// The events of `es` that start on day `day` in `zone`, in order.
pub open spec fn on_day(es: Seq<EventView>, day: int, zone: Seq<char>) -> Seq<EventView>
    decreases es.len(),
{
    if es.len() == 0 {
        seq![]
    } else if starts_on(es.last(), day, zone) {
        on_day(es.drop_last(), day, zone).push(es.last())
    } else {
        on_day(es.drop_last(), day, zone)
    }
}

/// The events that start on day number `day` of the clock of the zone
/// named `zone`.
pub fn events_on_day(events: &Vec<ScheduleEvent>, day: i64, zone: &str) -> (r: Vec<ScheduleEvent>)
    ensures
        views(r@) == on_day(views(events@), day as int, zone@),
{
    let ghost es = views(events@);
    let mut r: Vec<ScheduleEvent> = Vec::new();
    let mut i: usize = 0;
    while i < events.len()
        invariant
            0 <= i <= events.len(),
            es == views(events@),
            views(r@) == on_day(es.take(i as int), day as int, zone@),
        decreases events.len() - i,
    {
        assert(es.take(i + 1).drop_last() =~= es.take(i as int));
        assert(es.take(i + 1).last() == events@[i as int]@);
        if local_day(zone, events[i].start_time) == Some(day) {
            r.push(events[i].copied());
        }
        i = i + 1;
    }
    assert(es.take(i as int) =~= es);
    r
}

/// The free time, in seconds, between the event before position `i` and
/// the event at `i`; 0 for the first event or where they touch or overlap.
pub open spec fn gap_model(es: Seq<EventView>, i: int) -> int {
    if i == 0 || es[i].start <= es[i - 1].end {
        0
    } else {
        es[i].start - es[i - 1].end
    }
}

pub fn gap_before(events: &Vec<ScheduleEvent>, i: usize) -> (r: i128)
    requires
        i < events@.len(),
    ensures
        r == gap_model(views(events@), i as int),
{
    if i == 0 || events[i].start_time <= events[i - 1].end_time {
        0
    } else {
        events[i].start_time as i128 - events[i - 1].end_time as i128
    }
}

} // verus!
