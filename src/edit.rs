//! Creating, finding, cutting and editing single events.

use vstd::prelude::*;
use vstd::string::StrSliceExecFns;
use crate::event::{ScheduleEvent, EventView, views, text_view, overlaps, with_span, copy_text};
use crate::error::ScheduleError;
use crate::resolve::{pieces_of, fragments_of, ids_distinct};
use crate::compact::lemma_compact_id_unused;
use crate::ids::{unused_id, fresh_for, id_unused};
use crate::compact::{compact_model, merge_events};
use crate::rounding::{rounded_minutes, rounded_instant, round_duration_up, round_instant_wide};
use crate::range::{
    span_outcome, hm_span_outcome, parse_range_on_day, span_on_day, local_day, local_reading,
    SECONDS_PER_DAY,
};
use crate::clock::{epoch_day_of, local_of_utc, parse_calendar_date};

verus! {

/// A new event with an id that no event of `events` has.
pub fn make_event(
    events: &Vec<ScheduleEvent>,
    start_time: i64,
    end_time: i64,
    summary: String,
    note: Option<String>,
    location: Option<String>,
    booked: bool,
) -> (r: ScheduleEvent)
    ensures
        r.start_time == start_time && r.end_time == end_time,
        r.summary == summary && r.note == note && r.location == location,
        r.booked == booked,
        id_unused(views(events@), r.id@),
{
    let id = unused_id(events, &Vec::new());
    ScheduleEvent { id, start_time, end_time, summary, note, location, booked }
}

/// The position of the first event of `s` with id `id`.
pub open spec fn first_with_id(s: Seq<EventView>, id: Seq<char>) -> Option<int>
    decreases s.len(),
{
    if s.len() == 0 {
        None
    } else if s.last().id == id && first_with_id(s.drop_last(), id) is None {
        Some(s.len() - 1)
    } else {
        first_with_id(s.drop_last(), id)
    }
}

proof fn lemma_first_with_id(s: Seq<EventView>, id: Seq<char>)
    ensures
        first_with_id(s, id) matches Some(k) ==> 0 <= k < s.len() && s[k].id == id,
    decreases s.len(),
{
    if s.len() > 0 {
        lemma_first_with_id(s.drop_last(), id);
    }
}

/// The position of the event with id `id`; `NotFound` if there is none.
pub fn find_event(events: &Vec<ScheduleEvent>, id: &str) -> (r: Result<usize, ScheduleError>)
    ensures
        match r {
            Ok(k) => first_with_id(views(events@), id@) == Some(k as int),
            Err(e) => e == ScheduleError::NotFound && first_with_id(views(events@), id@) is None,
        },
{
    let ghost v = views(events@);
    let mut i: usize = 0;
    while i < events.len()
        invariant
            0 <= i <= events.len(),
            v == views(events@),
            first_with_id(v.take(i as int), id@) is None,
        decreases events.len() - i,
    {
        assert(v.take(i + 1).drop_last() =~= v.take(i as int));
        assert(v.take(i + 1).last() == events@[i as int]@);
        if crate::text::same_chars(events[i].id.as_str(), id) {
            proof {
                lemma_first_prefix(v, id@, i as int);
            }
            return Ok(i);
        }
        i = i + 1;
    }
    assert(v.take(i as int) =~= v);
    Err(ScheduleError::NotFound)
}

proof fn lemma_first_prefix(v: Seq<EventView>, id: Seq<char>, i: int)
    requires
        0 <= i < v.len(),
        v[i].id == id,
        first_with_id(v.take(i), id) is None,
    ensures
        first_with_id(v, id) == Some(i),
    decreases v.len(),
{
    if v.len() - 1 > i {
        assert(v.drop_last().take(i) =~= v.take(i));
        lemma_first_prefix(v.drop_last(), id, i);
    } else {
        assert(v.drop_last() =~= v.take(i));
    }
}

/// Removes the event with id `id` and returns it; `NotFound`, and no
/// change, if there is none.
pub fn remove_event(events: &mut Vec<ScheduleEvent>, id: &str) -> (r: Result<
    ScheduleEvent,
    ScheduleError,
>)
    ensures
        match first_with_id(views(old(events)@), id@) {
            Some(k) => r == Ok::<ScheduleEvent, ScheduleError>(old(events)@[k]) && final(events)@
                == old(events)@.remove(k),
            None => r == Err::<ScheduleEvent, ScheduleError>(ScheduleError::NotFound)
                && final(events)@ == old(events)@,
        },
{
    match find_event(events, id) {
        Ok(k) => {
            proof {
                lemma_first_with_id(views(events@), id@);
            }
            Ok(events.remove(k))
        },
        Err(e) => Err(e),
    }
}

/// What remains of `e` when the range from `s` to `t` is removed from it;
/// `None` where the range does not overlap it.
pub open spec fn cut_model(e: EventView, s: int, t: int, ids: Seq<Seq<char>>) -> Option<
    Seq<EventView>,
> {
    let gap = with_span(e, seq![], s, t);
    if overlaps(gap, e) {
        Some(pieces_of(e, gap, ids, 0))
    } else {
        None
    }
}

/// The parts of the event at `index` outside the range from
/// `start_remove` to `end_remove`, with ids that no event of `events` has;
/// `None` where the range misses the event.
pub fn cut_event(events: &Vec<ScheduleEvent>, index: usize, start_remove: i64, end_remove: i64) -> (r:
    Option<Vec<ScheduleEvent>>)
    requires
        index < events@.len(),
    ensures
        r is None <==> cut_model(events@[index as int]@, start_remove as int, end_remove as int, seq![])
            is None,
        r matches Some(v) ==> exists|ids: Seq<Seq<char>>|
            #![auto]
            fresh_for(ids, views(events@)) && ids.len() == fragments_of(
                events@[index as int]@,
                with_span(events@[index as int]@, seq![], start_remove as int, end_remove as int),
            ) && cut_model(
                events@[index as int]@,
                start_remove as int,
                end_remove as int,
                ids,
            ) == Some(views(v@)),
{
    let event = &events[index];
    if start_remove >= event.end_time || end_remove <= event.start_time {
        return None;
    }
    let ghost es = views(events@);
    let ghost mut ids: Seq<Seq<char>> = seq![];
    let mut taken: Vec<String> = Vec::new();
    let mut pieces: Vec<ScheduleEvent> = Vec::new();
    if start_remove > event.start_time {
        let id = unused_id(events, &taken);
        proof {
            ids = ids.push(id@);
        }
        taken.push(id.clone());
        pieces.push(event.with_range(id, event.start_time, start_remove));
    }
    if end_remove < event.end_time {
        let id = unused_id(events, &taken);
        proof {
            if ids.len() == 1 {
                assert(taken@[0]@ == ids[0]);
            }
            ids = ids.push(id@);
        }
        pieces.push(event.with_range(id, end_remove, event.end_time));
    }
    let ghost gap = with_span(event@, seq![], start_remove as int, end_remove as int);
    assert(views(pieces@) =~= pieces_of(event@, gap, ids, 0));
    assert(cut_model(event@, start_remove as int, end_remove as int, ids) == Some(views(pieces@)));
    assert(fresh_for(ids, es));
    Some(pieces)
}

/// Replaces the event at `index` by `pieces` and compacts the set.
pub fn replace_with_pieces(events: &mut Vec<ScheduleEvent>, index: usize, pieces: Vec<ScheduleEvent>)
    requires
        index < old(events)@.len(),
    ensures
        views(final(events)@) == compact_model(
            views(old(events)@.remove(index as int)) + views(pieces@),
        ),
{
    let ghost start = views(events@.remove(index as int));
    events.remove(index);
    assert(views(events@) =~= start);
    let mut i: usize = 0;
    while i < pieces.len()
        invariant
            0 <= i <= pieces.len(),
            views(events@) == start + views(pieces@).take(i as int),
        decreases pieces.len() - i,
    {
        let ghost before = views(events@);
        events.push(pieces[i].copied());
        assert(views(events@) =~= before.push(pieces@[i as int]@));
        assert(views(pieces@).take(i + 1) =~= views(pieces@).take(i as int).push(pieces@[i as int]@));
        assert(views(events@) =~= start + views(pieces@).take(i + 1));
        i = i + 1;
    }
    assert(views(pieces@).take(i as int) =~= views(pieces@));
    merge_events(events);
}

/// The plan for removing a range from an event: its position and the parts
/// that remain, or `None` where the range misses it.
pub open spec fn range_cut_result(
    es: Seq<EventView>,
    id: Seq<char>,
    ts: Seq<char>,
    rounding: int,
    zone: Seq<char>,
    r: Result<Option<(usize, Vec<ScheduleEvent>)>, ScheduleError>,
) -> bool {
    match first_with_id(es, id) {
        None => r == Err::<Option<(usize, Vec<ScheduleEvent>)>, ScheduleError>(
            ScheduleError::NotFound,
        ),
        Some(k) => match local_of_utc(zone, es[k].start) {
            None => r == Err::<Option<(usize, Vec<ScheduleEvent>)>, ScheduleError>(
                ScheduleError::UnresolvedTime,
            ),
            Some(l) => match span_outcome(ts, l / 86400, rounding, zone) {
                Err(e) => r == Err::<Option<(usize, Vec<ScheduleEvent>)>, ScheduleError>(e),
                Ok((s, t)) => match r {
                    Ok(None) => cut_model(es[k], s as int, t as int, seq![]) is None,
                    Ok(Some((k2, v))) => k2 == k && exists|ids: Seq<Seq<char>>|
                        #![auto]
                        fresh_for(ids, es) && ids.len() == fragments_of(
                            es[k],
                            with_span(es[k], seq![], s as int, t as int),
                        ) && cut_model(es[k], s as int, t as int, ids) == Some(views(v@)),
                    Err(_) => false,
                },
            },
        },
    }
}

/// Reads `timespan` on the day (in `zone`) of the event with id `id` and works out
/// what remains of the event once that range is removed.
pub fn plan_range_delete(
    events: &Vec<ScheduleEvent>,
    id: &str,
    timespan: &str,
    rounding: u32,
    zone: &str,
) -> (r: Result<Option<(usize, Vec<ScheduleEvent>)>, ScheduleError>)
    requires
        rounding > 0,
    ensures
        range_cut_result(views(events@), id@, timespan@, rounding as int, zone@, r),
{
    let k = match find_event(events, id) {
        Ok(k) => k,
        Err(e) => return Err(e),
    };
    proof {
        lemma_first_with_id(views(events@), id@);
    }
    let event = &events[k];
    assert(views(events@)[k as int] == event@);
    let day = match local_day(zone, event.start_time) {
        Some(d) => d,
        None => return Err(ScheduleError::UnresolvedTime),
    };
    let (s, t) = match parse_range_on_day(timespan, day, rounding, zone) {
        Ok(p) => p,
        Err(e) => return Err(e),
    };
    match cut_event(events, k, s, t) {
        Some(v) => Ok(Some((k, v))),
        None => Ok(None),
    }
}

/// Removing a range from an event retires its id: once the event at `k`
/// is replaced by what remains of it (under ids no event had) and the set
/// is compacted, no event has that id, given the ids were distinct.
pub proof fn lemma_cut_retires_id(
    es: Seq<EventView>,
    k: int,
    s: int,
    t: int,
    ids: Seq<Seq<char>>,
)
    requires
        ids_distinct(es),
        0 <= k < es.len(),
        fresh_for(ids, es),
        ids.len() == fragments_of(es[k], with_span(es[k], seq![], s, t)),
        cut_model(es[k], s, t, ids) is Some,
    ensures
        id_unused(compact_model(es.remove(k) + cut_model(es[k], s, t, ids)->0), es[k].id),
{
    let e = es[k];
    let d = e.id;
    let p = cut_model(e, s, t, ids)->0;
    assert forall|q: int| 0 <= q < ids.len() implies #[trigger] ids[q] != d by {
        assert(id_unused(es, ids[q]));
    }
    let rest = es.remove(k);
    let all = rest + p;
    assert forall|i: int| 0 <= i < all.len() implies (#[trigger] all[i]).id != d by {
        if i < rest.len() {
            if i < k {
                assert(rest[i] == es[i]);
            } else {
                assert(rest[i] == es[i + 1]);
            }
        } else {
            assert(all[i] == p[i - rest.len()]);
            assert(ids.len() >= 1);
            if ids.len() == 2 {
                assert(ids[1] != d);
            }
            assert(ids[0] != d);
        }
    }
    lemma_compact_id_unused(all, d);
}

/// The span of a quick entry of `minutes` minutes (rounded up to the
/// rounding interval) at `now`: starting at `now` rounded down when
/// `forward`, else ending at `now` rounded up.
pub open spec fn quick_span_model(now: int, minutes: int, rounding: int, forward: bool) -> (int, int) {
    let len = rounded_minutes(minutes, rounding, true) * 60;
    if forward {
        let s = rounded_instant(now, rounding, false);
        (s, s + len)
    } else {
        let e = rounded_instant(now, rounding, true);
        (e - len, e)
    }
}

/// `quick_span_model`, or `None` where it does not fit an `i64`.
pub fn quick_span(now: i64, minutes: u32, rounding: u32, forward: bool) -> (r: Option<(i64, i64)>)
    requires
        rounding > 0,
    ensures
        ({
            let (s, e) = quick_span_model(now as int, minutes as int, rounding as int, forward);
            r == if i64::MIN <= s <= i64::MAX && i64::MIN <= e <= i64::MAX {
                Some((s as i64, e as i64))
            } else {
                None::<(i64, i64)>
            }
        }),
{
    let len: i128 = round_duration_up(minutes, rounding) as i128 * 60;
    let (s, e): (i128, i128) = if forward {
        let s = round_instant_wide(now, rounding, false);
        (s, s + len)
    } else {
        let e = round_instant_wide(now, rounding, true);
        (e - len, e)
    };
    if s < i64::MIN as i128 || s > i64::MAX as i128 || e < i64::MIN as i128 || e > i64::MAX as i128 {
        None
    } else {
        Some((s as i64, e as i64))
    }
}

/// A replacement text: an empty one clears the field.
pub open spec fn replaced_text(new: Option<String>, old: Option<Seq<char>>) -> Option<Seq<char>> {
    match new {
        Some(t) => if t@.len() == 0 {
            None
        } else {
            Some(t@)
        },
        None => old,
    }
}

fn replace_text(new: Option<String>, old: &Option<String>) -> (r: Option<String>)
    ensures
        text_view(r) == replaced_text(new, text_view(*old)),
{
    match new {
        Some(t) => if t.as_str().unicode_len() == 0 {
            None
        } else {
            Some(t)
        },
        None => copy_text(old),
    }
}

/// `current` with the given edits. The result keeps the id
/// unless its range changes, in which case it gets a fresh one. The flag
/// tells whether anything was asked to change.
pub fn edit_event(
    current: &ScheduleEvent,
    location: Option<String>,
    note: Option<String>,
    booked: Option<bool>,
    range: (i64, i64),
) -> (r: (ScheduleEvent, bool))
    ensures
        ({
            let moved = range.0 != current.start_time || range.1 != current.end_time;
            let e = r.0@;
            &&& e.start == range.0 && e.end == range.1
            &&& e.summary == current@.summary
            &&& e.location == replaced_text(location, current@.location)
            &&& e.note == replaced_text(note, current@.note)
            &&& e.booked == (match booked {
                Some(b) => b,
                None => current.booked,
            })
            &&& !moved ==> e.id == current@.id
            &&& moved ==> e.id != current@.id
            &&& r.1 == (location is Some || note is Some || booked is Some || moved)
        }),
{
    let moved = range.0 != current.start_time || range.1 != current.end_time;
    let modified = location.is_some() || note.is_some() || booked.is_some() || moved;
    let id = if moved {
        let mut taken: Vec<String> = Vec::new();
        taken.push(current.id.clone());
        let id = unused_id(&Vec::new(), &taken);
        assert(taken@[0]@ == current@.id);
        id
    } else {
        current.id.clone()
    };
    let edited = ScheduleEvent {
        id,
        start_time: range.0,
        end_time: range.1,
        summary: current.summary.clone(),
        note: replace_text(note, &current.note),
        location: replace_text(location, &current.location),
        booked: match booked {
            Some(b) => b,
            None => current.booked,
        },
    };
    (edited, modified)
}

/// The hour and minute that a wall-clock reading shows.
pub open spec fn clock_of(local: int) -> (u32, u32) {
    let s = local % 86400;
    ((s / 3600) as u32, ((s % 3600) / 60) as u32)
}

/// The new range of an edited event: `timespan` read on `date` or, without
/// a date, on the event's own day in `zone`; without a timespan but with a
/// date, the event's own times of day moved to that date; neither keeps the
/// range.
pub open spec fn edit_range_outcome(
    e: EventView,
    ts: Option<Seq<char>>,
    date: Option<Seq<char>>,
    rounding: int,
    zone: Seq<char>,
) -> Result<(i64, i64), ScheduleError> {
    match date {
        Some(d) => match epoch_day_of(d) {
            None => Err(ScheduleError::InvalidFormat),
            Some(day) => match ts {
                Some(t) => span_outcome(t, day as int, rounding, zone),
                None => match (local_of_utc(zone, e.start), local_of_utc(zone, e.end)) {
                    (Some(ls), Some(le)) => hm_span_outcome(
                        day as int,
                        clock_of(ls),
                        clock_of(le),
                        rounding,
                        zone,
                    ),
                    _ => Err(ScheduleError::UnresolvedTime),
                },
            },
        },
        None => match ts {
            Some(t) => match local_of_utc(zone, e.start) {
                Some(l) => span_outcome(t, l / 86400, rounding, zone),
                None => Err(ScheduleError::UnresolvedTime),
            },
            None => Ok((e.start as i64, e.end as i64)),
        },
    }
}

fn clock_reading(local: i128) -> (r: (u32, u32))
    ensures
        r == clock_of(local as int),
        r.0 < 24 && r.1 < 60,
{
    let s = local.checked_rem_euclid(SECONDS_PER_DAY as i128).unwrap();
    ((s / 3600) as u32, ((s % 3600) / 60) as u32)
}

/// Works out the range of an edited event (see `edit_range_outcome`).
pub fn edit_range(
    current: &ScheduleEvent,
    timespan: Option<&str>,
    date: Option<&str>,
    rounding: u32,
    zone: &str,
) -> (r: Result<(i64, i64), ScheduleError>)
    requires
        rounding > 0,
    ensures
        r == edit_range_outcome(
            current@,
            crate::range::text_opt(timespan),
            crate::range::text_opt(date),
            rounding as int,
            zone@,
        ),
{
    match date {
        Some(d) => {
            let day = match parse_calendar_date(d) {
                Some(k) => k as i64,
                None => return Err(ScheduleError::InvalidFormat),
            };
            match timespan {
                Some(t) => parse_range_on_day(t, day, rounding, zone),
                None => {
                    match (
                        local_reading(zone, current.start_time),
                        local_reading(zone, current.end_time),
                    ) {
                        (Some(ls), Some(le)) => span_on_day(
                            day,
                            clock_reading(ls),
                            clock_reading(le),
                            rounding,
                            zone,
                        ),
                        _ => Err(ScheduleError::UnresolvedTime),
                    }
                },
            }
        },
        None => match timespan {
            Some(t) => match local_day(zone, current.start_time) {
                Some(day) => parse_range_on_day(t, day, rounding, zone),
                None => Err(ScheduleError::UnresolvedTime),
            },
            None => Ok((current.start_time, current.end_time)),
        },
    }
}

} // verus!
