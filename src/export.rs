//! What goes into the calendar export: recent and future events, labelled
//! by project.

use vstd::prelude::*;
use crate::event::{ScheduleEvent, EventView, views, text_view, copy_text};
use crate::error::ScheduleError;
use crate::label::project_of;
use crate::text::{split_first, trim, trimmed, first_pos};

verus! {

pub const EXPORT_PAST_DAYS: i64 = 7;

/// One exported calendar entry.
pub struct CalendarEntry {
    pub uid: String,
    pub start_time: i64,
    pub end_time: i64,
    /// The event's project, trimmed.
    pub summary: String,
    /// Confirmed for a booked event, tentative otherwise.
    pub confirmed: bool,
    pub description: Option<String>,
    pub location: Option<String>,
}

impl CalendarEntry {
    /// The entry exported for `e`.
    pub open spec fn exports(&self, e: EventView, with_notes: bool) -> bool {
        &&& self.uid@ == e.id
        &&& self.start_time == e.start && self.end_time == e.end
        &&& first_pos(e.summary, ':') is Some
        &&& self.summary@ == trimmed(project_of(e.summary))
        &&& self.confirmed == e.booked
        &&& text_view(self.description) == (if with_notes {
            e.note
        } else {
            None
        })
        &&& text_view(self.location) == e.location
    }
}

/// The events of `es` that start at or after `cutoff`.
pub open spec fn recent(es: Seq<EventView>, cutoff: int) -> Seq<EventView>
    decreases es.len(),
{
    if es.len() == 0 {
        seq![]
    } else if es.last().start >= cutoff {
        recent(es.drop_last(), cutoff).push(es.last())
    } else {
        recent(es.drop_last(), cutoff)
    }
}

/// The entries for the events that start at most seven days before `now`;
/// `InvalidFormat` if one of them has a label without a colon.
pub fn calendar_entries(events: &Vec<ScheduleEvent>, now: i64, with_notes: bool) -> (r: Result<
    Vec<CalendarEntry>,
    ScheduleError,
>)
    ensures
        ({
            let sel = recent(views(events@), now - EXPORT_PAST_DAYS * 86400);
            match r {
                Ok(v) => v@.len() == sel.len() && forall|i: int|
                    0 <= i < sel.len() ==> (#[trigger] v@[i]).exports(sel[i], with_notes),
                Err(e) => e == ScheduleError::InvalidFormat && exists|i: int|
                    0 <= i < views(events@).len() && views(events@)[i].start >= now
                        - EXPORT_PAST_DAYS * 86400 && first_pos(
                        #[trigger] views(events@)[i].summary,
                        ':',
                    ) is None,
            }
        }),
{
    let ghost es = views(events@);
    let cutoff: i128 = now as i128 - EXPORT_PAST_DAYS as i128 * 86400;
    let mut out: Vec<CalendarEntry> = Vec::new();
    let mut i: usize = 0;
    while i < events.len()
        invariant
            0 <= i <= events.len(),
            es == views(events@),
            cutoff == now - EXPORT_PAST_DAYS * 86400,
            out@.len() == recent(es.take(i as int), cutoff as int).len(),
            forall|k: int|
                0 <= k < out@.len() ==> (#[trigger] out@[k]).exports(
                    recent(es.take(i as int), cutoff as int)[k],
                    with_notes,
                ),
        decreases events.len() - i,
    {
        let ghost sel0 = recent(es.take(i as int), cutoff as int);
        assert(es.take(i + 1).drop_last() =~= es.take(i as int));
        assert(es.take(i + 1).last() == events@[i as int]@);
        let e = &events[i];
        if e.start_time as i128 >= cutoff {
            let ghost sel1 = sel0.push(e@);
            assert(recent(es.take(i + 1), cutoff as int) == sel1);
            let project = match split_first(e.summary.as_str(), ':') {
                Some((p, _)) => p,
                None => {
                    assert(es[i as int] == e@);
                    assert(first_pos(views(events@)[i as int].summary, ':') is None);
                    return Err(ScheduleError::InvalidFormat);
                },
            };
            let entry = CalendarEntry {
                uid: e.id.clone(),
                start_time: e.start_time,
                end_time: e.end_time,
                summary: trim(project.as_str()),
                confirmed: e.booked,
                description: if with_notes {
                    copy_text(&e.note)
                } else {
                    None
                },
                location: copy_text(&e.location),
            };
            let ghost old_out = out@;
            out.push(entry);
            assert forall|k: int| 0 <= k < out@.len() implies (#[trigger] out@[k]).exports(
                sel1[k],
                with_notes,
            ) by {
                if k < old_out.len() {
                    assert(out@[k] == old_out[k]);
                    assert(sel1[k] == sel0[k]);
                } else {
                    assert(sel1[k] == e@);
                }
            }
        } else {
            assert(recent(es.take(i + 1), cutoff as int) == sel0);
            assert forall|k: int| 0 <= k < out@.len() implies (#[trigger] out@[k]).exports(
                sel0[k],
                with_notes,
            ) by {}
        }
        i = i + 1;
    }
    assert(es.take(i as int) =~= es);
    Ok(out)
}

} // verus!
