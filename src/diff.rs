//! The difference between two snapshots of the event set, keyed by id.

use vstd::prelude::*;
use crate::event::{ScheduleEvent, EventView, views, text_view, same_text};

verus! {

#[derive(Clone, Copy, Debug, PartialEq, Eq, Structural)]
pub enum Field {
    Start,
    End,
    Summary,
    Note,
    Location,
    Booked,
}

/// A value that appeared, disappeared, or was replaced.
#[derive(Clone, Copy, Debug, PartialEq, Eq, Structural)]
pub enum ChangeKind {
    Added,
    Removed,
    Changed,
}

#[derive(Clone, Copy, Debug, PartialEq, Eq, Structural)]
pub struct FieldChange {
    pub field: Field,
    pub kind: ChangeKind,
}

/// An optional text that differs: added where it was absent, removed where
/// it is now absent, changed otherwise.
pub open spec fn text_kind(a: Option<Seq<char>>, b: Option<Seq<char>>) -> ChangeKind {
    match (a, b) {
        (Some(_), None) => ChangeKind::Removed,
        (None, Some(_)) => ChangeKind::Added,
        _ => ChangeKind::Changed,
    }
}

pub open spec fn change_if(differs: bool, field: Field, kind: ChangeKind) -> Seq<FieldChange> {
    if differs {
        seq![FieldChange { field, kind }]
    } else {
        seq![]
    }
}

/// The fields in which `b` differs from `a`, in the order start, end,
/// summary, note, location, booked.
pub open spec fn field_changes(a: EventView, b: EventView) -> Seq<FieldChange> {
    change_if(a.start != b.start, Field::Start, ChangeKind::Changed) + change_if(
        a.end != b.end,
        Field::End,
        ChangeKind::Changed,
    ) + change_if(a.summary != b.summary, Field::Summary, ChangeKind::Changed) + change_if(
        a.note != b.note,
        Field::Note,
        text_kind(a.note, b.note),
    ) + change_if(a.location != b.location, Field::Location, text_kind(a.location, b.location))
        + change_if(a.booked != b.booked, Field::Booked, ChangeKind::Changed)
}

fn push_if(v: &mut Vec<FieldChange>, differs: bool, field: Field, kind: ChangeKind)
    ensures
        final(v)@ == old(v)@ + change_if(differs, field, kind),
{
    if differs {
        v.push(FieldChange { field, kind });
    }
    assert(v@ =~= old(v)@ + change_if(differs, field, kind));
}

fn kind_of_text(a: &Option<String>, b: &Option<String>) -> (r: ChangeKind)
    ensures
        r == text_kind(text_view(*a), text_view(*b)),
{
    match (a, b) {
        (Some(_), None) => ChangeKind::Removed,
        (None, Some(_)) => ChangeKind::Added,
        _ => ChangeKind::Changed,
    }
}

/// The fields in which `after` differs from `before`.
pub fn compare_events(before: &ScheduleEvent, after: &ScheduleEvent) -> (r: Vec<FieldChange>)
    ensures
        r@ == field_changes(before@, after@),
{
    let mut v: Vec<FieldChange> = Vec::new();
    push_if(&mut v, before.start_time != after.start_time, Field::Start, ChangeKind::Changed);
    push_if(&mut v, before.end_time != after.end_time, Field::End, ChangeKind::Changed);
    push_if(&mut v, !(before.summary == after.summary), Field::Summary, ChangeKind::Changed);
    let note_kind = kind_of_text(&before.note, &after.note);
    push_if(&mut v, !same_text(&before.note, &after.note), Field::Note, note_kind);
    let location_kind = kind_of_text(&before.location, &after.location);
    push_if(&mut v, !same_text(&before.location, &after.location), Field::Location, location_kind);
    push_if(&mut v, before.booked != after.booked, Field::Booked, ChangeKind::Changed);
    assert(v@ =~= field_changes(before@, after@));
    v
}

/// The position of the last event of `s` with id `id`.
pub open spec fn last_with_id(s: Seq<EventView>, id: Seq<char>) -> Option<int>
    decreases s.len(),
{
    if s.len() == 0 {
        None
    } else if s.last().id == id {
        Some(s.len() - 1)
    } else {
        last_with_id(s.drop_last(), id)
    }
}

/// Whether position `i` of `s` holds the event that `s` keeps for its id
/// (the last one with that id).
pub open spec fn keyed_at(s: Seq<EventView>, i: int) -> bool {
    last_with_id(s, s[i].id) == Some(i)
}

/// The events of `b` among its first `n` whose id `a` lacks.
pub open spec fn removed_upto(b: Seq<EventView>, a: Seq<EventView>, n: int) -> Seq<EventView>
    decreases n,
{
    if n <= 0 {
        seq![]
    } else if keyed_at(b, n - 1) && last_with_id(a, b[n - 1].id) is None {
        removed_upto(b, a, n - 1).push(b[n - 1])
    } else {
        removed_upto(b, a, n - 1)
    }
}

/// One event changed between the snapshots.
pub struct EventChange {
    pub before: ScheduleEvent,
    pub after: ScheduleEvent,
    pub changes: Vec<FieldChange>,
}

/// The events of `a` among its first `n` whose id `b` has too, with the
/// fields in which they differ from `b`'s event; unchanged ones left out.
pub open spec fn modified_upto(b: Seq<EventView>, a: Seq<EventView>, n: int) -> Seq<
    (EventView, EventView),
>
    decreases n,
{
    if n <= 0 {
        seq![]
    } else {
        let rest = modified_upto(b, a, n - 1);
        match last_with_id(b, a[n - 1].id) {
            Some(k) => if keyed_at(a, n - 1) && field_changes(b[k], a[n - 1]).len() > 0 {
                rest.push((b[k], a[n - 1]))
            } else {
                rest
            },
            None => rest,
        }
    }
}

/// Removed, added and modified events between two snapshots.
pub struct EventDiff {
    pub removed: Vec<ScheduleEvent>,
    pub added: Vec<ScheduleEvent>,
    pub modified: Vec<EventChange>,
}

fn find_last_id(s: &Vec<ScheduleEvent>, id: &String) -> (r: Option<usize>)
    ensures
        match r {
            Some(k) => k < s@.len() && last_with_id(views(s@), id@) == Some(k as int),
            None => last_with_id(views(s@), id@) is None,
        },
{
    let ghost v = views(s@);
    let mut k: usize = s.len();
    assert(v.take(k as int) =~= v);
    while k > 0
        invariant
            0 <= k <= s.len(),
            v == views(s@),
            last_with_id(v, id@) == last_with_id(v.take(k as int), id@),
        decreases k,
    {
        assert(v.take(k as int).last() == s@[k - 1]@);
        if s[k - 1].id == *id {
            return Some(k - 1);
        }
        assert(v.take(k as int).drop_last() =~= v.take(k - 1));
        k = k - 1;
    }
    None
}

/// Compares two snapshots by id. An event is identified with the last one
/// of its id in each snapshot: those whose id only `before` has are
/// removed, those whose id only `after` has are added, and those in both
/// that differ in some field are modified.
pub fn event_diff(before: &Vec<ScheduleEvent>, after: &Vec<ScheduleEvent>) -> (r: EventDiff)
    ensures
        views(r.removed@) == removed_upto(views(before@), views(after@), before@.len() as int),
        views(r.added@) == removed_upto(views(after@), views(before@), after@.len() as int),
        r.modified@.len() == modified_upto(views(before@), views(after@), after@.len() as int).len(),
        forall|i: int|
            0 <= i < r.modified@.len() ==> {
                let m = modified_upto(views(before@), views(after@), after@.len() as int)[i];
                &&& (#[trigger] r.modified@[i]).before@ == m.0
                &&& r.modified@[i].after@ == m.1
                &&& r.modified@[i].changes@ == field_changes(m.0, m.1)
            },
{
    let ghost b = views(before@);
    let ghost a = views(after@);
    let mut removed: Vec<ScheduleEvent> = Vec::new();
    let mut i: usize = 0;
    while i < before.len()
        invariant
            0 <= i <= before.len(),
            b == views(before@),
            a == views(after@),
            views(removed@) == removed_upto(b, a, i as int),
        decreases before.len() - i,
    {
        let e = &before[i];
        assert(b[i as int] == e@);
        let own = find_last_id(before, &e.id);
        if own == Some(i) && find_last_id(after, &e.id).is_none() {
            removed.push(e.copied());
        }
        i = i + 1;
    }
    let mut added: Vec<ScheduleEvent> = Vec::new();
    let mut modified: Vec<EventChange> = Vec::new();
    let mut j: usize = 0;
    while j < after.len()
        invariant
            0 <= j <= after.len(),
            b == views(before@),
            a == views(after@),
            views(added@) == removed_upto(a, b, j as int),
            modified@.len() == modified_upto(b, a, j as int).len(),
            forall|k: int|
                0 <= k < modified@.len() ==> {
                    let m = modified_upto(b, a, j as int)[k];
                    &&& (#[trigger] modified@[k]).before@ == m.0
                    &&& modified@[k].after@ == m.1
                    &&& modified@[k].changes@ == field_changes(m.0, m.1)
                },
        decreases after.len() - j,
    {
        let e = &after[j];
        assert(a[j as int] == e@);
        let own = find_last_id(after, &e.id);
        let keyed = own == Some(j);
        let ghost old_mod = modified@;
        match find_last_id(before, &e.id) {
            Some(k) => {
                assert(b[k as int] == before@[k as int]@);
                if keyed {
                    let changes = compare_events(&before[k], e);
                    if changes.len() > 0 {
                        modified.push(
                            EventChange { before: before[k].copied(), after: e.copied(), changes },
                        );
                    }
                }
            },
            None => {
                if keyed {
                    added.push(e.copied());
                }
            },
        }
        assert forall|k: int| 0 <= k < old_mod.len() implies modified@[k] == old_mod[k] by {}
        j = j + 1;
    }
    EventDiff { removed, added, modified }
}

} // verus!
