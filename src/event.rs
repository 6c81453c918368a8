//! The event record, its mathematical view, and the predicates on time ranges
//! that the rest of the library is stated over.

use vstd::prelude::*;

verus! {

/// One time-boxed activity. Instants are seconds since the Unix epoch (UTC).
#[derive(Clone, Debug)]
pub struct ScheduleEvent {
    pub id: String,
    pub start_time: i64,
    pub end_time: i64,
    pub summary: String,
    pub note: Option<String>,
    pub location: Option<String>,
    pub booked: bool,
}

/// Events are the same event when their ids agree.
impl PartialEq for ScheduleEvent {
    fn eq(&self, other: &ScheduleEvent) -> (r: bool) {
        self.id == other.id
    }
}

impl vstd::std_specs::cmp::PartialEqSpecImpl for ScheduleEvent {
    open spec fn obeys_eq_spec() -> bool {
        true
    }

    open spec fn eq_spec(&self, other: &ScheduleEvent) -> bool {
        self.id@ == other.id@
    }
}

/// The mathematical view of an event.
pub struct EventView {
    pub id: Seq<char>,
    pub start: int,
    pub end: int,
    pub summary: Seq<char>,
    pub note: Option<Seq<char>>,
    pub location: Option<Seq<char>>,
    pub booked: bool,
}

pub open spec fn text_view(t: Option<String>) -> Option<Seq<char>> {
    match t {
        Some(s) => Some(s@),
        None => None,
    }
}

impl View for ScheduleEvent {
    type V = EventView;

    open spec fn view(&self) -> EventView {
        EventView {
            id: self.id@,
            start: self.start_time as int,
            end: self.end_time as int,
            summary: self.summary@,
            note: text_view(self.note),
            location: text_view(self.location),
            booked: self.booked,
        }
    }
}

/// The views of a sequence of events.
pub open spec fn views(s: Seq<ScheduleEvent>) -> Seq<EventView> {
    s.map_values(|e: ScheduleEvent| e@)
}

/// An event whose range is non-empty.
pub open spec fn valid(e: EventView) -> bool {
    e.start < e.end
}

pub open spec fn all_valid(s: Seq<EventView>) -> bool {
    forall|i: int| 0 <= i < s.len() ==> #[trigger] valid(s[i])
}

/// Strict overlap of two half-open ranges.
pub open spec fn overlaps(a: EventView, b: EventView) -> bool {
    a.start < b.end && a.end > b.start
}

/// No two events at different positions overlap.
pub open spec fn disjoint_all(s: Seq<EventView>) -> bool {
    forall|i: int, j: int|
        0 <= i < s.len() && 0 <= j < s.len() && i != j ==> !#[trigger] overlaps(s[i], s[j])
}

/// Everything but the id and the range agrees.
pub open spec fn same_attrs(a: EventView, b: EventView) -> bool {
    &&& a.summary == b.summary
    &&& a.note == b.note
    &&& a.location == b.location
    &&& a.booked == b.booked
}

/// `e` with another id and range, its other fields kept.
pub open spec fn with_span(e: EventView, id: Seq<char>, start: int, end: int) -> EventView {
    EventView { id, start, end, ..e }
}

pub fn copy_text(t: &Option<String>) -> (r: Option<String>)
    ensures
        r == *t,
{
    match t {
        Some(s) => Some(s.clone()),
        None => None,
    }
}

pub fn same_text(a: &Option<String>, b: &Option<String>) -> (r: bool)
    ensures
        r == (text_view(*a) == text_view(*b)),
{
    match (a, b) {
        (Some(x), Some(y)) => *x == *y,
        (None, None) => true,
        _ => false,
    }
}

impl ScheduleEvent {
    /// A field-by-field copy.
    pub fn copied(&self) -> (r: ScheduleEvent)
        ensures
            r == *self,
    {
        ScheduleEvent {
            id: self.id.clone(),
            start_time: self.start_time,
            end_time: self.end_time,
            summary: self.summary.clone(),
            note: copy_text(&self.note),
            location: copy_text(&self.location),
            booked: self.booked,
        }
    }

    /// A copy with another id and range.
    pub fn with_range(&self, id: String, start_time: i64, end_time: i64) -> (r: ScheduleEvent)
        ensures
            r@ == with_span(self@, id@, start_time as int, end_time as int),
    {
        ScheduleEvent {
            id,
            start_time,
            end_time,
            summary: self.summary.clone(),
            note: copy_text(&self.note),
            location: copy_text(&self.location),
            booked: self.booked,
        }
    }

    /// Whether `other` continues this event: same attributes, and it starts
    /// where this one ends.
    pub fn can_merge(&self, other: &ScheduleEvent) -> (r: bool)
        ensures
            r == (same_attrs(self@, other@) && self@.end == other@.start),
    {
        self.summary == other.summary && same_text(&self.note, &other.note) && same_text(
            &self.location,
            &other.location,
        ) && self.booked == other.booked && self.end_time == other.start_time
    }

    pub fn has_same_attrs(&self, other: &ScheduleEvent) -> (r: bool)
        ensures
            r == same_attrs(self@, other@),
    {
        self.summary == other.summary && same_text(&self.note, &other.note) && same_text(
            &self.location,
            &other.location,
        ) && self.booked == other.booked
    }
}

} // verus!
