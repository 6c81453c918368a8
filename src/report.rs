//! Monthly report of a project: time per task, booked and planned time, and
//! the variance against a target.

use vstd::prelude::*;
use crate::event::{ScheduleEvent, EventView, views};
use crate::text::{split_first, starts_with_then, has_prefix_then, cut_at, first_pos};
use crate::clock::{local_of_utc, year_month_of, calendar_month_of_day};
use crate::range::local_day;
use crate::label::project_of;

verus! {

/// The task part of a label: what follows its first colon.
pub open spec fn task_of(summary: Seq<char>) -> Seq<char> {
    match cut_at(summary, first_pos(summary, ':')) {
        Some((_, t)) => t,
        None => seq![],
    }
}

/// Whether `e` belongs to `project` and starts in the given month on the
/// clock of `zone`.
pub open spec fn in_report(e: EventView, project: Seq<char>, zone: Seq<char>, year: i32, month: u32) -> bool {
    &&& has_prefix_then(e.summary, project, ':')
    &&& match local_of_utc(zone, e.start) {
        Some(l) => i32::MIN <= l / 86400 <= i32::MAX && year_month_of(l / 86400) == Some(
            (year, month),
        ),
        None => false,
    }
}

/// The events of the report, in order.
pub open spec fn selected(es: Seq<EventView>, project: Seq<char>, zone: Seq<char>, year: i32, month: u32) -> Seq<EventView>
    decreases es.len(),
{
    if es.len() == 0 {
        seq![]
    } else if in_report(es.last(), project, zone, year, month) {
        selected(es.drop_last(), project, zone, year, month).push(es.last())
    } else {
        selected(es.drop_last(), project, zone, year, month)
    }
}

pub open spec fn span(e: EventView) -> int {
    e.end - e.start
}

/// Total length of the events of `es`.
pub open spec fn sum_spans(es: Seq<EventView>) -> int
    decreases es.len(),
{
    if es.len() == 0 {
        0
    } else {
        sum_spans(es.drop_last()) + span(es.last())
    }
}

/// The events of `es` whose `booked` flag is `flag`.
pub open spec fn with_booked(es: Seq<EventView>, flag: bool) -> Seq<EventView>
    decreases es.len(),
{
    if es.len() == 0 {
        seq![]
    } else if es.last().booked == flag {
        with_booked(es.drop_last(), flag).push(es.last())
    } else {
        with_booked(es.drop_last(), flag)
    }
}

/// What events are grouped by.
#[derive(Clone, Copy, Debug, PartialEq, Eq, Structural)]
pub enum GroupBy {
    Task,
    Project,
}

/// The group of a label.
pub open spec fn key_of(by: GroupBy, summary: Seq<char>) -> Seq<char> {
    match by {
        GroupBy::Task => task_of(summary),
        GroupBy::Project => project_of(summary),
    }
}

/// The events of `es` in group `t`.
pub open spec fn of_key(es: Seq<EventView>, by: GroupBy, t: Seq<char>) -> Seq<EventView>
    decreases es.len(),
{
    if es.len() == 0 {
        seq![]
    } else if key_of(by, es.last().summary) == t {
        of_key(es.drop_last(), by, t).push(es.last())
    } else {
        of_key(es.drop_last(), by, t)
    }
}

/// The groups of `es`, each once, in order of first appearance.
pub open spec fn key_names(es: Seq<EventView>, by: GroupBy) -> Seq<Seq<char>>
    decreases es.len(),
{
    if es.len() == 0 {
        seq![]
    } else if key_names(es.drop_last(), by).contains(key_of(by, es.last().summary)) {
        key_names(es.drop_last(), by)
    } else {
        key_names(es.drop_last(), by).push(key_of(by, es.last().summary))
    }
}

proof fn lemma_key_names_distinct(es: Seq<EventView>, by: GroupBy)
    ensures
        key_names(es, by).no_duplicates(),
    decreases es.len(),
{
    if es.len() > 0 {
        lemma_key_names_distinct(es.drop_last(), by);
    }
}

proof fn lemma_unnamed_key_empty(es: Seq<EventView>, by: GroupBy, t: Seq<char>)
    requires
        !key_names(es, by).contains(t),
    ensures
        of_key(es, by, t) == Seq::<EventView>::empty(),
    decreases es.len(),
{
    if es.len() > 0 {
        let d = es.drop_last();
        if key_names(d, by).contains(t) {
            let k = choose|k: int| 0 <= k < key_names(d, by).len() && key_names(d, by)[k] == t;
            if key_names(es, by) != key_names(d, by) {
                assert(key_names(es, by)[k] == t);
            }
        } else {
            lemma_unnamed_key_empty(d, by, t);
            if key_of(by, es.last().summary) == t {
                assert(key_names(es, by)[key_names(d, by).len() as int] == t);
            }
        }
    }
}

/// Time logged in one group.
pub struct GroupTotal {
    pub key: String,
    /// Seconds.
    pub total: i128,
}

/// Events grouped: the events, the group of each (as a position in
/// `groups`), time per group, and the overall, booked and planned time, all
/// in seconds.
pub struct Tally {
    pub events: Vec<ScheduleEvent>,
    pub group_of_event: Vec<usize>,
    pub groups: Vec<GroupTotal>,
    pub total: i128,
    pub booked: i128,
    pub planned: i128,
}

impl Tally {
    /// The tally of the event views `es`, grouped `by`.
    pub open spec fn describes(&self, es: Seq<EventView>, by: GroupBy) -> bool {
        let names = key_names(es, by);
        &&& views(self.events@) == es
        &&& self.group_of_event@.len() == es.len()
        &&& forall|i: int|
            0 <= i < es.len() ==> #[trigger] self.group_of_event@[i] < names.len()
                && names[self.group_of_event@[i] as int] == key_of(by, es[i].summary)
        &&& self.groups@.len() == names.len()
        &&& forall|j: int|
            0 <= j < names.len() ==> (#[trigger] self.groups@[j]).key@ == names[j]
                && self.groups@[j].total == sum_spans(of_key(es, by, names[j]))
        &&& self.total == sum_spans(es)
        &&& self.booked == sum_spans(with_booked(es, true))
        &&& self.planned == sum_spans(with_booked(es, false))
    }
}

fn in_report_exec(e: &ScheduleEvent, project: &str, zone: &str, year: i32, month: u32) -> (r: bool)
    ensures
        r == in_report(e@, project@, zone@, year, month),
{
    if !starts_with_then(e.summary.as_str(), project, ':') {
        return false;
    }
    match local_day(zone, e.start_time) {
        Some(day) => {
            if day < i32::MIN as i64 || day > i32::MAX as i64 {
                false
            } else {
                match calendar_month_of_day(day as i32) {
                    Some((y, m)) => y == year && m == month,
                    None => false,
                }
            }
        },
        None => false,
    }
}

pub const SPAN_BOUND: i128 = 0x1_0000_0000_0000_0000;

fn group_index(groups: &Vec<GroupTotal>, t: &String) -> (r: Option<usize>)
    ensures
        match r {
            Some(k) => k < groups@.len() && groups@[k as int].key@ == t@,
            None => forall|j: int| 0 <= j < groups@.len() ==> (#[trigger] groups@[j]).key@ != t@,
        },
{
    let mut j: usize = 0;
    while j < groups.len()
        invariant
            0 <= j <= groups.len(),
            forall|m: int| 0 <= m < j ==> (#[trigger] groups@[m]).key@ != t@,
        decreases groups.len() - j,
    {
        if groups[j].key == *t {
            return Some(j);
        }
        j = j + 1;
    }
    None
}

fn group_key(summary: &String, by: GroupBy) -> (r: String)
    ensures
        r@ == key_of(by, summary@),
{
    match split_first(summary.as_str(), ':') {
        Some((p, t)) => match by {
            GroupBy::Task => t,
            GroupBy::Project => p,
        },
        None => String::new(),
    }
}

/// Groups `events` by task or by project, summing their lengths.
pub fn tally(events: &Vec<ScheduleEvent>, by: GroupBy) -> (r: Tally)
    requires
        events@.len() <= isize::MAX,
    ensures
        r.describes(views(events@), by),
{
    let ghost es = views(events@);
    let mut picked: Vec<ScheduleEvent> = Vec::new();
    let mut group_of_event: Vec<usize> = Vec::new();
    let mut groups: Vec<GroupTotal> = Vec::new();
    let mut total: i128 = 0;
    let mut booked: i128 = 0;
    let mut planned: i128 = 0;
    let mut i: usize = 0;
    while i < events.len()
        invariant
            0 <= i <= events.len(),
            events@.len() <= isize::MAX,
            es == views(events@),
            views(picked@) == es.take(i as int),
            group_of_event@.len() == i,
            forall|k: int|
                0 <= k < group_of_event@.len() ==> #[trigger] group_of_event@[k] < key_names(
                    es.take(i as int),
                    by,
                ).len() && key_names(es.take(i as int), by)[group_of_event@[k] as int] == key_of(
                    by,
                    es[k].summary,
                ),
            groups@.len() == key_names(es.take(i as int), by).len(),
            forall|j: int|
                0 <= j < groups@.len() ==> (#[trigger] groups@[j]).key@ == key_names(
                    es.take(i as int),
                    by,
                )[j] && groups@[j].total == sum_spans(of_key(es.take(i as int), by, groups@[j].key@))
                    && -(i * SPAN_BOUND) <= groups@[j].total <= i * SPAN_BOUND,
            total == sum_spans(es.take(i as int)),
            booked == sum_spans(with_booked(es.take(i as int), true)),
            planned == sum_spans(with_booked(es.take(i as int), false)),
            -(i * SPAN_BOUND) <= total <= i * SPAN_BOUND,
            -(i * SPAN_BOUND) <= booked <= i * SPAN_BOUND,
            -(i * SPAN_BOUND) <= planned <= i * SPAN_BOUND,
        decreases events.len() - i,
    {
        let ghost sel0 = es.take(i as int);
        let ghost names0 = key_names(sel0, by);
        let ghost sel1 = es.take(i + 1);
        assert(sel1.drop_last() =~= sel0);
        assert(sel1.last() == events@[i as int]@);
        assert((i + 1) * SPAN_BOUND == i * SPAN_BOUND + SPAN_BOUND) by (nonlinear_arith);
        assert(i * SPAN_BOUND >= 0) by (nonlinear_arith)
            requires
                i >= 0,
        ;
        assert((i + 1) * SPAN_BOUND <= isize::MAX * SPAN_BOUND) by (nonlinear_arith)
            requires
                i + 1 <= isize::MAX,
        ;
        let e = &events[i];
        let d: i128 = e.end_time as i128 - e.start_time as i128;
        let key = group_key(&e.summary, by);
        total = total + d;
        if e.booked {
            booked = booked + d;
            assert(with_booked(sel1, false) == with_booked(sel0, false));
            let ghost w = with_booked(sel0, true);
            assert(with_booked(sel1, true) == w.push(e@));
            assert(w.push(e@).drop_last() =~= w);
        } else {
            planned = planned + d;
            assert(with_booked(sel1, true) == with_booked(sel0, true));
            let ghost w = with_booked(sel0, false);
            assert(with_booked(sel1, false) == w.push(e@));
            assert(w.push(e@).drop_last() =~= w);
        }
        proof {
            lemma_key_names_distinct(sel0, by);
        }
        let ghost old_groups = groups@;
        let ghost old_index = group_of_event@;
        match group_index(&groups, &key) {
            Some(k) => {
                let entry = GroupTotal { key: groups[k].key.clone(), total: groups[k].total + d };
                groups.set(k, entry);
                group_of_event.push(k);
                assert(names0[k as int] == key@);
                assert(names0.contains(key@));
                assert(key_names(sel1, by) == names0);
                assert forall|j: int| 0 <= j < groups@.len() implies (#[trigger] groups@[j]).key@
                    == names0[j] && groups@[j].total == sum_spans(of_key(sel1, by, groups@[j].key@))
                    && -((i + 1) * SPAN_BOUND) <= groups@[j].total <= (i + 1) * SPAN_BOUND by {
                    let oj = old_groups[j];
                    assert(oj.key@ == names0[j]);
                    assert(oj.total == sum_spans(of_key(sel0, by, oj.key@)));
                    if j != k {
                        assert(oj == groups@[j]);
                        assert(names0[j] != names0[k as int]);
                        assert(of_key(sel1, by, names0[j]) == of_key(sel0, by, names0[j]));
                    } else {
                        let o = of_key(sel0, by, names0[j]);
                        assert(of_key(sel1, by, names0[j]) == o.push(e@));
                        assert(o.push(e@).drop_last() =~= o);
                        assert(sum_spans(o.push(e@)) == sum_spans(o) + span(e@));
                    }
                }
            },
            None => {
                assert forall|j: int| 0 <= j < names0.len() implies names0[j] != key@ by {
                    assert(groups@[j].key@ == names0[j]);
                }
                assert(!names0.contains(key@));
                proof {
                    lemma_unnamed_key_empty(sel0, by, key@);
                }
                group_of_event.push(groups.len());
                groups.push(GroupTotal { key, total: d });
                let ghost names1 = names0.push(key_of(by, e@.summary));
                assert(key_names(sel1, by) == names1);
                assert(of_key(sel1, by, key_of(by, e@.summary)) == seq![e@]);
                assert(seq![e@].drop_last() =~= Seq::<EventView>::empty());
                assert(seq![e@].len() == 1 && seq![e@].last() == e@);
                assert(sum_spans(Seq::<EventView>::empty()) == 0);
                assert(sum_spans(seq![e@]) == d);
                assert forall|j: int| 0 <= j < groups@.len() implies (#[trigger] groups@[j]).key@
                    == names1[j] && groups@[j].total == sum_spans(of_key(sel1, by, groups@[j].key@))
                    && -((i + 1) * SPAN_BOUND) <= groups@[j].total <= (i + 1) * SPAN_BOUND by {
                    if j < names0.len() {
                        let oj = old_groups[j];
                        assert(oj.key@ == names0[j]);
                        assert(oj.total == sum_spans(of_key(sel0, by, oj.key@)));
                        assert(groups@[j] == oj);
                        assert(names0[j] != key_of(by, e@.summary));
                        assert(of_key(sel1, by, names0[j]) == of_key(sel0, by, names0[j]));
                    }
                }
            },
        }
        picked.push(e.copied());
        assert(views(picked@) =~= sel1);
        assert forall|k: int| 0 <= k < group_of_event@.len() implies #[trigger] group_of_event@[k]
            < key_names(sel1, by).len() && key_names(sel1, by)[group_of_event@[k] as int] == key_of(
            by,
            es[k].summary,
        ) by {
            if k < i {
                assert(group_of_event@[k] == old_index[k]);
                assert(key_names(sel1, by).len() >= names0.len());
                assert(key_names(sel1, by)[old_index[k] as int] == names0[old_index[k] as int]);
            }
        }
        i = i + 1;
    }
    assert(es.take(i as int) =~= es);
    Tally { events: picked, group_of_event, groups, total, booked, planned }
}

/// The events of the report of `project` for `month` of `year` (see
/// `in_report`), in order.
pub fn select_for_report(events: &Vec<ScheduleEvent>, project: &str, year: i32, month: u32, zone: &str) -> (r: Vec<ScheduleEvent>)
    ensures
        views(r@) == selected(views(events@), project@, zone@, year, month),
        r@.len() <= events@.len(),
{
    let ghost es = views(events@);
    let mut picked: Vec<ScheduleEvent> = Vec::new();
    let mut i: usize = 0;
    while i < events.len()
        invariant
            0 <= i <= events.len(),
            es == views(events@),
            views(picked@) == selected(es.take(i as int), project@, zone@, year, month),
            picked@.len() <= i,
        decreases events.len() - i,
    {
        assert(es.take(i + 1).drop_last() =~= es.take(i as int));
        assert(es.take(i + 1).last() == events@[i as int]@);
        if in_report_exec(&events[i], project, zone, year, month) {
            picked.push(events[i].copied());
        }
        i = i + 1;
    }
    assert(es.take(i as int) =~= es);
    picked
}

/// The report of `project` for `month` of `year`: the events whose label
/// starts with `project:` and which start in that month on the clock of the
/// zone named `zone`, grouped by task.
pub fn aggregate(events: &Vec<ScheduleEvent>, project: &str, year: i32, month: u32, zone: &str) -> (r: Tally)
    requires
        events@.len() <= isize::MAX,
    ensures
        r.describes(selected(views(events@), project@, zone@, year, month), GroupBy::Task),
{
    let picked = select_for_report(events, project, year, month, zone);
    tally(&picked, GroupBy::Task)
}

/// The events of `es` that lie within the range from `from` to `to`.
pub open spec fn within(es: Seq<EventView>, from: int, to: int) -> Seq<EventView>
    decreases es.len(),
{
    if es.len() == 0 {
        seq![]
    } else if es.last().start >= from && es.last().end <= to {
        within(es.drop_last(), from, to).push(es.last())
    } else {
        within(es.drop_last(), from, to)
    }
}

/// The events that lie within the range from `from` to `to`, grouped by
/// project.
pub fn project_summary(events: &Vec<ScheduleEvent>, from: i64, to: i64) -> (r: Tally)
    requires
        events@.len() <= isize::MAX,
    ensures
        r.describes(within(views(events@), from as int, to as int), GroupBy::Project),
{
    let ghost es = views(events@);
    let mut picked: Vec<ScheduleEvent> = Vec::new();
    let mut i: usize = 0;
    while i < events.len()
        invariant
            0 <= i <= events.len(),
            es == views(events@),
            views(picked@) == within(es.take(i as int), from as int, to as int),
            picked@.len() <= i,
        decreases events.len() - i,
    {
        assert(es.take(i + 1).drop_last() =~= es.take(i as int));
        assert(es.take(i + 1).last() == events@[i as int]@);
        if events[i].start_time >= from && events[i].end_time <= to {
            picked.push(events[i].copied());
        }
        i = i + 1;
    }
    assert(es.take(i as int) =~= es);
    tally(&picked, GroupBy::Project)
}

/// `a / b` rounded toward zero, for `b > 0`.
pub open spec fn trunc_div(a: int, b: int) -> int {
    if a >= 0 {
        a / b
    } else {
        -((-a) / b)
    }
}

/// `a / b` rounded to the nearest integer, halves away from zero.
pub open spec fn round_div(a: int, b: int) -> int {
    let n = if b < 0 {
        -a
    } else {
        a
    };
    let d = if b < 0 {
        -b
    } else {
        b
    };
    if n >= 0 {
        (2 * n + d) / (2 * d)
    } else {
        -((2 * (-n) + d) / (2 * d))
    }
}

/// Logged time against a target.
#[derive(Clone, Copy, Debug, PartialEq, Eq, Structural)]
pub struct Variance {
    /// Logged minus target, in seconds.
    pub diff_seconds: i128,
    /// The difference in whole minutes, rounded toward zero.
    pub diff_minutes: i128,
    /// Whether more time was logged than the target.
    pub overrun: bool,
    /// The difference in minutes as a percentage of the target, in
    /// hundredths of a percent; 0 for a zero target.
    pub percent_hundredths: i128,
}

pub const VARIANCE_BOUND: i128 = 0x10_0000_0000_0000_0000_0000_0000;

/// Compares `total_seconds` of logged time with a target of
/// `target_minutes` minutes.
pub fn variance(total_seconds: i128, target_minutes: i64) -> (r: Variance)
    requires
        -VARIANCE_BOUND < total_seconds < VARIANCE_BOUND,
    ensures
        r.diff_seconds == total_seconds - target_minutes * 60,
        r.diff_minutes == trunc_div(r.diff_seconds as int, 60),
        r.overrun == (r.diff_seconds > 0),
        r.percent_hundredths == (if target_minutes == 0 {
            0
        } else {
            round_div(r.diff_minutes * 10000, target_minutes as int)
        }),
{
    let diff_seconds: i128 = total_seconds - target_minutes as i128 * 60;
    let diff_minutes: i128 = if diff_seconds >= 0 {
        diff_seconds / 60
    } else {
        -((-diff_seconds) / 60)
    };
    assert(-VARIANCE_BOUND <= diff_minutes <= VARIANCE_BOUND);
    let percent_hundredths: i128 = if target_minutes == 0 {
        0
    } else {
        let a = diff_minutes * 10000;
        let n = if target_minutes < 0 {
            -a
        } else {
            a
        };
        let d: i128 = if target_minutes < 0 {
            -(target_minutes as i128)
        } else {
            target_minutes as i128
        };
        if n >= 0 {
            (2 * n + d) / (2 * d)
        } else {
            -((2 * (-n) + d) / (2 * d))
        }
    };
    Variance { diff_seconds, diff_minutes, overrun: diff_seconds > 0, percent_hundredths }
}

} // verus!
