//! Stable ordering of events by start time.

use vstd::prelude::*;
use crate::event::{ScheduleEvent, EventView, views, overlaps, disjoint_all, all_valid, valid};

verus! {

broadcast use vstd::seq_lib::group_to_multiset_ensures;

/// Places `x` after every event of `s` that starts no later than it.
pub open spec fn insert_by_start(s: Seq<EventView>, x: EventView) -> Seq<EventView>
    decreases s.len(),
{
    if s.len() == 0 {
        seq![x]
    } else if s.last().start <= x.start {
        s.push(x)
    } else {
        insert_by_start(s.drop_last(), x).push(s.last())
    }
}

/// Stable sort by start time: events that start together keep their order.
pub open spec fn sort_by_start(s: Seq<EventView>) -> Seq<EventView>
    decreases s.len(),
{
    if s.len() == 0 {
        s
    } else {
        insert_by_start(sort_by_start(s.drop_last()), s.last())
    }
}

pub open spec fn starts_ordered(s: Seq<EventView>) -> bool {
    forall|i: int, j: int| 0 <= i <= j < s.len() ==> s[i].start <= s[j].start
}

proof fn lemma_insert_at(s: Seq<EventView>, x: EventView, p: int)
    requires
        0 <= p <= s.len(),
        forall|k: int| p <= k < s.len() ==> s[k].start > x.start,
        p > 0 ==> s[p - 1].start <= x.start,
    ensures
        insert_by_start(s, x) == s.take(p).push(x) + s.skip(p),
    decreases s.len(),
{
    if s.len() == 0 {
        assert(s.take(p).push(x) + s.skip(p) =~= seq![x]);
    } else if s.last().start <= x.start {
        assert(p == s.len());
        assert(s.take(p).push(x) + s.skip(p) =~= s.push(x));
    } else {
        lemma_insert_at(s.drop_last(), x, p);
        assert(s.drop_last().take(p) =~= s.take(p));
        assert((s.drop_last().take(p).push(x) + s.drop_last().skip(p)).push(s.last()) =~= s.take(
            p,
        ).push(x) + s.skip(p));
    }
}

pub proof fn lemma_insert_multiset(s: Seq<EventView>, x: EventView)
    ensures
        insert_by_start(s, x).to_multiset() =~= s.to_multiset().insert(x),
        insert_by_start(s, x).len() == s.len() + 1,
    decreases s.len(),
{
    if s.len() == 0 {
        assert(seq![x] =~= Seq::<EventView>::empty().push(x));
    } else if s.last().start <= x.start {
    } else {
        lemma_insert_multiset(s.drop_last(), x);
        assert(s.drop_last().push(s.last()) =~= s);
    }
}

/// Sorting keeps exactly the same events.
pub proof fn lemma_sort_multiset(s: Seq<EventView>)
    ensures
        sort_by_start(s).to_multiset() =~= s.to_multiset(),
        sort_by_start(s).len() == s.len(),
    decreases s.len(),
{
    if s.len() > 0 {
        lemma_sort_multiset(s.drop_last());
        lemma_insert_multiset(sort_by_start(s.drop_last()), s.last());
        assert(s.drop_last().push(s.last()) =~= s);
    }
}

/// Every event of the sorted sequence is an event of the input, and back.
pub proof fn lemma_sort_members(s: Seq<EventView>)
    ensures
        sort_by_start(s).len() == s.len(),
        forall|y: EventView| #[trigger] sort_by_start(s).contains(y) <==> s.contains(y),
{
    lemma_sort_multiset(s);
    assert forall|y: EventView| #[trigger] sort_by_start(s).contains(y) <==> s.contains(y) by {
        assert(sort_by_start(s).to_multiset().count(y) == s.to_multiset().count(y));
    }
}

proof fn lemma_insert_ordered(s: Seq<EventView>, x: EventView)
    requires
        starts_ordered(s),
    ensures
        starts_ordered(insert_by_start(s, x)),
    decreases s.len(),
{
    if s.len() > 0 && s.last().start > x.start {
        lemma_insert_ordered(s.drop_last(), x);
        lemma_insert_multiset(s.drop_last(), x);
        let t = insert_by_start(s.drop_last(), x);
        assert forall|i: int| 0 <= i < t.len() implies t[i].start <= s.last().start by {
            assert(t.to_multiset().count(t[i]) > 0);
            assert(t.contains(t[i]));
            if t[i] != x {
                assert(s.drop_last().to_multiset().count(t[i]) > 0);
                assert(s.drop_last().contains(t[i]));
            }
        }
    }
}

pub proof fn lemma_sort_ordered(s: Seq<EventView>)
    ensures
        starts_ordered(sort_by_start(s)),
    decreases s.len(),
{
    if s.len() > 0 {
        lemma_sort_ordered(s.drop_last());
        lemma_insert_ordered(sort_by_start(s.drop_last()), s.last());
    }
}

/// A sequence already in start order is left as it is.
pub proof fn lemma_sort_ordered_is_identity(s: Seq<EventView>)
    requires
        starts_ordered(s),
    ensures
        sort_by_start(s) == s,
    decreases s.len(),
{
    if s.len() > 0 {
        lemma_sort_ordered_is_identity(s.drop_last());
        assert(s.drop_last().push(s.last()) =~= s);
    }
}

proof fn lemma_insert_disjoint(s: Seq<EventView>, x: EventView)
    requires
        disjoint_all(s),
        forall|i: int| 0 <= i < s.len() ==> !overlaps(#[trigger] s[i], x) && !overlaps(x, s[i]),
    ensures
        disjoint_all(insert_by_start(s, x)),
    decreases s.len(),
{
    if s.len() > 0 && s.last().start > x.start {
        let d = s.drop_last();
        lemma_insert_disjoint(d, x);
        lemma_insert_multiset(d, x);
        let t = insert_by_start(d, x);
        let r = t.push(s.last());
        assert forall|i: int, j: int|
            0 <= i < r.len() && 0 <= j < r.len() && i != j implies !#[trigger] overlaps(
            r[i],
            r[j],
        ) by {
            if i < t.len() && j < t.len() {
            } else {
                let k = if i < t.len() {
                    i
                } else {
                    j
                };
                assert(t.to_multiset().count(t[k]) > 0);
                assert(t.contains(t[k]));
                if t[k] != x {
                    assert(d.to_multiset().count(t[k]) > 0);
                    assert(d.contains(t[k]));
                    let m = choose|m: int| 0 <= m < d.len() && d[m] == t[k];
                    assert(s[m] == d[m]);
                    assert(!overlaps(s[m], s[s.len() - 1]));
                    assert(!overlaps(s[s.len() - 1], s[m]));
                } else {
                    assert(s[s.len() - 1] == s.last());
                }
            }
        }
    }
}

/// Sorting keeps a set of pairwise non-overlapping events so.
pub proof fn lemma_sort_disjoint(s: Seq<EventView>)
    requires
        disjoint_all(s),
    ensures
        disjoint_all(sort_by_start(s)),
    decreases s.len(),
{
    if s.len() > 0 {
        let d = s.drop_last();
        assert(disjoint_all(d)) by {
            assert forall|i: int, j: int|
                0 <= i < d.len() && 0 <= j < d.len() && i != j implies !#[trigger] overlaps(
                d[i],
                d[j],
            ) by {
                assert(d[i] == s[i] && d[j] == s[j]);
            }
        }
        lemma_sort_disjoint(d);
        lemma_sort_members(d);
        let t = sort_by_start(d);
        assert forall|i: int| 0 <= i < t.len() implies !overlaps(#[trigger] t[i], s.last())
            && !overlaps(s.last(), t[i]) by {
            assert(t.contains(t[i]));
            let m = choose|m: int| 0 <= m < d.len() && d[m] == t[i];
            assert(s[m] == d[m]);
            assert(!overlaps(s[m], s[s.len() - 1]));
            assert(!overlaps(s[s.len() - 1], s[m]));
        }
        lemma_insert_disjoint(t, s.last());
    }
}

/// Sorting keeps every event's range non-empty.
pub proof fn lemma_sort_valid(s: Seq<EventView>)
    requires
        all_valid(s),
    ensures
        all_valid(sort_by_start(s)),
{
    lemma_sort_members(s);
    let t = sort_by_start(s);
    assert forall|i: int| 0 <= i < t.len() implies #[trigger] valid(t[i]) by {
        assert(t.contains(t[i]));
        let m = choose|m: int| 0 <= m < s.len() && s[m] == t[i];
    }
}

/// Inserts `x` into `v`, which is in start order, after every event that
/// starts no later than it.
fn insert_in_order(v: &mut Vec<ScheduleEvent>, x: ScheduleEvent)
    ensures
        views(final(v)@) == insert_by_start(views(old(v)@), x@),
{
    let mut p: usize = v.len();
    while p > 0 && v[p - 1].start_time > x.start_time
        invariant
            0 <= p <= v.len(),
            forall|k: int| p <= k < v.len() ==> v@[k].start_time > x.start_time,
        decreases p,
    {
        p = p - 1;
    }
    let ghost s = views(v@);
    proof {
        lemma_insert_at(s, x@, p as int);
    }
    v.insert(p, x);
    assert(views(v@) =~= s.take(p as int).push(x@) + s.skip(p as int));
}

/// The events in order of start time; events that start together keep their
/// relative order.
pub fn sort_events(events: &Vec<ScheduleEvent>) -> (r: Vec<ScheduleEvent>)
    ensures
        views(r@) == sort_by_start(views(events@)),
{
    let mut r: Vec<ScheduleEvent> = Vec::new();
    let mut i: usize = 0;
    while i < events.len()
        invariant
            0 <= i <= events.len(),
            views(r@) == sort_by_start(views(events@).take(i as int)),
        decreases events.len() - i,
    {
        let ghost before = views(events@).take(i as int);
        insert_in_order(&mut r, events[i].copied());
        assert(views(events@).take(i + 1).drop_last() =~= before);
        i = i + 1;
    }
    assert(views(events@).take(i as int) =~= views(events@));
    r
}

} // verus!
