//! Compaction: adjacent events with the same attributes are fused into one.

use vstd::prelude::*;
use crate::event::{
    ScheduleEvent, EventView, views, overlaps, disjoint_all, all_valid, valid, with_span,
    same_attrs,
};
use crate::ids::id_unused;
use crate::order::{
    lemma_sort_members, lemma_sort_valid,
    sort_by_start, sort_events, starts_ordered, lemma_sort_ordered, lemma_sort_ordered_is_identity,
};

verus! {

/// The position of the last event of `acc` with the attributes of `e`.
pub open spec fn last_same_attrs(acc: Seq<EventView>, e: EventView) -> Option<int>
    decreases acc.len(),
{
    if acc.len() == 0 {
        None
    } else if same_attrs(acc.last(), e) {
        Some(acc.len() - 1)
    } else {
        last_same_attrs(acc.drop_last(), e)
    }
}

/// One step of compaction: `e` extends the last event of its kind when that
/// one ends where `e` starts, and is appended otherwise.
pub open spec fn absorb(acc: Seq<EventView>, e: EventView) -> Seq<EventView> {
    match last_same_attrs(acc, e) {
        Some(k) => if acc[k].end == e.start {
            acc.update(k, with_span(acc[k], acc[k].id, acc[k].start, e.end))
        } else {
            acc.push(e)
        },
        None => acc.push(e),
    }
}

pub open spec fn fold_adjacent(s: Seq<EventView>) -> Seq<EventView>
    decreases s.len(),
{
    if s.len() == 0 {
        seq![]
    } else {
        absorb(fold_adjacent(s.drop_last()), s.last())
    }
}

/// The compacted event set: sorted by start, then runs of back-to-back
/// events with equal attributes fused; a fused event keeps the id of the
/// first event of its run.
pub open spec fn compact_model(s: Seq<EventView>) -> Seq<EventView> {
    fold_adjacent(sort_by_start(s))
}

/// No event continues the last earlier event of its kind.
pub open spec fn no_join(t: Seq<EventView>, j: int) -> bool {
    match last_same_attrs(t.take(j), t[j]) {
        Some(k) => t[k].end != t[j].start,
        None => true,
    }
}

pub open spec fn settled(t: Seq<EventView>) -> bool {
    forall|j: int| 0 <= j < t.len() ==> #[trigger] no_join(t, j)
}

/// Each event ends no later than any later one starts.
pub open spec fn chained(s: Seq<EventView>) -> bool {
    forall|i: int, j: int| 0 <= i < j < s.len() ==> s[i].end <= s[j].start
}

pub proof fn lemma_last_same(acc: Seq<EventView>, e: EventView)
    ensures
        match last_same_attrs(acc, e) {
            Some(k) => 0 <= k < acc.len() && same_attrs(acc[k], e) && forall|m: int|
                k < m < acc.len() ==> !same_attrs(#[trigger] acc[m], e),
            None => forall|m: int| 0 <= m < acc.len() ==> !same_attrs(#[trigger] acc[m], e),
        },
    decreases acc.len(),
{
    if acc.len() > 0 && !same_attrs(acc.last(), e) {
        let d = acc.drop_last();
        lemma_last_same(d, e);
        assert(!same_attrs(acc[acc.len() - 1], e));
        match last_same_attrs(d, e) {
            Some(k) => {
                assert(d[k] == acc[k]);
                assert forall|m: int| k < m < acc.len() implies !same_attrs(#[trigger] acc[m], e) by {
                    if m < d.len() {
                        assert(d[m] == acc[m]);
                    }
                }
            },
            None => {
                assert forall|m: int| 0 <= m < acc.len() implies !same_attrs(#[trigger] acc[m], e) by {
                    if m < d.len() {
                        assert(d[m] == acc[m]);
                    }
                }
            },
        }
    }
}

proof fn lemma_last_same_congruent(a: Seq<EventView>, b: Seq<EventView>, e: EventView, f: EventView)
    requires
        a.len() == b.len(),
        forall|m: int| 0 <= m < a.len() ==> same_attrs(#[trigger] a[m], b[m]),
        same_attrs(e, f),
    ensures
        last_same_attrs(a, e) == last_same_attrs(b, f),
    decreases a.len(),
{
    if a.len() > 0 {
        lemma_last_same_congruent(a.drop_last(), b.drop_last(), e, f);
        assert(same_attrs(a[a.len() - 1], b[b.len() - 1]));
    }
}

proof fn lemma_absorb_settled(acc: Seq<EventView>, e: EventView)
    requires
        settled(acc),
    ensures
        settled(absorb(acc, e)),
{
    lemma_last_same(acc, e);
    let r = absorb(acc, e);
    match last_same_attrs(acc, e) {
        Some(k) => {
            if acc[k].end == e.start {
                assert forall|j: int| 0 <= j < r.len() implies #[trigger] no_join(r, j) by {
                    assert(no_join(acc, j));
                    lemma_last_same_congruent(r.take(j), acc.take(j), r[j], acc[j]);
                    lemma_last_same(acc.take(j), acc[j]);
                    if j > k {
                        match last_same_attrs(acc.take(j), acc[j]) {
                            Some(kk) => {
                                if kk == k {
                                    assert(same_attrs(acc[j], e));
                                }
                            },
                            None => {},
                        }
                    }
                }
            } else {
                assert forall|j: int| 0 <= j < r.len() implies #[trigger] no_join(r, j) by {
                    assert forall|m: int| 0 <= m < acc.len() implies #[trigger] r[m] == acc[m] by {}
                    if j < acc.len() {
                        assert(no_join(acc, j));
                        assert(r.take(j) =~= acc.take(j));
                        assert(r[j] == acc[j]);
                        lemma_last_same(acc.take(j), acc[j]);
                    } else {
                        assert(r.take(j) =~= acc);
                        assert(r[j] == e);
                    }
                }
            }
        },
        None => {
            assert forall|j: int| 0 <= j < r.len() implies #[trigger] no_join(r, j) by {
                assert forall|m: int| 0 <= m < acc.len() implies #[trigger] r[m] == acc[m] by {}
                if j < acc.len() {
                    assert(no_join(acc, j));
                    assert(r.take(j) =~= acc.take(j));
                    assert(r[j] == acc[j]);
                    lemma_last_same(acc.take(j), acc[j]);
                } else {
                    assert(r.take(j) =~= acc);
                    assert(r[j] == e);
                }
            }
        },
    }
}

/// Folding an ordered sequence gives an ordered, settled one whose starts do
/// not pass the last input start.
proof fn lemma_fold_shape(t: Seq<EventView>)
    requires
        starts_ordered(t),
    ensures
        settled(fold_adjacent(t)),
        starts_ordered(fold_adjacent(t)),
        t.len() > 0 ==> forall|i: int|
            0 <= i < fold_adjacent(t).len() ==> #[trigger] fold_adjacent(t)[i].start <= t.last().start,
    decreases t.len(),
{
    if t.len() > 0 {
        let d = t.drop_last();
        lemma_fold_shape(d);
        let a = fold_adjacent(d);
        lemma_absorb_settled(a, t.last());
        lemma_last_same(a, t.last());
        if d.len() > 0 {
            assert(d.last().start <= t.last().start);
        } else {
            assert(a.len() == 0);
        }
    }
}

proof fn lemma_fold_settled_is_identity(t: Seq<EventView>)
    requires
        settled(t),
    ensures
        fold_adjacent(t) == t,
    decreases t.len(),
{
    if t.len() > 0 {
        let d = t.drop_last();
        assert forall|j: int| 0 <= j < d.len() implies #[trigger] no_join(d, j) by {
            assert(no_join(t, j));
            assert(d.take(j) =~= t.take(j));
            assert(d[j] == t[j]);
            lemma_last_same(t.take(j), t[j]);
            assert forall|m: int| 0 <= m < d.len() implies #[trigger] d[m] == t[m] by {}
        }
        lemma_fold_settled_is_identity(d);
        assert(no_join(t, t.len() - 1));
        assert(t.take(t.len() - 1) =~= d);
        lemma_last_same(d, t.last());
        match last_same_attrs(d, t.last()) {
            Some(k) => {
                assert(d[k] == t[k]);
            },
            None => {},
        }
        assert(d.push(t.last()) =~= t);
    }
}

/// The compacted set is sorted by start and nothing in it can be fused.
pub proof fn lemma_compact_shape(s: Seq<EventView>)
    ensures
        starts_ordered(compact_model(s)),
        settled(compact_model(s)),
{
    lemma_sort_ordered(s);
    lemma_fold_shape(sort_by_start(s));
}

/// Compacting twice is compacting once.
pub proof fn lemma_compact_idempotent(s: Seq<EventView>)
    ensures
        compact_model(compact_model(s)) == compact_model(s),
{
    let t = compact_model(s);
    lemma_compact_shape(s);
    lemma_sort_ordered_is_identity(t);
    lemma_fold_settled_is_identity(t);
}

pub proof fn lemma_ordered_disjoint_chained(s: Seq<EventView>)
    requires
        starts_ordered(s),
        all_valid(s),
        disjoint_all(s),
    ensures
        chained(s),
{
    assert forall|i: int, j: int| 0 <= i < j < s.len() implies s[i].end <= s[j].start by {
        assert(!overlaps(s[i], s[j]));
        assert(valid(s[j]));
    }
}

pub proof fn lemma_chained_disjoint(s: Seq<EventView>)
    requires
        chained(s),
        all_valid(s),
    ensures
        disjoint_all(s),
{
    assert forall|i: int, j: int|
        0 <= i < s.len() && 0 <= j < s.len() && i != j implies !#[trigger] overlaps(s[i], s[j]) by {
        assert(valid(s[i]) && valid(s[j]));
    }
}

/// Folding a chained sequence of non-empty ranges keeps it chained and
/// non-empty; ends do not pass the last input end.
pub proof fn lemma_fold_chained(t: Seq<EventView>)
    requires
        chained(t),
        all_valid(t),
    ensures
        chained(fold_adjacent(t)),
        all_valid(fold_adjacent(t)),
        t.len() > 0 ==> forall|i: int|
            0 <= i < fold_adjacent(t).len() ==> #[trigger] fold_adjacent(t)[i].end <= t.last().end,
    decreases t.len(),
{
    if t.len() > 0 {
        let d = t.drop_last();
        let e = t.last();
        assert(valid(t[t.len() - 1]));
        assert(chained(d));
        assert forall|i: int| 0 <= i < d.len() implies #[trigger] valid(d[i]) by {
            assert(valid(t[i]));
        }
        lemma_fold_chained(d);
        let a = fold_adjacent(d);
        if d.len() > 0 {
            assert(d.last().end <= e.start);
        }
        assert forall|i: int| 0 <= i < a.len() implies #[trigger] a[i].end <= e.start by {
            if d.len() == 0 {
                assert(a.len() == 0);
            }
        }
        lemma_last_same(a, e);
        match last_same_attrs(a, e) {
            Some(k) => {
                if a[k].end == e.start {
                    if k < a.len() - 1 {
                        let m = a.len() - 1;
                        assert(a[k].end <= a[m].start);
                        assert(valid(a[m]));
                        assert(a[m].end <= e.start);
                    }
                    assert(valid(a[k]));
                }
            },
            None => {},
        }
    }
}

proof fn lemma_fold_id_unused(t: Seq<EventView>, d: Seq<char>)
    requires
        id_unused(t, d),
    ensures
        id_unused(fold_adjacent(t), d),
    decreases t.len(),
{
    if t.len() > 0 {
        let dl = t.drop_last();
        assert forall|i: int| 0 <= i < dl.len() implies (#[trigger] dl[i]).id != d by {
            assert(dl[i] == t[i]);
        }
        lemma_fold_id_unused(dl, d);
        assert(t[t.len() - 1].id != d);
        let a = fold_adjacent(dl);
        lemma_last_same(a, t.last());
        let r = fold_adjacent(t);
        assert forall|i: int| 0 <= i < r.len() implies (#[trigger] r[i]).id != d by {
            if i < a.len() {
                assert(r[i].id == a[i].id);
            }
        }
    }
}

/// Compaction brings in no id: an id that no input event has is had by no
/// event of the result.
pub proof fn lemma_compact_id_unused(s: Seq<EventView>, d: Seq<char>)
    requires
        id_unused(s, d),
    ensures
        id_unused(compact_model(s), d),
{
    lemma_sort_members(s);
    let t = sort_by_start(s);
    assert forall|i: int| 0 <= i < t.len() implies (#[trigger] t[i]).id != d by {
        assert(t.contains(t[i]));
        let m = choose|m: int| 0 <= m < s.len() && s[m] == t[i];
    }
    lemma_fold_id_unused(t, d);
}

/// `y` has the attributes of `x` and spans its range.
pub open spec fn covers(y: EventView, x: EventView) -> bool {
    same_attrs(y, x) && y.start <= x.start && x.end <= y.end
}

proof fn lemma_fold_covers(t: Seq<EventView>)
    requires
        all_valid(t),
    ensures
        all_valid(fold_adjacent(t)),
        forall|m: int|
            0 <= m < t.len() ==> exists|i: int|
                0 <= i < fold_adjacent(t).len() && covers(fold_adjacent(t)[i], #[trigger] t[m]),
    decreases t.len(),
{
    if t.len() > 0 {
        let dl = t.drop_last();
        let e = t.last();
        assert(e == t[t.len() - 1]);
        assert(valid(t[t.len() - 1]));
        assert forall|i: int| 0 <= i < dl.len() implies #[trigger] valid(dl[i]) by {
            assert(dl[i] == t[i]);
            assert(valid(t[i]));
        }
        lemma_fold_covers(dl);
        let a = fold_adjacent(dl);
        let r = fold_adjacent(t);
        lemma_last_same(a, e);
        match last_same_attrs(a, e) {
            Some(k) if a[k].end == e.start => {
                assert(valid(a[k]));
                assert forall|i: int| 0 <= i < r.len() implies #[trigger] valid(r[i]) by {
                    if i != k {
                        assert(r[i] == a[i]);
                        assert(valid(a[i]));
                    }
                }
                assert forall|m: int| 0 <= m < t.len() implies exists|i: int|
                    0 <= i < r.len() && covers(r[i], #[trigger] t[m]) by {
                    if m < dl.len() {
                        assert(dl[m] == t[m]);
                        let i = choose|i: int| 0 <= i < a.len() && covers(a[i], dl[m]);
                        if i != k {
                            assert(r[i] == a[i]);
                        }
                        assert(covers(r[i], t[m]));
                    } else {
                        assert(covers(r[k], t[m]));
                    }
                }
            },
            _ => {
                assert(r == a.push(e));
                assert forall|i: int| 0 <= i < r.len() implies #[trigger] valid(r[i]) by {
                    if i < a.len() {
                        assert(r[i] == a[i]);
                        assert(valid(a[i]));
                    }
                }
                assert forall|m: int| 0 <= m < t.len() implies exists|i: int|
                    0 <= i < r.len() && covers(r[i], #[trigger] t[m]) by {
                    if m < dl.len() {
                        assert(dl[m] == t[m]);
                        let i = choose|i: int| 0 <= i < a.len() && covers(a[i], dl[m]);
                        assert(r[i] == a[i]);
                        assert(covers(r[i], t[m]));
                    } else {
                        assert(covers(r[a.len() as int], t[m]));
                    }
                }
            },
        }
    }
}

/// Compaction only widens: every non-empty input event's attributes and
/// range are carried by some event of the result.
pub proof fn lemma_compact_covers(s: Seq<EventView>, x: EventView)
    requires
        all_valid(s),
        s.contains(x),
    ensures
        exists|i: int|
            0 <= i < compact_model(s).len() && covers(#[trigger] compact_model(s)[i], x),
{
    lemma_sort_members(s);
    lemma_sort_valid(s);
    let t = sort_by_start(s);
    assert(t.contains(x));
    let m = choose|m: int| 0 <= m < t.len() && t[m] == x;
    lemma_fold_covers(t);
    assert(t[m] == x);
    let i = choose|i: int| 0 <= i < fold_adjacent(t).len() && covers(fold_adjacent(t)[i], t[m]);
    assert(covers(compact_model(s)[i], x));
}

proof fn lemma_fold_keeps(t: Seq<EventView>, x: EventView)
    requires
        valid(x),
        forall|i: int| 0 <= i < t.len() && same_attrs(#[trigger] t[i], x) ==> t[i] == x,
    ensures
        forall|i: int|
            0 <= i < fold_adjacent(t).len() && same_attrs(#[trigger] fold_adjacent(t)[i], x)
                ==> fold_adjacent(t)[i] == x,
        t.contains(x) ==> fold_adjacent(t).contains(x),
    decreases t.len(),
{
    if t.len() > 0 {
        let dl = t.drop_last();
        let e = t.last();
        assert forall|i: int| 0 <= i < dl.len() && same_attrs(#[trigger] dl[i], x) implies dl[i]
            == x by {
            assert(dl[i] == t[i]);
        }
        lemma_fold_keeps(dl, x);
        let a = fold_adjacent(dl);
        let r = fold_adjacent(t);
        assert(e == t[t.len() - 1]);
        lemma_last_same(a, e);
        if t.contains(x) && !dl.contains(x) {
            let m = choose|m: int| 0 <= m < t.len() && t[m] == x;
            if m < dl.len() {
                assert(dl[m] == x);
            }
            assert(e == x);
        }
        match last_same_attrs(a, e) {
            Some(k) => {
                if a[k].end == e.start {
                    if same_attrs(e, x) {
                        assert(e == x);
                        assert(same_attrs(a[k], x));
                        assert(a[k] == x);
                        assert(false);
                    }
                    assert(!same_attrs(a[k], x));
                    assert forall|i: int| 0 <= i < r.len() && same_attrs(#[trigger] r[i], x)
                        implies r[i] == x by {
                        if i != k {
                            assert(r[i] == a[i]);
                        }
                    }
                    if dl.contains(x) {
                        let j = choose|j: int| 0 <= j < a.len() && a[j] == x;
                        assert(j != k);
                        assert(r[j] == x);
                    }
                } else {
                    assert forall|i: int| 0 <= i < r.len() && same_attrs(#[trigger] r[i], x)
                        implies r[i] == x by {
                        if i < a.len() {
                            assert(r[i] == a[i]);
                        }
                    }
                    if dl.contains(x) {
                        let j = choose|j: int| 0 <= j < a.len() && a[j] == x;
                        assert(r[j] == x);
                    }
                    assert(r[a.len() as int] == e);
                }
            },
            None => {
                assert forall|i: int| 0 <= i < r.len() && same_attrs(#[trigger] r[i], x) implies r[i]
                    == x by {
                    if i < a.len() {
                        assert(r[i] == a[i]);
                    }
                }
                if dl.contains(x) {
                    let j = choose|j: int| 0 <= j < a.len() && a[j] == x;
                    assert(r[j] == x);
                }
                assert(r[a.len() as int] == e);
            },
        }
    }
}

/// A non-empty event that is the only one of its kind in `s` (every event
/// with its attributes is that event) comes out of compaction unchanged.
pub proof fn lemma_compact_keeps_lone(s: Seq<EventView>, x: EventView)
    requires
        valid(x),
        s.contains(x),
        forall|i: int| 0 <= i < s.len() && same_attrs(#[trigger] s[i], x) ==> s[i] == x,
    ensures
        compact_model(s).contains(x),
{
    lemma_sort_members(s);
    let t = sort_by_start(s);
    assert forall|i: int| 0 <= i < t.len() && same_attrs(#[trigger] t[i], x) implies t[i] == x by {
        assert(t.contains(t[i]));
        let m = choose|m: int| 0 <= m < s.len() && s[m] == t[i];
    }
    lemma_fold_keeps(t, x);
}

fn last_with_same_attrs(acc: &Vec<ScheduleEvent>, e: &ScheduleEvent) -> (r: Option<usize>)
    ensures
        match r {
            Some(k) => k < acc.len() && last_same_attrs(views(acc@), e@) == Some(k as int),
            None => last_same_attrs(views(acc@), e@) is None,
        },
{
    let ghost s = views(acc@);
    proof {
        lemma_last_same(s, e@);
    }
    let mut k: usize = acc.len();
    assert(s.take(k as int) =~= s);
    while k > 0
        invariant
            0 <= k <= acc.len(),
            s == views(acc@),
            last_same_attrs(s, e@) == last_same_attrs(s.take(k as int), e@),
        decreases k,
    {
        assert(s.take(k as int).last() == acc@[k - 1]@);
        if acc[k - 1].has_same_attrs(e) {
            return Some(k - 1);
        }
        assert(s.take(k as int).drop_last() =~= s.take(k - 1));
        k = k - 1;
    }
    None
}

/// Sorts `events` by start time and fuses each run of back-to-back events
/// with equal attributes into one that keeps the first event's id.
pub fn merge_events(events: &mut Vec<ScheduleEvent>)
    ensures
        views(final(events)@) == compact_model(views(old(events)@)),
{
    let sorted = sort_events(events);
    let ghost t = views(sorted@);
    let mut out: Vec<ScheduleEvent> = Vec::new();
    let mut i: usize = 0;
    while i < sorted.len()
        invariant
            0 <= i <= sorted.len(),
            t == views(sorted@),
            views(out@) == fold_adjacent(t.take(i as int)),
        decreases sorted.len() - i,
    {
        let e = &sorted[i];
        assert(t.take(i + 1).drop_last() =~= t.take(i as int));
        assert(t.take(i + 1).last() == e@);
        let ghost acc = views(out@);
        match last_with_same_attrs(&out, e) {
            Some(k) => {
                if out[k].end_time == e.start_time {
                    let fused = out[k].with_range(out[k].id.clone(), out[k].start_time, e.end_time);
                    out.set(k, fused);
                    assert(views(out@) =~= acc.update(
                        k as int,
                        with_span(acc[k as int], acc[k as int].id, acc[k as int].start, e@.end),
                    ));
                } else {
                    out.push(e.copied());
                    assert(views(out@) =~= acc.push(e@));
                }
            },
            None => {
                out.push(e.copied());
                assert(views(out@) =~= acc.push(e@));
            },
        }
        i = i + 1;
    }
    assert(t.take(i as int) =~= t);
    *events = out;
}

} // verus!
