//! Overlap resolution: the incoming event wins, and every existing event it
//! overlaps keeps only the parts outside it.

use vstd::prelude::*;
use crate::event::{
    same_attrs,
    ScheduleEvent, EventView, views, overlaps, disjoint_all, all_valid, valid, with_span,
};
use crate::order::{
    sort_by_start, sort_events, lemma_sort_members, lemma_sort_disjoint, lemma_sort_valid,
    lemma_sort_ordered, lemma_sort_ordered_is_identity,
};
use crate::ids::{unused_id, fresh_for, id_unused, texts_of};
use crate::compact::{
    lemma_compact_id_unused, lemma_compact_keeps_lone, lemma_compact_covers, covers,
    compact_model, merge_events, lemma_ordered_disjoint_chained, lemma_fold_chained,
    lemma_chained_disjoint,
};

verus! {

/// How many fragments of `e` survive when `n` is inserted.
pub open spec fn fragments_of(e: EventView, n: EventView) -> nat {
    if overlaps(n, e) {
        (if e.start < n.start {
            1nat
        } else {
            0nat
        }) + (if n.end < e.end {
            1nat
        } else {
            0nat
        })
    } else {
        0
    }
}

pub open spec fn fragment_count(es: Seq<EventView>, n: EventView) -> nat
    decreases es.len(),
{
    if es.len() == 0 {
        0
    } else {
        fragment_count(es.drop_last(), n) + fragments_of(es.last(), n)
    }
}

/// What remains of `e` around `n`; fragments take their ids from `ids`,
/// starting at position `c`.
pub open spec fn pieces_of(e: EventView, n: EventView, ids: Seq<Seq<char>>, c: int) -> Seq<
    EventView,
> {
    if overlaps(n, e) {
        let head: Seq<EventView> = if e.start < n.start {
            seq![with_span(e, ids[c], e.start, n.start)]
        } else {
            seq![]
        };
        let tail: Seq<EventView> = if n.end < e.end {
            seq![with_span(e, ids[c + head.len()], n.end, e.end)]
        } else {
            seq![]
        };
        head + tail
    } else {
        seq![e]
    }
}

/// The existing events with `n` cut out of them, in their given order;
/// the i-th fragment produced carries `ids[i]`.
pub open spec fn split_around(es: Seq<EventView>, n: EventView, ids: Seq<Seq<char>>) -> Seq<
    EventView,
>
    decreases es.len(),
{
    if es.len() == 0 {
        seq![]
    } else {
        split_around(es.drop_last(), n, ids) + pieces_of(
            es.last(),
            n,
            ids,
            fragment_count(es.drop_last(), n) as int,
        )
    }
}

/// The event set after inserting `n`, sorted by start time.
pub open spec fn resolve_model(es: Seq<EventView>, n: EventView, ids: Seq<Seq<char>>) -> Seq<
    EventView,
> {
    sort_by_start(split_around(es, n, ids).push(n))
}

proof fn lemma_fresh_push(ids: Seq<Seq<char>>, es: Seq<EventView>, n: EventView, id: Seq<char>)
    requires
        fresh_for(ids, es.push(n)),
        id_unused(es, id),
        id != n.id,
        forall|k: int| 0 <= k < ids.len() ==> ids[k] != id,
    ensures
        fresh_for(ids.push(id), es.push(n)),
{
    let all = es.push(n);
    assert(id_unused(all, id)) by {
        assert forall|i: int| 0 <= i < all.len() implies (#[trigger] all[i]).id != id by {
            if i < es.len() {
                assert(all[i] == es[i]);
            }
        }
    }
    let m = ids.push(id);
    assert forall|k: int| 0 <= k < m.len() implies id_unused(all, #[trigger] m[k]) by {
        if k < ids.len() {
            assert(m[k] == ids[k]);
        }
    }
    assert forall|k: int, j: int| 0 <= k < j < m.len() implies #[trigger] m[k] != #[trigger] m[j] by {
        if j < ids.len() {
            assert(m[k] == ids[k] && m[j] == ids[j]);
        } else {
            assert(m[k] == ids[k]);
        }
    }
}

proof fn lemma_split_ids_prefix(
    es: Seq<EventView>,
    n: EventView,
    ids: Seq<Seq<char>>,
    more: Seq<Seq<char>>,
)
    requires
        fragment_count(es, n) <= ids.len(),
    ensures
        split_around(es, n, ids) == split_around(es, n, ids + more),
    decreases es.len(),
{
    if es.len() > 0 {
        lemma_split_ids_prefix(es.drop_last(), n, ids, more);
        let c = fragment_count(es.drop_last(), n) as int;
        let e = es.last();
        let all = ids + more;
        assert(c + fragments_of(e, n) <= ids.len());
        if overlaps(n, e) {
            if e.start < n.start {
                assert(all[c] == ids[c]);
                if n.end < e.end {
                    assert(all[c + 1] == ids[c + 1]);
                }
            } else if n.end < e.end {
                assert(all[c] == ids[c]);
            }
        }
        assert(pieces_of(e, n, ids, c) =~= pieces_of(e, n, all, c));
    }
}

/// The events of `existing` with `incoming` cut out of them, and `incoming`
/// itself, sorted by start time. Fragments of split events get fresh ids.
pub fn resolve(existing: &Vec<ScheduleEvent>, incoming: &ScheduleEvent) -> (r: Vec<ScheduleEvent>)
    ensures
        exists|ids: Seq<Seq<char>>|
            #![auto]
            fresh_for(ids, views(existing@).push(incoming@)) && ids.len() == fragment_count(
                views(existing@),
                incoming@,
            ) && views(r@) == resolve_model(views(existing@), incoming@, ids),
        views(r@).contains(incoming@),
{
    let ghost es = views(existing@);
    let ghost n = incoming@;
    let ghost mut ids: Seq<Seq<char>> = seq![];
    let mut pieces: Vec<ScheduleEvent> = Vec::new();
    let mut taken: Vec<String> = Vec::new();
    taken.push(incoming.id.clone());
    assert(texts_of(taken@) =~= seq![n.id] + ids);
    let mut i: usize = 0;
    while i < existing.len()
        invariant
            0 <= i <= existing.len(),
            es == views(existing@),
            n == incoming@,
            texts_of(taken@) == seq![n.id] + ids,
            fresh_for(ids, es.push(n)),
            ids.len() == fragment_count(es.take(i as int), n),
            views(pieces@) == split_around(es.take(i as int), n, ids),
        decreases existing.len() - i,
    {
        let e = &existing[i];
        let ghost old_ids = ids;
        let ghost old_pieces = views(pieces@);
        let ghost prefix = es.take(i as int);
        assert(es.take(i + 1).drop_last() =~= prefix);
        assert(es.take(i + 1).last() == e@);
        if incoming.start_time < e.end_time && incoming.end_time > e.start_time {
            if incoming.start_time > e.start_time {
                let id = unused_id(existing, &taken);
                proof {
                    assert(texts_of(taken@).len() == taken@.len());
                    assert((seq![n.id] + ids).len() == ids.len() + 1);
                    assert(taken@.len() == ids.len() + 1);
                    assert(texts_of(taken@)[0] == n.id);
                    assert(texts_of(taken@)[0] == taken@[0]@);
                    assert(id@ != taken@[0]@);
                    assert forall|k: int| 0 <= k < ids.len() implies ids[k] != id@ by {
                        assert(texts_of(taken@)[k + 1] == ids[k]);
                        assert(texts_of(taken@)[k + 1] == taken@[k + 1]@);
                        assert(id@ != taken@[k + 1]@);
                    }
                    lemma_fresh_push(ids, es, n, id@);
                    ids = ids.push(id@);
                }
                let ghost before = taken@;
                let copy = id.clone();
                assert(copy@ == id@);
                taken.push(copy);
                assert(texts_of(taken@) =~= texts_of(before).push(id@));
                assert(texts_of(taken@) =~= seq![n.id] + ids);
                pieces.push(e.with_range(id, e.start_time, incoming.start_time));
            }
            if incoming.end_time < e.end_time {
                let id = unused_id(existing, &taken);
                proof {
                    assert(texts_of(taken@).len() == taken@.len());
                    assert((seq![n.id] + ids).len() == ids.len() + 1);
                    assert(taken@.len() == ids.len() + 1);
                    assert(texts_of(taken@)[0] == n.id);
                    assert(texts_of(taken@)[0] == taken@[0]@);
                    assert(id@ != taken@[0]@);
                    assert forall|k: int| 0 <= k < ids.len() implies ids[k] != id@ by {
                        assert(texts_of(taken@)[k + 1] == ids[k]);
                        assert(texts_of(taken@)[k + 1] == taken@[k + 1]@);
                        assert(id@ != taken@[k + 1]@);
                    }
                    lemma_fresh_push(ids, es, n, id@);
                    ids = ids.push(id@);
                }
                let ghost before = taken@;
                let copy = id.clone();
                assert(copy@ == id@);
                taken.push(copy);
                assert(texts_of(taken@) =~= texts_of(before).push(id@));
                assert(texts_of(taken@) =~= seq![n.id] + ids);
                pieces.push(e.with_range(id, incoming.end_time, e.end_time));
            }
        } else {
            pieces.push(e.copied());
        }
        proof {
            let more = ids.skip(old_ids.len() as int);
            assert(ids =~= old_ids + more);
            lemma_split_ids_prefix(prefix, n, old_ids, more);
            let c = fragment_count(prefix, n) as int;
            assert(views(pieces@) =~= old_pieces + pieces_of(e@, n, ids, c));
        }
        i = i + 1;
    }
    assert(es.take(i as int) =~= es);
    pieces.push(incoming.copied());
    let r = sort_events(&pieces);
    proof {
        let ps = split_around(es, n, ids).push(n);
        assert(views(pieces@) =~= ps);
        lemma_sort_members(ps);
        assert(ps[ps.len() - 1] == n);
        assert(ps.contains(n));
        assert(views(r@) == resolve_model(es, n, ids));
        assert(fresh_for(ids, es.push(n)) && ids.len() == fragment_count(es, n));
    }
    r
}

proof fn lemma_contained_apart(p: EventView, e: EventView, f: EventView)
    requires
        e.start <= p.start,
        p.end <= e.end,
        !overlaps(e, f),
    ensures
        !overlaps(p, f),
        !overlaps(f, p),
{
}

proof fn lemma_pieces_props(e: EventView, n: EventView, ids: Seq<Seq<char>>, c: int)
    requires
        valid(e),
        valid(n),
    ensures
        disjoint_all(pieces_of(e, n, ids, c)),
        forall|q: int|
            0 <= q < pieces_of(e, n, ids, c).len() ==> {
                let p = #[trigger] pieces_of(e, n, ids, c)[q];
                valid(p) && e.start <= p.start && p.end <= e.end && !overlaps(p, n)
            },
{
}

/// Cutting `n` out of pairwise-disjoint events leaves pairwise-disjoint,
/// non-empty pieces, none of which meets `n` or any event of `rest`.
proof fn lemma_split_props(
    es: Seq<EventView>,
    n: EventView,
    ids: Seq<Seq<char>>,
    rest: Seq<EventView>,
)
    requires
        all_valid(es),
        valid(n),
        disjoint_all(es + rest),
    ensures
        all_valid(split_around(es, n, ids)),
        disjoint_all(split_around(es, n, ids)),
        forall|q: int|
            0 <= q < split_around(es, n, ids).len() ==> !overlaps(
                #[trigger] split_around(es, n, ids)[q],
                n,
            ),
        forall|q: int, m: int|
            0 <= q < split_around(es, n, ids).len() && 0 <= m < rest.len() ==> !overlaps(
                #[trigger] split_around(es, n, ids)[q],
                #[trigger] rest[m],
            ),
    decreases es.len(),
{
    if es.len() > 0 {
        let d = es.drop_last();
        let e = es.last();
        let rest2 = seq![e] + rest;
        let whole = es + rest;
        assert(d + rest2 =~= whole);
        assert(valid(es[es.len() - 1]));
        assert forall|i: int| 0 <= i < d.len() implies #[trigger] valid(d[i]) by {
            assert(valid(es[i]));
        }
        lemma_split_props(d, n, ids, rest2);
        let a = split_around(d, n, ids);
        let c = fragment_count(d, n) as int;
        let b = pieces_of(e, n, ids, c);
        lemma_pieces_props(e, n, ids, c);
        let r = a + b;
        assert(split_around(es, n, ids) == r);
        assert forall|q: int| 0 <= q < a.len() implies !overlaps(#[trigger] a[q], e) by {
            assert(rest2[0] == e);
        }
        assert forall|q: int, m: int|
            0 <= q < b.len() && 0 <= m < rest.len() implies !overlaps(
            #[trigger] b[q],
            #[trigger] rest[m],
        ) by {
            let i = es.len() - 1;
            let j = es.len() + m;
            assert(whole[i] == e && whole[j] == rest[m]);
            assert(!overlaps(whole[i], whole[j]));
            lemma_contained_apart(b[q], e, rest[m]);
        }
        assert forall|q: int, m: int|
            0 <= q < a.len() && 0 <= m < rest.len() implies !overlaps(
            #[trigger] a[q],
            #[trigger] rest[m],
        ) by {
            assert(rest2[m + 1] == rest[m]);
        }
        assert forall|i: int, j: int|
            0 <= i < r.len() && 0 <= j < r.len() && i != j implies !#[trigger] overlaps(
            r[i],
            r[j],
        ) by {
            if i < a.len() && j >= a.len() {
                lemma_contained_apart(b[j - a.len()], e, a[i]);
            } else if i >= a.len() && j < a.len() {
                lemma_contained_apart(b[i - a.len()], e, a[j]);
            }
        }
        assert forall|q: int| 0 <= q < r.len() implies #[trigger] valid(r[q]) by {
            if q >= a.len() {
                assert(b[q - a.len()] == r[q]);
            }
        }
        assert forall|q: int| 0 <= q < r.len() implies !overlaps(#[trigger] r[q], n) by {
            if q >= a.len() {
                assert(b[q - a.len()] == r[q]);
            }
        }
        assert forall|q: int, m: int|
            0 <= q < r.len() && 0 <= m < rest.len() implies !overlaps(
            #[trigger] r[q],
            #[trigger] rest[m],
        ) by {
            if q >= a.len() {
                assert(b[q - a.len()] == r[q]);
            }
        }
    }
}

/// Resolution keeps a set of pairwise-disjoint, non-empty events so, for
/// every choice of fragment ids.
pub proof fn lemma_resolve_disjoint(es: Seq<EventView>, n: EventView, ids: Seq<Seq<char>>)
    requires
        all_valid(es),
        valid(n),
        disjoint_all(es),
    ensures
        all_valid(resolve_model(es, n, ids)),
        disjoint_all(resolve_model(es, n, ids)),
{
    assert(es + Seq::<EventView>::empty() =~= es);
    lemma_split_props(es, n, ids, seq![]);
    let a = split_around(es, n, ids);
    let p = a.push(n);
    assert forall|q: int| 0 <= q < p.len() implies #[trigger] valid(p[q]) by {
        if q < a.len() {
            assert(valid(a[q]));
        }
    }
    assert forall|i: int, j: int|
        0 <= i < p.len() && 0 <= j < p.len() && i != j implies !#[trigger] overlaps(p[i], p[j]) by {
        if i < a.len() && j < a.len() {
            assert(!overlaps(a[i], a[j]));
        } else if i < a.len() {
            assert(!overlaps(a[i], n));
        } else {
            assert(!overlaps(a[j], n));
        }
    }
    lemma_sort_valid(p);
    lemma_sort_disjoint(p);
}

/// No-overlap law: inserting a non-empty event into a set of pairwise
/// non-overlapping, non-empty events and compacting the result gives again
/// such a set, whatever ids the fragments received. Starting from the empty
/// set, any sequence of insertions therefore keeps the set free of overlaps.
pub proof fn lemma_resolve_compact_disjoint(
    es: Seq<EventView>,
    n: EventView,
    ids: Seq<Seq<char>>,
)
    requires
        all_valid(es),
        valid(n),
        disjoint_all(es),
    ensures
        all_valid(compact_model(resolve_model(es, n, ids))),
        disjoint_all(compact_model(resolve_model(es, n, ids))),
{
    let r = resolve_model(es, n, ids);
    lemma_resolve_disjoint(es, n, ids);
    lemma_sort_ordered(split_around(es, n, ids).push(n));
    lemma_sort_ordered_is_identity(r);
    lemma_ordered_disjoint_chained(r);
    lemma_fold_chained(r);
    lemma_chained_disjoint(compact_model(r));
}

/// The event set after inserting `news` one after the other into `start`,
/// compacting after each insertion; the i-th insertion gives its fragments
/// the ids `ids[i]`.
pub open spec fn replay(
    start: Seq<EventView>,
    news: Seq<EventView>,
    ids: Seq<Seq<Seq<char>>>,
) -> Seq<EventView>
    decreases news.len(),
{
    if news.len() == 0 {
        start
    } else {
        compact_model(
            resolve_model(replay(start, news.drop_last(), ids), news.last(), ids[news.len() - 1]),
        )
    }
}

/// No-overlap law over whole histories: any sequence of insertions of
/// non-empty events into the empty set, each followed by compaction, leaves
/// no two events overlapping.
pub proof fn lemma_replay_disjoint(news: Seq<EventView>, ids: Seq<Seq<Seq<char>>>)
    requires
        all_valid(news),
    ensures
        all_valid(replay(seq![], news, ids)),
        disjoint_all(replay(seq![], news, ids)),
    decreases news.len(),
{
    if news.len() > 0 {
        let d = news.drop_last();
        assert forall|i: int| 0 <= i < d.len() implies #[trigger] valid(d[i]) by {
            assert(valid(news[i]));
        }
        lemma_replay_disjoint(d, ids);
        assert(valid(news[news.len() - 1]));
        lemma_resolve_compact_disjoint(replay(seq![], d, ids), news.last(), ids[news.len() - 1]);
    }
}

/// New-event priority: the incoming event is in the resolved set exactly as
/// it was given, whatever ids the fragments received.
pub proof fn lemma_resolve_keeps_incoming(es: Seq<EventView>, n: EventView, ids: Seq<Seq<char>>)
    ensures
        resolve_model(es, n, ids).contains(n),
{
    let p = split_around(es, n, ids).push(n);
    lemma_sort_members(p);
    assert(p[p.len() - 1] == n);
}

/// The events of `es` have pairwise different ids.
pub open spec fn ids_distinct(es: Seq<EventView>) -> bool {
    forall|a: int, b: int| 0 <= a < es.len() && 0 <= b < es.len() && a != b ==> es[a].id != es[b].id
}

proof fn lemma_split_id_unused(es: Seq<EventView>, n: EventView, ids: Seq<Seq<char>>, d: Seq<char>)
    requires
        forall|k: int| 0 <= k < fragment_count(es, n) ==> #[trigger] ids[k] != d,
        forall|i: int| 0 <= i < es.len() && !overlaps(n, #[trigger] es[i]) ==> es[i].id != d,
    ensures
        id_unused(split_around(es, n, ids), d),
    decreases es.len(),
{
    if es.len() > 0 {
        let dl = es.drop_last();
        assert forall|i: int| 0 <= i < dl.len() && !overlaps(n, #[trigger] dl[i]) implies dl[i].id
            != d by {
            assert(dl[i] == es[i]);
        }
        lemma_split_id_unused(dl, n, ids, d);
        let c = fragment_count(dl, n) as int;
        let e = es.last();
        assert(e == es[es.len() - 1]);
        if overlaps(n, e) {
            if e.start < n.start {
                assert(ids[c] != d);
                if n.end < e.end {
                    assert(ids[c + 1] != d);
                }
            } else if n.end < e.end {
                assert(ids[c] != d);
            }
        }
        let a = split_around(dl, n, ids);
        let p = pieces_of(e, n, ids, c);
        let r = a + p;
        assert forall|i: int| 0 <= i < r.len() implies (#[trigger] r[i]).id != d by {
            if i < a.len() {
                assert(r[i] == a[i]);
            } else {
                assert(r[i] == p[i - a.len()]);
            }
        }
    }
}

/// When `n` is inserted into events with distinct ids (its own id among
/// none of theirs), the id of every event it overlaps is gone from the
/// compacted result: the remainders carry new ids.
pub proof fn lemma_overlapped_id_gone(es: Seq<EventView>, n: EventView, ids: Seq<Seq<char>>, j: int)
    requires
        ids_distinct(es),
        id_unused(es, n.id),
        fresh_for(ids, es.push(n)),
        ids.len() == fragment_count(es, n),
        0 <= j < es.len(),
        overlaps(n, es[j]),
    ensures
        id_unused(compact_model(resolve_model(es, n, ids)), es[j].id),
{
    let d = es[j].id;
    let all = es.push(n);
    assert forall|k: int| 0 <= k < fragment_count(es, n) implies #[trigger] ids[k] != d by {
        assert(id_unused(all, ids[k]));
        assert(all[j] == es[j]);
    }
    lemma_split_id_unused(es, n, ids, d);
    let p = split_around(es, n, ids).push(n);
    assert(n.id != d);
    assert forall|i: int| 0 <= i < p.len() implies (#[trigger] p[i]).id != d by {
        if i < p.len() - 1 {
            assert(p[i] == split_around(es, n, ids)[i]);
        }
    }
    lemma_sort_members(p);
    let t = sort_by_start(p);
    assert forall|i: int| 0 <= i < t.len() implies (#[trigger] t[i]).id != d by {
        assert(t.contains(t[i]));
        let m = choose|m: int| 0 <= m < p.len() && p[m] == t[i];
    }
    lemma_compact_id_unused(t, d);
}

proof fn lemma_split_other_attrs(es: Seq<EventView>, n: EventView, ids: Seq<Seq<char>>)
    requires
        forall|i: int| 0 <= i < es.len() ==> !same_attrs(#[trigger] es[i], n),
    ensures
        forall|q: int|
            0 <= q < split_around(es, n, ids).len() ==> !same_attrs(
                #[trigger] split_around(es, n, ids)[q],
                n,
            ),
    decreases es.len(),
{
    if es.len() > 0 {
        let dl = es.drop_last();
        assert forall|i: int| 0 <= i < dl.len() implies !same_attrs(#[trigger] dl[i], n) by {
            assert(dl[i] == es[i]);
        }
        lemma_split_other_attrs(dl, n, ids);
        let e = es.last();
        assert(e == es[es.len() - 1]);
        let a = split_around(dl, n, ids);
        let p = pieces_of(e, n, ids, fragment_count(dl, n) as int);
        let r = a + p;
        assert forall|q: int| 0 <= q < r.len() implies !same_attrs(#[trigger] r[q], n) by {
            if q < a.len() {
                assert(r[q] == a[q]);
            } else {
                assert(r[q] == p[q - a.len()]);
            }
        }
    }
}

/// New-event priority through compaction: a non-empty incoming event whose
/// attributes no existing event shares is in the compacted set exactly as
/// it was given.
pub proof fn lemma_incoming_survives_compaction(
    es: Seq<EventView>,
    n: EventView,
    ids: Seq<Seq<char>>,
)
    requires
        valid(n),
        forall|i: int| 0 <= i < es.len() ==> !same_attrs(#[trigger] es[i], n),
    ensures
        compact_model(resolve_model(es, n, ids)).contains(n),
{
    lemma_split_other_attrs(es, n, ids);
    let a = split_around(es, n, ids);
    let p = a.push(n);
    assert forall|i: int| 0 <= i < p.len() && same_attrs(#[trigger] p[i], n) implies p[i] == n by {
        if i < a.len() {
            assert(p[i] == a[i]);
        }
    }
    assert(p[p.len() - 1] == n);
    lemma_sort_members(p);
    let t = sort_by_start(p);
    assert forall|i: int| 0 <= i < t.len() && same_attrs(#[trigger] t[i], n) implies t[i] == n by {
        assert(t.contains(t[i]));
        let m = choose|m: int| 0 <= m < p.len() && p[m] == t[i];
    }
    lemma_compact_keeps_lone(t, n);
}

proof fn lemma_split_valid(es: Seq<EventView>, n: EventView, ids: Seq<Seq<char>>)
    requires
        all_valid(es),
        valid(n),
    ensures
        all_valid(split_around(es, n, ids)),
    decreases es.len(),
{
    if es.len() > 0 {
        let dl = es.drop_last();
        assert forall|i: int| 0 <= i < dl.len() implies #[trigger] valid(dl[i]) by {
            assert(dl[i] == es[i]);
            assert(valid(es[i]));
        }
        lemma_split_valid(dl, n, ids);
        let e = es.last();
        assert(valid(es[es.len() - 1]));
        let c = fragment_count(dl, n) as int;
        lemma_pieces_props(e, n, ids, c);
        let a = split_around(dl, n, ids);
        let p = pieces_of(e, n, ids, c);
        let r = a + p;
        assert forall|q: int| 0 <= q < r.len() implies #[trigger] valid(r[q]) by {
            if q < a.len() {
                assert(r[q] == a[q]);
            } else {
                assert(r[q] == p[q - a.len()]);
            }
        }
    }
}

/// New-event priority, in general: after inserting a non-empty event into
/// non-empty events and compacting, some event has the incoming event's
/// attributes and spans its range; compaction may only have widened it.
pub proof fn lemma_incoming_covered(es: Seq<EventView>, n: EventView, ids: Seq<Seq<char>>)
    requires
        all_valid(es),
        valid(n),
    ensures
        exists|i: int|
            0 <= i < compact_model(resolve_model(es, n, ids)).len() && covers(
                #[trigger] compact_model(resolve_model(es, n, ids))[i],
                n,
            ),
{
    lemma_split_valid(es, n, ids);
    let a = split_around(es, n, ids);
    let p = a.push(n);
    assert forall|q: int| 0 <= q < p.len() implies #[trigger] valid(p[q]) by {
        if q < a.len() {
            assert(p[q] == a[q]);
        }
    }
    assert(p[p.len() - 1] == n);
    lemma_sort_members(p);
    lemma_sort_valid(p);
    lemma_compact_covers(sort_by_start(p), n);
    let r = compact_model(sort_by_start(p));
    assert(r == compact_model(resolve_model(es, n, ids)));
    let i = choose|i: int| 0 <= i < r.len() && covers(#[trigger] r[i], n);
    assert(covers(compact_model(resolve_model(es, n, ids))[i], n));
}

/// Whether `n` overlaps some event of `es`.
pub open spec fn any_overlap(es: Seq<EventView>, n: EventView) -> bool {
    exists|i: int| 0 <= i < es.len() && overlaps(n, #[trigger] es[i])
}

/// Inserts `new_event`: existing events it overlaps are cut around it, then
/// the set is compacted. Returns whether any existing event overlapped it.
pub fn split_overlapping_events(events: &mut Vec<ScheduleEvent>, new_event: ScheduleEvent) -> (r:
    bool)
    ensures
        exists|ids: Seq<Seq<char>>|
            #![auto]
            fresh_for(ids, views(old(events)@).push(new_event@)) && ids.len() == fragment_count(
                views(old(events)@),
                new_event@,
            ) && views(final(events)@) == compact_model(
                resolve_model(views(old(events)@), new_event@, ids),
            ),
        r == any_overlap(views(old(events)@), new_event@),
{
    let mut overlaps_exist = false;
    let mut i: usize = 0;
    while i < events.len()
        invariant
            0 <= i <= events.len(),
            overlaps_exist == any_overlap(views(events@).take(i as int), new_event@),
        decreases events.len() - i,
    {
        let ghost pre = views(events@).take(i as int);
        let ghost post = views(events@).take(i + 1);
        assert(post[i as int] == events@[i as int]@);
        if new_event.start_time < events[i].end_time && new_event.end_time > events[i].start_time {
            overlaps_exist = true;
        }
        assert forall|k: int| 0 <= k < pre.len() implies #[trigger] pre[k] == post[k] by {}
        i = i + 1;
    }
    assert(views(events@).take(i as int) =~= views(events@));
    let mut resolved = resolve(events, &new_event);
    let ghost ids = choose|ids: Seq<Seq<char>>|
        #![auto]
        fresh_for(ids, views(events@).push(new_event@)) && ids.len() == fragment_count(
            views(events@),
            new_event@,
        ) && views(resolved@) == resolve_model(views(events@), new_event@, ids);
    merge_events(&mut resolved);
    *events = resolved;
    overlaps_exist
}

} // verus!
