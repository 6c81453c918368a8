//! Identifiers for new events and fragments.

use vstd::prelude::*;
use vstd::string::{StrSliceExecFns, StringExecFns};
use crate::event::{ScheduleEvent, EventView, views};

verus! {

/// Relies on `uuid::Uuid::new_v4` and its `Display` form, the hyphenated
/// lower-case text of 36 characters; the value is random.
#[verifier::external_body]
fn random_id() -> (r: String)
    ensures
        r@.len() == 36,
{
    uuid::Uuid::new_v4().to_string()
}

/// No event of `es` has id `id`.
pub open spec fn id_unused(es: Seq<EventView>, id: Seq<char>) -> bool {
    forall|i: int| 0 <= i < es.len() ==> (#[trigger] es[i]).id != id
}

/// `ids` are pairwise different and none is the id of an event of `es`.
pub open spec fn fresh_for(ids: Seq<Seq<char>>, es: Seq<EventView>) -> bool {
    &&& forall|k: int| 0 <= k < ids.len() ==> id_unused(es, #[trigger] ids[k])
    &&& forall|k: int, j: int| 0 <= k < j < ids.len() ==> #[trigger] ids[k] != #[trigger] ids[j]
}

pub open spec fn texts_of(s: Seq<String>) -> Seq<Seq<char>> {
    s.map_values(|t: String| t@)
}

fn text_len(t: &String) -> (r: usize)
    ensures
        r == t@.len(),
{
    t.as_str().unicode_len()
}

/// An id that no event of `events` has and that differs from every text
/// of `taken`: a random one, or, should that one be in use, one longer
/// than every id in use.
pub fn unused_id(events: &Vec<ScheduleEvent>, taken: &Vec<String>) -> (r: String)
    ensures
        id_unused(views(events@), r@),
        forall|j: int| 0 <= j < taken@.len() ==> r@ != (#[trigger] taken@[j])@,
{
    let candidate = random_id();
    let mut clash = false;
    let mut longest: usize = 0;
    let mut i: usize = 0;
    while i < events.len()
        invariant
            0 <= i <= events.len(),
            !clash ==> forall|k: int| 0 <= k < i ==> (#[trigger] events@[k]).id@ != candidate@,
            forall|k: int| 0 <= k < i ==> (#[trigger] events@[k]).id@.len() <= longest,
        decreases events.len() - i,
    {
        if events[i].id == candidate {
            clash = true;
        }
        let n = text_len(&events[i].id);
        if n > longest {
            longest = n;
        }
        i = i + 1;
    }
    let mut j: usize = 0;
    while j < taken.len()
        invariant
            0 <= j <= taken.len(),
            !clash ==> forall|k: int| 0 <= k < events@.len() ==> (#[trigger] events@[k]).id@
                != candidate@,
            !clash ==> forall|k: int| 0 <= k < j ==> (#[trigger] taken@[k])@ != candidate@,
            forall|k: int| 0 <= k < events@.len() ==> (#[trigger] events@[k]).id@.len() <= longest,
            forall|k: int| 0 <= k < j ==> (#[trigger] taken@[k])@.len() <= longest,
        decreases taken.len() - j,
    {
        if taken[j] == candidate {
            clash = true;
        }
        let n = text_len(&taken[j]);
        if n > longest {
            longest = n;
        }
        j = j + 1;
    }
    if !clash {
        assert forall|k: int| 0 <= k < views(events@).len() implies (#[trigger] views(
            events@,
        )[k]).id != candidate@ by {
            assert(views(events@)[k] == events@[k]@);
        }
        return candidate;
    }
    let mut r = String::new();
    let mut m: u128 = 0;
    while m <= longest as u128
        invariant
            r@.len() == m,
            m <= longest + 1,
        decreases longest + 1 - m,
    {
        r.append("-");
        proof {
            reveal_strlit("-");
        }
        m = m + 1;
    }
    assert forall|k: int| 0 <= k < views(events@).len() implies (#[trigger] views(events@)[k]).id
        != r@ by {
        assert(views(events@)[k] == events@[k]@);
        assert(events@[k].id@.len() <= longest);
    }
    assert forall|k: int| 0 <= k < taken@.len() implies r@ != (#[trigger] taken@[k])@ by {
        assert(taken@[k]@.len() <= longest);
    }
    r
}

} // verus!
