//! `project:task` labels.

use vstd::prelude::*;
use vstd::string::StringExecFns;
use crate::error::ScheduleError;
use crate::text::{split_first, trim, trimmed, cut_at, first_pos};

verus! {

/// The label made of `text`'s project and task, each trimmed, joined by a
/// colon; `None` where `text` has no colon.
pub open spec fn label_of(text: Seq<char>) -> Option<Seq<char>> {
    match cut_at(text, first_pos(text, ':')) {
        Some((p, t)) => Some(trimmed(p) + seq![':'] + trimmed(t)),
        None => None,
    }
}

/// Builds the label of an event from `project_task` (`project:task`, split
/// at the first colon); `InvalidFormat` without a colon.
pub fn compose_summary(project_task: &str) -> (r: Result<String, ScheduleError>)
    ensures
        match label_of(project_task@) {
            Some(l) => r matches Ok(s) && s@ == l,
            None => r == Err::<String, ScheduleError>(ScheduleError::InvalidFormat),
        },
{
    match split_first(project_task, ':') {
        Some((p, t)) => {
            let mut s = trim(p.as_str());
            s.append(":");
            proof {
                reveal_strlit(":");
            }
            let tt = trim(t.as_str());
            s.append(tt.as_str());
            assert(s@ =~= trimmed(p@) + seq![':'] + trimmed(t@));
            Ok(s)
        },
        None => Err(ScheduleError::InvalidFormat),
    }
}

/// The project part of a label (before its first colon), or the empty text
/// where it has none.
pub open spec fn project_of(summary: Seq<char>) -> Seq<char> {
    match cut_at(summary, first_pos(summary, ':')) {
        Some((p, _)) => p,
        None => seq![],
    }
}

/// The task part of a label (after its first colon), or the whole label
/// where it has no colon.
pub open spec fn rest_of(summary: Seq<char>) -> Seq<char> {
    match cut_at(summary, first_pos(summary, ':')) {
        Some((_, t)) => t,
        None => summary,
    }
}

/// Splits a label into project and task.
pub fn split_label(summary: &str) -> (r: (String, String))
    ensures
        r.0@ == project_of(summary@),
        r.1@ == rest_of(summary@),
{
    match split_first(summary, ':') {
        Some(p) => p,
        None => (String::new(), String::from_str(summary)),
    }
}

} // verus!
