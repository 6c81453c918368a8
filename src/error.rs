//! The failures the engine reports to its caller.

use vstd::prelude::*;

verus! {

#[derive(Clone, Copy, Debug, PartialEq, Eq, Structural)]
pub enum ScheduleError {
    /// A malformed time, date, range or `project:task` label.
    InvalidFormat,
    /// No free slot, no matching event, or no event with the given id.
    NotFound,
    /// An unknown time zone, or a wall-clock reading that the zone skips or
    /// shows twice.
    UnresolvedTime,
}

} // verus!
