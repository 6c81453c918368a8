use plantrack::compact::merge_events;
use plantrack::error::ScheduleError;
use plantrack::event::ScheduleEvent;
use plantrack::resolve::{resolve, split_overlapping_events};
use plantrack::rounding::{round_duration_up, round_instant, round_time_to_interval, TimeOfDay};

const DAY: i64 = 1_710_547_200; // 2024-03-16T00:00Z
const H: i64 = 3600;
const M: i64 = 60;

fn ev(id: &str, start: i64, end: i64, summary: &str, booked: bool) -> ScheduleEvent {
    ScheduleEvent {
        id: id.to_string(),
        start_time: start,
        end_time: end,
        summary: summary.to_string(),
        note: None,
        location: None,
        booked,
    }
}

fn no_overlap(events: &[ScheduleEvent]) -> bool {
    for (i, a) in events.iter().enumerate() {
        for (j, b) in events.iter().enumerate() {
            if i != j && a.start_time < b.end_time && a.end_time > b.start_time {
                return false;
            }
        }
    }
    true
}

fn ranges(events: &[ScheduleEvent]) -> Vec<(i64, i64)> {
    events.iter().map(|e| (e.start_time, e.end_time)).collect()
}

#[test]
fn split_keeps_parts_around_new_event() {
    let existing = vec![ev("old", DAY + 9 * H, DAY + 12 * H, "A:B", true)];
    let new = ev("new", DAY + 10 * H, DAY + 11 * H, "A:B", true);
    let r = resolve(&existing, &new);
    assert_eq!(
        ranges(&r),
        vec![(DAY + 9 * H, DAY + 10 * H), (DAY + 10 * H, DAY + 11 * H), (DAY + 11 * H, DAY + 12 * H)]
    );
    assert_eq!(r[1].id, "new");
    let total: i64 = r.iter().map(|e| e.end_time - e.start_time).sum();
    assert_eq!(total, 3 * H);
    for frag in [&r[0], &r[2]] {
        assert_eq!(frag.summary, "A:B");
        assert!(frag.booked);
        assert!(!frag.id.is_empty());
        assert_ne!(frag.id, "old");
        assert_ne!(frag.id, "new");
    }
    assert_ne!(r[0].id, r[2].id);
}

#[test]
fn new_event_appears_unchanged_after_resolve() {
    let existing = vec![
        ev("a", DAY + 8 * H, DAY + 10 * H, "P:x", false),
        ev("b", DAY + 10 * H, DAY + 13 * H, "Q:y", true),
    ];
    let mut new = ev("n", DAY + 9 * H, DAY + 11 * H, "R:z", true);
    new.note = Some("call".to_string());
    let r = resolve(&existing, &new);
    let found = r.iter().find(|e| e.id == "n").expect("incoming event kept");
    assert_eq!((found.start_time, found.end_time), (new.start_time, new.end_time));
    assert_eq!(found.summary, "R:z");
    assert_eq!(found.note.as_deref(), Some("call"));
    assert_eq!(
        ranges(&r),
        vec![(DAY + 8 * H, DAY + 9 * H), (DAY + 9 * H, DAY + 11 * H), (DAY + 11 * H, DAY + 13 * H)]
    );
}

#[test]
fn resolve_without_overlap_keeps_events() {
    let existing = vec![ev("a", DAY + 12 * H, DAY + 13 * H, "P:x", false)];
    let new = ev("n", DAY + 9 * H, DAY + 10 * H, "P:y", false);
    let r = resolve(&existing, &new);
    assert_eq!(r.len(), 2);
    assert_eq!(r[0].id, "n");
    assert_eq!(r[1].id, "a");
}

#[test]
fn adjacent_equal_events_merge() {
    let mut events = vec![
        ev("second", DAY + 10 * H, DAY + 11 * H, "A:B", false),
        ev("first", DAY + 9 * H, DAY + 10 * H, "A:B", false),
    ];
    merge_events(&mut events);
    assert_eq!(events.len(), 1);
    assert_eq!(ranges(&events), vec![(DAY + 9 * H, DAY + 11 * H)]);
    assert_eq!(events[0].id, "first");
}

#[test]
fn different_attributes_do_not_merge() {
    let mut events = vec![
        ev("a", DAY + 9 * H, DAY + 10 * H, "A:B", false),
        ev("b", DAY + 10 * H, DAY + 11 * H, "A:B", true),
        ev("c", DAY + 11 * H, DAY + 12 * H, "A:C", true),
    ];
    merge_events(&mut events);
    assert_eq!(events.len(), 3);
}

#[test]
fn compaction_is_idempotent() {
    let mut once = vec![
        ev("c", DAY + 11 * H, DAY + 12 * H, "A:B", false),
        ev("a", DAY + 9 * H, DAY + 10 * H, "A:B", false),
        ev("x", DAY + 10 * H, DAY + 11 * H, "C:D", false),
        ev("b", DAY + 10 * H, DAY + 11 * H, "A:B", false),
        ev("y", DAY + 13 * H, DAY + 14 * H, "C:D", false),
    ];
    merge_events(&mut once);
    let mut twice = once.clone();
    merge_events(&mut twice);
    assert_eq!(ranges(&once), ranges(&twice));
    let ids_once: Vec<&str> = once.iter().map(|e| e.id.as_str()).collect();
    let ids_twice: Vec<&str> = twice.iter().map(|e| e.id.as_str()).collect();
    assert_eq!(ids_once, ids_twice);
    assert_eq!(ids_once, vec!["a", "x", "y"]);
}

#[test]
fn insertions_never_leave_overlaps() {
    let mut events: Vec<ScheduleEvent> = Vec::new();
    let inserts = [
        (8, 12, "A:B", true),
        (10, 11, "A:C", false),
        (9, 14, "B:D", true),
        (13, 15, "A:B", true),
        (7, 9, "B:D", true),
        (11, 13, "A:C", false),
    ];
    for (n, (s, e, label, booked)) in inserts.iter().enumerate() {
        let new = ev(&format!("n{n}"), DAY + s * H, DAY + e * H, label, *booked);
        split_overlapping_events(&mut events, new);
        assert!(no_overlap(&events));
        for w in events.windows(2) {
            assert!(w[0].start_time <= w[1].start_time);
        }
    }
}

#[test]
fn split_reports_whether_events_overlapped() {
    let mut events = vec![ev("a", DAY + 9 * H, DAY + 12 * H, "A:B", true)];
    assert!(split_overlapping_events(&mut events, ev("n", DAY + 10 * H, DAY + 11 * H, "A:B", true)));
    assert_eq!(ranges(&events), vec![(DAY + 9 * H, DAY + 12 * H)]);
    assert!(!split_overlapping_events(&mut events, ev("m", DAY + 13 * H, DAY + 14 * H, "X:Y", true)));
    assert_eq!(events.len(), 2);
}

#[test]
fn rounding_down_and_up() {
    let t = TimeOfDay { hour: 14, minute: 7, second: 33 };
    assert_eq!(round_time_to_interval(t, 15, false), TimeOfDay { hour: 14, minute: 0, second: 0 });
    assert_eq!(round_time_to_interval(t, 15, true), TimeOfDay { hour: 14, minute: 15, second: 0 });
}

#[test]
fn rounding_up_wraps_past_midnight() {
    let t = TimeOfDay { hour: 23, minute: 55, second: 0 };
    assert_eq!(round_time_to_interval(t, 15, true), TimeOfDay { hour: 0, minute: 0, second: 0 });
    let t = TimeOfDay { hour: 10, minute: 50, second: 0 };
    assert_eq!(round_time_to_interval(t, 15, true), TimeOfDay { hour: 11, minute: 0, second: 0 });
}

#[test]
fn rounding_exact_multiple_is_unchanged() {
    let t = TimeOfDay { hour: 9, minute: 30, second: 12 };
    assert_eq!(round_time_to_interval(t, 15, true), TimeOfDay { hour: 9, minute: 30, second: 0 });
    assert_eq!(round_time_to_interval(t, 45, false), TimeOfDay { hour: 9, minute: 0, second: 0 });
}

#[test]
fn duration_rounds_up_to_interval() {
    assert_eq!(round_duration_up(20, 15), 30);
    assert_eq!(round_duration_up(30, 15), 30);
    assert_eq!(round_duration_up(0, 15), 0);
}

#[test]
fn instant_rounding_carries_the_day() {
    assert_eq!(round_instant(DAY + 23 * H + 55 * M + 10, 15, true), Some(DAY + 24 * H));
    assert_eq!(round_instant(DAY + 14 * H + 7 * M, 15, false), Some(DAY + 14 * H));
    assert_eq!(round_instant(i64::MAX, 15, true), Some(9_223_372_036_854_775_800));
    assert_eq!(round_instant(i64::MAX, 1440, true), None);
}

#[test]
fn error_kinds_are_distinct() {
    assert_ne!(ScheduleError::InvalidFormat, ScheduleError::NotFound);
    assert_ne!(ScheduleError::NotFound, ScheduleError::UnresolvedTime);
}

#[test]
fn overlapped_ids_are_gone_after_insertion() {
    let mut events = vec![
        ev("a", DAY + 9 * H, DAY + 12 * H, "A:B", true),
        ev("b", DAY + 13 * H, DAY + 14 * H, "A:B", true),
    ];
    let new = ev("n", DAY + 10 * H, DAY + 11 * H, "C:D", false);
    assert!(split_overlapping_events(&mut events, new));
    assert_eq!(events.len(), 4);
    assert!(events.iter().all(|e| e.id != "a"));
    assert_eq!(events[1].id, "n");
    assert_eq!((events[1].start_time, events[1].end_time), (DAY + 10 * H, DAY + 11 * H));
    assert_eq!(events[3].id, "b");
    assert!(events[0].id != "n" && events[2].id != "n" && events[0].id != events[2].id);
}
