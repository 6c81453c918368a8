use plantrack::diff::{compare_events, event_diff, ChangeKind, Field, FieldChange};
use plantrack::edit::{
    cut_event, edit_event, edit_range, find_event, make_event, plan_range_delete, quick_span,
    remove_event, replace_with_pieces,
};
use plantrack::error::ScheduleError;
use plantrack::event::ScheduleEvent;
use plantrack::export::calendar_entries;
use plantrack::label::{compose_summary, split_label};
use plantrack::listing::{events_on_day, gap_before, travel_route};
use plantrack::report::{aggregate, project_summary, tally, variance, GroupBy};
use plantrack::text::{split_first, split_last, starts_with_then, trim};

const DAY: i64 = 1_710_547_200; // 2024-03-16T00:00Z
const H: i64 = 3600;
const M: i64 = 60;

fn ev(id: &str, start: i64, end: i64, summary: &str, booked: bool) -> ScheduleEvent {
    ScheduleEvent {
        id: id.to_string(),
        start_time: start,
        end_time: end,
        summary: summary.to_string(),
        note: None,
        location: None,
        booked,
    }
}

fn at(id: &str, start: i64, end: i64, place: Option<&str>) -> ScheduleEvent {
    let mut e = ev(id, start, end, "A:B", true);
    e.location = place.map(|p| p.to_string());
    e
}

#[test]
fn report_variance_overrun() {
    let v = variance(5 * H as i128 + 30 * M as i128, 300);
    assert_eq!(v.diff_seconds, 1800);
    assert_eq!(v.diff_minutes, 30);
    assert!(v.overrun);
    assert_eq!(v.percent_hundredths, 1000);
}

#[test]
fn report_variance_underrun_and_zero_target() {
    let v = variance(4 * H as i128, 300);
    assert_eq!(v.diff_minutes, -60);
    assert!(!v.overrun);
    assert_eq!(v.percent_hundredths, -2000);
    let v = variance(H as i128, 0);
    assert_eq!(v.diff_minutes, 60);
    assert_eq!(v.percent_hundredths, 0);
    let v = variance(100 * M as i128, 300);
    assert_eq!(v.percent_hundredths, -6667);
}

#[test]
fn report_groups_project_month_by_task() {
    let events = vec![
        ev("a", DAY + 9 * H, DAY + 11 * H, "Acme:design", true),
        ev("b", DAY + 12 * H, DAY + 13 * H + 30 * M, "Acme:build", false),
        ev("c", DAY + 14 * H, DAY + 16 * H, "Acme:design", false),
        ev("d", DAY + 9 * H, DAY + 10 * H, "Other:design", true),
        ev("e", DAY + 20 * 24 * H, DAY + 20 * 24 * H + H, "Acme:design", true),
        ev("f", DAY + 17 * H, DAY + 18 * H, "Acmeco:design", true),
    ];
    let r = aggregate(&events, "Acme", 2024, 3, "UTC");
    let ids: Vec<&str> = r.events.iter().map(|e| e.id.as_str()).collect();
    assert_eq!(ids, vec!["a", "b", "c"]);
    assert_eq!(r.groups.len(), 2);
    assert_eq!(r.groups[0].key, "design");
    assert_eq!(r.groups[0].total, 4 * H as i128);
    assert_eq!(r.groups[1].key, "build");
    assert_eq!(r.groups[1].total, 90 * M as i128);
    assert_eq!(r.group_of_event, vec![0, 1, 0]);
    assert_eq!(r.total, 5 * H as i128 + 30 * M as i128);
    assert_eq!(r.booked, 2 * H as i128);
    assert_eq!(r.planned, 3 * H as i128 + 30 * M as i128);
    let april = aggregate(&events, "Acme", 2024, 4, "UTC");
    assert_eq!(april.events.len(), 1);
    assert_eq!(april.events[0].id, "e");
}

#[test]
fn report_month_follows_zone() {
    // 22:30 UTC on 2024-03-31 is already April in Berlin (summer time).
    let start = DAY + 15 * 24 * H + 22 * H + 30 * M;
    let events = vec![ev("a", start, start + H, "Acme:x", true)];
    assert_eq!(aggregate(&events, "Acme", 2024, 3, "UTC").events.len(), 1);
    assert_eq!(aggregate(&events, "Acme", 2024, 4, "Europe/Berlin").events.len(), 1);
    assert_eq!(aggregate(&events, "Acme", 2024, 3, "Europe/Berlin").events.len(), 0);
}

#[test]
fn summary_groups_by_project() {
    let events = vec![
        ev("a", DAY + 9 * H, DAY + 10 * H, "Acme:x", true),
        ev("b", DAY + 10 * H, DAY + 12 * H, "Beta:y", true),
        ev("c", DAY + 12 * H, DAY + 13 * H, "Acme:z", false),
        ev("d", DAY + 30 * H, DAY + 31 * H, "Acme:z", false),
    ];
    let r = project_summary(&events, DAY, DAY + 24 * H);
    let keys: Vec<&str> = r.groups.iter().map(|g| g.key.as_str()).collect();
    assert_eq!(keys, vec!["Acme", "Beta"]);
    assert_eq!(r.groups[0].total, 2 * H as i128);
    assert_eq!(r.groups[1].total, 2 * H as i128);
    let t = tally(&events, GroupBy::Task);
    assert_eq!(t.groups.len(), 3);
    assert_eq!(t.total, 5 * H as i128);
}

#[test]
fn diff_reports_removed_added_and_modified() {
    let before = vec![
        ev("keep", DAY + 9 * H, DAY + 10 * H, "A:B", true),
        ev("gone", DAY + 10 * H, DAY + 11 * H, "A:B", true),
        ev("moved", DAY + 12 * H, DAY + 13 * H, "A:B", true),
    ];
    let mut moved = ev("moved", DAY + 12 * H, DAY + 14 * H, "A:B", false);
    moved.note = Some("late".to_string());
    let after = vec![
        ev("keep", DAY + 9 * H, DAY + 10 * H, "A:B", true),
        ev("fresh", DAY + 10 * H, DAY + 11 * H, "A:B", true),
        moved,
    ];
    let d = event_diff(&before, &after);
    assert_eq!(d.removed.len(), 1);
    assert_eq!(d.removed[0].id, "gone");
    assert_eq!(d.added.len(), 1);
    assert_eq!(d.added[0].id, "fresh");
    assert_eq!(d.modified.len(), 1);
    assert_eq!(d.modified[0].before.end_time, DAY + 13 * H);
    assert_eq!(d.modified[0].after.end_time, DAY + 14 * H);
    assert_eq!(
        d.modified[0].changes,
        vec![
            FieldChange { field: Field::End, kind: ChangeKind::Changed },
            FieldChange { field: Field::Note, kind: ChangeKind::Added },
            FieldChange { field: Field::Booked, kind: ChangeKind::Changed },
        ]
    );
}

#[test]
fn removed_text_is_reported_as_removal() {
    let mut a = ev("x", 0, H, "A:B", true);
    a.location = Some("Office".to_string());
    a.note = Some("one".to_string());
    let mut b = ev("x", 0, H, "A:C", true);
    b.note = Some("two".to_string());
    assert_eq!(
        compare_events(&a, &b),
        vec![
            FieldChange { field: Field::Summary, kind: ChangeKind::Changed },
            FieldChange { field: Field::Note, kind: ChangeKind::Changed },
            FieldChange { field: Field::Location, kind: ChangeKind::Removed },
        ]
    );
}

#[test]
fn labels_are_trimmed_and_split() {
    assert_eq!(compose_summary("  Acme : design work ").unwrap(), "Acme:design work");
    assert_eq!(compose_summary("Acme:a:b").unwrap(), "Acme:a:b");
    assert_eq!(compose_summary("no colon"), Err(ScheduleError::InvalidFormat));
    assert_eq!(split_label("Acme:x:y"), ("Acme".to_string(), "x:y".to_string()));
    assert_eq!(split_label("plain"), (String::new(), "plain".to_string()));
}

#[test]
fn text_helpers() {
    assert_eq!(split_last("10:00-11:00-12:00", '-'), Some(("10:00-11:00".to_string(), "12:00".to_string())));
    assert_eq!(split_first("a-b-c", '-'), Some(("a".to_string(), "b-c".to_string())));
    assert_eq!(split_first("abc", '-'), None);
    assert_eq!(trim("\t x y \n"), "x y");
    assert_eq!(trim("   "), "");
    assert_eq!(trim("\u{3000}\u{a0}x\u{2029}"), "x");
    assert_eq!(trim("\u{200b}x"), "\u{200b}x");
    assert!(starts_with_then("Acme:x", "Acme", ':'));
    assert!(!starts_with_then("Acmeco:x", "Acme", ':'));
    assert!(!starts_with_then("Acme", "Acme", ':'));
}

#[test]
fn find_and_remove_by_id() {
    let mut events = vec![ev("a", 0, H, "A:B", true), ev("b", H, 2 * H, "A:B", true)];
    assert_eq!(find_event(&events, "b"), Ok(1));
    assert_eq!(find_event(&events, "z"), Err(ScheduleError::NotFound));
    let removed = remove_event(&mut events, "a").unwrap();
    assert_eq!(removed.id, "a");
    assert_eq!(events.len(), 1);
    assert_eq!(remove_event(&mut events, "a").map(|e| e.id), Err(ScheduleError::NotFound));
}

#[test]
fn cutting_a_range_out_of_an_event() {
    let e = ev("a", DAY + 9 * H, DAY + 12 * H, "A:B", true);
    let others = vec![e.clone(), ev("b", DAY + 13 * H, DAY + 14 * H, "A:B", true)];
    let parts = cut_event(&others, 0, DAY + 10 * H, DAY + 11 * H).unwrap();
    assert_eq!(parts.len(), 2);
    assert_eq!((parts[0].start_time, parts[0].end_time), (DAY + 9 * H, DAY + 10 * H));
    assert_eq!((parts[1].start_time, parts[1].end_time), (DAY + 11 * H, DAY + 12 * H));
    assert!(parts.iter().all(|p| p.id != "a" && p.id != "b" && !p.id.is_empty() && p.summary == "A:B"));
    assert_ne!(parts[0].id, parts[1].id);
    assert!(cut_event(&others, 0, DAY + 12 * H, DAY + 13 * H).is_none());
    assert_eq!(cut_event(&others, 0, DAY + 8 * H, DAY + 13 * H).map(|v| v.len()), Some(0));
}

#[test]
fn planned_range_delete_and_replacement() {
    let mut events = vec![
        ev("a", DAY + 9 * H, DAY + 12 * H, "A:B", true),
        ev("b", DAY + 12 * H, DAY + 13 * H, "A:B", true),
    ];
    let plan = plan_range_delete(&events, "a", "10:00-11:00", 15, "UTC").unwrap();
    let (index, parts) = plan.expect("range overlaps the event");
    assert_eq!(index, 0);
    assert_eq!(parts.len(), 2);
    replace_with_pieces(&mut events, index, parts);
    let spans: Vec<(i64, i64)> = events.iter().map(|e| (e.start_time, e.end_time)).collect();
    assert_eq!(spans, vec![(DAY + 9 * H, DAY + 10 * H), (DAY + 11 * H, DAY + 13 * H)]);
    assert!(plan_range_delete(&events, "zzz", "10:00-11:00", 15, "UTC").is_err());
    let miss = plan_range_delete(&events, &events[0].id.clone(), "15:00-16:00", 15, "UTC").unwrap();
    assert!(miss.is_none());
}

#[test]
fn quick_span_backward_and_forward() {
    let now = DAY + 14 * H + 7 * M;
    assert_eq!(quick_span(now, 20, 15, false), Some((DAY + 14 * H - 15 * M, DAY + 14 * H + 15 * M)));
    assert_eq!(quick_span(now, 15, 15, true), Some((DAY + 14 * H, DAY + 14 * H + 15 * M)));
}

#[test]
fn editing_keeps_id_unless_moved() {
    let mut e = ev("a", DAY + 9 * H, DAY + 10 * H, "A:B", false);
    e.note = Some("x".to_string());
    let (same, changed) = edit_event(&e, Some("Office".to_string()), Some(String::new()), Some(true), (e.start_time, e.end_time));
    assert!(changed);
    assert_eq!(same.id, "a");
    assert_eq!(same.location.as_deref(), Some("Office"));
    assert_eq!(same.note, None);
    assert!(same.booked);
    let (moved, changed) = edit_event(&e, None, None, None, (DAY + 11 * H, DAY + 12 * H));
    assert!(changed);
    assert_ne!(moved.id, "a");
    assert_eq!(moved.note.as_deref(), Some("x"));
    let (_, changed) = edit_event(&e, None, None, None, (e.start_time, e.end_time));
    assert!(!changed);
}

#[test]
fn edited_range_sources() {
    let e = ev("a", DAY + 9 * H, DAY + 10 * H, "A:B", false);
    assert_eq!(edit_range(&e, None, None, 15, "UTC"), Ok((DAY + 9 * H, DAY + 10 * H)));
    assert_eq!(edit_range(&e, Some("13:00-14:00"), None, 15, "UTC"), Ok((DAY + 13 * H, DAY + 14 * H)));
    assert_eq!(
        edit_range(&e, None, Some("2024-03-17"), 15, "UTC"),
        Ok((DAY + 33 * H, DAY + 34 * H))
    );
    assert_eq!(edit_range(&e, None, Some("17.03.2024"), 15, "UTC"), Err(ScheduleError::InvalidFormat));
}

#[test]
fn new_events_get_ids() {
    let a = make_event(&Vec::new(), 0, H, "A:B".to_string(), None, None, true);
    let b = make_event(&vec![a.clone()], 0, H, "A:B".to_string(), None, None, true);
    assert!(!a.id.is_empty());
    assert_ne!(a.id, b.id);
    assert_eq!(a.summary, "A:B");
}

#[test]
fn route_collapses_repeats() {
    let events = vec![
        at("a", 0, H, Some("Home")),
        at("b", H, 2 * H, Some("Home")),
        at("c", 2 * H, 3 * H, None),
        at("d", 3 * H, 4 * H, Some("Office")),
        at("e", 4 * H, 5 * H, Some("Home")),
    ];
    assert_eq!(travel_route(&events), vec!["Home".to_string(), "Office".to_string(), "Home".to_string()]);
    assert!(travel_route(&Vec::new()).is_empty());
}

#[test]
fn day_listing_and_gaps() {
    let events = vec![
        ev("a", DAY + 9 * H, DAY + 10 * H, "A:B", true),
        ev("b", DAY + 11 * H, DAY + 12 * H, "A:B", true),
        ev("c", DAY + 23 * H + 30 * M, DAY + 24 * H, "A:B", true),
    ];
    let utc_day: Vec<String> = events_on_day(&events, 19798, "UTC").iter().map(|e| e.id.clone()).collect();
    assert_eq!(utc_day, vec!["a", "b", "c"]);
    let berlin_next: Vec<String> =
        events_on_day(&events, 19799, "Europe/Berlin").iter().map(|e| e.id.clone()).collect();
    assert_eq!(berlin_next, vec!["c"]);
    assert_eq!(gap_before(&events, 0), 0);
    assert_eq!(gap_before(&events, 1), H as i128);
}

#[test]
fn calendar_export_selects_recent_events() {
    let mut noted = ev("n", DAY + 9 * H, DAY + 10 * H, " Acme :x", true);
    noted.note = Some("memo".to_string());
    noted.location = Some("Lab".to_string());
    let events = vec![ev("old", DAY - 30 * 24 * H, DAY - 30 * 24 * H + H, "Acme:x", true), noted];
    let entries = calendar_entries(&events, DAY, true).unwrap();
    assert_eq!(entries.len(), 1);
    assert_eq!(entries[0].uid, "n");
    assert_eq!(entries[0].summary, "Acme");
    assert!(entries[0].confirmed);
    assert_eq!(entries[0].description.as_deref(), Some("memo"));
    assert_eq!(entries[0].location.as_deref(), Some("Lab"));
    let without_notes = calendar_entries(&events, DAY, false).unwrap();
    assert_eq!(without_notes[0].description, None);
    let bad = vec![ev("b", DAY, DAY + H, "nolabel", false)];
    assert!(matches!(calendar_entries(&bad, DAY, true), Err(ScheduleError::InvalidFormat)));
}

#[test]
fn deleting_a_range_retires_the_id() {
    let mut events = vec![
        ev("a", DAY + 9 * H, DAY + 12 * H, "A:B", true),
        ev("b", DAY + 14 * H, DAY + 15 * H, "A:B", true),
    ];
    let (index, parts) = plan_range_delete(&events, "a", "10:00-11:00", 15, "UTC").unwrap().unwrap();
    replace_with_pieces(&mut events, index, parts);
    assert_eq!(events.len(), 3);
    assert!(events.iter().all(|e| e.id != "a"));
}

#[test]
fn range_delete_reads_the_zone_day() {
    // 23:30 UTC on 2024-03-16 is 00:30 on 2024-03-17 in Berlin.
    let events = vec![ev("a", DAY + 23 * H + 30 * M, DAY + 25 * H, "A:B", true)];
    let (_, parts) = plan_range_delete(&events, "a", "01:00-01:30", 15, "Europe/Berlin").unwrap().unwrap();
    let spans: Vec<(i64, i64)> = parts.iter().map(|e| (e.start_time, e.end_time)).collect();
    assert_eq!(spans, vec![(DAY + 23 * H + 30 * M, DAY + 24 * H), (DAY + 24 * H + 30 * M, DAY + 25 * H)]);
}
