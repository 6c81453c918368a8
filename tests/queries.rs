use plantrack::error::ScheduleError;
use plantrack::event::ScheduleEvent;
use plantrack::query::{
    cleanup_events, current_event, find_free_slot, find_next_event_time, find_slot, is_slot_free,
};
use plantrack::range::{calendar_day, local_day, local_span, parse_datetime_range, parse_range_on_day};

const DAY: i64 = 1_710_547_200; // 2024-03-16T00:00Z
const H: i64 = 3600;
const M: i64 = 60;

fn ev(id: &str, start: i64, end: i64, summary: &str, booked: bool) -> ScheduleEvent {
    ScheduleEvent {
        id: id.to_string(),
        start_time: start,
        end_time: end,
        summary: summary.to_string(),
        note: None,
        location: None,
        booked,
    }
}

#[test]
fn overnight_range_ends_next_day() {
    let r = parse_datetime_range("22:00-01:00", Some("2024-03-16"), DAY, 15, "UTC");
    assert_eq!(r, Ok((DAY + 22 * H, DAY + 25 * H)));
}

#[test]
fn range_is_rounded_outward() {
    let r = parse_datetime_range("09:07-10:52", Some("2024-03-16"), DAY, 15, "UTC");
    assert_eq!(r, Ok((DAY + 9 * H, DAY + 11 * H)));
}

#[test]
fn range_in_a_zone_with_an_offset() {
    // Berlin is one hour ahead of UTC in March 2024, before summer time.
    let r = parse_datetime_range("10:00-11:30", Some("2024-03-16"), DAY, 15, "Europe/Berlin");
    assert_eq!(r, Ok((DAY + 9 * H, DAY + 10 * H + 30 * M)));
}

#[test]
fn range_without_date_uses_today_in_zone() {
    let now = DAY + 23 * H + 30 * M; // already 2024-03-17 in Berlin
    let r = parse_datetime_range("08:00-09:00", None, now, 15, "Europe/Berlin");
    assert_eq!(r, Ok((DAY + 24 * H + 7 * H, DAY + 24 * H + 8 * H)));
    assert_eq!(local_day("Europe/Berlin", now), Some(19799));
    assert_eq!(local_day("UTC", now), Some(19798));
}

#[test]
fn range_errors() {
    assert_eq!(parse_datetime_range("0900", None, DAY, 15, "UTC"), Err(ScheduleError::InvalidFormat));
    assert_eq!(
        parse_datetime_range("25:00-26:00", Some("2024-03-16"), DAY, 15, "UTC"),
        Err(ScheduleError::InvalidFormat)
    );
    assert_eq!(
        parse_datetime_range("09:00-10:00", Some("2024-02-30"), DAY, 15, "UTC"),
        Err(ScheduleError::InvalidFormat)
    );
    assert_eq!(
        parse_datetime_range("09:00-10:00", Some("2024-03-16"), DAY, 15, "Mars/Olympus"),
        Err(ScheduleError::UnresolvedTime)
    );
    // 02:30 does not exist in Berlin on 2024-03-31.
    assert_eq!(
        parse_datetime_range("02:30-03:30", Some("2024-03-31"), DAY, 15, "Europe/Berlin"),
        Err(ScheduleError::UnresolvedTime)
    );
}

#[test]
fn local_span_rounds_and_carries() {
    assert_eq!(local_span(0, (23, 50), (23, 55), 15), Some((23 * H + 45 * M, 24 * H)));
    assert_eq!(local_span(1, (22, 0), (1, 0), 15), Some((24 * H + 22 * H, 48 * H + H)));
}

#[test]
fn range_on_given_day() {
    assert_eq!(parse_range_on_day("12:00-13:00", 19798, 15, "UTC"), Ok((DAY + 12 * H, DAY + 13 * H)));
}

#[test]
fn slot_check_lists_conflicts() {
    let events = vec![
        ev("a", DAY + 9 * H, DAY + 10 * H, "A:B", true),
        ev("b", DAY + 10 * H, DAY + 11 * H, "A:C", false),
    ];
    assert_eq!(is_slot_free(&events, DAY + 11 * H, DAY + 12 * H), Ok(true));
    match is_slot_free(&events, DAY + 9 * H + 30 * M, DAY + 10 * H + 30 * M) {
        Err(v) => {
            let ids: Vec<&str> = v.iter().map(|e| e.id.as_str()).collect();
            assert_eq!(ids, vec!["a", "b"]);
        }
        Ok(_) => panic!("slot should conflict"),
    }
}

#[test]
fn slot_search_skips_booked_window() {
    let events = vec![ev("a", DAY + 9 * H, DAY + 12 * H, "A:B", true)];
    let r = find_slot(&events, DAY + 9 * H, DAY + 13 * H, 30, 15, DAY);
    assert_eq!(r, Ok((DAY + 12 * H, DAY + 12 * H + 30 * M)));
}

#[test]
fn slot_search_starts_at_rounded_now() {
    let events: Vec<ScheduleEvent> = Vec::new();
    let now = DAY + 10 * H + 7 * M + 20;
    let r = find_slot(&events, DAY + 9 * H, DAY + 13 * H, 30, 15, now);
    assert_eq!(r, Ok((DAY + 10 * H + 15 * M, DAY + 10 * H + 45 * M)));
}

#[test]
fn slot_search_reports_not_found() {
    let events = vec![ev("a", DAY + 9 * H, DAY + 13 * H, "A:B", true)];
    let r = find_slot(&events, DAY + 9 * H, DAY + 13 * H, 30, 15, DAY);
    assert_eq!(r, Err(ScheduleError::NotFound));
}

#[test]
fn free_slot_from_text_window() {
    let events = vec![ev("a", DAY + 9 * H, DAY + 12 * H, "A:B", true)];
    let r = find_free_slot(&events, "09:00-13:00", Some("2024-03-16"), 30, 15, "UTC", DAY);
    assert_eq!(r, Ok((DAY + 12 * H, DAY + 12 * H + 30 * M)));
    let r = find_free_slot(&events, "bad", Some("2024-03-16"), 30, 15, "UTC", DAY);
    assert_eq!(r, Err(ScheduleError::InvalidFormat));
}

#[test]
fn next_matching_event_is_the_earliest() {
    let events = vec![
        ev("late", DAY + 15 * H, DAY + 17 * H, "A:B", false),
        ev("short", DAY + 9 * H, DAY + 9 * H + 20 * M, "A:B", false),
        ev("early", DAY + 10 * H, DAY + 12 * H, "A:B", false),
        ev("other", DAY + 8 * H, DAY + 12 * H, "A:C", false),
        ev("past", DAY - 5 * H, DAY - 2 * H, "A:B", false),
    ];
    let r = find_next_event_time(&events, "A:B", 30, DAY);
    assert_eq!(r, Ok((DAY + 10 * H, DAY + 10 * H + 30 * M)));
    assert_eq!(find_next_event_time(&events, "Z:Z", 30, DAY), Err(ScheduleError::NotFound));
    assert_eq!(find_next_event_time(&events, "A:B", 600, DAY), Err(ScheduleError::NotFound));
}

#[test]
fn current_event_is_the_running_one() {
    let events = vec![
        ev("a", DAY + 9 * H, DAY + 10 * H, "A:B", true),
        ev("b", DAY + 10 * H, DAY + 11 * H, "A:C", false),
    ];
    assert_eq!(current_event(&events, DAY + 10 * H), Some(1));
    assert_eq!(current_event(&events, DAY + 9 * H + 59 * M), Some(0));
    assert_eq!(current_event(&events, DAY + 11 * H), None);
}

#[test]
fn cleanup_drops_old_events() {
    let mut events = vec![
        ev("old", DAY - 10 * 24 * H, DAY - 9 * 24 * H, "A:B", true),
        ev("recent", DAY - 24 * H, DAY - 23 * H, "A:B", true),
    ];
    cleanup_events(&mut events, 7, DAY);
    assert_eq!(events.len(), 1);
    assert_eq!(events[0].id, "recent");
}

#[test]
fn local_day_at_the_edge_of_the_calendar() {
    assert_eq!(local_day("Asia/Tokyo", 8_210_266_876_799), Some((8_210_266_876_799 + 9 * H) / 86_400));
    assert_eq!(local_day("America/New_York", i64::MIN), None);
    assert_eq!(calendar_day("2024-03-16"), Some(19798));
    assert_eq!(calendar_day("16/03/2024"), None);
}
