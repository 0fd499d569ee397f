use timetracking::agg::{get_remaining_minutes, get_time_from_events, split_duration, split_minutes};
use timetracking::event::{TrackingData, TrackingEvent};
use timetracking::track::{Goal, Settings, TimeGoal};

fn start(desc: Option<&str>, time: i64) -> TrackingEvent {
    TrackingEvent::Start(TrackingData {
        description: desc.map(|d| d.as_bytes().to_vec()),
        time,
    })
}

fn stop(time: i64) -> TrackingEvent {
    TrackingEvent::Stop(TrackingData { description: None, time })
}

const H9: i64 = 9 * 3600;

#[test]
fn one_closed_pair_counts_its_span() {
    // Start("work", 09:00:00), Stop(none, 09:30:00) -> 30 minutes.
    let data = vec![start(Some("work"), H9), stop(H9 + 30 * 60)];
    let total = get_time_from_events(&data, true, 12 * 3600);
    assert_eq!(total, 30 * 60);
    let (h, m, s) = split_duration(total);
    assert_eq!((h, m, s), (0, 30, 0));
}

#[test]
fn trailing_open_start_runs_until_now() {
    // Start("work", 09:00:00) with now = 09:45:00 -> 45 minutes.
    let data = vec![start(Some("work"), H9)];
    let total = get_time_from_events(&data, true, H9 + 45 * 60);
    assert_eq!(total, 45 * 60);
}

#[test]
fn aggregation_is_deterministic() {
    let data = vec![start(Some("a"), 100), stop(700), start(Some("b"), 1000)];
    let now = 5000;
    let first = get_time_from_events(&data, true, now);
    let second = get_time_from_events(&data, true, now);
    assert_eq!(first, second);
    assert_eq!(first, 600 + 4000);
}

#[test]
fn excluding_seconds_truncates_to_minutes() {
    // 09:00:30 .. 09:01:10 counts as 09:00 .. 09:01 = one minute.
    let data = vec![start(None, H9 + 30), stop(H9 + 70)];
    assert_eq!(get_time_from_events(&data, false, 0), 60);
    assert_eq!(get_time_from_events(&data, true, 0), 40);
}

#[test]
fn empty_log_has_no_work_time() {
    let data: Vec<TrackingEvent> = Vec::new();
    assert_eq!(get_time_from_events(&data, true, 1234), 0);
}

#[test]
fn split_duration_exact_parts() {
    assert_eq!(split_duration(3661), (1, 1, 1));
    assert_eq!(split_duration(0), (0, 0, 0));
    assert_eq!(split_duration(-3661), (-1, -1, -1));
    assert_eq!(split_duration(7200 + 59 * 60 + 59), (2, 59, 59));
}

#[test]
fn remaining_minutes_against_daily_goal() {
    // Daily goal 8h0m, accumulated 6h30m -> 90 minutes remaining.
    let settings = Settings {
        auto_insert_stop: false,
        time_goal: TimeGoal {
            daily: Goal { hours: 8, minutes: 0 },
            weekly: Goal { hours: 40, minutes: 0 },
        },
    };
    assert_eq!(get_remaining_minutes(&settings, false, 6, 30), 90);
    assert_eq!(get_remaining_minutes(&settings, true, 6, 30), 40 * 60 - 390);
    // Exceeding the goal goes negative.
    assert_eq!(get_remaining_minutes(&settings, false, 9, 0), -60);
}

#[test]
fn split_minutes_rounds_toward_zero() {
    assert_eq!(split_minutes(90), (1, 30));
    assert_eq!(split_minutes(-90), (-1, -30));
    assert_eq!(split_minutes(59), (0, 59));
}
