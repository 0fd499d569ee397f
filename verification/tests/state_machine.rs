use timetracking::event::{TrackingData, TrackingEvent};
use timetracking::track::{
    continue_tracking, start_tracking, stop_tracking, ContinueOutcome, Goal, Settings, StartOutcome,
    StopOutcome, TimeGoal,
};

fn settings(auto: bool) -> Settings {
    Settings {
        auto_insert_stop: auto,
        time_goal: TimeGoal {
            daily: Goal { hours: 8, minutes: 0 },
            weekly: Goal { hours: 40, minutes: 0 },
        },
    }
}

fn start(desc: Option<&str>, time: i64) -> TrackingEvent {
    TrackingEvent::Start(TrackingData {
        description: desc.map(|d| d.as_bytes().to_vec()),
        time,
    })
}

fn stop(desc: Option<&str>, time: i64) -> TrackingEvent {
    TrackingEvent::Stop(TrackingData {
        description: desc.map(|d| d.as_bytes().to_vec()),
        time,
    })
}

fn desc_of(e: &TrackingEvent) -> Option<Vec<u8>> {
    e.description()
}

#[test]
fn start_on_empty_appends_one_start() {
    let mut data: Vec<TrackingEvent> = Vec::new();
    let r = start_tracking(&settings(false), &mut data, Some(b"work".to_vec()), None, 100);
    assert_eq!(r, StartOutcome::Started);
    assert_eq!(data.len(), 1);
    assert!(data[0].is_start());
    assert_eq!(data[0].instant(), 100);
    assert_eq!(desc_of(&data[0]), Some(b"work".to_vec()));
}

#[test]
fn start_on_stopped_log_appends_one_start() {
    let mut data = vec![start(Some("a"), 10), stop(None, 20)];
    let r = start_tracking(&settings(false), &mut data, None, Some(30), 99);
    assert_eq!(r, StartOutcome::Started);
    assert_eq!(data.len(), 3);
    assert!(data[2].is_start());
    assert_eq!(data[2].instant(), 30);
    assert_eq!(desc_of(&data[2]), None);
}

#[test]
fn start_while_running_without_auto_insert_is_noop() {
    let mut data = vec![start(Some("a"), 10)];
    let r = start_tracking(&settings(false), &mut data, Some(b"b".to_vec()), None, 99);
    assert_eq!(r, StartOutcome::AlreadyRunning);
    assert_eq!(data.len(), 1);
}

#[test]
fn start_while_running_same_description_is_noop() {
    let mut data = vec![start(Some("work"), 10)];
    let r = start_tracking(&settings(true), &mut data, Some(b"work".to_vec()), None, 99);
    assert_eq!(r, StartOutcome::AlreadyRunning);
    assert_eq!(data.len(), 1);
}

#[test]
fn start_while_running_different_description_inserts_stop() {
    let mut data = vec![start(Some("work"), 10)];
    let r = start_tracking(&settings(true), &mut data, Some(b"rest".to_vec()), None, 99);
    assert_eq!(r, StartOutcome::Started);
    assert_eq!(data.len(), 3);
    assert!(data[1].is_stop());
    assert_eq!(desc_of(&data[1]), None);
    assert_eq!(data[1].instant(), 99);
    assert!(data[2].is_start());
    assert_eq!(desc_of(&data[2]), Some(b"rest".to_vec()));
    assert_eq!(data[2].instant(), 99);
}

#[test]
fn start_while_running_with_at_is_rejected() {
    let mut data = vec![start(Some("work"), 10)];
    let r = start_tracking(&settings(true), &mut data, Some(b"rest".to_vec()), Some(50), 99);
    assert_eq!(r, StartOutcome::AtUnsupported);
    assert_eq!(data.len(), 1);
}

#[test]
fn stop_on_running_log_appends_one_stop() {
    let mut data = vec![start(Some("a"), 10)];
    let r = stop_tracking(&mut data, Some(b"done".to_vec()), None, 42);
    assert_eq!(r, StopOutcome::Stopped);
    assert_eq!(data.len(), 2);
    assert!(data[1].is_stop());
    assert_eq!(data[1].instant(), 42);
    assert_eq!(desc_of(&data[1]), Some(b"done".to_vec()));
}

#[test]
fn stop_on_stopped_log_is_noop() {
    let mut data = vec![start(Some("a"), 10), stop(None, 20)];
    let r = stop_tracking(&mut data, None, None, 42);
    assert_eq!(r, StopOutcome::AlreadyStopped);
    assert_eq!(data.len(), 2);
}

#[test]
fn continue_reuses_latest_start_description() {
    let mut data = vec![
        start(Some("old"), 1),
        stop(None, 2),
        start(Some("recent"), 3),
        stop(None, 4),
    ];
    let r = continue_tracking(&mut data, 77);
    assert_eq!(r, ContinueOutcome::Continued);
    assert_eq!(data.len(), 5);
    assert!(data[4].is_start());
    assert_eq!(desc_of(&data[4]), Some(b"recent".to_vec()));
    assert_eq!(data[4].instant(), 77);
}

#[test]
fn continue_on_running_log_is_rejected() {
    let mut data = vec![start(Some("a"), 10)];
    let r = continue_tracking(&mut data, 77);
    assert_eq!(r, ContinueOutcome::NothingToContinue);
    assert_eq!(data.len(), 1);
}

#[test]
fn continue_on_empty_log_is_rejected() {
    let mut data: Vec<TrackingEvent> = Vec::new();
    let r = continue_tracking(&mut data, 77);
    assert_eq!(r, ContinueOutcome::NothingToContinue);
    assert!(data.is_empty());
}

#[test]
fn continue_without_prior_start_is_noop() {
    let mut data = vec![stop(None, 5)];
    let r = continue_tracking(&mut data, 77);
    assert_eq!(r, ContinueOutcome::NoPriorStart);
    assert_eq!(data.len(), 1);
}

#[test]
fn stop_on_empty_log_appends_a_stop() {
    let mut data: Vec<TrackingEvent> = Vec::new();
    let r = stop_tracking(&mut data, None, None, 5);
    assert_eq!(r, StopOutcome::Stopped);
    assert_eq!(data.len(), 1);
    assert!(data[0].is_stop());
}
