use timetracking::clock::{current_context, current_now};
use timetracking::event::{TrackingData, TrackingEvent};
use timetracking::filter::{DateOrDateTime, LocalContext};
use timetracking::show::{show_duration, tracking_active};
use timetracking::track::{Goal, Settings, TimeGoal};

fn settings() -> Settings {
    Settings {
        auto_insert_stop: false,
        time_goal: TimeGoal {
            daily: Goal { hours: 8, minutes: 0 },
            weekly: Goal { hours: 40, minutes: 0 },
        },
    }
}

fn start(desc: Option<&str>, time: i64) -> TrackingEvent {
    TrackingEvent::Start(TrackingData {
        description: desc.map(|d| d.as_bytes().to_vec()),
        time,
    })
}

fn stop(time: i64) -> TrackingEvent {
    TrackingEvent::Stop(TrackingData { description: None, time })
}

// 1970-01-08, a Thursday; its week is days 4 through 10.
const TODAY: i64 = 7;
const CTX: LocalContext = LocalContext { today: TODAY, offset: 0 };

#[test]
fn plain_show_splits_todays_work() {
    let data = vec![
        start(Some("work"), TODAY * 86400 + 3600),
        stop(TODAY * 86400 + 3600 + 5430),
    ];
    let r = show_duration(&settings(), &data, None, None, None, true, false, CTX, 0);
    assert_eq!(r, Some((1, 30, 30)));
}

#[test]
fn remaining_reports_the_tighter_of_daily_and_weekly() {
    // One hour worked today: 7h left of the daily goal, 39h of the weekly
    // goal; the daily figure is the tighter one.
    let data = vec![
        start(Some("work"), TODAY * 86400 + 3600),
        stop(TODAY * 86400 + 7200),
    ];
    let r = show_duration(&settings(), &data, None, None, None, true, true, CTX, 0);
    assert_eq!(r, Some((7, 0, 0)));
}

#[test]
fn remaining_with_tight_weekly_goal_uses_weekly() {
    let tight = Settings {
        auto_insert_stop: false,
        time_goal: TimeGoal {
            daily: Goal { hours: 8, minutes: 0 },
            weekly: Goal { hours: 1, minutes: 30 },
        },
    };
    let data = vec![
        start(Some("work"), TODAY * 86400 + 3600),
        stop(TODAY * 86400 + 7200),
    ];
    let r = show_duration(&tight, &data, None, None, None, true, true, CTX, 0);
    // 90 - 60 = 30 weekly minutes left, tighter than 7h daily.
    assert_eq!(r, Some((0, 30, 0)));
}

#[test]
fn remaining_is_rejected_with_explicit_boundaries() {
    let data = vec![start(Some("work"), TODAY * 86400 + 3600)];
    let r = show_duration(
        &settings(),
        &data,
        Some(DateOrDateTime::Date(TODAY)),
        None,
        None,
        true,
        true,
        CTX,
        0,
    );
    assert_eq!(r, None);
}

#[test]
fn remaining_is_rejected_with_a_text_filter() {
    let data = vec![start(Some("work"), TODAY * 86400 + 3600)];
    let r = show_duration(
        &settings(),
        &data,
        None,
        None,
        Some(b"work".to_vec()),
        true,
        true,
        CTX,
        0,
    );
    assert_eq!(r, None);
}

#[test]
fn remaining_for_week_scope_uses_the_weekly_goal() {
    let data = vec![
        start(Some("work"), TODAY * 86400 + 3600),
        stop(TODAY * 86400 + 7200),
    ];
    let r = show_duration(
        &settings(),
        &data,
        None,
        None,
        Some(b"week".to_vec()),
        true,
        true,
        CTX,
        0,
    );
    assert_eq!(r, Some((39, 0, 0)));
}

#[test]
fn tracking_active_follows_the_last_event() {
    let empty: Vec<TrackingEvent> = Vec::new();
    assert!(!tracking_active(&empty));
    let running = vec![start(Some("a"), 1)];
    assert!(tracking_active(&running));
    let idle = vec![start(Some("a"), 1), stop(2)];
    assert!(!tracking_active(&idle));
}

#[test]
fn clock_readings_are_in_range() {
    // Some time after 2001, some time before the library's horizon.
    let now = current_now().expect("the clock must be readable");
    assert!(now > 1_000_000_000);
    let ctx = current_context().expect("the local date must be readable");
    // A local calendar day after 2001-09-09 (day 11574) and far below the bound.
    assert!(ctx.today > 11_574);
    assert!(ctx.offset > -86_400 && ctx.offset < 86_400);
}
