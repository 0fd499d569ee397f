use timetracking::event::{TrackingData, TrackingEvent};
use timetracking::filter::{filter_events, DateOrDateTime, LocalContext};

fn start(desc: Option<&str>, time: i64) -> TrackingEvent {
    TrackingEvent::Start(TrackingData {
        description: desc.map(|d| d.as_bytes().to_vec()),
        time,
    })
}

fn stop(desc: Option<&str>, time: i64) -> TrackingEvent {
    TrackingEvent::Stop(TrackingData {
        description: desc.map(|d| d.as_bytes().to_vec()),
        time,
    })
}

fn descs(events: &[TrackingEvent]) -> Vec<Option<Vec<u8>>> {
    events.iter().map(|e| e.description()).collect()
}

// 1970-01-08 was a Thursday: day 7, so that week's Monday is day 4.
const TODAY: i64 = 7;
const CTX: LocalContext = LocalContext { today: TODAY, offset: 0 };

#[test]
fn text_filter_keeps_matching_pair_only() {
    let data = vec![
        start(Some("meeting"), TODAY * 86400 + 100),
        stop(Some("meeting"), TODAY * 86400 + 200),
        start(Some("coding"), TODAY * 86400 + 300),
        stop(Some("coding"), TODAY * 86400 + 400),
    ];
    let out = filter_events(&data, None, None, Some(b"meeting".to_vec()), CTX);
    assert_eq!(out.len(), 2);
    assert_eq!(
        descs(&out),
        vec![Some(b"meeting".to_vec()), Some(b"meeting".to_vec())]
    );
}

#[test]
fn all_token_returns_log_minus_leading_stops() {
    let data = vec![
        stop(None, 50),
        start(Some("a"), 100),
        stop(None, 200),
    ];
    let out = filter_events(&data, None, None, Some(b"all".to_vec()), CTX);
    assert_eq!(out.len(), 2);
    assert!(out[0].is_start());
    assert!(out[1].is_stop());
    assert_eq!(out[0].instant(), 100);
}

#[test]
fn all_token_ignores_range_entirely() {
    // Events far outside today's range still pass with "all".
    let data = vec![start(Some("a"), 1), stop(None, 2)];
    let out = filter_events(&data, None, None, Some(b"all".to_vec()), CTX);
    assert_eq!(out.len(), 2);
}

#[test]
fn week_token_keeps_current_week_only() {
    let monday = 4 * 86400;
    let sunday_end = 10 * 86400 + 86399;
    let data = vec![
        start(Some("before"), monday - 10),
        stop(None, monday - 5),
        start(Some("inside"), monday + 100),
        stop(None, sunday_end - 100),
        start(Some("after"), sunday_end + 10),
    ];
    // Explicit boundaries are ignored for "week".
    let out = filter_events(
        &data,
        Some(DateOrDateTime::Date(0)),
        Some(DateOrDateTime::Date(1)),
        Some(b"week".to_vec()),
        CTX,
    );
    assert_eq!(out.len(), 2);
    assert_eq!(out[0].description(), Some(b"inside".to_vec()));
    assert_eq!(out[0].instant(), monday + 100);
    assert_eq!(out[1].instant(), sunday_end - 100);
}

#[test]
fn default_range_is_today() {
    let data = vec![
        start(Some("yesterday"), (TODAY - 1) * 86400 + 100),
        stop(None, (TODAY - 1) * 86400 + 200),
        start(Some("today"), TODAY * 86400 + 100),
        stop(None, TODAY * 86400 + 200),
    ];
    let out = filter_events(&data, None, None, None, CTX);
    assert_eq!(out.len(), 2);
    assert_eq!(out[0].description(), Some(b"today".to_vec()));
}

#[test]
fn date_boundaries_cover_whole_days() {
    let data = vec![
        start(Some("a"), 5 * 86400),
        stop(None, 5 * 86400 + 86399),
    ];
    let out = filter_events(
        &data,
        Some(DateOrDateTime::Date(5)),
        Some(DateOrDateTime::Date(5)),
        None,
        CTX,
    );
    assert_eq!(out.len(), 2);
}

#[test]
fn datetime_boundaries_are_exact_instants() {
    let data = vec![
        start(Some("a"), 1000),
        stop(None, 2000),
    ];
    let cut = filter_events(
        &data,
        Some(DateOrDateTime::DateTime(1500)),
        Some(DateOrDateTime::DateTime(2500)),
        None,
        CTX,
    );
    // The Start at 1000 falls out, and the leading Stop is then trimmed.
    assert_eq!(cut.len(), 0);
    let full = filter_events(
        &data,
        Some(DateOrDateTime::DateTime(1000)),
        Some(DateOrDateTime::DateTime(2000)),
        None,
        CTX,
    );
    assert_eq!(full.len(), 2);
}

#[test]
fn offset_shifts_local_midnight() {
    // With a +1h offset, local midnight of day 5 is 5*86400 - 3600 UTC.
    let ctx = LocalContext { today: TODAY, offset: 3600 };
    let data = vec![
        start(Some("a"), 5 * 86400 - 3600),
        stop(None, 5 * 86400 - 3000),
    ];
    let out = filter_events(
        &data,
        Some(DateOrDateTime::Date(5)),
        Some(DateOrDateTime::Date(5)),
        None,
        ctx,
    );
    assert_eq!(out.len(), 2);
}

#[test]
fn undescribed_events_fail_text_filter() {
    let data = vec![
        start(None, TODAY * 86400 + 100),
        stop(None, TODAY * 86400 + 200),
    ];
    let out = filter_events(&data, None, None, Some(b"meeting".to_vec()), CTX);
    assert_eq!(out.len(), 0);
}

#[test]
fn empty_token_passes_described_events_but_not_bare_ones() {
    let data = vec![
        start(Some("a"), TODAY * 86400 + 100),
        stop(None, TODAY * 86400 + 200),
    ];
    let out = filter_events(&data, None, None, Some(Vec::new()), CTX);
    // The empty token is contained in any description, but an event with
    // no description fails every non-"all" token.
    assert_eq!(out.len(), 1);
    assert!(out[0].is_start());
}
