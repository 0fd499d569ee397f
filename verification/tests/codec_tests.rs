use timetracking::codec::{decode_events, encode_events};
use timetracking::event::{TrackingData, TrackingEvent};

fn sample_log() -> Vec<TrackingEvent> {
    vec![
        TrackingEvent::Start(TrackingData {
            description: Some(b"work".to_vec()),
            time: 1_600_000_000,
        }),
        TrackingEvent::Stop(TrackingData { description: None, time: 1_600_003_600 }),
        TrackingEvent::Start(TrackingData {
            description: Some(Vec::new()),
            time: -120,
        }),
    ]
}

fn models(events: &[TrackingEvent]) -> Vec<(bool, Option<Vec<u8>>, i64)> {
    events
        .iter()
        .map(|e| (e.is_start(), e.description(), e.instant()))
        .collect()
}

#[test]
fn decode_inverts_encode() {
    let log = sample_log();
    let bytes = encode_events(&log);
    let back = decode_events(&bytes).expect("a saved log must load");
    assert_eq!(models(&log), models(&back));
}

#[test]
fn saving_a_loaded_log_is_byte_identical() {
    let bytes = encode_events(&sample_log());
    let loaded = decode_events(&bytes).expect("a saved log must load");
    let resaved = encode_events(&loaded);
    assert_eq!(bytes, resaved);
}

#[test]
fn empty_bytes_decode_to_empty_log() {
    let out = decode_events(&Vec::new()).expect("empty content is an empty log");
    assert!(out.is_empty());
}

#[test]
fn empty_log_encodes_to_empty_bytes() {
    let events: Vec<TrackingEvent> = Vec::new();
    assert!(encode_events(&events).is_empty());
}

#[test]
fn malformed_bytes_are_rejected() {
    // An unknown kind byte.
    assert!(decode_events(&vec![7u8, 0, 0, 0, 0, 0, 0, 0, 0, 0]).is_none());
    // A truncated record.
    assert!(decode_events(&vec![0u8, 0, 1]).is_none());
    // A description length pointing past the end.
    let mut bytes = vec![0u8, 1];
    bytes.extend_from_slice(&[255, 255, 255, 255, 0, 0, 0, 0]);
    bytes.extend_from_slice(&[0; 8]);
    assert!(decode_events(&bytes).is_none());
    // Trailing garbage after a good record.
    let mut good = encode_events(&sample_log());
    good.push(9);
    assert!(decode_events(&good).is_none());
}
