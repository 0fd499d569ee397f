use timetracking::filter::{DateOrDateTime, LocalContext};
use timetracking::parse::{parse_date_or_date_time, parse_date_time};

const CTX: LocalContext = LocalContext { today: 3, offset: 3600 };

fn instant(s: &str) -> Option<i64> {
    parse_date_time(&s.as_bytes().to_vec(), CTX)
}

fn boundary(s: &str) -> Option<DateOrDateTime> {
    parse_date_or_date_time(&s.as_bytes().to_vec(), CTX)
}

// 2020-01-02 is day 18263 since the epoch.
const D20200102: i64 = 18263;

#[test]
fn full_time_is_read_on_today() {
    assert_eq!(
        instant("9:30:15"),
        Some(3 * 86400 + 9 * 3600 + 30 * 60 + 15 - 3600)
    );
}

#[test]
fn missing_trailing_time_fields_are_zero() {
    assert_eq!(instant("9:30"), Some(3 * 86400 + 9 * 3600 + 30 * 60 - 3600));
    assert_eq!(instant("9"), Some(3 * 86400 + 9 * 3600 - 3600));
    assert_eq!(instant("09"), Some(3 * 86400 + 9 * 3600 - 3600));
}

#[test]
fn date_time_layout_is_resolved_from_its_date() {
    assert_eq!(
        instant("2020-01-02 10:00:00"),
        Some(D20200102 * 86400 + 10 * 3600 - 3600)
    );
    assert_eq!(
        instant("2020-01-02 10:30"),
        Some(D20200102 * 86400 + 10 * 3600 + 30 * 60 - 3600)
    );
    assert_eq!(instant("2020-01-02 10"), Some(D20200102 * 86400 + 10 * 3600 - 3600));
}

#[test]
fn unparseable_instants_are_rejected() {
    assert_eq!(instant("25:00"), None);
    assert_eq!(instant("9:61"), None);
    assert_eq!(instant("abc"), None);
    assert_eq!(instant(""), None);
    assert_eq!(instant("2020-13-01 1"), None);
    assert_eq!(instant("2020-01-02"), None); // a bare date is not an instant
    assert_eq!(instant("9:30:15 extra"), None);
}

#[test]
fn bare_date_stays_a_date() {
    assert_eq!(boundary("2020-01-02"), Some(DateOrDateTime::Date(D20200102)));
}

#[test]
fn date_with_time_becomes_a_local_instant() {
    assert_eq!(
        boundary("2020-01-02 03:04:05"),
        Some(DateOrDateTime::DateTime(
            D20200102 * 86400 + 3 * 3600 + 4 * 60 + 5
        ))
    );
}

#[test]
fn bare_time_boundary_is_read_on_today() {
    assert_eq!(
        boundary("7:00"),
        Some(DateOrDateTime::DateTime(3 * 86400 + 7 * 3600))
    );
}

#[test]
fn leap_years_follow_the_gregorian_rule() {
    assert!(boundary("2020-02-29").is_some());
    assert_eq!(boundary("2019-02-29"), None);
    assert!(boundary("2000-02-29").is_some());
    assert_eq!(boundary("1900-02-29"), None);
}

#[test]
fn epoch_date_is_day_zero() {
    assert_eq!(boundary("1970-01-01"), Some(DateOrDateTime::Date(0)));
    assert_eq!(boundary("1969-12-31"), Some(DateOrDateTime::Date(-1)));
}

#[test]
fn unparseable_boundaries_are_rejected() {
    assert_eq!(boundary("2020-00-10"), None);
    assert_eq!(boundary("2020-01-32"), None);
    assert_eq!(boundary("20-01-02"), None);
    assert_eq!(boundary("week"), None);
}
