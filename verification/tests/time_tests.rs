use graft::time::{
    format_timestamp_rfc3339_seconds_omitted, parse_instant, parse_query_time,
    render_rfc3339_millis, request_timestamp, Timestamp,
};

fn ts(year: u16, month: u8, day: u8, hour: u8, minute: u8, second: u8, milli: u16) -> Timestamp {
    Timestamp { year, month, day, hour, minute, second, milli }
}

#[test]
fn timestamp_formatting() {
    let time = ts(2019, 9, 20, 11, 5, 34, 0);
    assert_eq!(format_timestamp_rfc3339_seconds_omitted(&time), "2019-09-20T11:05Z");
}

#[test]
fn render_canonical_millis() {
    let time = ts(2021, 12, 22, 18, 29, 0, 0);
    assert_eq!(render_rfc3339_millis(&time), "2021-12-22T18:29:00.000Z");
    let time = ts(987, 1, 2, 3, 4, 5, 67);
    assert_eq!(render_rfc3339_millis(&time), "0987-01-02T03:04:05.067Z");
}

#[test]
fn parse_instant_variants() {
    assert_eq!(parse_instant("2021-12-22T18:29:00Z"), Some(ts(2021, 12, 22, 18, 29, 0, 0)));
    assert_eq!(parse_instant("2021-12-22T18:29:00.5Z"), Some(ts(2021, 12, 22, 18, 29, 0, 500)));
    assert_eq!(parse_instant("2021-12-22T18:29:00.055Z"), Some(ts(2021, 12, 22, 18, 29, 0, 55)));
    assert_eq!(
        parse_instant("2021-12-22T18:29:00.123456789Z"),
        Some(ts(2021, 12, 22, 18, 29, 0, 123))
    );
    // round trip of the canonical rendering
    let t = ts(2024, 2, 29, 23, 59, 59, 999);
    assert_eq!(parse_instant(&render_rfc3339_millis(&t)), Some(t));
}

#[test]
fn parse_instant_rejects_malformed() {
    assert_eq!(parse_instant(""), None);
    assert_eq!(parse_instant("2021-12-22T18:29Z"), None);
    assert_eq!(parse_instant("2021-13-22T18:29:00Z"), None);
    assert_eq!(parse_instant("2021-02-30T18:29:00Z"), None);
    assert_eq!(parse_instant("2023-02-29T00:00:00Z"), None);
    assert_eq!(parse_instant("2021-12-22 18:29:00Z"), None);
    assert_eq!(parse_instant("2021-12-22T18:29:00"), None);
    assert_eq!(parse_instant("2021-12-22T18:29:00.Z"), None);
    assert_eq!(parse_instant("2021-12-22T18:29:00+01:00"), None);
}

#[test]
fn query_time_defaults_round_up() {
    // omitted seconds and fraction default to the end of the stated window
    assert_eq!(parse_query_time("2019-09-20T11:05Z"), Some(ts(2019, 9, 20, 11, 5, 59, 999)));
    assert_eq!(parse_query_time("2019-09-20T11:05:30Z"), Some(ts(2019, 9, 20, 11, 5, 30, 999)));
    assert_eq!(parse_query_time("2019-09-20T11:05:30.5Z"), Some(ts(2019, 9, 20, 11, 5, 30, 599)));
    assert_eq!(parse_query_time("2019-09-20T11:05:30.55Z"), Some(ts(2019, 9, 20, 11, 5, 30, 559)));
    assert_eq!(
        parse_query_time("2019-09-20T11:05:30.555Z"),
        Some(ts(2019, 9, 20, 11, 5, 30, 555))
    );
    assert_eq!(parse_query_time("2019-09-20T11:05"), None);
    assert_eq!(parse_query_time("2019-09-20T11:05:30.5555Z"), None);
}

#[test]
fn timestamp_order_is_lexicographic() {
    let a = ts(2021, 12, 22, 18, 29, 0, 0);
    let b = ts(2021, 12, 22, 18, 29, 0, 1);
    let c = ts(2022, 1, 1, 0, 0, 0, 0);
    assert!(a.le(&b));
    assert!(!b.le(&a));
    assert!(b.le(&c));
    assert!(a.le(&a));
    assert!(a.lt(&b));
    assert!(!a.lt(&a));
}

#[test]
fn leap_year_days() {
    assert!(ts(2024, 2, 29, 0, 0, 0, 0).validate());
    assert!(!ts(2023, 2, 29, 0, 0, 0, 0).validate());
    assert!(ts(2000, 2, 29, 0, 0, 0, 0).validate());
    assert!(!ts(1900, 2, 29, 0, 0, 0, 0).validate());
}

#[test]
fn clock_yields_valid_instant() {
    let now = request_timestamp();
    assert!(now.validate());
}
