use cki::types::time::{
    format_system_time_rfc3339, local_iso_millis, local_rfc3339, now_timestamp_millis,
    now_utc_rfc3339, now_utc_rfc3339_millis, parse_rfc3339, parse_rfc3339_to_system_time,
    unix_now, unix_secs_and_millis, DateTimeUtc,
};

#[test]
fn test_datetime_roundtrip() {
    let dt = DateTimeUtc { year: 2026, month: 9, day: 6, hour: 12, minute: 34, second: 56, millisecond: 789 };
    let (secs, ms) = dt.to_unix_secs_and_millis();
    let dt2 = DateTimeUtc::from_unix_secs_and_millis(secs, ms);
    assert_eq!(dt, dt2);
    assert_eq!(dt.to_rfc3339(), "2026-09-06T12:34:56Z");
    assert_eq!(dt.to_rfc3339_millis(), "2026-09-06T12:34:56.789Z");
}

#[test]
fn test_parse_rfc3339() {
    let s = "2026-09-06T12:34:56Z";
    let sys = parse_rfc3339_to_system_time(s).expect("parse failed");
    assert_eq!(format_system_time_rfc3339(sys), s);

    let s_with_offset = "2026-09-06T16:34:56+04:00";
    let sys2 = parse_rfc3339_to_system_time(s_with_offset).expect("parse with offset");
    assert_eq!(format_system_time_rfc3339(sys2), "2026-09-06T12:34:56Z");

    let s_millis = "2026-09-06T12:34:56.500Z";
    let sys3 = parse_rfc3339_to_system_time(s_millis).expect("parse with millis");
    let dt3 = DateTimeUtc::from_system_time(sys3);
    assert_eq!(dt3.millisecond, 500);
}

#[test]
fn test_now_functions() {
    let utc = now_utc_rfc3339();
    assert!(utc.ends_with('Z'));
    let (secs, millis) = unix_now();
    let local = local_rfc3339(secs, millis, 0);
    assert!(local.contains('+') || local.contains('-'));
    let millis = now_timestamp_millis();
    assert!(millis > 1_700_000_000_000);
}

#[test]
fn epoch_and_known_instants() {
    let e = DateTimeUtc::from_unix_secs_and_millis(0, 0);
    assert_eq!(e.to_rfc3339(), "1970-01-01T00:00:00Z");
    let leap = DateTimeUtc::from_unix_secs_and_millis(951_782_400, 0);
    assert_eq!(leap.to_rfc3339(), "2000-02-29T00:00:00Z");
    let before = DateTimeUtc::from_unix_secs_and_millis(-1, 999);
    assert_eq!(before.to_rfc3339_millis(), "1969-12-31T23:59:59.999Z");
    let t = DateTimeUtc { year: 1900, month: 3, day: 1, hour: 0, minute: 0, second: 0, millisecond: 0 };
    assert_eq!(t.to_unix_secs_and_millis(), (-2_203_891_200, 0));
}

#[test]
fn every_day_of_a_leap_cycle_round_trips() {
    let start = DateTimeUtc { year: 1999, month: 12, day: 31, hour: 23, minute: 59, second: 59, millisecond: 1 };
    let (s0, _) = start.to_unix_secs_and_millis();
    let mut s = s0;
    for _ in 0..(366 * 5) {
        s += 86_400;
        let d = DateTimeUtc::from_unix_secs_and_millis(s, 1);
        assert_eq!(d.to_unix_secs_and_millis(), (s, 1));
    }
}

#[test]
fn negative_years_and_padding() {
    let t = DateTimeUtc { year: -5, month: 1, day: 2, hour: 3, minute: 4, second: 5, millisecond: 6 };
    assert_eq!(t.to_rfc3339(), "-005-01-02T03:04:05Z");
    assert_eq!(t.to_rfc3339_millis(), "-005-01-02T03:04:05.006Z");
}

#[test]
fn parse_variants_and_rejections() {
    assert_eq!(parse_rfc3339("  1970-01-01t00:00:01.5z "), Some((1, 500)));
    assert_eq!(parse_rfc3339("1970-01-01 00:01:00-00:30"), Some((60 + 1800, 0)));
    assert_eq!(parse_rfc3339("1970-01-01T00:00:00.1234Z"), Some((0, 123)));
    assert_eq!(parse_rfc3339("1970-01-01T00:00:00garbage"), Some((0, 0)));
    assert_eq!(parse_rfc3339("1970-01-01T00:00"), None);
    assert_eq!(parse_rfc3339("1970/01/01T00:00:00Z"), None);
    assert_eq!(parse_rfc3339("1970-01-01T00:00:00+xx:00"), None);
}

#[test]
fn epoch_distances_before_the_epoch_count_forward() {
    assert_eq!(unix_secs_and_millis(false, 10, 250), (10, 250));
    assert_eq!(unix_secs_and_millis(true, 10, 0), (-10, 0));
    assert_eq!(unix_secs_and_millis(true, 10, 250), (-11, 750));
}

#[test]
fn local_formats_carry_the_offset() {
    assert_eq!(local_rfc3339(0, 0, -4 * 3600), "1969-12-31T20:00:00-04:00");
    assert_eq!(local_rfc3339(0, 0, 5 * 3600 + 1800), "1970-01-01T05:30:00+05:30");
    assert_eq!(local_iso_millis(0, 42, 3600), "1970-01-01T01:00:00.042");
    assert!(now_utc_rfc3339_millis().ends_with('Z'));
}

#[test]
fn formatted_system_time_parses_back() {
    let t = std::time::UNIX_EPOCH + std::time::Duration::from_secs(1_700_000_000);
    let text = format_system_time_rfc3339(t);
    assert_eq!(text, "2023-11-14T22:13:20Z");
    assert_eq!(parse_rfc3339_to_system_time(&text), Some(t));
    let before = std::time::UNIX_EPOCH - std::time::Duration::from_millis(1_750);
    assert_eq!(format_system_time_rfc3339(before), "1969-12-31T23:59:58Z");
}

#[test]
fn date_time_converts_to_system_time_when_reachable() {
    let dt = DateTimeUtc { year: 1970, month: 1, day: 1, hour: 0, minute: 0, second: 1, millisecond: 500 };
    assert_eq!(dt.try_to_system_time(), Some(std::time::UNIX_EPOCH + std::time::Duration::from_millis(1_500)));
    let odd = DateTimeUtc { year: 1969, month: 12, day: 31, hour: 23, minute: 59, second: 59, millisecond: 1_500 };
    assert_eq!(odd.try_to_system_time(), None);
}
