use logmerge::date_utils::{
    date_from_line, date_from_line_in_year, is_8601, is_8601_spaced, is_8601_spaced_tz,
    is_syslog_date_format, parse_8601_spaced_tz, parse_datetime, read_offset_minutes,
};
use logmerge::timestamp::Timestamp;

fn instant(rfc3339: &str) -> Timestamp {
    let t = chrono::DateTime::parse_from_rfc3339(rfc3339).unwrap();
    Timestamp { secs: t.timestamp(), nanos: t.timestamp_subsec_nanos() }
}

#[test]
fn _test_is_8601() {
    assert_eq!(is_8601("2021-01-01T00:00:00"), true);
    assert_eq!(is_8601(" 2021-01-01T00:00:00"), false);
    assert_eq!(is_8601("2021:01:01T00-00-00"), false);
}

#[test]
fn _test_is_8601_spaced() {
    assert_eq!(is_8601_spaced("2021-01-01 00:00:00"), true);
    assert_eq!(is_8601_spaced(" 2021-01-01 00:00:00"), false);
    assert_eq!(is_8601_spaced("2021:01:01 00-00-00"), false);
}

#[test]
fn _test_is_8601_spaced_tz() {
    assert_eq!(is_8601_spaced_tz("2021-01-01 00:00:00+00:00"), true);
    assert_eq!(is_8601_spaced_tz(" 2021-01-01 00:00:00"), false);
    assert_eq!(is_8601_spaced_tz("2021:01:01 00-00-00"), false);

    assert_eq!(is_8601_spaced_tz("2024-04-22 11:02:53+01"), true);
    assert_eq!(is_8601_spaced_tz("2024-04-22 11:02:53+01"), true);
    assert_eq!(is_8601_spaced_tz("2023-01-23 08:30:36-08"), true);
}

#[test]
fn test_parse_8601_spaced_tz() {
    assert_eq!(
        date_from_line("2024-04-22 11:02:53+01").unwrap(),
        instant("2024-04-22T10:02:53+00:00")
    );

    assert_eq!(
        date_from_line("2023-01-23 08:30:36-08").unwrap(),
        instant("2023-01-23T16:30:36+00:00")
    );
}

#[test]
fn iso_line_is_read_in_utc() {
    assert_eq!(
        date_from_line("2021-01-01T00:00:00 service started").unwrap(),
        Timestamp { secs: 1609459200, nanos: 0 }
    );
}

#[test]
fn iso_line_reads_only_the_first_nineteen_bytes() {
    assert_eq!(
        date_from_line_in_year("2021-01-01T00:00:05.250 tail", 1999),
        Some(Timestamp { secs: 1609459205, nanos: 0 })
    );
}

#[test]
fn iso_marks_with_too_short_a_line_hold_no_timestamp() {
    assert_eq!(is_8601("2021-01-01T00:00:"), true);
    assert_eq!(date_from_line_in_year("2021-01-01T00:00:", 2021), None);
}

#[test]
fn iso_marks_around_letters_hold_no_timestamp() {
    assert_eq!(date_from_line_in_year("abcd-ef-ghTij:kl:mn", 2021), None);
}

#[test]
fn spaced_line_without_offset_is_not_recognized() {
    assert_eq!(date_from_line_in_year("2021-01-01 00:00:00 plain", 2021), None);
}

#[test]
fn spaced_line_with_offset_keeps_the_offset() {
    let z = parse_8601_spaced_tz("2024-04-22 11:02:53+01 rest").unwrap();
    assert_eq!(z.offset, 3600);
    assert_eq!(z.instant, instant("2024-04-22T10:02:53+00:00"));
    let w = parse_datetime("2023-01-23 08:30:36-0800").unwrap();
    assert_eq!(w.offset, -8 * 3600);
    assert_eq!(w.instant, instant("2023-01-23T16:30:36+00:00"));
}

#[test]
fn spaced_line_reads_the_minutes_of_the_offset() {
    assert_eq!(
        date_from_line("2024-04-22 11:02:53+05:30").unwrap(),
        instant("2024-04-22T05:32:53+00:00")
    );
    assert_eq!(
        date_from_line("2024-04-22 11:02:53-08:45 rest of the line").unwrap(),
        instant("2024-04-22T19:47:53+00:00")
    );
    assert_eq!(parse_8601_spaced_tz("2024-04-22 11:02:53+05:30").unwrap().offset, 19800);
    assert_eq!(read_offset_minutes("2024-04-22 11:02:53+05:30"), "30");
    assert_eq!(read_offset_minutes("2024-04-22 11:02:53+05:07 x"), "07");
}

#[test]
fn spaced_line_without_minutes_has_an_offset_of_whole_hours() {
    for line in [
        "2024-04-22 11:02:53+05",
        "2024-04-22 11:02:53+05 30",
        "2024-04-22 11:02:53+05:3",
        "2024-04-22 11:02:53+05:3x",
        "2024-04-22 11:02:53+05:x0",
        "2024-04-22 11:02:53+0530",
        "2024-04-22 11:02:53+05:\u{e9}",
    ] {
        assert_eq!(read_offset_minutes(line), "00", "{:?}", line);
        assert_eq!(date_from_line(line).unwrap(), instant("2024-04-22T06:02:53+00:00"), "{:?}", line);
    }
}

#[test]
fn spaced_line_cut_inside_the_offset_holds_no_timestamp() {
    assert_eq!(is_8601_spaced_tz("2024-04-22 11:02:53+"), true);
    assert_eq!(parse_8601_spaced_tz("2024-04-22 11:02:53+"), None);
    assert_eq!(date_from_line_in_year("2024-04-22 11:02:53+", 2024), None);
}

#[test]
fn syslog_line_is_read_in_the_given_year() {
    assert_eq!(is_syslog_date_format("Jan  5 10:00:00 host app: up"), true);
    assert_eq!(
        date_from_line_in_year("Jan  5 10:00:00 host app: up", 2023),
        Some(instant("2023-01-05T10:00:00+00:00"))
    );
    assert_eq!(
        date_from_line_in_year("Dec 31 23:59:59 host app: down", 1999),
        Some(instant("1999-12-31T23:59:59+00:00"))
    );
}

#[test]
fn syslog_line_needs_sixteen_bytes() {
    assert_eq!(is_syslog_date_format("Jan  5 10:00:00"), false);
    assert_eq!(date_from_line_in_year("Jan  5 10:00:00", 2023), None);
    assert_eq!(is_syslog_date_format("Jan  5 10:00:00 "), true);
}

#[test]
fn syslog_pattern_looks_at_the_first_character_only() {
    assert_eq!(is_syslog_date_format("zzz  5 10:00:00 host"), false);
    assert_eq!(is_syslog_date_format("Jzz  5 10:00:00 host"), true);
    assert_eq!(date_from_line_in_year("Jzz  5 10:00:00 host", 2023), None);
}

#[test]
fn syslog_prefix_cut_inside_a_character_is_no_syslog_line() {
    // 14 bytes, then a character of two bytes: byte 15 lies inside it.
    assert_eq!(is_syslog_date_format("Jan  5 10:00:0\u{e9} host"), false);
}

#[test]
fn empty_and_plain_lines_hold_no_timestamp() {
    assert_eq!(date_from_line(""), None);
    assert_eq!(date_from_line("no timestamp here at all"), None);
}
