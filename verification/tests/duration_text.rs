use timetracker::duration::parse;

#[test]
fn a_span_reads_as_whole_hours_then_the_minutes_left_over() {
    assert_eq!(timetracker::duration::format(0), "0h 0m");
    assert_eq!(timetracker::duration::format(15 * 60), "0h 15m");
    assert_eq!(timetracker::duration::format(126 * 60), "2h 6m");
    assert_eq!(timetracker::duration::format(3600 + 59), "1h 0m", "seconds truncate");
    assert_eq!(timetracker::duration::format(25 * 3600), "25h 0m", "hours do not roll into days");
}

#[test]
fn a_negative_span_truncates_toward_zero() {
    assert_eq!(timetracker::duration::format(-90), "0h -1m");
    assert_eq!(timetracker::duration::format(-3661), "-1h -1m");
}

#[test]
fn the_documented_duration_forms_parse() {
    assert_eq!(parse("2h"), Some(7200));
    assert_eq!(parse("45m"), Some(45 * 60));
    assert_eq!(parse("1h30m"), Some(90 * 60));
    assert_eq!(parse("90"), Some(90 * 60), "a bare number is minutes");
    assert_eq!(parse("0m"), Some(0));
}

#[test]
fn anything_else_is_refused_rather_than_read_as_zero() {
    for bad in ["", "h", "m", "abc", "1h30", "1h 30m", "-5m", "+5", "1.5h", "30s", "2hm", "h30m"] {
        assert_eq!(parse(bad), None, "`{bad}` parsed");
    }
}

#[test]
fn a_duration_too_long_for_the_clock_is_refused() {
    assert_eq!(parse("9223372036854775807"), None, "minutes past i64 seconds");
    assert_eq!(parse("2562047788015216h"), None);
    assert_eq!(parse("2562047788015215h"), Some(2_562_047_788_015_215 * 3600), "the last whole hour that fits");
}
