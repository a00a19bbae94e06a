use worklog::display::format_duration;

fn by_the_formatter(seconds: i64) -> String {
    format!("{:02}:{:02}:{:02}", seconds / 3600, (seconds % 3600) / 60, seconds % 60)
}

#[test]
fn zero_is_all_zeros() {
    assert_eq!(format_duration(0), "00:00:00");
}

#[test]
fn fields_are_padded_to_two_digits() {
    assert_eq!(format_duration(5), "00:00:05");
    assert_eq!(format_duration(59), "00:00:59");
    assert_eq!(format_duration(60), "00:01:00");
    assert_eq!(format_duration(3725), "01:02:05");
    assert_eq!(format_duration(36_000), "10:00:00");
    assert_eq!(format_duration(359_999), "99:59:59");
}

#[test]
fn hours_do_not_wrap_at_a_day() {
    assert_eq!(format_duration(86_400), "24:00:00");
    assert_eq!(format_duration(360_000), "100:00:00");
    assert_eq!(format_duration(i64::MAX), "2562047788015215:30:07");
}

#[test]
fn a_negative_span_keeps_its_sign_on_each_field() {
    assert_eq!(format_duration(-5), "00:00:-5");
    assert_eq!(format_duration(-65), "00:-1:-5");
    assert_eq!(format_duration(-3725), "-1:-2:-5");
    assert_eq!(format_duration(-36_000 - 600 - 10), "-10:-10:-10");
    assert_eq!(format_duration(i64::MIN), "-2562047788015215:-30:-8");
}

#[test]
fn it_agrees_with_the_standard_formatter() {
    let samples: [i64; 12] = [
        0, 1, 9, 10, 61, 3599, 3600, 86_399, 1_700_000_000, -1, -3600, -86_401,
    ];
    for seconds in samples {
        assert_eq!(format_duration(seconds), by_the_formatter(seconds));
    }
    assert_eq!(format_duration(i64::MAX), by_the_formatter(i64::MAX));
    assert_eq!(format_duration(i64::MIN), by_the_formatter(i64::MIN));
}
