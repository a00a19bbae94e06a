use worklog::calendar::{within_period, CalendarDay, Period, MAX_TIMESTAMP, MIN_TIMESTAMP};

// 2023-11-14T22:13:20Z, a Tuesday in ISO week 46.
const T: i64 = 1_700_000_000;
const DAY: i64 = 86_400;
// Midnight at the start of 2023-11-14.
const MIDNIGHT: i64 = 1_699_920_000;

#[test]
fn the_epoch_is_the_first_day_of_1970() {
    let day = CalendarDay::of(0).unwrap();
    assert_eq!(
        day,
        CalendarDay { epoch_day: 0, year: 1970, month: 1, week_year: 1970, week: 1 }
    );
}

#[test]
fn a_known_moment_has_its_known_date() {
    let day = CalendarDay::of(T).unwrap();
    assert_eq!(
        day,
        CalendarDay { epoch_day: 19_675, year: 2023, month: 11, week_year: 2023, week: 46 }
    );
}

#[test]
fn days_before_the_epoch_count_down() {
    let day = CalendarDay::of(-1).unwrap();
    assert_eq!(day.epoch_day, -1);
    assert_eq!(day.year, 1969);
    assert_eq!(day.month, 12);
    // 1969-12-31 was a Wednesday of the first ISO week of 1970.
    assert_eq!(day.week_year, 1970);
    assert_eq!(day.week, 1);
    assert_eq!(CalendarDay::of(-DAY).unwrap().epoch_day, -1);
    assert_eq!(CalendarDay::of(-DAY - 1).unwrap().epoch_day, -2);
}

#[test]
fn the_week_year_can_differ_from_the_year() {
    // 2021-01-03 was the Sunday of ISO week 53 of 2020.
    let sunday = CalendarDay::of(1_609_632_000).unwrap();
    assert_eq!(sunday.year, 2021);
    assert_eq!(sunday.month, 1);
    assert_eq!(sunday.week_year, 2020);
    assert_eq!(sunday.week, 53);
    let monday = CalendarDay::of(1_609_632_000 + DAY).unwrap();
    assert_eq!(monday.week_year, 2021);
    assert_eq!(monday.week, 1);
}

#[test]
fn the_calendar_ends_where_it_says() {
    let last = CalendarDay::of(MAX_TIMESTAMP).unwrap();
    assert_eq!(last.year, 262_142);
    assert_eq!(last.month, 12);
    assert_eq!(last.epoch_day as i64, MAX_TIMESTAMP.div_euclid(DAY));
    assert!(CalendarDay::of(MAX_TIMESTAMP + 1).is_none());
    let first = CalendarDay::of(MIN_TIMESTAMP).unwrap();
    assert_eq!(first.year, -262_143);
    assert_eq!(first.month, 1);
    assert_eq!(first.epoch_day as i64, MIN_TIMESTAMP.div_euclid(DAY));
    assert!(CalendarDay::of(MIN_TIMESTAMP - 1).is_none());
    assert!(CalendarDay::of(i64::MAX).is_none());
    assert!(CalendarDay::of(i64::MIN).is_none());
}

#[test]
fn dates_are_compared_by_the_fields_of_the_period() {
    let day = CalendarDay { epoch_day: 10, year: 2001, month: 3, week_year: 2001, week: 9 };
    assert!(Period::Daily.same(day, day));
    assert!(Period::Weekly.same(day, day));
    assert!(Period::Monthly.same(day, day));

    let next_day = CalendarDay { epoch_day: 11, ..day };
    assert!(!Period::Daily.same(day, next_day));
    assert!(Period::Weekly.same(day, next_day));
    assert!(Period::Monthly.same(day, next_day));

    let next_week = CalendarDay { epoch_day: 17, week: 10, ..day };
    assert!(!Period::Weekly.same(day, next_week));
    assert!(Period::Monthly.same(day, next_week));
    let other_week_year = CalendarDay { epoch_day: 375, week_year: 2002, ..day };
    assert!(!Period::Weekly.same(day, other_week_year));

    let next_month = CalendarDay { epoch_day: 40, month: 4, ..day };
    assert!(!Period::Monthly.same(day, next_month));
    let next_year = CalendarDay { epoch_day: 375, year: 2002, ..day };
    assert!(!Period::Monthly.same(day, next_year));
    assert!(!Period::Daily.same(day, next_year));
}

#[test]
fn a_moment_lies_in_each_period_around_itself() {
    for now in [MIN_TIMESTAMP, -1, 0, T, MAX_TIMESTAMP] {
        assert!(within_period(now, "daily", now));
        assert!(within_period(now, "weekly", now));
        assert!(within_period(now, "monthly", now));
    }
}

#[test]
fn what_lies_in_the_day_lies_in_the_week_and_the_month() {
    // The last day of a month, of a year, and a Sunday.
    let days: [i64; 4] = [MIDNIGHT, 1_609_372_800, 1_609_632_000, -DAY];
    for midnight in days {
        let now = midnight + DAY / 2;
        for ts in [midnight, midnight + 1, midnight + DAY - 1] {
            assert!(within_period(ts, "daily", now));
            assert!(within_period(ts, "weekly", now));
            assert!(within_period(ts, "monthly", now));
        }
    }
}

#[test]
fn period_names_are_read_exactly() {
    assert_eq!(Period::from_name("daily"), Some(Period::Daily));
    assert_eq!(Period::from_name("weekly"), Some(Period::Weekly));
    assert_eq!(Period::from_name("monthly"), Some(Period::Monthly));
    assert_eq!(Period::from_name("Daily"), None);
    assert_eq!(Period::from_name("daily "), None);
    assert_eq!(Period::from_name("yearly"), None);
    assert_eq!(Period::from_name(""), None);
}

#[test]
fn a_day_runs_from_midnight_to_midnight() {
    assert!(within_period(MIDNIGHT, "daily", T));
    assert!(within_period(MIDNIGHT + DAY - 1, "daily", T));
    assert!(!within_period(MIDNIGHT - 1, "daily", T));
    assert!(!within_period(MIDNIGHT + DAY, "daily", T));
    assert!(Period::Daily.contains(T, T));
}

#[test]
fn a_week_runs_from_monday_to_sunday() {
    // Monday 2023-11-13 to Sunday 2023-11-19.
    let monday = MIDNIGHT - DAY;
    assert!(within_period(monday, "weekly", T));
    assert!(within_period(monday + 7 * DAY - 1, "weekly", T));
    assert!(!within_period(monday - 1, "weekly", T));
    assert!(!within_period(monday + 7 * DAY, "weekly", T));
}

#[test]
fn a_week_can_span_the_new_year() {
    // Monday 2020-12-28 and Sunday 2021-01-03 share ISO week 53 of 2020.
    let monday = 1_609_113_600;
    let sunday = 1_609_632_000;
    assert!(Period::Weekly.contains(monday, sunday));
    assert!(!Period::Monthly.contains(monday, sunday));
    assert!(!Period::Weekly.contains(sunday + DAY, sunday));
    // The same week number a year apart is another week.
    assert!(!Period::Weekly.contains(T - 364 * DAY, T));
}

#[test]
fn a_month_runs_from_its_first_day_to_its_last() {
    // November 2023: 1_698_796_800 is 2023-11-01T00:00:00Z.
    let first = 1_698_796_800;
    assert!(within_period(first, "monthly", T));
    assert!(within_period(first + 30 * DAY - 1, "monthly", T));
    assert!(!within_period(first - 1, "monthly", T));
    assert!(!within_period(first + 30 * DAY, "monthly", T));
    // The same month a year earlier is another month.
    assert!(!within_period(T - 365 * DAY, "monthly", T));
}

#[test]
fn an_unknown_period_matches_nothing() {
    assert!(!within_period(T, "yearly", T));
    assert!(!within_period(T, "", T));
    assert!(!within_period(T, "DAILY", T));
}

#[test]
fn a_moment_outside_the_calendar_is_in_no_period() {
    assert!(!within_period(MAX_TIMESTAMP + 1, "daily", MAX_TIMESTAMP));
    assert!(!within_period(MAX_TIMESTAMP + 1, "weekly", MAX_TIMESTAMP));
    assert!(!within_period(MAX_TIMESTAMP + 1, "monthly", MAX_TIMESTAMP));
    assert!(!within_period(i64::MIN, "daily", T));
    assert!(within_period(MAX_TIMESTAMP, "daily", MAX_TIMESTAMP));
    assert!(within_period(MIN_TIMESTAMP, "monthly", MIN_TIMESTAMP));
}
