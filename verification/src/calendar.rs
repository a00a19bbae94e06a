//! The UTC calendar behind the reporting periods.
//!
//! Timestamps are whole seconds since 1970-01-01T00:00:00Z. The calendar
//! itself (which year, month and ISO week a moment falls in) is chrono's; what
//! this module asks of it is gathered in [`CalendarDay`].

use chrono::{Datelike, TimeZone, Utc};
use vstd::prelude::*;
use vstd::string::StringExecFns;

verus! {

/// The earliest timestamp the calendar can name: midnight before
/// 1 January of the year -262143.
pub const MIN_TIMESTAMP: i64 = -8_334_601_228_800;

/// The latest timestamp the calendar can name: the last second of
/// 31 December of the year 262142.
pub const MAX_TIMESTAMP: i64 = 8_210_266_876_799;

/// Whether the calendar has a date for `ts`.
pub open spec fn representable(ts: int) -> bool {
    MIN_TIMESTAMP <= ts <= MAX_TIMESTAMP
}

/// The number of whole days between the epoch and the day that holds `ts`;
/// negative before 1970.
pub open spec fn epoch_day(ts: int) -> int {
    ts / 86_400
}

/// The calendar year of the day that lies `day` days after 1970-01-01, as
/// chrono's `Datelike::year` gives it.
pub uninterp spec fn utc_year(day: int) -> int;

/// The month, counted from 1, of the day that lies `day` days after
/// 1970-01-01, as chrono's `Datelike::month` gives it.
pub uninterp spec fn utc_month(day: int) -> int;

/// The year to which the ISO 8601 week of the day `day` days after
/// 1970-01-01 belongs, as chrono's `IsoWeek::year` gives it. Around the new
/// year it can differ from [`utc_year`].
pub uninterp spec fn iso_week_year(day: int) -> int;

/// The number of the ISO 8601 week of the day `day` days after 1970-01-01
/// within its week-year, as chrono's `IsoWeek::week` gives it.
pub uninterp spec fn iso_week_number(day: int) -> int;

/// What the reporting periods read of one moment's date.
#[derive(Clone, Copy, Debug, PartialEq, Eq, Structural)]
pub struct CalendarDay {
    /// Days since 1970-01-01.
    pub epoch_day: i32,
    pub year: i32,
    pub month: u32,
    pub week_year: i32,
    pub week: u32,
}

impl CalendarDay {
    /// Whether these are the calendar fields of the moment `ts`.
    pub open spec fn describes(self, ts: int) -> bool {
        &&& self.epoch_day == epoch_day(ts)
        &&& self.year == utc_year(epoch_day(ts))
        &&& self.month == utc_month(epoch_day(ts))
        &&& self.week_year == iso_week_year(epoch_day(ts))
        &&& self.week == iso_week_number(epoch_day(ts))
    }

    /// The date of the moment `ts`, or `None` where the calendar has none.
    pub fn of(ts: i64) -> (day: Option<CalendarDay>)
        ensures
            day is Some <==> representable(ts as int),
            day matches Some(d) ==> d.describes(ts as int),
    {
        utc_calendar_day(ts)
    }
}

/// Trusted: chrono's `Utc.timestamp_opt(ts, 0).single()`, read through
/// `date_naive().to_epoch_days()`, `year()`, `month()` and `iso_week()`.
///
/// chrono builds the date from `ts.div_euclid(86_400)` days after the epoch
/// and has a date exactly for the years -262143 to 262142, which is the range
/// of [`representable`]. `to_epoch_days` counts that date's days from
/// 1970-01-01. The four calendar fields are taken as chrono computes them
/// from that date, so that they depend on the day alone, and are only given
/// names here.
#[verifier::external_body]
fn utc_calendar_day(ts: i64) -> (day: Option<CalendarDay>)
    ensures
        day is Some <==> representable(ts as int),
        day matches Some(d) ==> d.epoch_day == epoch_day(ts as int),
        day matches Some(d) ==> d.year == utc_year(epoch_day(ts as int)),
        day matches Some(d) ==> d.month == utc_month(epoch_day(ts as int)),
        day matches Some(d) ==> d.week_year == iso_week_year(epoch_day(ts as int)),
        day matches Some(d) ==> d.week == iso_week_number(epoch_day(ts as int)),
{
    match Utc.timestamp_opt(ts, 0).single() {
        Some(moment) => {
            let week = moment.iso_week();
            Some(CalendarDay {
                epoch_day: moment.date_naive().to_epoch_days(),
                year: moment.year(),
                month: moment.month(),
                week_year: week.year(),
                week: week.week(),
            })
        },
        None => None,
    }
}

/// A reporting window: the calendar day, ISO week or calendar month that
/// holds the current moment.
#[derive(Clone, Copy, Debug, PartialEq, Eq, Structural)]
pub enum Period {
    Daily,
    Weekly,
    Monthly,
}

/// Whether `ts` lies in the period of kind `period` that holds `now`.
/// A timestamp for which the calendar has no date lies in no period.
pub open spec fn in_period(ts: int, period: Period, now: int) -> bool {
    &&& representable(ts)
    &&& match period {
        Period::Daily => epoch_day(ts) == epoch_day(now),
        Period::Weekly => iso_week_year(epoch_day(ts)) == iso_week_year(epoch_day(now))
            && iso_week_number(epoch_day(ts)) == iso_week_number(epoch_day(now)),
        Period::Monthly => utc_year(epoch_day(ts)) == utc_year(epoch_day(now)) && utc_month(
            epoch_day(ts),
        ) == utc_month(epoch_day(now)),
    }
}

fn same_text(a: &str, b: &str) -> (same: bool)
    ensures
        same == (a@ == b@),
{
    let left = String::from_str(a);
    let right = String::from_str(b);
    left == right
}

impl Period {
    /// The period that goes by `name`: `daily`, `weekly` or `monthly`.
    pub open spec fn named(name: Seq<char>) -> Option<Period> {
        if name == "daily"@ {
            Some(Period::Daily)
        } else if name == "weekly"@ {
            Some(Period::Weekly)
        } else if name == "monthly"@ {
            Some(Period::Monthly)
        } else {
            None
        }
    }

    /// Reads a period's name; any other text is no period.
    pub fn from_name(name: &str) -> (period: Option<Period>)
        ensures
            period == Period::named(name@),
    {
        if same_text(name, "daily") {
            Some(Period::Daily)
        } else if same_text(name, "weekly") {
            Some(Period::Weekly)
        } else if same_text(name, "monthly") {
            Some(Period::Monthly)
        } else {
            None
        }
    }

    /// Whether two dates lie in one period of this kind: on one day, in one
    /// ISO week of one week-year, or in one month of one year.
    pub open spec fn joins(self, then: CalendarDay, today: CalendarDay) -> bool {
        match self {
            Period::Daily => then.epoch_day == today.epoch_day,
            Period::Weekly => then.week_year == today.week_year && then.week == today.week,
            Period::Monthly => then.year == today.year && then.month == today.month,
        }
    }

    /// Whether the dates `then` and `today` lie in one period of this kind.
    pub fn same(self, then: CalendarDay, today: CalendarDay) -> (same: bool)
        ensures
            same == self.joins(then, today),
    {
        match self {
            Period::Daily => then.epoch_day == today.epoch_day,
            Period::Weekly => then.week_year == today.week_year && then.week == today.week,
            Period::Monthly => then.year == today.year && then.month == today.month,
        }
    }

    /// Whether `ts` lies in the period of this kind around `now`.
    pub fn contains(self, ts: i64, now: i64) -> (inside: bool)
        requires
            representable(now as int),
        ensures
            inside == in_period(ts as int, self, now as int),
    {
        match (utc_calendar_day(ts), utc_calendar_day(now)) {
            (Some(then), Some(today)) => self.same(then, today),
            _ => false,
        }
    }
}

/// Every moment of the calendar lies in each period around itself.
pub proof fn lemma_now_lies_in_its_periods(now: int, period: Period)
    requires
        representable(now),
    ensures
        in_period(now, period, now),
{
}

/// What lies in the day of `now` lies in its week and in its month too.
pub proof fn lemma_day_lies_in_its_week_and_month(ts: int, now: int)
    requires
        in_period(ts, Period::Daily, now),
    ensures
        in_period(ts, Period::Weekly, now),
        in_period(ts, Period::Monthly, now),
{
}

/// Whether `ts` lies in the period called `period` around `now`. A name that
/// is no period matches nothing.
pub fn within_period(ts: i64, period: &str, now: i64) -> (inside: bool)
    requires
        representable(now as int),
    ensures
        inside == match Period::named(period@) {
            Some(p) => in_period(ts as int, p, now as int),
            None => false,
        },
{
    match Period::from_name(period) {
        Some(p) => p.contains(ts, now),
        None => false,
    }
}

} // verus!
