//! Dates of the Gregorian calendar, and the day arithmetic on them that
//! `chrono` carries out.

use vstd::prelude::*;
use chrono::{Datelike, NaiveDate, TimeDelta};

verus! {

/// The first year that `chrono::NaiveDate` holds.
pub const MIN_YEAR: i32 = -262143;

/// The last year that `chrono::NaiveDate` holds.
pub const MAX_YEAR: i32 = 262142;

/// Whether `year` is a leap year of the proleptic Gregorian calendar.
pub open spec fn is_leap_year(year: int) -> bool {
    year % 4 == 0 && (year % 100 != 0 || year % 400 == 0)
}

/// The number of days of a month of the proleptic Gregorian calendar.
pub open spec fn days_in_month(year: int, month: int) -> int {
    if month == 2 {
        if is_leap_year(year) {
            29
        } else {
            28
        }
    } else if month == 4 || month == 6 || month == 9 || month == 11 {
        30
    } else {
        31
    }
}

/// The number of days of `year` that lie before its month `month`.
pub open spec fn days_before_month(year: int, month: int) -> int
    decreases month,
{
    if month <= 1 {
        0
    } else {
        days_before_month(year, month - 1) + days_in_month(year, month - 1)
    }
}

/// The number of days from 1 January of year 1 to 1 January of `year`;
/// negative for the years before year 1.
pub open spec fn days_before_year(year: int) -> int {
    365 * (year - 1) + (year - 1) / 4 - (year - 1) / 100 + (year - 1) / 400
}

/// A date of the proleptic Gregorian calendar as mathematical integers:
/// what a `SolarDate` stands for.
pub struct SolarDateView {
    pub year: int,
    pub month: int,
    pub day: int,
}

impl SolarDateView {
    /// Whether the calendar has this day, in a year that `chrono` can hold.
    pub open spec fn is_date(self) -> bool {
        &&& MIN_YEAR <= self.year <= MAX_YEAR
        &&& 1 <= self.month <= 12
        &&& 1 <= self.day <= days_in_month(self.year, self.month)
    }

    /// The number of the day, counted from 1 January of year 1 as day 1.
    pub open spec fn day_number(self) -> int {
        days_before_year(self.year) + days_before_month(self.year, self.month) + self.day
    }

    /// The number of days from the calendar epoch, 31 January 1900, to this
    /// day; negative for the days before it.
    pub open spec fn epoch_days(self) -> int {
        self.day_number() - epoch().day_number()
    }

    /// The day that follows this one in the calendar.
    pub open spec fn next_day(self) -> SolarDateView {
        if self.day < days_in_month(self.year, self.month) {
            SolarDateView { year: self.year, month: self.month, day: self.day + 1 }
        } else if self.month < 12 {
            SolarDateView { year: self.year, month: self.month + 1, day: 1 }
        } else {
            SolarDateView { year: self.year + 1, month: 1, day: 1 }
        }
    }
}

/// The calendar epoch: 31 January 1900, the first day of the lunar year
/// 1900.
pub open spec fn epoch() -> SolarDateView {
    SolarDateView { year: 1900, month: 1, day: 31 }
}

/// The Gregorian date that lies `days` days after the calendar epoch.
pub open spec fn date_at(days: int) -> SolarDateView {
    choose|date: SolarDateView| date.is_date() && date.epoch_days() == days
}

/// A date of the Gregorian calendar. Like a lunar date it is not checked
/// when it is made: the conversions reject a date that the calendar does
/// not have.
#[derive(Debug, Clone, Copy, PartialEq, Eq, Hash, Structural)]
pub struct SolarDate {
    year: i32,
    month: u32,
    day: u32,
}

impl View for SolarDate {
    type V = SolarDateView;

    closed spec fn view(&self) -> SolarDateView {
        SolarDateView { year: self.year as int, month: self.month as int, day: self.day as int }
    }
}

impl SolarDate {
    /// Makes a date from year, month and day.
    pub fn new(year: i32, month: u32, day: u32) -> (date: SolarDate)
        ensures
            date@ == (SolarDateView { year: year as int, month: month as int, day: day as int }),
    {
        SolarDate { year, month, day }
    }

    /// The calendar epoch, 31 January 1900.
    pub fn epoch() -> (date: SolarDate)
        ensures
            date@ == epoch(),
    {
        SolarDate { year: 1900, month: 1, day: 31 }
    }

    /// The year.
    pub fn year(&self) -> (year: i32)
        ensures
            year == self@.year,
    {
        self.year
    }

    /// The month, 1 to 12 in a date of the calendar.
    pub fn month(&self) -> (month: u32)
        ensures
            month == self@.month,
    {
        self.month
    }

    /// The day of the month, from 1.
    pub fn day(&self) -> (day: u32)
        ensures
            day == self@.day,
    {
        self.day
    }

    /// Two dates that stand for the same day are equal.
    pub proof fn lemma_view_injective(self, other: SolarDate)
        requires
            self@ == other@,
        ensures
            self == other,
    {
    }
}

/// Calls `chrono::NaiveDate::signed_duration_since` on the two dates, made
/// by `NaiveDate::from_ymd_opt`, and reads the result with
/// `TimeDelta::num_days`. The contract claims that `chrono` accepts exactly
/// the days of the proleptic Gregorian calendar between its first and last
/// year, and that the difference is the number of days from `from` to `to`.
#[verifier::external_body]
pub(crate) fn days_between(from: &SolarDate, to: &SolarDate) -> (r: Option<i64>)
    ensures
        r is Some <==> (from@.is_date() && to@.is_date()),
        r matches Some(days) ==> days == to@.day_number() - from@.day_number(),
{
    let start = NaiveDate::from_ymd_opt(from.year, from.month, from.day)?;
    let end = NaiveDate::from_ymd_opt(to.year, to.month, to.day)?;
    Some(end.signed_duration_since(start).num_days())
}

/// Calls `chrono::NaiveDate::checked_add_signed` on the date, made by
/// `NaiveDate::from_ymd_opt`, with `TimeDelta::try_days(days)`. The contract
/// claims that the result is the date that lies `days` days after `date`
/// (before it, for negative `days`), and that `chrono` gives none only where
/// `date` is no date or no year that it can hold has that day.
#[verifier::external_body]
pub(crate) fn add_days(date: &SolarDate, days: i64) -> (r: Option<SolarDate>)
    ensures
        r matches Some(later) ==> date@.is_date() && later@.is_date() && later@.day_number()
            == date@.day_number() + days,
        r is None ==> !date@.is_date() || forall|other: SolarDateView|
            other.is_date() ==> #[trigger] other.day_number() != date@.day_number() + days,
{
    let start = NaiveDate::from_ymd_opt(date.year, date.month, date.day)?;
    let end = start.checked_add_signed(TimeDelta::try_days(days)?)?;
    Some(SolarDate { year: end.year(), month: end.month(), day: end.day() })
}

/// The whole days of a span of time as `chrono` counts them: what
/// `TimeDelta::num_days` reads from the result of `TimeDelta::from_std`,
/// none where `chrono` cannot hold the span.
pub uninterp spec fn span_days(span: std::time::Duration) -> Option<i64>;

/// Calls `chrono::TimeDelta::from_std` and reads the result with
/// `TimeDelta::num_days`. The contract gives the result its name,
/// `span_days`: the same span always has the same whole days. Of the number
/// itself it claims only that it is not negative, a span of time being none.
#[verifier::external_body]
pub(crate) fn whole_days(span: std::time::Duration) -> (r: Option<i64>)
    ensures
        r == span_days(span),
        r matches Some(days) ==> days >= 0,
{
    match TimeDelta::from_std(span) {
        Ok(delta) => Some(delta.num_days()),
        Err(_) => None,
    }
}

/// A year has 365 days, and one more where it is a leap year.
pub proof fn lemma_year_length(year: int)
    ensures
        days_before_year(year + 1) == days_before_year(year) + 365 + if is_leap_year(year) {
            1int
        } else {
            0
        },
        days_before_month(year, 13) == 365 + if is_leap_year(year) {
            1int
        } else {
            0
        },
{
    reveal_with_fuel(days_before_month, 14);
}

/// The first days of the years come in the order of the years.
pub proof fn lemma_days_before_year_monotonic(first: int, second: int)
    requires
        first <= second,
    ensures
        days_before_year(first) <= days_before_year(second),
    decreases second - first,
{
    if first < second {
        lemma_days_before_year_monotonic(first, second - 1);
        lemma_year_length(second - 1);
    }
}

/// The first days of the months of a year come in the order of the months.
pub proof fn lemma_days_before_month_monotonic(year: int, first: int, second: int)
    requires
        first <= second,
    ensures
        days_before_month(year, first) <= days_before_month(year, second),
    decreases second - first,
{
    if first < second {
        lemma_days_before_month_monotonic(year, first, second - 1);
    }
}

/// A date lies in its own year: after the last day of the year before, and
/// not after the last day of its year.
pub proof fn lemma_date_in_year(date: SolarDateView)
    requires
        date.is_date(),
    ensures
        days_before_year(date.year) < date.day_number() <= days_before_year(date.year + 1),
        0 <= days_before_month(date.year, date.month),
{
    lemma_year_length(date.year);
    lemma_days_before_month_monotonic(date.year, 1, date.month);
    lemma_days_before_month_monotonic(date.year, date.month + 1, 13);
}

/// The day after a date has the next day number: where
/// date A is one day before date B, the distance of A from the epoch is one
/// less than that of B.
pub proof fn lemma_next_day(date: SolarDateView)
    requires
        date.is_date(),
    ensures
        date.next_day().day_number() == date.day_number() + 1,
        date.next_day().epoch_days() == date.epoch_days() + 1,
        date.year < MAX_YEAR ==> date.next_day().is_date(),
        date.next_day().year <= date.year + 1,
{
    lemma_year_length(date.year);
    if date.day < days_in_month(date.year, date.month) {
    } else if date.month < 12 {
    } else {
        reveal_with_fuel(days_before_month, 14);
    }
}

/// Two dates with the same day number are the same date.
pub proof fn lemma_day_number_injective(first: SolarDateView, second: SolarDateView)
    requires
        first.is_date(),
        second.is_date(),
        first.day_number() == second.day_number(),
    ensures
        first == second,
{
    lemma_date_in_year(first);
    lemma_date_in_year(second);
    if first.year < second.year {
        lemma_days_before_year_monotonic(first.year + 1, second.year);
    } else if second.year < first.year {
        lemma_days_before_year_monotonic(second.year + 1, first.year);
    } else if first.month < second.month {
        lemma_days_before_month_monotonic(first.year, first.month + 1, second.month);
    } else if second.month < first.month {
        lemma_days_before_month_monotonic(first.year, second.month + 1, first.month);
    }
}

/// Every day from the epoch on, as far as `chrono` counts the years, has a
/// date.
pub proof fn lemma_date_exists(days: int) -> (date: SolarDateView)
    requires
        0 <= days <= MAX_YEAR - 1901,
    ensures
        date.is_date(),
        date.epoch_days() == days,
        1900 <= date.year <= 1900 + days,
        date == date_at(days),
    decreases days,
{
    let date = if days == 0 {
        epoch()
    } else {
        let before = lemma_date_exists(days - 1);
        lemma_next_day(before);
        before.next_day()
    };
    let chosen = date_at(days);
    lemma_day_number_injective(date, chosen);
    date
}

} // verus!
