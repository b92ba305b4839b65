//! Dates of the Chinese lunar calendar and their conversion to and from
//! dates of the Gregorian calendar.

use vstd::prelude::*;
use crate::error::Error;
use crate::solar::{
    add_days, date_at, days_between, epoch, lemma_date_exists, lemma_day_number_injective,
    span_days, whole_days, SolarDate, SolarDateView,
};
use crate::table::{lemma_table_leap_months, spec_year_info, year_info, FIRST_YEAR, YEAR_COUNT};
use crate::year::{
    calc_days, calc_month_day, day_of_year, lemma_day_of_year_round_trip,
    lemma_month_day_round_trip, lemma_month_entry_days, lemma_year_days_bounds, month_day_at,
    year_days, year_info_to_year_day,
};

verus! {

/// The number of days from the calendar epoch to the first day of the lunar
/// year at `index` years after the first year of the table.
pub open spec fn year_start(index: int) -> int
    decreases index,
{
    if index <= 0 {
        0
    } else {
        year_start(index - 1) + year_days(spec_year_info(index - 1))
    }
}

/// The number of days that the table covers, from the calendar epoch on.
pub open spec fn total_days() -> int {
    year_start(YEAR_COUNT as int)
}

/// The index of the lunar year that holds the day `days` days after the
/// epoch, searched from `index` on; the last year of the table where no year
/// from `index` on holds that day.
pub open spec fn year_from(days: int, index: int) -> int
    decreases YEAR_COUNT - index,
{
    if index + 1 >= YEAR_COUNT || days < year_start(index + 1) {
        index
    } else {
        year_from(days, index + 1)
    }
}

/// The index of the lunar year that holds the day `days` days after the
/// epoch.
pub open spec fn year_at(days: int) -> int {
    year_from(days, 0)
}

/// A date of the lunar calendar as mathematical values: what a `LunarDate`
/// stands for.
pub struct LunarDateView {
    pub year: int,
    pub month: int,
    pub day: int,
    pub is_leap_month: bool,
}

impl LunarDateView {
    /// The number of days from the calendar epoch to this day, or why the
    /// calendar has no such day: the year is not in the table, the year has
    /// no such month, or the month has no such day.
    pub open spec fn offset(self) -> Result<int, Error> {
        if self.year < FIRST_YEAR || self.year >= FIRST_YEAR + YEAR_COUNT {
            Err(Error::YearOutOfRange)
        } else {
            let index = self.year - FIRST_YEAR;
            match day_of_year(spec_year_info(index), self.month, self.day, self.is_leap_month) {
                Ok(days) => Ok(year_start(index) + days),
                Err(e) => Err(e),
            }
        }
    }

    /// Whether the lunar calendar of the table has this day.
    pub open spec fn is_date(self) -> bool {
        self.offset() is Ok
    }

    /// The Gregorian date of this day.
    pub open spec fn to_solar(self) -> Result<SolarDateView, Error> {
        match self.offset() {
            Ok(days) => Ok(date_at(days)),
            Err(e) => Err(e),
        }
    }

    /// The lunar date that lies `days` days after this one; before it, for
    /// negative `days`.
    pub open spec fn plus_days(self, days: int) -> Result<LunarDateView, Error> {
        match self.offset() {
            Ok(offset) => lunar_at(offset + days),
            Err(e) => Err(e),
        }
    }

    /// The lunar date that lies a count of whole days after this one; none
    /// where there is no count, the calendar does not have this date, or the
    /// table does not cover the day asked for.
    pub open spec fn plus_whole_days(self, days: Option<i64>) -> Option<LunarDateView> {
        match days {
            Some(count) => match self.plus_days(count as int) {
                Ok(date) => Some(date),
                Err(_) => None,
            },
            None => None,
        }
    }

    /// The lunar date that lies a count of whole days before this one; none
    /// where there is no count, the calendar does not have this date, or the
    /// table does not cover the day asked for.
    pub open spec fn minus_whole_days(self, days: Option<i64>) -> Option<LunarDateView> {
        match days {
            Some(count) => match self.plus_days(-(count as int)) {
                Ok(date) => Some(date),
                Err(_) => None,
            },
            None => None,
        }
    }

    /// The number of days from `earlier` to this day; negative where this
    /// day is the earlier one.
    pub open spec fn days_since(self, earlier: LunarDateView) -> Result<int, Error> {
        match self.offset() {
            Ok(offset) => match earlier.offset() {
                Ok(start) => Ok(offset - start),
                Err(e) => Err(e),
            },
            Err(e) => Err(e),
        }
    }
}

/// The lunar date of the day `days` days after the calendar epoch. The day
/// must be one that the table covers.
pub open spec fn lunar_at(days: int) -> Result<LunarDateView, Error> {
    if 0 <= days < total_days() {
        let index = year_at(days);
        let date = month_day_at(spec_year_info(index), days - year_start(index));
        Ok(
            LunarDateView {
                year: FIRST_YEAR + index,
                month: date.0 as int,
                day: date.1 as int,
                is_leap_month: date.2,
            },
        )
    } else {
        Err(Error::YearOutOfRange)
    }
}

/// The lunar date of a Gregorian date. The date must be one that the
/// Gregorian calendar has, on a day that the table covers.
pub open spec fn from_solar(date: SolarDateView) -> Result<LunarDateView, Error> {
    if date.is_date() {
        lunar_at(date.epoch_days())
    } else {
        Err(Error::YearOutOfRange)
    }
}

/// The years of the table start in their order, each 348 to 390 days after
/// the one before.
pub proof fn lemma_year_start_bounds(index: int)
    requires
        0 <= index,
    ensures
        348 * index <= year_start(index) <= 390 * index,
    decreases index,
{
    if index > 0 {
        lemma_year_start_bounds(index - 1);
        lemma_year_days_bounds(spec_year_info(index - 1));
    }
}

/// A later year of the table does not start before an earlier one.
pub proof fn lemma_year_start_monotonic(first: int, second: int)
    requires
        0 <= first <= second,
    ensures
        year_start(first) <= year_start(second),
    decreases second - first,
{
    if first < second {
        lemma_year_start_monotonic(first, second - 1);
        lemma_year_days_bounds(spec_year_info(second - 1));
    }
}

proof fn lemma_year_from(days: int, index: int)
    requires
        0 <= index < YEAR_COUNT,
        year_start(index) <= days < total_days(),
    ensures
        index <= year_from(days, index) < YEAR_COUNT,
        year_start(year_from(days, index)) <= days < year_start(year_from(days, index) + 1),
    decreases YEAR_COUNT - index,
{
    if index + 1 >= YEAR_COUNT || days < year_start(index + 1) {
    } else {
        lemma_year_from(days, index + 1);
    }
}

/// The year that `year_at` names is the one whose days hold the day.
pub proof fn lemma_year_at(days: int)
    requires
        0 <= days < total_days(),
    ensures
        0 <= year_at(days) < YEAR_COUNT,
        year_start(year_at(days)) <= days < year_start(year_at(days) + 1),
{
    lemma_year_from(days, 0);
}

/// Only one year holds a given day: a year whose days hold the day is the
/// one that `year_at` names.
pub proof fn lemma_year_at_unique(days: int, index: int)
    requires
        0 <= index < YEAR_COUNT,
        year_start(index) <= days < year_start(index + 1),
    ensures
        0 <= days < total_days(),
        year_at(days) == index,
{
    lemma_year_start_bounds(index);
    lemma_year_start_monotonic(index + 1, YEAR_COUNT as int);
    lemma_year_at(days);
    let found = year_at(days);
    if found < index {
        lemma_year_start_monotonic(found + 1, index);
    } else if index < found {
        lemma_year_start_monotonic(index + 1, found);
    }
}

/// A date of the Chinese lunar calendar: year, month, day of the month, and
/// whether the month is the leap month of its number. The date is not
/// checked when it is made: the conversions reject a date that the calendar
/// does not have.
#[derive(Debug, Clone, Copy, PartialEq, Eq, Hash, Structural)]
pub struct LunarDate {
    year: i32,
    month: u32,
    day: u32,
    is_leap_month: bool,
}

impl View for LunarDate {
    type V = LunarDateView;

    closed spec fn view(&self) -> LunarDateView {
        LunarDateView {
            year: self.year as int,
            month: self.month as int,
            day: self.day as int,
            is_leap_month: self.is_leap_month,
        }
    }
}

/// What a conversion gave, with the date taken as what it stands for.
pub open spec fn lunar_view(r: Result<LunarDate, Error>) -> Result<LunarDateView, Error> {
    match r {
        Ok(date) => Ok(date@),
        Err(e) => Err(e),
    }
}

/// The date that an operation gave, if any, taken as what it stands for.
pub open spec fn lunar_option_view(r: Option<LunarDate>) -> Option<LunarDateView> {
    match r {
        Some(date) => Some(date@),
        None => None,
    }
}

/// What a conversion gave, with the date taken as what it stands for.
pub open spec fn solar_view(r: Result<SolarDate, Error>) -> Result<SolarDateView, Error> {
    match r {
        Ok(date) => Ok(date@),
        Err(e) => Err(e),
    }
}

/// What a count of days gave, with the number taken as an integer.
pub open spec fn days_view(r: Result<u32, Error>) -> Result<int, Error> {
    match r {
        Ok(days) => Ok(days as int),
        Err(e) => Err(e),
    }
}

impl LunarDate {
    /// Makes a lunar date from year, month, day and leap flag.
    pub fn new(year: i32, month: u32, day: u32, is_leap_month: bool) -> (date: Self)
        ensures
            date@ == (LunarDateView {
                year: year as int,
                month: month as int,
                day: day as int,
                is_leap_month,
            }),
    {
        Self { year, month, day, is_leap_month }
    }

    /// The lunar year.
    pub fn year(&self) -> (year: i32)
        ensures
            year == self@.year,
    {
        self.year
    }

    /// The lunar month.
    pub fn month(&self) -> (month: u32)
        ensures
            month == self@.month,
    {
        self.month
    }

    /// The day of the lunar month.
    pub fn day(&self) -> (day: u32)
        ensures
            day == self@.day,
    {
        self.day
    }

    /// Whether the month is a leap month.
    pub fn is_leap_month(&self) -> (leap: bool)
        ensures
            leap == self@.is_leap_month,
    {
        self.is_leap_month
    }

    /// Two lunar dates that stand for the same day are equal.
    pub proof fn lemma_view_injective(self, other: LunarDate)
        requires
            self@ == other@,
        ensures
            self == other,
    {
    }

    /// The lunar date of the day `offset` days after the calendar epoch;
    /// `YearOutOfRange` where the table does not reach that far.
    pub fn from_offset(offset: u32) -> (r: Result<Self, Error>)
        ensures
            lunar_view(r) == lunar_at(offset as int),
    {
        let mut rest = offset;
        let mut index: usize = 0;
        while index < YEAR_COUNT
            invariant
                index <= YEAR_COUNT,
                rest == offset - year_start(index as int),
            decreases YEAR_COUNT - index,
        {
            let info = year_info(index);
            let year_day = year_info_to_year_day(info);
            if rest < year_day {
                proof {
                    lemma_table_leap_months(index as int);
                    lemma_year_start_bounds(index as int);
                    lemma_year_at_unique(offset as int, index as int);
                    lemma_month_day_round_trip(info, rest as int);
                    lemma_day_of_year_round_trip(
                        info,
                        month_day_at(info, rest as int).0 as int,
                        month_day_at(info, rest as int).1 as int,
                        month_day_at(info, rest as int).2,
                    );
                }
                let (month, day, is_leap_month) = calc_month_day(info, rest)?;
                return Ok(LunarDate { year: FIRST_YEAR + index as i32, month, day, is_leap_month });
            }
            rest -= year_day;
            index += 1;
        }
        Err(Error::YearOutOfRange)
    }

    /// The number of days from the calendar epoch to this date, or why the
    /// calendar has no such date.
    pub fn to_offset(&self) -> (r: Result<u32, Error>)
        ensures
            days_view(r) == self@.offset(),
    {
        if self.year < FIRST_YEAR || self.year >= FIRST_YEAR + YEAR_COUNT as i32 {
            return Err(Error::YearOutOfRange);
        }
        let year_index = (self.year - FIRST_YEAR) as usize;
        let mut offset: u32 = 0;
        let mut i: usize = 0;
        while i < year_index
            invariant
                i <= year_index < YEAR_COUNT,
                offset == year_start(i as int),
            decreases year_index - i,
        {
            proof {
                lemma_year_start_bounds(i as int);
                lemma_year_days_bounds(spec_year_info(i as int));
            }
            offset += year_info_to_year_day(year_info(i));
            i += 1;
        }
        proof {
            lemma_year_start_bounds(year_index as int);
            lemma_year_days_bounds(spec_year_info(year_index as int));
        }
        let days = calc_days(year_info(year_index), self.month, self.day, self.is_leap_month)?;
        proof {
            lemma_day_of_year_round_trip(
                spec_year_info(year_index as int),
                self.month as int,
                self.day as int,
                self.is_leap_month,
            );
        }
        Ok(offset + days)
    }

    /// The lunar date of the Gregorian date given by year, month and day;
    /// `YearOutOfRange` where the Gregorian calendar has no such date or the
    /// table does not cover its day.
    pub fn from_solar_date(year: i32, month: u32, day: u32) -> (r: Result<Self, Error>)
        ensures
            lunar_view(r) == from_solar(
                SolarDateView { year: year as int, month: month as int, day: day as int },
            ),
    {
        let solar_date = SolarDate::new(year, month, day);
        Self::from_naive_date(&solar_date)
    }

    /// The lunar date of a Gregorian date; `YearOutOfRange` where the
    /// Gregorian calendar has no such date or the table does not cover its
    /// day.
    pub fn from_naive_date(date: &SolarDate) -> (r: Result<Self, Error>)
        ensures
            lunar_view(r) == from_solar(date@),
    {
        proof {
            lemma_year_start_bounds(YEAR_COUNT as int);
        }
        match days_between(&SolarDate::epoch(), date) {
            None => Err(Error::YearOutOfRange),
            Some(offset) => {
                if offset < 0 || offset > u32::MAX as i64 {
                    Err(Error::YearOutOfRange)
                } else {
                    Self::from_offset(offset as u32)
                }
            },
        }
    }

    /// The Gregorian date of this lunar date, or why the lunar calendar has
    /// no such date.
    pub fn to_solar_date(&self) -> (r: Result<SolarDate, Error>)
        ensures
            solar_view(r) == self@.to_solar(),
    {
        let offset = self.to_offset()?;
        proof {
            lemma_offset_lunar_at(self@);
            lemma_year_start_bounds(YEAR_COUNT as int);
            let date = lemma_date_exists(offset as int);
            assert(date.day_number() == epoch().day_number() + offset);
        }
        match add_days(&SolarDate::epoch(), offset as i64) {
            Some(date) => {
                proof {
                    lemma_day_number_injective(date@, date_at(offset as int));
                }
                Ok(date)
            },
            // Not reached: every day of the table has a Gregorian date.
            None => Err(Error::YearOutOfRange),
        }
    }

    /// The lunar date `days` days after this one (before it, for negative
    /// `days`), by way of the Gregorian calendar: the error of this date
    /// where the lunar calendar does not have it, `YearOutOfRange` where the
    /// table does not cover the day asked for.
    pub fn add_days(self, days: i64) -> (r: Result<LunarDate, Error>)
        ensures
            lunar_view(r) == self@.plus_days(days as int),
    {
        let date = self.to_solar_date()?;
        proof {
            lemma_offset_lunar_at(self@);
            lemma_year_start_bounds(YEAR_COUNT as int);
            lemma_date_exists(self@.offset().unwrap());
            let target = self@.offset().unwrap() + days;
            if 0 <= target < total_days() {
                let later = lemma_date_exists(target);
                assert(later.day_number() == date@.day_number() + days);
            }
        }
        match add_days(&date, days) {
            Some(later) => Self::from_naive_date(&later),
            None => Err(Error::YearOutOfRange),
        }
    }

    /// The lunar date `days` days before this one (after it, for negative
    /// `days`), with the errors of `add_days`.
    pub fn subtract_days(self, days: i64) -> (r: Result<LunarDate, Error>)
        ensures
            lunar_view(r) == self@.plus_days(-(days as int)),
    {
        if days == i64::MIN {
            // No day of the table lies that far after another.
            self.to_offset()?;
            proof {
                lemma_year_start_bounds(YEAR_COUNT as int);
            }
            Err(Error::YearOutOfRange)
        } else {
            self.add_days(-days)
        }
    }

    /// The number of days from `earlier` to this date, negative where this
    /// date is the earlier one; the error of the first of the two dates,
    /// this one first, that the lunar calendar does not have.
    pub fn difference(self, earlier: LunarDate) -> (r: Result<i64, Error>)
        ensures
            match r {
                Ok(days) => self@.days_since(earlier@) == Ok::<int, Error>(days as int),
                Err(e) => self@.days_since(earlier@) == Err::<int, Error>(e),
            },
    {
        let date = self.to_solar_date()?;
        let start = earlier.to_solar_date()?;
        proof {
            lemma_offset_lunar_at(self@);
            lemma_offset_lunar_at(earlier@);
            lemma_year_start_bounds(YEAR_COUNT as int);
            lemma_date_exists(self@.offset().unwrap());
            lemma_date_exists(earlier@.offset().unwrap());
        }
        match days_between(&start, &date) {
            Some(days) => Ok(days),
            // Not reached: both are dates of the Gregorian calendar.
            None => Err(Error::YearOutOfRange),
        }
    }

    /// The lunar date that lies `days` whole days after this one, where
    /// there is such a count; none where there is no count, the lunar
    /// calendar does not have this date, or the table does not cover the day
    /// asked for.
    pub fn checked_add_days(self, days: Option<i64>) -> (r: Option<LunarDate>)
        ensures
            lunar_option_view(r) == self@.plus_whole_days(days),
    {
        match days {
            Some(count) => self.add_days(count).ok(),
            None => None,
        }
    }

    /// The lunar date that lies `days` whole days before this one, where
    /// there is such a count; none where there is no count, the lunar
    /// calendar does not have this date, or the table does not cover the day
    /// asked for.
    pub fn checked_sub_days(self, days: Option<i64>) -> (r: Option<LunarDate>)
        ensures
            lunar_option_view(r) == self@.minus_whole_days(days),
    {
        match days {
            Some(count) => self.subtract_days(count).ok(),
            None => None,
        }
    }

    /// The lunar date that lies the whole days of `rhs` after this one; none
    /// where `chrono` cannot hold the span, the lunar calendar does not have
    /// this date, or the table does not cover the day asked for. A date that
    /// is returned lies no day before this one.
    pub fn checked_add(self, rhs: std::time::Duration) -> (r: Option<LunarDate>)
        ensures
            lunar_option_view(r) == self@.plus_whole_days(span_days(rhs)),
            r matches Some(date) ==> date@.days_since(self@) matches Ok(days) && days >= 0,
    {
        let days = whole_days(rhs);
        proof {
            if self@.plus_whole_days(days) is Some {
                lemma_lunar_at_offset(self@.offset().unwrap() + days.unwrap());
            }
        }
        self.checked_add_days(days)
    }

    /// The lunar date that lies the whole days of `rhs` before this one;
    /// none where `chrono` cannot hold the span, the lunar calendar does not
    /// have this date, or the table does not cover the day asked for. A date
    /// that is returned lies no day after this one.
    pub fn checked_sub(self, rhs: std::time::Duration) -> (r: Option<LunarDate>)
        ensures
            lunar_option_view(r) == self@.minus_whole_days(span_days(rhs)),
            r matches Some(date) ==> self@.days_since(date@) matches Ok(days) && days >= 0,
    {
        let days = whole_days(rhs);
        proof {
            if self@.minus_whole_days(days) is Some {
                lemma_lunar_at_offset(self@.offset().unwrap() - days.unwrap());
            }
        }
        self.checked_sub_days(days)
    }
}

/// The lunar date that `lunar_at` finds for a day lies that many days after
/// the epoch.
pub proof fn lemma_lunar_at_offset(days: int)
    requires
        0 <= days < total_days(),
    ensures
        lunar_at(days) is Ok,
        lunar_at(days).unwrap().offset() == Ok::<int, Error>(days),
{
    lemma_year_at(days);
    let index = year_at(days);
    lemma_table_leap_months(index);
    lemma_month_day_round_trip(spec_year_info(index), days - year_start(index));
}

/// A lunar date of the calendar lies on a day that the table covers, and
/// `lunar_at` finds it there.
pub proof fn lemma_offset_lunar_at(date: LunarDateView)
    requires
        date.is_date(),
    ensures
        0 <= date.offset().unwrap() < total_days(),
        lunar_at(date.offset().unwrap()) == Ok::<LunarDateView, Error>(date),
{
    let index = date.year - FIRST_YEAR;
    let info = spec_year_info(index);
    lemma_day_of_year_round_trip(info, date.month, date.day, date.is_leap_month);
    lemma_year_start_bounds(index);
    lemma_year_at_unique(date.offset().unwrap(), index);
}

/// A Gregorian date on a day
/// that the table covers has a lunar date, and the Gregorian date of that
/// lunar date is the date that was given.
pub proof fn lemma_solar_round_trip(date: SolarDateView)
    requires
        date.is_date(),
        0 <= date.epoch_days() < total_days(),
    ensures
        from_solar(date) is Ok,
        from_solar(date).unwrap().to_solar() == Ok::<SolarDateView, Error>(date),
{
    lemma_lunar_at_offset(date.epoch_days());
    lemma_year_start_bounds(YEAR_COUNT as int);
    let found = lemma_date_exists(date.epoch_days());
    lemma_day_number_injective(found, date);
}

/// A lunar date that the calendar
/// has can be converted to a Gregorian date, and the lunar date of that
/// Gregorian date is the date that was given.
pub proof fn lemma_lunar_round_trip(date: LunarDateView)
    requires
        date.is_date(),
    ensures
        date.to_solar() is Ok,
        from_solar(date.to_solar().unwrap()) == Ok::<LunarDateView, Error>(date),
{
    lemma_offset_lunar_at(date);
    lemma_year_start_bounds(YEAR_COUNT as int);
    lemma_date_exists(date.offset().unwrap());
}

/// Two lunar dates of the calendar that lie on the same day are the same
/// date.
pub proof fn lemma_offset_injective(first: LunarDateView, second: LunarDateView)
    requires
        first.is_date(),
        first.offset() == second.offset(),
    ensures
        first == second,
{
    lemma_offset_lunar_at(first);
    lemma_offset_lunar_at(second);
}

/// The calendar epoch, 31 January 1900, is the first day
/// of the first month of the lunar year 1900.
pub proof fn lemma_epoch_anchor()
    ensures
        from_solar(epoch()) == Ok::<LunarDateView, Error>(
            LunarDateView { year: 1900, month: 1, day: 1, is_leap_month: false },
        ),
{
    let first = LunarDateView { year: 1900, month: 1, day: 1, is_leap_month: false };
    lemma_table_leap_months(0);
    lemma_year_days_bounds(spec_year_info(0));
    lemma_month_entry_days(spec_year_info(0), 0);
    assert(first.offset() == Ok::<int, Error>(0));
    lemma_offset_lunar_at(first);
}

} // verus!
