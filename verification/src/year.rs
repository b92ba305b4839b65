//! One lunar year: decoding its descriptor into months, the length of the
//! year, and the walk between a day of the year and a month and day.

use vstd::prelude::*;
use crate::error::Error;

verus! {

/// The month that the year doubles as a leap month, 0 when it has none.
/// A value above 12 marks a descriptor that describes no year.
pub open spec fn leap_month(info: u32) -> int {
    (info % 16) as int
}

/// Bit `k` of the descriptor, 1 for a long month and 0 for a short one.
pub open spec fn bit(info: u32, k: int) -> int {
    ((info >> (k as u32)) % 2) as int
}

/// The number of days of the ordinary month `month`, for 1 to 12.
pub open spec fn ordinary_days(info: u32, month: int) -> int {
    29 + bit(info, 16 - month)
}

/// The number of days of the leap month, where the year has one.
pub open spec fn leap_days(info: u32) -> int {
    29 + bit(info, 16)
}

/// The number of long months among the ordinary months 1 to `n`.
pub open spec fn long_months(info: u32, n: int) -> int
    decreases n,
{
    if n <= 0 {
        0
    } else {
        long_months(info, n - 1) + bit(info, 16 - n)
    }
}

/// The number of days of the year: twelve months of 29 days, one more day
/// for each long month, and the leap month where the descriptor names one.
pub open spec fn year_days(info: u32) -> int {
    29 * 12 + long_months(info, 12) + if leap_month(info) != 0 {
        leap_days(info)
    } else {
        0
    }
}

proof fn lemma_shift_step(x: u32, s: u32)
    by (bit_vector)
    requires
        s < 31,
    ensures
        (x >> s) / 2 == x >> ((s + 1) as u32),
        (x >> s) % 2 <= 1,
{
}

proof fn lemma_shift_four(x: u32)
    by (bit_vector)
    ensures
        x / 16 == x >> 4,
{
}

/// The number of long months is between 0 and the number of months counted.
pub proof fn lemma_long_months_bounds(info: u32, n: int)
    requires
        0 <= n <= 12,
    ensures
        0 <= long_months(info, n) <= n,
    decreases n,
{
    if n > 0 {
        lemma_long_months_bounds(info, n - 1);
        lemma_shift_step(info, (16 - n) as u32);
    }
}

/// A year has between 348 and 390 days.
pub proof fn lemma_year_days_bounds(info: u32)
    ensures
        348 <= year_days(info) <= 390,
{
    lemma_long_months_bounds(info, 12);
    lemma_shift_step(info, 16);
}

/// The number of days of the year that `year_info` describes.
pub fn year_info_to_year_day(year_info: u32) -> (days: u32)
    ensures
        days == year_days(year_info),
{
    let mut res: u32 = 29 * 12;
    let mut leap = false;
    if year_info % 16 != 0 {
        leap = true;
        res += 29;
    }
    let mut bits = year_info / 16;
    let count: u32 = if leap {
        13
    } else {
        12
    };
    let mut i: u32 = 0;
    proof {
        lemma_shift_four(year_info);
    }
    while i < count
        invariant
            i <= count,
            count == if leap {
                13u32
            } else {
                12u32
            },
            leap == (leap_month(year_info) != 0),
            bits == year_info >> ((4 + i) as u32),
            i <= 12 ==> res == 29 * 12 + (if leap {
                29int
            } else {
                0
            }) + long_months(year_info, 12) - long_months(year_info, 12 - i),
            i == 13 ==> res == year_days(year_info),
            res <= 29 * 13 + i,
        decreases count - i,
    {
        proof {
            lemma_shift_step(year_info, (4 + i) as u32);
            lemma_long_months_bounds(year_info, 12);
        }
        if bits % 2 == 1 {
            res += 1;
        }
        bits /= 2;
        i += 1;
    }
    res
}

/// The number of months of the year: 13 with a leap month, 12 without.
pub open spec fn month_count(info: u32) -> int {
    if leap_month(info) == 0 {
        12
    } else {
        13
    }
}

/// The month at position `k` of the year, counted from 0 in the order of
/// time, as month number, number of days and leap flag. The leap month
/// stands directly behind the ordinary month of its number.
pub open spec fn month_entry(info: u32, k: int) -> (u32, u32, bool) {
    let leap = leap_month(info);
    if leap == 0 || k < leap {
        ((k + 1) as u32, ordinary_days(info, k + 1) as u32, false)
    } else if k == leap {
        (leap as u32, leap_days(info) as u32, true)
    } else {
        (k as u32, ordinary_days(info, k) as u32, false)
    }
}

/// The months of the year in the order of time.
pub open spec fn months(info: u32) -> Seq<(u32, u32, bool)> {
    Seq::new(month_count(info) as nat, |k: int| month_entry(info, k))
}

/// The number of days of the year that lie before the month at position `k`.
pub open spec fn days_before(info: u32, k: int) -> int
    decreases k,
{
    if k <= 0 {
        0
    } else {
        days_before(info, k - 1) + month_entry(info, k - 1).1
    }
}

/// Every month of a year has 29 or 30 days.
pub proof fn lemma_month_entry_days(info: u32, k: int)
    requires
        leap_month(info) <= 12,
        0 <= k < month_count(info),
    ensures
        29 <= month_entry(info, k).1 <= 30,
        1 <= month_entry(info, k).0 <= 12,
{
    lemma_shift_step(info, 16);
    if k + 1 <= 12 {
        lemma_shift_step(info, (16 - (k + 1)) as u32);
    }
    if 1 <= k {
        lemma_shift_step(info, (16 - k) as u32);
    }
}

/// The days before a month grow by 29 or 30 with each month.
pub proof fn lemma_days_before_bounds(info: u32, k: int)
    requires
        leap_month(info) <= 12,
        0 <= k <= month_count(info),
    ensures
        29 * k <= days_before(info, k) <= 30 * k,
    decreases k,
{
    if k > 0 {
        lemma_days_before_bounds(info, k - 1);
        lemma_month_entry_days(info, k - 1);
    }
}

/// The months of the year, decoded from its descriptor, in the order of
/// time: month number, number of days, leap flag.
pub fn enum_month(year: u32) -> (r: Result<Vec<(u32, u32, bool)>, Error>)
    ensures
        match r {
            Ok(list) => leap_month(year) <= 12 && list@ == months(year),
            Err(e) => leap_month(year) > 12 && e == Error::YearOutOfRange,
        },
{
    let mut numbers: Vec<(u32, bool)> = Vec::with_capacity(13);
    let mut x: u32 = 1;
    while x < 13
        invariant
            1 <= x <= 13,
            numbers@.len() == x - 1,
            forall|j: int| 0 <= j < x - 1 ==> numbers@[j] == ((j + 1) as u32, false),
        decreases 13 - x,
    {
        numbers.push((x, false));
        x += 1;
    }
    let leap = year % 16;
    if leap == 0 {
    } else if leap <= 12 {
        numbers.insert(leap as usize, (leap, true));
    } else {
        return Err(Error::YearOutOfRange);
    }
    assert forall|j: int| 0 <= j < numbers@.len() implies numbers@[j] == (
        month_entry(year, j).0,
        month_entry(year, j).2,
    ) by {}
    let mut ret: Vec<(u32, u32, bool)> = Vec::with_capacity(numbers.len());
    let mut i: usize = 0;
    while i < numbers.len()
        invariant
            i <= numbers@.len(),
            leap_month(year) <= 12,
            numbers@.len() == month_count(year),
            forall|j: int|
                0 <= j < numbers@.len() ==> numbers@[j] == (
                    month_entry(year, j).0,
                    month_entry(year, j).2,
                ),
            ret@.len() == i,
            forall|j: int| 0 <= j < i ==> ret@[j] == month_entry(year, j),
        decreases numbers@.len() - i,
    {
        let (month, is_leap_month) = numbers[i];
        proof {
            lemma_month_entry_days(year, i as int);
            lemma_shift_step(year, 16);
            lemma_shift_step(year, (16 - month) as u32);
        }
        let days = if is_leap_month {
            (year >> 16) % 2 + 29
        } else {
            (year >> (16 - month)) % 2 + 29
        };
        ret.push((month, days, is_leap_month));
        i += 1;
    }
    assert(ret@ =~= months(year));
    Ok(ret)
}

/// The days of all the months that `enum_month` decodes add up to the length
/// of the year that `year_info_to_year_day` computes.
pub proof fn lemma_months_fill_year(info: u32)
    requires
        leap_month(info) <= 12,
    ensures
        days_before(info, month_count(info)) == year_days(info),
{
    lemma_days_before_split(info, month_count(info));
}

proof fn lemma_days_before_split(info: u32, k: int)
    requires
        leap_month(info) <= 12,
        0 <= k <= month_count(info),
    ensures
        days_before(info, k) == if leap_month(info) == 0 || k <= leap_month(info) {
            29 * k + long_months(info, k)
        } else {
            29 * (k - 1) + long_months(info, k - 1) + leap_days(info)
        },
    decreases k,
{
    if k > 0 {
        lemma_days_before_split(info, k - 1);
    }
}

/// The position of the month that holds day `offset` of the year, both
/// counted from 0, searched from position `k` on; the last position where
/// no month from `k` on holds that day.
pub open spec fn entry_from(info: u32, offset: int, k: int) -> int
    decreases month_count(info) - k,
{
    if k + 1 >= month_count(info) || offset < days_before(info, k + 1) {
        k
    } else {
        entry_from(info, offset, k + 1)
    }
}

/// The position of the month that holds day `offset` of the year, both
/// counted from 0.
pub open spec fn entry_at(info: u32, offset: int) -> int {
    entry_from(info, offset, 0)
}

/// Month number, day of the month (from 1) and leap flag of day `offset`
/// of the year (from 0).
pub open spec fn month_day_at(info: u32, offset: int) -> (u32, u32, bool) {
    let k = entry_at(info, offset);
    (month_entry(info, k).0, (offset - days_before(info, k) + 1) as u32, month_entry(info, k).2)
}

proof fn lemma_entry_from(info: u32, offset: int, k: int)
    requires
        leap_month(info) <= 12,
        0 <= k < month_count(info),
        days_before(info, k) <= offset < year_days(info),
    ensures
        k <= entry_from(info, offset, k) < month_count(info),
        days_before(info, entry_from(info, offset, k)) <= offset < days_before(
            info,
            entry_from(info, offset, k) + 1,
        ),
    decreases month_count(info) - k,
{
    lemma_months_fill_year(info);
    if k + 1 >= month_count(info) || offset < days_before(info, k + 1) {
    } else {
        lemma_entry_from(info, offset, k + 1);
    }
}

/// The month that `entry_at` names is the one whose days hold day `offset`.
pub proof fn lemma_entry_at(info: u32, offset: int)
    requires
        leap_month(info) <= 12,
        0 <= offset < year_days(info),
    ensures
        0 <= entry_at(info, offset) < month_count(info),
        days_before(info, entry_at(info, offset)) <= offset < days_before(
            info,
            entry_at(info, offset) + 1,
        ),
{
    lemma_entry_from(info, offset, 0);
}

/// The days before a month do not shrink from one month to a later one.
pub proof fn lemma_days_before_monotonic(info: u32, j: int, k: int)
    requires
        leap_month(info) <= 12,
        0 <= j <= k <= month_count(info),
    ensures
        days_before(info, j) <= days_before(info, k),
    decreases k - j,
{
    if j < k {
        lemma_days_before_monotonic(info, j, k - 1);
        lemma_month_entry_days(info, k - 1);
    }
}

/// Only one month holds a given day: a position whose days hold day
/// `offset` is the one that `entry_at` names.
pub proof fn lemma_entry_at_unique(info: u32, offset: int, k: int)
    requires
        leap_month(info) <= 12,
        0 <= k < month_count(info),
        days_before(info, k) <= offset < days_before(info, k + 1),
    ensures
        offset < year_days(info),
        entry_at(info, offset) == k,
{
    lemma_months_fill_year(info);
    lemma_days_before_bounds(info, k);
    lemma_days_before_monotonic(info, k + 1, month_count(info));
    lemma_entry_at(info, offset);
    let found = entry_at(info, offset);
    if found < k {
        lemma_days_before_monotonic(info, found + 1, k);
    } else if k < found {
        lemma_days_before_monotonic(info, k + 1, found);
    }
}

/// Month, day and leap flag of day `offset` of the year that `year`
/// describes, the first day of the year being day 0.
pub fn calc_month_day(year: u32, offset: u32) -> (r: Result<(u32, u32, bool), Error>)
    ensures
        match r {
            Ok(date) => leap_month(year) <= 12 && offset < year_days(year) && date
                == month_day_at(year, offset as int),
            Err(e) => if leap_month(year) > 12 {
                e == Error::YearOutOfRange
            } else {
                offset >= year_days(year) && e == Error::DayOutOfRange
            },
        },
{
    let list = enum_month(year)?;
    let mut rest = offset;
    let mut i: usize = 0;
    while i < list.len()
        invariant
            leap_month(year) <= 12,
            list@ == months(year),
            i <= list@.len(),
            rest == offset - days_before(year, i as int),
        decreases list@.len() - i,
    {
        let (month, days, is_leap_month) = list[i];
        if rest < days {
            proof {
                assert(days_before(year, i + 1) == days_before(year, i as int) + days);
                lemma_entry_at_unique(year, offset as int, i as int);
            }
            return Ok((month, rest + 1, is_leap_month));
        }
        rest -= days;
        i += 1;
    }
    proof {
        lemma_months_fill_year(year);
    }
    Err(Error::DayOutOfRange)
}

/// The position of the month with number `month` and leap flag
/// `is_leap_month` among the months of the year, counted from 0, where the
/// year has such a month.
pub open spec fn entry_index(info: u32, month: int, is_leap_month: bool) -> Option<int> {
    let leap = leap_month(info);
    if is_leap_month {
        if leap != 0 && month == leap {
            Some(leap)
        } else {
            None
        }
    } else if 1 <= month <= 12 {
        Some(
            if leap != 0 && month > leap {
                month
            } else {
                month - 1
            },
        )
    } else {
        None
    }
}

/// The number of days from the first day of the year to the given day, or
/// why the year has no such day.
pub open spec fn day_of_year(info: u32, month: int, day: int, is_leap_month: bool) -> Result<
    int,
    Error,
> {
    if leap_month(info) > 12 {
        Err(Error::YearOutOfRange)
    } else {
        match entry_index(info, month, is_leap_month) {
            None => Err(Error::MonthOutOfRange),
            Some(k) => if 1 <= day <= month_entry(info, k).1 {
                Ok(days_before(info, k) + day - 1)
            } else {
                Err(Error::DayOutOfRange)
            },
        }
    }
}

/// `entry_index` finds each month of the year at its own position.
pub proof fn lemma_entry_index(info: u32, k: int)
    requires
        leap_month(info) <= 12,
        0 <= k < month_count(info),
    ensures
        entry_index(info, month_entry(info, k).0 as int, month_entry(info, k).2) == Some(k),
{
}

/// What `entry_index` finds is a month of the year with the number and leap
/// flag asked for.
pub proof fn lemma_entry_index_found(info: u32, month: int, is_leap_month: bool)
    requires
        leap_month(info) <= 12,
        entry_index(info, month, is_leap_month) is Some,
    ensures
        0 <= entry_index(info, month, is_leap_month).unwrap() < month_count(info),
        month_entry(info, entry_index(info, month, is_leap_month).unwrap()).0 == month,
        month_entry(info, entry_index(info, month, is_leap_month).unwrap()).2 == is_leap_month,
{
}

/// The number of days from the first day of the year that `year_info`
/// describes to the given day of the given month.
pub fn calc_days(year_info: u32, month: u32, day: u32, is_leap_month: bool) -> (r: Result<
    u32,
    Error,
>)
    ensures
        match r {
            Ok(days) => day_of_year(year_info, month as int, day as int, is_leap_month) == Ok::<
                int,
                Error,
            >(days as int),
            Err(e) => day_of_year(year_info, month as int, day as int, is_leap_month) == Err::<
                int,
                Error,
            >(e),
        },
{
    let list = enum_month(year_info)?;
    let mut res: u32 = 0;
    let mut i: usize = 0;
    while i < list.len()
        invariant
            leap_month(year_info) <= 12,
            list@ == months(year_info),
            i <= list@.len(),
            res == days_before(year_info, i as int),
            forall|j: int|
                0 <= j < i ==> entry_index(year_info, month as int, is_leap_month) != Some(j),
        decreases list@.len() - i,
    {
        let (entry_month, entry_days, entry_leap) = list[i];
        proof {
            lemma_entry_index(year_info, i as int);
            lemma_month_entry_days(year_info, i as int);
            lemma_days_before_bounds(year_info, i as int);
        }
        if entry_month == month && is_leap_month == entry_leap {
            if day >= 1 && day <= entry_days {
                res += day - 1;
                return Ok(res);
            } else {
                return Err(Error::DayOutOfRange);
            }
        }
        res += entry_days;
        i += 1;
    }
    proof {
        if entry_index(year_info, month as int, is_leap_month) is Some {
            lemma_entry_index_found(year_info, month as int, is_leap_month);
        }
    }
    Err(Error::MonthOutOfRange)
}

/// `calc_days` and `calc_month_day` undo each other: the day that lies
/// `offset` days into the year is the day whose distance from the first day
/// of the year is `offset`.
pub proof fn lemma_month_day_round_trip(info: u32, offset: int)
    requires
        leap_month(info) <= 12,
        0 <= offset < year_days(info),
    ensures
        day_of_year(
            info,
            month_day_at(info, offset).0 as int,
            month_day_at(info, offset).1 as int,
            month_day_at(info, offset).2,
        ) == Ok::<int, Error>(offset),
{
    lemma_entry_at(info, offset);
    let k = entry_at(info, offset);
    lemma_entry_index(info, k);
    lemma_month_entry_days(info, k);
}

/// The other direction: a day of the year, given by month and day, is the
/// one that `month_day_at` finds at its distance from the first day.
pub proof fn lemma_day_of_year_round_trip(info: u32, month: int, day: int, is_leap_month: bool)
    requires
        day_of_year(info, month, day, is_leap_month) is Ok,
    ensures
        1 <= month <= 12,
        1 <= day <= 30,
        0 <= day_of_year(info, month, day, is_leap_month).unwrap() < year_days(info),
        month_day_at(info, day_of_year(info, month, day, is_leap_month).unwrap()) == (
            month as u32,
            day as u32,
            is_leap_month,
        ),
{
    lemma_entry_index_found(info, month, is_leap_month);
    let k = entry_index(info, month, is_leap_month).unwrap();
    let offset = days_before(info, k) + day - 1;
    lemma_month_entry_days(info, k);
    lemma_days_before_bounds(info, k);
    lemma_entry_at_unique(info, offset, k);
}

} // verus!
