use lunardate::{Error, LunarDate, SolarDate};
use std::time::Duration;

#[test]
fn epoch_is_first_day_of_lunar_1900() {
    assert_eq!(LunarDate::from_solar_date(1900, 1, 31), Ok(LunarDate::new(1900, 1, 1, false)));
    assert_eq!(LunarDate::from_offset(0), Ok(LunarDate::new(1900, 1, 1, false)));
    assert_eq!(LunarDate::new(1900, 1, 1, false).to_offset(), Ok(0));
    assert_eq!(LunarDate::new(1900, 1, 1, false).to_solar_date(), Ok(SolarDate::epoch()));
    assert_eq!(SolarDate::epoch(), SolarDate::new(1900, 1, 31));
}

#[test]
fn offsets_of_known_days() {
    assert_eq!(LunarDate::from_offset(1), Ok(LunarDate::new(1900, 1, 2, false)));
    assert_eq!(LunarDate::from_offset(28002), Ok(LunarDate::new(1976, 8, 8, true)));
    assert_eq!(LunarDate::from_offset(36494), Ok(LunarDate::new(1999, 11, 25, false)));
    assert_eq!(LunarDate::from_offset(45300), Ok(LunarDate::new(2024, 1, 1, false)));
    assert_eq!(LunarDate::new(1976, 8, 8, true).to_offset(), Ok(28002));
    assert_eq!(LunarDate::new(2017, 6, 6, true).to_offset(), Ok(42912));
}

#[test]
fn last_day_of_the_table() {
    assert_eq!(LunarDate::from_offset(73057), Ok(LunarDate::new(2099, 12, 30, false)));
    assert_eq!(LunarDate::from_offset(73058), Err(Error::YearOutOfRange));
    assert_eq!(LunarDate::from_offset(u32::MAX), Err(Error::YearOutOfRange));
    assert_eq!(LunarDate::from_solar_date(2100, 2, 8), Ok(LunarDate::new(2099, 12, 30, false)));
    assert_eq!(LunarDate::from_solar_date(2100, 2, 9), Err(Error::YearOutOfRange));
    assert_eq!(LunarDate::new(2099, 12, 30, false).to_solar_date(), Ok(SolarDate::new(2100, 2, 8)));
}

#[test]
fn day_before_the_epoch_is_refused() {
    assert_eq!(LunarDate::from_solar_date(1900, 1, 30), Err(Error::YearOutOfRange));
    assert_eq!(LunarDate::from_solar_date(1899, 12, 31), Err(Error::YearOutOfRange));
    assert_eq!(LunarDate::from_solar_date(-5, 3, 1), Err(Error::YearOutOfRange));
    assert_eq!(LunarDate::new(1899, 12, 1, false).to_solar_date(), Err(Error::YearOutOfRange));
}

#[test]
fn date_that_the_gregorian_calendar_lacks_is_refused() {
    assert_eq!(LunarDate::from_solar_date(2023, 2, 29), Err(Error::YearOutOfRange));
    assert_eq!(LunarDate::from_solar_date(2023, 4, 31), Err(Error::YearOutOfRange));
    assert_eq!(LunarDate::from_solar_date(2023, 0, 1), Err(Error::YearOutOfRange));
    assert_eq!(LunarDate::from_solar_date(2023, 13, 1), Err(Error::YearOutOfRange));
    assert_eq!(LunarDate::from_solar_date(2023, 1, 0), Err(Error::YearOutOfRange));
    assert_eq!(LunarDate::from_solar_date(400000, 1, 1), Err(Error::YearOutOfRange));
    assert_eq!(
        LunarDate::from_naive_date(&SolarDate::new(1900, 2, 29)),
        Err(Error::YearOutOfRange)
    );
    assert!(LunarDate::from_solar_date(2024, 2, 29).is_ok());
    assert!(LunarDate::from_solar_date(2000, 2, 29).is_ok());
}

#[test]
fn leap_month_of_2033() {
    assert_eq!(LunarDate::from_solar_date(2033, 12, 22), Ok(LunarDate::new(2033, 11, 1, true)));
    assert_eq!(LunarDate::from_solar_date(2034, 1, 19), Ok(LunarDate::new(2033, 11, 29, true)));
    assert_eq!(LunarDate::new(2033, 11, 1, true).to_solar_date(), Ok(SolarDate::new(2033, 12, 22)));
}

#[test]
fn leap_month_that_the_year_lacks_is_refused() {
    assert_eq!(LunarDate::new(2017, 5, 1, true).to_solar_date(), Err(Error::MonthOutOfRange));
    assert_eq!(LunarDate::new(2018, 6, 1, true).to_solar_date(), Err(Error::MonthOutOfRange));
    assert_eq!(LunarDate::new(2017, 0, 1, false).to_offset(), Err(Error::MonthOutOfRange));
    assert_eq!(LunarDate::new(2017, 6, 0, true).to_offset(), Err(Error::DayOutOfRange));
    assert_eq!(LunarDate::new(2017, 6, 31, true).to_offset(), Err(Error::DayOutOfRange));
    assert_eq!(LunarDate::new(2100, 13, 40, false).to_offset(), Err(Error::YearOutOfRange));
}

#[test]
fn every_day_of_the_table_goes_to_a_lunar_date_and_back() {
    let mut offset = 0;
    while offset < 73058 {
        let lunar = LunarDate::from_offset(offset).unwrap();
        assert_eq!(lunar.to_offset(), Ok(offset));
        offset += 1;
    }
}

#[test]
fn gregorian_dates_go_to_lunar_dates_and_back() {
    for year in [1900, 1901, 1976, 2000, 2017, 2024, 2099] {
        for month in 1..=12 {
            for day in [1, 15, 28] {
                if year == 1900 && month == 1 {
                    continue;
                }
                let lunar = LunarDate::from_solar_date(year, month, day).unwrap();
                assert_eq!(lunar.to_solar_date(), Ok(SolarDate::new(year, month, day)));
            }
        }
    }
}

#[test]
fn lunar_dates_go_to_gregorian_dates_and_back() {
    for year in [1900, 1950, 2004, 2017, 2099] {
        for month in 1..=12 {
            for day in [1, 10, 29] {
                let lunar = LunarDate::new(year, month, day, false);
                let solar = lunar.to_solar_date().unwrap();
                assert_eq!(LunarDate::from_naive_date(&solar), Ok(lunar));
            }
        }
    }
    let leap = LunarDate::new(2017, 6, 30, true);
    assert_eq!(LunarDate::from_naive_date(&leap.to_solar_date().unwrap()), Ok(leap));
}

#[test]
fn next_gregorian_day_is_one_day_further_from_the_epoch() {
    let days = [
        ((1999, 12, 31), (2000, 1, 1)),
        ((2000, 2, 28), (2000, 2, 29)),
        ((2000, 2, 29), (2000, 3, 1)),
        ((2001, 2, 28), (2001, 3, 1)),
        ((2017, 6, 30), (2017, 7, 1)),
        ((2017, 7, 27), (2017, 7, 28)),
    ];
    for ((y1, m1, d1), (y2, m2, d2)) in days {
        let first = LunarDate::from_solar_date(y1, m1, d1).unwrap().to_offset().unwrap();
        let second = LunarDate::from_solar_date(y2, m2, d2).unwrap().to_offset().unwrap();
        assert_eq!(first + 1, second);
    }
}

#[test]
fn add_days_crosses_months_and_years() {
    let date = LunarDate::new(2017, 6, 5, false);
    assert_eq!(date.add_days(0), Ok(date));
    assert_eq!(date.add_days(30), Ok(LunarDate::new(2017, 6, 6, true)));
    assert_eq!(date.add_days(61), Ok(LunarDate::new(2017, 7, 7, false)));
    assert_eq!(date.add_days(-1), Ok(LunarDate::new(2017, 6, 4, false)));
    assert_eq!(LunarDate::new(2023, 12, 30, false).add_days(1), Ok(LunarDate::new(2024, 1, 1, false)));
}

#[test]
fn add_days_reports_errors() {
    assert_eq!(LunarDate::new(1900, 1, 1, false).add_days(-1), Err(Error::YearOutOfRange));
    assert_eq!(LunarDate::new(2099, 12, 30, false).add_days(1), Err(Error::YearOutOfRange));
    assert_eq!(LunarDate::new(2017, 6, 5, false).add_days(i64::MAX), Err(Error::YearOutOfRange));
    assert_eq!(LunarDate::new(2017, 6, 5, false).add_days(i64::MIN), Err(Error::YearOutOfRange));
    assert_eq!(LunarDate::new(2004, 13, 1, false).add_days(1), Err(Error::MonthOutOfRange));
    assert_eq!(LunarDate::new(2004, 1, 30, false).add_days(1), Err(Error::DayOutOfRange));
    assert_eq!(LunarDate::new(2100, 1, 1, false).add_days(-400), Err(Error::YearOutOfRange));
}

#[test]
fn subtract_days_goes_back() {
    let date = LunarDate::new(2017, 7, 7, false);
    assert_eq!(date.subtract_days(61), Ok(LunarDate::new(2017, 6, 5, false)));
    assert_eq!(date.subtract_days(31), Ok(LunarDate::new(2017, 6, 6, true)));
    assert_eq!(date.subtract_days(-1), Ok(LunarDate::new(2017, 7, 8, false)));
    assert_eq!(date.subtract_days(i64::MIN), Err(Error::YearOutOfRange));
    assert_eq!(date.subtract_days(i64::MAX), Err(Error::YearOutOfRange));
    assert_eq!(LunarDate::new(1900, 1, 1, false).subtract_days(1), Err(Error::YearOutOfRange));
    assert_eq!(LunarDate::new(2004, 13, 1, false).subtract_days(i64::MIN), Err(Error::MonthOutOfRange));
}

#[test]
fn difference_counts_days() {
    let first = LunarDate::new(2017, 6, 5, false);
    let second = LunarDate::new(2017, 7, 7, false);
    assert_eq!(second.difference(first), Ok(61));
    assert_eq!(first.difference(second), Ok(-61));
    assert_eq!(first.difference(first), Ok(0));
    assert_eq!(
        LunarDate::new(2099, 12, 30, false).difference(LunarDate::new(1900, 1, 1, false)),
        Ok(73057)
    );
    assert_eq!(LunarDate::new(2004, 1, 30, false).difference(first), Err(Error::DayOutOfRange));
    assert_eq!(first.difference(LunarDate::new(2004, 13, 1, false)), Err(Error::MonthOutOfRange));
    assert_eq!(
        LunarDate::new(2100, 1, 1, false).difference(LunarDate::new(2004, 13, 1, false)),
        Err(Error::YearOutOfRange)
    );
}

#[test]
fn checked_add_counts_whole_days() {
    let date = LunarDate::new(2017, 6, 5, false);
    assert_eq!(date.checked_add(Duration::from_secs(0)), Some(date));
    assert_eq!(date.checked_add(Duration::from_secs(86399)), Some(date));
    assert_eq!(date.checked_add(Duration::from_secs(86400)), Some(LunarDate::new(2017, 6, 6, false)));
    assert_eq!(
        date.checked_add(Duration::from_secs(30 * 86400 + 5)),
        Some(LunarDate::new(2017, 6, 6, true))
    );
    assert_eq!(date.checked_add(Duration::from_secs(u64::MAX)), None);
    assert_eq!(LunarDate::new(2099, 12, 30, false).checked_add(Duration::from_secs(86400)), None);
    assert_eq!(LunarDate::new(2004, 13, 1, false).checked_add(Duration::from_secs(0)), None);
}

#[test]
fn checked_sub_counts_whole_days() {
    let date = LunarDate::new(2017, 7, 7, false);
    assert_eq!(date.checked_sub(Duration::from_secs(0)), Some(date));
    assert_eq!(date.checked_sub(Duration::from_secs(86400)), Some(LunarDate::new(2017, 7, 6, false)));
    assert_eq!(
        date.checked_sub(Duration::from_secs(61 * 86400)),
        Some(LunarDate::new(2017, 6, 5, false))
    );
    assert_eq!(date.checked_sub(Duration::from_secs(u64::MAX)), None);
    assert_eq!(LunarDate::new(1900, 1, 1, false).checked_sub(Duration::from_secs(86400)), None);
    assert_eq!(LunarDate::new(2004, 1, 30, false).checked_sub(Duration::from_secs(0)), None);
}

#[test]
fn dates_keep_what_they_were_made_of() {
    let lunar = LunarDate::new(-3, 14, 99, true);
    assert_eq!(lunar.year(), -3);
    assert_eq!(lunar.month(), 14);
    assert_eq!(lunar.day(), 99);
    assert!(lunar.is_leap_month());
    let solar = SolarDate::new(2024, 2, 29);
    assert_eq!(solar.year(), 2024);
    assert_eq!(solar.month(), 2);
    assert_eq!(solar.day(), 29);
}

#[test]
fn checked_add_days_takes_a_count_of_days() {
    let date = LunarDate::new(2017, 6, 5, false);
    assert_eq!(date.checked_add_days(Some(0)), Some(date));
    assert_eq!(date.checked_add_days(Some(30)), Some(LunarDate::new(2017, 6, 6, true)));
    assert_eq!(date.checked_add_days(Some(61)), Some(LunarDate::new(2017, 7, 7, false)));
    assert_eq!(date.checked_add_days(Some(-1)), Some(LunarDate::new(2017, 6, 4, false)));
    assert_eq!(date.checked_add_days(None), None);
    assert_eq!(date.checked_add_days(Some(i64::MAX)), None);
    assert_eq!(LunarDate::new(2099, 12, 30, false).checked_add_days(Some(1)), None);
    assert_eq!(LunarDate::new(2004, 13, 1, false).checked_add_days(Some(0)), None);
    assert_eq!(LunarDate::new(2004, 1, 30, false).checked_add_days(Some(0)), None);
}

#[test]
fn checked_sub_days_takes_a_count_of_days() {
    let date = LunarDate::new(2017, 7, 7, false);
    assert_eq!(date.checked_sub_days(Some(0)), Some(date));
    assert_eq!(date.checked_sub_days(Some(31)), Some(LunarDate::new(2017, 6, 6, true)));
    assert_eq!(date.checked_sub_days(Some(61)), Some(LunarDate::new(2017, 6, 5, false)));
    assert_eq!(date.checked_sub_days(Some(-1)), Some(LunarDate::new(2017, 7, 8, false)));
    assert_eq!(date.checked_sub_days(None), None);
    assert_eq!(date.checked_sub_days(Some(i64::MIN)), None);
    assert_eq!(LunarDate::new(1900, 1, 1, false).checked_sub_days(Some(1)), None);
    assert_eq!(LunarDate::new(2100, 1, 1, false).checked_sub_days(Some(0)), None);
}
