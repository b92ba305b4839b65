use lunardate::table::{year_info, YEAR_COUNT, YEAR_INFOS};
use lunardate::year::{calc_days, calc_month_day, enum_month, year_info_to_year_day};
use lunardate::Error;

#[test]
fn year_length_of_given_descriptors() {
    assert_eq!(year_info_to_year_day(0x04bd8), 384);
    assert_eq!(year_info_to_year_day(0x15176), 384);
    assert_eq!(year_info_to_year_day(0x07552), 384);
}

#[test]
fn year_length_counts_every_bit_once() {
    assert_eq!(year_info_to_year_day(0), 348);
    assert_eq!(year_info_to_year_day(0xffff0), 360);
    assert_eq!(year_info_to_year_day(0x1fff1), 390);
    assert_eq!(year_info_to_year_day(0xf), 377);
    assert_eq!(year_info_to_year_day(0x1000d), 378);
}

#[test]
fn table_reads_the_descriptor_of_the_year() {
    assert_eq!(YEAR_COUNT, 200);
    assert_eq!(year_info(0), 0x04bd8);
    assert_eq!(year_info(117), 0x15176);
    assert_eq!(year_info(199), 0x0f252);
    assert_eq!(YEAR_INFOS.len(), 200);
}

#[test]
fn months_of_a_year_without_leap_month() {
    let months = enum_month(0x04ae0).unwrap();
    assert_eq!(months.len(), 12);
    let mut number = 1;
    for (month, days, leap) in months {
        assert_eq!(month, number);
        assert!(days == 29 || days == 30);
        assert!(!leap);
        number += 1;
    }
}

#[test]
fn months_of_a_year_with_long_leap_month() {
    let months = enum_month(0x15176).unwrap();
    assert_eq!(
        months,
        vec![
            (1, 29, false),
            (2, 30, false),
            (3, 29, false),
            (4, 30, false),
            (5, 29, false),
            (6, 29, false),
            (6, 30, true),
            (7, 29, false),
            (8, 30, false),
            (9, 29, false),
            (10, 30, false),
            (11, 30, false),
            (12, 30, false),
        ]
    );
}

#[test]
fn months_of_a_year_with_short_leap_month() {
    let months = enum_month(0x07552).unwrap();
    assert_eq!(months.len(), 13);
    assert_eq!(months[1], (2, 30, false));
    assert_eq!(months[2], (2, 29, true));
    assert_eq!(months[3], (3, 30, false));
    assert_eq!(months[12], (12, 30, false));
}

#[test]
fn leap_month_twelve_comes_last() {
    let months = enum_month(0x1000c).unwrap();
    assert_eq!(months.len(), 13);
    assert_eq!(months[11], (12, 29, false));
    assert_eq!(months[12], (12, 30, true));
}

#[test]
fn leap_month_above_twelve_is_refused() {
    assert_eq!(enum_month(0x0000d), Err(Error::YearOutOfRange));
    assert_eq!(enum_month(0x0ffff), Err(Error::YearOutOfRange));
    assert_eq!(calc_month_day(0x0000e, 0), Err(Error::YearOutOfRange));
    assert_eq!(calc_days(0x0000f, 1, 1, false), Err(Error::YearOutOfRange));
}

#[test]
fn months_add_up_to_the_year_length() {
    for index in 0..YEAR_COUNT {
        let info = year_info(index);
        let mut sum = 0;
        for (_, days, _) in enum_month(info).unwrap() {
            sum += days;
        }
        assert_eq!(sum, year_info_to_year_day(info));
    }
}

#[test]
fn month_and_day_of_a_day_of_the_year() {
    assert_eq!(calc_month_day(0x15176, 0), Ok((1, 1, false)));
    assert_eq!(calc_month_day(0x15176, 28), Ok((1, 29, false)));
    assert_eq!(calc_month_day(0x15176, 29), Ok((2, 1, false)));
    assert_eq!(calc_month_day(0x15176, 175), Ok((6, 29, false)));
    assert_eq!(calc_month_day(0x15176, 176), Ok((6, 1, true)));
    assert_eq!(calc_month_day(0x15176, 181), Ok((6, 6, true)));
    assert_eq!(calc_month_day(0x15176, 383), Ok((12, 30, false)));
}

#[test]
fn day_past_the_end_of_the_year_is_refused() {
    assert_eq!(calc_month_day(0x15176, 384), Err(Error::DayOutOfRange));
    assert_eq!(calc_month_day(0x15176, u32::MAX), Err(Error::DayOutOfRange));
}

#[test]
fn days_from_the_first_day_of_the_year() {
    assert_eq!(calc_days(0x15176, 1, 1, false), Ok(0));
    assert_eq!(calc_days(0x15176, 6, 5, false), Ok(151));
    assert_eq!(calc_days(0x15176, 6, 6, true), Ok(181));
    assert_eq!(calc_days(0x15176, 6, 30, true), Ok(205));
    assert_eq!(calc_days(0x15176, 7, 7, false), Ok(212));
    assert_eq!(calc_days(0x15176, 12, 30, false), Ok(383));
}

#[test]
fn month_that_the_year_lacks_is_refused() {
    assert_eq!(calc_days(0x15176, 0, 1, false), Err(Error::MonthOutOfRange));
    assert_eq!(calc_days(0x15176, 13, 1, false), Err(Error::MonthOutOfRange));
    assert_eq!(calc_days(0x15176, 5, 1, true), Err(Error::MonthOutOfRange));
    assert_eq!(calc_days(0x04ae0, 6, 1, true), Err(Error::MonthOutOfRange));
}

#[test]
fn day_that_the_month_lacks_is_refused() {
    assert_eq!(calc_days(0x15176, 1, 0, false), Err(Error::DayOutOfRange));
    assert_eq!(calc_days(0x15176, 1, 30, false), Err(Error::DayOutOfRange));
    assert_eq!(calc_days(0x15176, 6, 31, true), Err(Error::DayOutOfRange));
    assert_eq!(calc_days(0x15176, 2, 30, false), Ok(58));
}

#[test]
fn walk_through_a_year_both_ways() {
    let info = 0x07552;
    for offset in 0..year_info_to_year_day(info) {
        let (month, day, leap) = calc_month_day(info, offset).unwrap();
        assert_eq!(calc_days(info, month, day, leap), Ok(offset));
    }
}

#[test]
fn error_description() {
    assert_eq!(Error::YearOutOfRange.description(), "year out of range");
    assert_eq!(Error::MonthOutOfRange.description(), "month out of range");
    assert_eq!(Error::DayOutOfRange.description(), "day out of range");
}
