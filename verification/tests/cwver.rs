use cwver::bisect::bisect_range;
use cwver::codec::{cwver_str_to_date, date_to_cwver_str, parse_cwver_str};
use cwver::errors::{ConversionError, CwverError, ParseError, RangeError};
use cwver::workdays::{count_workdays, jump_n_workdays, next_workday};
use cwver::workweek::workdays_to_hashset;
use cwver::{CalendarDate, WorkweekSet};

fn d(y: u64, m: u64, day: u64) -> CalendarDate {
    CalendarDate::from_ymd(y, m, day).unwrap()
}

fn commercial() -> WorkweekSet {
    workdays_to_hashset("1,2,3,4,5").unwrap()
}

fn all_days() -> WorkweekSet {
    workdays_to_hashset("1,2,3,4,5,6,7").unwrap()
}

#[test]
fn test_parse_cwver() {
    assert_eq!(parse_cwver_str("21w01.2"), Some((21, 1, 2)));
    assert_eq!(parse_cwver_str("00w00.0"), Some((0, 0, 0)));
    assert_eq!(parse_cwver_str("99w99.9"), Some((99, 99, 9)));
    assert_eq!(parse_cwver_str("21w1.0"), None);
}

#[test]
fn test_cwver_str_to_date() {
    assert_eq!(cwver_str_to_date("21w01.1"), Ok(d(2021, 1, 4)));
    assert_eq!(cwver_str_to_date("21w10.7"), Ok(d(2021, 3, 14)));
    assert_eq!(cwver_str_to_date("21w52.7"), Ok(d(2022, 1, 2)));
    assert_eq!(
        cwver_str_to_date("21w52.0"),
        Err(CwverError::Convert(ConversionError::WeekdayOutOfRange(0)))
    );
    assert_eq!(
        cwver_str_to_date("21w00.1"),
        Err(CwverError::Convert(ConversionError::NoSuchWeekDate))
    );
    assert_eq!(
        cwver_str_to_date("21w53.1"),
        Err(CwverError::Convert(ConversionError::NoSuchWeekDate))
    );
}

#[test]
fn test_date_to_cwver_str() {
    assert_eq!(date_to_cwver_str(&d(2021, 1, 4)), "21w01.1".to_string());
    assert_eq!(date_to_cwver_str(&d(2021, 3, 14)), "21w10.7".to_string());
    assert_eq!(date_to_cwver_str(&d(2022, 1, 2)), "21w52.7".to_string());
}

#[test]
fn test_count_workdays() {
    let commercial_workdays = commercial();
    let max_workdays = all_days();
    assert_eq!(
        count_workdays(&commercial_workdays, &d(2021, 1, 4), &d(2021, 1, 3)),
        Err(RangeError::Unordered)
    );
    assert_eq!(
        count_workdays(&commercial_workdays, &d(2021, 3, 14), &d(2021, 3, 14)),
        Ok(0)
    );
    assert_eq!(
        count_workdays(&commercial_workdays, &d(2021, 3, 12), &d(2021, 3, 15)),
        Ok(1)
    );
    assert_eq!(
        count_workdays(&max_workdays, &d(2021, 3, 12), &d(2021, 3, 15)),
        Ok(3)
    );
    assert_eq!(
        count_workdays(&max_workdays, &d(2021, 3, 11), &d(2021, 3, 12)),
        Ok(1)
    );
}

#[test]
fn test_bisect_range() {
    let commercial_workdays = commercial();
    let max_workdays = all_days();

    assert_eq!(
        bisect_range(&commercial_workdays, &d(2021, 3, 8), &d(2021, 3, 9)),
        Ok(vec![])
    );
    assert_eq!(
        bisect_range(&commercial_workdays, &d(2021, 3, 8), &d(2021, 3, 10)),
        Ok(vec![d(2021, 3, 9)])
    );
    assert_eq!(
        bisect_range(&commercial_workdays, &d(2021, 3, 8), &d(2021, 3, 12)),
        Ok(vec![d(2021, 3, 10)])
    );
    assert_eq!(
        bisect_range(&commercial_workdays, &d(2021, 3, 8), &d(2021, 3, 15)),
        Ok(vec![d(2021, 3, 10), d(2021, 3, 11)])
    );
    assert_eq!(
        bisect_range(&max_workdays, &d(2021, 3, 1), &d(2021, 3, 7)),
        Ok(vec![d(2021, 3, 4)])
    );
    assert_eq!(
        bisect_range(&max_workdays, &d(2021, 3, 1), &d(2021, 3, 8)),
        Ok(vec![d(2021, 3, 4), d(2021, 3, 5)])
    );
}

#[test]
fn test_round_trip_through_strings() {
    // Every day of 2020 and 2021, plus the days around the year boundaries,
    // survives formatting and parsing unchanged.
    let mut date = d(2019, 12, 20);
    let end = d(2022, 1, 20);
    while date != end {
        let s = date_to_cwver_str(&date);
        assert_eq!(cwver_str_to_date(&s), Ok(date));
        date = date.succ();
    }
}

#[test]
fn test_parse_finds_pattern_inside_text() {
    assert_eq!(parse_cwver_str("release-21w45.7-rc1"), Some((21, 45, 7)));
    assert_eq!(parse_cwver_str("123w45.6"), Some((23, 45, 6)));
    assert_eq!(parse_cwver_str("21w01.23"), Some((21, 1, 2)));
    assert_eq!(parse_cwver_str(""), None);
    assert_eq!(parse_cwver_str("21w0.1."), None);
}

#[test]
fn test_weekdays() {
    assert_eq!(d(2021, 1, 4).weekday_from_monday(), 1);
    assert_eq!(d(2021, 1, 10).weekday_from_monday(), 7);
    assert_eq!(d(2021, 3, 14).weekday_from_monday(), 7);
}

#[test]
fn test_from_ymd_validation() {
    assert!(CalendarDate::from_ymd(2020, 2, 29).is_some());
    assert!(CalendarDate::from_ymd(2021, 2, 29).is_none());
    assert!(CalendarDate::from_ymd(2000, 2, 29).is_some());
    assert!(CalendarDate::from_ymd(1900, 2, 29).is_none());
    assert!(CalendarDate::from_ymd(2021, 4, 31).is_none());
    assert!(CalendarDate::from_ymd(2021, 13, 1).is_none());
    assert!(CalendarDate::from_ymd(2021, 0, 1).is_none());
    assert!(CalendarDate::from_ymd(0, 1, 1).is_none());
}

#[test]
fn test_workweek_parsing() {
    let ws = workdays_to_hashset("1,2,3").unwrap();
    assert!(ws.contains(1) && ws.contains(2) && ws.contains(3));
    assert!(!ws.contains(4) && !ws.contains(7));

    let dup = workdays_to_hashset("5,5,5").unwrap();
    assert!(dup.contains(5));
    assert!(!dup.is_empty());

    let plus = workdays_to_hashset("+6").unwrap();
    assert!(plus.contains(6));

    assert_eq!(
        workdays_to_hashset("1,x,3").unwrap_err(),
        ParseError::InvalidWorkday("x".to_string())
    );
    assert_eq!(
        workdays_to_hashset("").unwrap_err(),
        ParseError::InvalidWorkday("".to_string())
    );
    assert_eq!(
        workdays_to_hashset("1,,3").unwrap_err(),
        ParseError::InvalidWorkday("".to_string())
    );
    assert_eq!(
        workdays_to_hashset("1,8").unwrap_err(),
        ParseError::WorkdayOutOfRange(8)
    );
    assert_eq!(
        workdays_to_hashset("0").unwrap_err(),
        ParseError::WorkdayOutOfRange(0)
    );
    assert_eq!(
        workdays_to_hashset("99999999999999999999").unwrap_err(),
        ParseError::InvalidWorkday("99999999999999999999".to_string())
    );
}

#[test]
fn test_malformed_version_string() {
    assert_eq!(
        cwver_str_to_date("nope"),
        Err(CwverError::Parse(ParseError::Malformed))
    );
}

#[test]
fn test_next_and_jump_workdays() {
    let ww = commercial();
    // Friday the 12th of March 2021: the next workday is Monday the 15th.
    assert_eq!(next_workday(&ww, &d(2021, 3, 12)), d(2021, 3, 15));
    assert_eq!(jump_n_workdays(&d(2021, 3, 8), 0, &ww), d(2021, 3, 8));
    assert_eq!(jump_n_workdays(&d(2021, 3, 8), 5, &ww), d(2021, 3, 15));
}

#[test]
fn test_count_seeds_at_start_day_and_skips_end_day() {
    let ww = commercial();
    // Saturday to Sunday: neither day is a workday, yet the count is 1,
    // because the start day counts unconditionally and the end day is never
    // tested.
    assert_eq!(count_workdays(&ww, &d(2021, 3, 13), &d(2021, 3, 14)), Ok(1));
    // Friday to Monday: only the weekend lies strictly between, so only the
    // seed counts.
    assert_eq!(count_workdays(&ww, &d(2021, 3, 12), &d(2021, 3, 15)), Ok(1));
}
