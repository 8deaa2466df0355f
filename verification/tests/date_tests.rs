use notes_bot::date::{has_iso_shape, Date};

fn ymd(year: i32, month: u32, day: u32) -> Date {
    Date::from_ymd(year, month, day).expect("a day of the calendar")
}

#[test]
fn from_ymd_keeps_the_fields() {
    let date = ymd(2024, 2, 29);
    assert_eq!(date.year(), 2024);
    assert_eq!(date.month(), 2);
    assert_eq!(date.day(), 29);
}

#[test]
fn from_ymd_knows_leap_years() {
    assert!(Date::from_ymd(2024, 2, 29).is_some());
    assert!(Date::from_ymd(2023, 2, 29).is_none());
    assert!(Date::from_ymd(1900, 2, 29).is_none());
    assert!(Date::from_ymd(2000, 2, 29).is_some());
    assert!(Date::from_ymd(-4, 2, 29).is_some());
    assert!(Date::from_ymd(-100, 2, 29).is_none());
    assert!(Date::from_ymd(-400, 2, 29).is_some());
    assert!(Date::from_ymd(i32::MIN, 2, 29).is_some());
    assert!(Date::from_ymd(i32::MAX, 2, 29).is_none());
}

#[test]
fn from_ymd_refuses_days_that_do_not_exist() {
    assert!(Date::from_ymd(2024, 0, 1).is_none());
    assert!(Date::from_ymd(2024, 13, 1).is_none());
    assert!(Date::from_ymd(2024, 1, 0).is_none());
    assert!(Date::from_ymd(2024, 1, 32).is_none());
    assert!(Date::from_ymd(2024, 4, 31).is_none());
    assert!(Date::from_ymd(2024, 4, 30).is_some());
    assert!(Date::from_ymd(2024, 12, 31).is_some());
    assert!(Date::from_ymd(2024, 300, 1).is_none());
    assert!(Date::from_ymd(2024, 1, 257).is_none());
    assert!(Date::from_ymd(2024, u32::MAX, u32::MAX).is_none());
}

#[test]
fn parse_reads_a_date() {
    assert_eq!(Date::parse("2024-02-29"), Some(ymd(2024, 2, 29)));
    assert_eq!(Date::parse("1999-12-31"), Some(ymd(1999, 12, 31)));
    assert_eq!(Date::parse("0001-01-01"), Some(ymd(1, 1, 1)));
}

#[test]
fn parse_refuses_what_is_no_date() {
    assert_eq!(Date::parse(""), None);
    assert_eq!(Date::parse("foo"), None);
    assert_eq!(Date::parse("2024-02-30"), None);
    assert_eq!(Date::parse("2023-02-29"), None);
    assert_eq!(Date::parse("2024-13-01"), None);
    assert_eq!(Date::parse("2024-00-10"), None);
    assert_eq!(Date::parse("2024/02/01"), None);
    assert_eq!(Date::parse("31-12-2024"), None);
    assert_eq!(Date::parse("2024-02"), None);
    assert_eq!(Date::parse("2024-02-01T10:00:00"), None);
}

#[test]
fn parse_wants_the_exact_form() {
    assert_eq!(Date::parse("2024-1-5"), None);
    assert_eq!(Date::parse("2024-01-5"), None);
    assert_eq!(Date::parse("24-01-05"), None);
    assert_eq!(Date::parse("02024-01-05"), None);
    assert_eq!(Date::parse("+2024-01-05"), None);
    assert_eq!(Date::parse("-2024-01-05"), None);
    assert_eq!(Date::parse("+12345-06-07"), None);
    assert_eq!(Date::parse(" 2024-01-05"), None);
    assert_eq!(Date::parse("2024-01-05 "), None);
    assert_eq!(Date::parse("2024- 1- 5"), None);
    assert_eq!(Date::parse("2024-01-05\n"), None);
    assert_eq!(Date::parse("2024\u{2010}01\u{2010}05"), None);
    assert_eq!(Date::parse("\u{662}\u{660}\u{662}\u{664}-01-05"), None);
    assert_eq!(Date::parse("2024-01-0\u{665}"), None);
    assert_eq!(Date::parse("2024.01.05"), None);
    assert_eq!(Date::parse("2024-01_05"), None);
}

#[test]
fn has_iso_shape_looks_at_the_form_only() {
    assert!(has_iso_shape("2024-02-29"));
    assert!(has_iso_shape("2023-02-31"));
    assert!(has_iso_shape("0000-00-00"));
    assert!(has_iso_shape("9999-99-99"));
    assert!(!has_iso_shape(""));
    assert!(!has_iso_shape("2024-2-29"));
    assert!(!has_iso_shape("2024-02-29 "));
    assert!(!has_iso_shape("2024/02/29"));
    assert!(!has_iso_shape("YYYY-MM-DD"));
    assert!(!has_iso_shape("2024-02-2\u{1f600}"));
}

#[test]
fn parse_reads_every_year_of_four_digits() {
    assert_eq!(Date::parse("0000-01-01"), Some(ymd(0, 1, 1)));
    assert_eq!(Date::parse("0000-02-29"), Some(ymd(0, 2, 29)));
    assert_eq!(Date::parse("0100-02-29"), None);
    assert_eq!(Date::parse("0400-02-29"), Some(ymd(400, 2, 29)));
    assert_eq!(Date::parse("9999-12-31"), Some(ymd(9999, 12, 31)));
}

#[test]
fn parse_agrees_with_the_calendar_on_every_month_and_day() {
    for year in [0, 1, 4, 99, 100, 400, 1582, 1900, 2000, 2023, 2024, 2100, 9999] {
        for month in 0..100u32 {
            for day in 0..100u32 {
                let text = format!("{:04}-{:02}-{:02}", year, month, day);
                assert_eq!(Date::parse(&text), Date::from_ymd(year, month, day), "{}", text);
            }
        }
    }
}

#[test]
fn parse_agrees_with_the_calendar_on_the_last_of_february() {
    for year in 0..10000 {
        for day in [28u32, 29, 30] {
            let text = format!("{:04}-02-{:02}", year, day);
            assert_eq!(Date::parse(&text), Date::from_ymd(year, 2, day), "{}", text);
        }
    }
}

#[test]
fn to_text_pads_with_zeros() {
    assert_eq!(ymd(2024, 1, 5).to_text(), "2024-01-05");
    assert_eq!(ymd(2024, 12, 31).to_text(), "2024-12-31");
    assert_eq!(ymd(987, 10, 9).to_text(), "0987-10-09");
    assert_eq!(ymd(0, 1, 1).to_text(), "0000-01-01");
    assert_eq!(ymd(9999, 12, 31).to_text(), "9999-12-31");
}

#[test]
fn to_text_signs_years_outside_four_digits() {
    assert_eq!(ymd(10000, 1, 1).to_text(), "+10000-01-01");
    assert_eq!(ymd(-1, 3, 4).to_text(), "-0001-03-04");
    assert_eq!(ymd(-9999, 3, 4).to_text(), "-9999-03-04");
    assert_eq!(ymd(-12345, 3, 4).to_text(), "-12345-03-04");
    assert_eq!(ymd(i32::MAX, 1, 1).to_text(), "+2147483647-01-01");
    assert_eq!(ymd(i32::MIN, 1, 1).to_text(), "-2147483648-01-01");
}

#[test]
fn push_text_appends() {
    let mut out = String::from("due ");
    ymd(2024, 7, 8).push_text(&mut out);
    assert_eq!(out, "due 2024-07-08");
}

#[test]
fn text_of_a_parsed_date_is_the_text() {
    let date = Date::parse("2031-08-09").unwrap();
    assert_eq!(date.to_text(), "2031-08-09");
}

#[test]
fn before_compares_year_month_day() {
    assert!(ymd(2023, 12, 31).before(&ymd(2024, 1, 1)));
    assert!(ymd(2024, 1, 31).before(&ymd(2024, 2, 1)));
    assert!(ymd(2024, 2, 1).before(&ymd(2024, 2, 2)));
    assert!(!ymd(2024, 2, 2).before(&ymd(2024, 2, 2)));
    assert!(!ymd(2024, 2, 3).before(&ymd(2024, 2, 2)));
    assert!(!ymd(2025, 1, 1).before(&ymd(2024, 12, 31)));
    assert!(ymd(-1, 12, 31).before(&ymd(0, 1, 1)));
}

#[test]
fn within_week_counts_today_and_the_seventh_day() {
    let today = ymd(2024, 5, 10);
    assert!(!ymd(2024, 5, 9).within_week_from(&today));
    assert!(ymd(2024, 5, 10).within_week_from(&today));
    assert!(ymd(2024, 5, 11).within_week_from(&today));
    assert!(ymd(2024, 5, 17).within_week_from(&today));
    assert!(!ymd(2024, 5, 18).within_week_from(&today));
    assert!(!ymd(2025, 5, 12).within_week_from(&today));
    assert!(!ymd(2023, 5, 12).within_week_from(&today));
}

#[test]
fn within_week_crosses_the_end_of_february() {
    let leap = ymd(2024, 2, 25);
    assert!(ymd(2024, 2, 29).within_week_from(&leap));
    assert!(ymd(2024, 3, 3).within_week_from(&leap));
    assert!(!ymd(2024, 3, 4).within_week_from(&leap));
    let plain = ymd(2023, 2, 25);
    assert!(ymd(2023, 3, 4).within_week_from(&plain));
    assert!(!ymd(2023, 3, 5).within_week_from(&plain));
}

#[test]
fn within_week_crosses_the_end_of_the_year() {
    let today = ymd(2023, 12, 28);
    assert!(ymd(2023, 12, 31).within_week_from(&today));
    assert!(ymd(2024, 1, 1).within_week_from(&today));
    assert!(ymd(2024, 1, 4).within_week_from(&today));
    assert!(!ymd(2024, 1, 5).within_week_from(&today));
}

#[test]
fn within_week_at_the_last_year() {
    let today = ymd(i32::MAX, 12, 30);
    assert!(ymd(i32::MAX, 12, 31).within_week_from(&today));
    assert!(!ymd(i32::MAX, 12, 29).within_week_from(&today));
    assert!(!ymd(i32::MIN, 1, 1).within_week_from(&today));
}

#[test]
fn dates_compare_by_value() {
    assert_eq!(ymd(2024, 5, 10), ymd(2024, 5, 10));
    assert_ne!(ymd(2024, 5, 10), ymd(2024, 5, 11));
    let copy = ymd(2024, 5, 10);
    let other = copy;
    assert_eq!(copy, other);
}
