use testdeck::calendar::{days_in_month, is_leap, parse_date, Date};

#[test]
fn day_numbers_count_from_the_first_day_of_year_zero() {
    assert_eq!(Date { year: 0, month: 1, day: 1 }.to_day_number(), 0);
    assert_eq!(Date { year: 0, month: 3, day: 1 }.to_day_number(), 60);
    assert_eq!(Date { year: 1, month: 1, day: 1 }.to_day_number(), 366);
    assert_eq!(Date { year: 1970, month: 1, day: 1 }.to_day_number(), 719528);
    assert_eq!(Date { year: 2000, month: 3, day: 1 }.to_day_number(), 730545);
    assert_eq!(Date { year: 2024, month: 5, day: 1 }.to_day_number(), 739372);
}

#[test]
fn consecutive_days_have_consecutive_numbers() {
    let pairs = [
        ((2024, 2, 28), (2024, 2, 29)),
        ((2024, 2, 29), (2024, 3, 1)),
        ((2023, 2, 28), (2023, 3, 1)),
        ((2023, 12, 31), (2024, 1, 1)),
        ((1900, 2, 28), (1900, 3, 1)),
        ((2000, 2, 29), (2000, 3, 1)),
    ];
    for ((y1, m1, d1), (y2, m2, d2)) in pairs {
        let a = Date { year: y1, month: m1, day: d1 }.to_day_number();
        let b = Date { year: y2, month: m2, day: d2 }.to_day_number();
        assert_eq!(a + 1, b);
    }
}

#[test]
fn leap_years_follow_the_gregorian_rule() {
    assert!(is_leap(2024));
    assert!(!is_leap(2023));
    assert!(!is_leap(1900));
    assert!(is_leap(2000));
    assert!(is_leap(0));
    assert_eq!(days_in_month(2024, 2), 29);
    assert_eq!(days_in_month(2023, 2), 28);
    assert_eq!(days_in_month(2023, 4), 30);
    assert_eq!(days_in_month(2023, 12), 31);
}

#[test]
fn dates_that_do_not_exist_are_not_built() {
    assert_eq!(Date::from_parts(2023, 2, 29), None);
    assert_eq!(Date::from_parts(2023, 13, 1), None);
    assert_eq!(Date::from_parts(2023, 0, 1), None);
    assert_eq!(Date::from_parts(2023, 4, 31), None);
    assert_eq!(Date::from_parts(2023, 4, 0), None);
    assert_eq!(Date::from_parts(2024, 2, 29), Some(Date { year: 2024, month: 2, day: 29 }));
    assert!(Date { year: 2024, month: 2, day: 29 }.is_real());
    assert!(!Date { year: 2023, month: 2, day: 29 }.is_real());
}

#[test]
fn time_texts_name_their_date() {
    let expected = Some(Date { year: 2024, month: 5, day: 1 });
    assert_eq!(parse_date("2024-05-01"), expected);
    assert_eq!(parse_date("2024-05-01 10:30:00"), expected);
    assert_eq!(parse_date("2024-05-01T10:30:00.000Z"), expected);
    assert_eq!(parse_date("0001-01-01"), Some(Date { year: 1, month: 1, day: 1 }));
    assert_eq!(parse_date("9999-12-31"), Some(Date { year: 9999, month: 12, day: 31 }));
}

#[test]
fn texts_of_another_shape_name_no_date() {
    assert_eq!(parse_date(""), None);
    assert_eq!(parse_date("2024-05-1"), None);
    assert_eq!(parse_date("2024/05/01"), None);
    assert_eq!(parse_date("2024-05-01x"), None);
    assert_eq!(parse_date("2024-05-011"), None);
    assert_eq!(parse_date("20a4-05-01"), None);
    assert_eq!(parse_date("2024-0b-01"), None);
    assert_eq!(parse_date("2024-05-0c"), None);
    assert_eq!(parse_date("2023-02-29"), None);
    assert_eq!(parse_date("2024-13-01"), None);
    assert_eq!(parse_date("2024-00-10"), None);
    assert_eq!(parse_date("yesterday at noon"), None);
    assert_eq!(parse_date("٢٠٢٤-05-01"), None);
}

#[test]
fn dates_are_written_with_ten_characters() {
    assert_eq!(Date { year: 2024, month: 5, day: 1 }.to_text(), "2024-05-01");
    assert_eq!(Date { year: 5, month: 12, day: 31 }.to_text(), "0005-12-31");
    assert_eq!(Date { year: 0, month: 1, day: 1 }.to_text(), "0000-01-01");
    assert_eq!(Date { year: 9999, month: 10, day: 20 }.to_text(), "9999-10-20");
    assert_eq!(Date { year: 12345, month: 1, day: 1 }.to_text(), "2345-01-01");
}

#[test]
fn written_dates_are_read_back() {
    for (year, month, day) in [(2024u16, 2u8, 29u8), (1999, 12, 31), (1, 1, 1), (9999, 12, 31)] {
        let date = Date { year, month, day };
        assert_eq!(parse_date(&date.to_text()), Some(date));
    }
}
