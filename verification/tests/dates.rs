use spent::calendar::{is_canonical_text, recognize, CalendarDate, Timestamp};
use spent::database::Database;

fn at(year: i32, month: u32, day: u32, hour: u32, minute: u32, second: u32) -> Timestamp {
    Timestamp { year, month, day, hour, minute, second, nanosecond: 0 }
}

fn canonical(text: &str) -> Result<String, String> {
    Database::parse_date(text)
}

#[test]
fn date_in_iso_form() {
    assert_eq!(canonical("2024-03-15"), Ok("2024-03-15 00:00:00".to_string()));
    assert_eq!(canonical("2024-3-5"), Ok("2024-03-05 00:00:00".to_string()));
}

#[test]
fn date_with_month_first_and_slashes() {
    assert_eq!(canonical("03/15/2024"), Ok("2024-03-15 00:00:00".to_string()));
}

#[test]
fn date_with_day_first_and_slashes() {
    assert_eq!(canonical("15/03/2024"), Ok("2024-03-15 00:00:00".to_string()));
}

#[test]
fn date_that_two_formats_match_goes_to_the_first() {
    assert_eq!(canonical("03/04/2024"), Ok("2024-03-04 00:00:00".to_string()));
    assert_eq!(canonical("03-04-2024"), Ok("2024-03-04 00:00:00".to_string()));
}

#[test]
fn date_with_year_first_and_slashes() {
    assert_eq!(canonical("2024/03/15"), Ok("2024-03-15 00:00:00".to_string()));
}

#[test]
fn date_with_month_first_and_hyphens() {
    assert_eq!(canonical("03-15-2024"), Ok("2024-03-15 00:00:00".to_string()));
}

#[test]
fn date_with_day_first_and_hyphens() {
    assert_eq!(canonical("15-03-2024"), Ok("2024-03-15 00:00:00".to_string()));
}

#[test]
fn date_with_time_in_canonical_form() {
    assert_eq!(canonical("2024-03-15 10:20:30"), Ok("2024-03-15 10:20:30".to_string()));
    assert_eq!(canonical("1999-12-31 23:59:59"), Ok("1999-12-31 23:59:59".to_string()));
}

#[test]
fn date_with_time_to_the_minute() {
    assert_eq!(canonical("03/15/2024 10:20"), Ok("2024-03-15 10:20:00".to_string()));
}

#[test]
fn date_with_a_leap_second() {
    assert_eq!(canonical("2016-12-31 23:59:60"), Ok("2016-12-31 23:59:60".to_string()));
    assert_eq!(
        recognize("2016-12-31 23:59:60"),
        Some(Timestamp {
            year: 2016,
            month: 12,
            day: 31,
            hour: 23,
            minute: 59,
            second: 59,
            nanosecond: 1_000_000_000,
        })
    );
}

#[test]
fn date_in_no_known_format_is_refused() {
    let refused = Err("Unsupported date format".to_string());
    assert_eq!(canonical("garbage"), refused);
    assert_eq!(canonical(""), refused);
    assert_eq!(canonical("2024-13-45"), refused);
    assert_eq!(canonical("31/02/2024"), refused);
    assert_eq!(canonical("March 15, 2024"), refused);
}

#[test]
fn date_beyond_four_digit_years_is_refused() {
    assert_eq!(canonical("+12345-01-01"), Err("Unsupported date format".to_string()));
    assert_eq!(canonical("-0044-03-15"), Err("Unsupported date format".to_string()));
}

#[test]
fn recognized_moment_has_the_fields_of_the_text() {
    assert_eq!(recognize("2024-03-15 10:20:30"), Some(at(2024, 3, 15, 10, 20, 30)));
    assert_eq!(recognize("15/03/2024"), Some(at(2024, 3, 15, 0, 0, 0)));
    assert_eq!(recognize("nothing"), None);
}

#[test]
fn timestamp_in_canonical_form() {
    assert_eq!(at(2024, 3, 5, 7, 8, 9).canonical(), Some("2024-03-05 07:08:09".to_string()));
    assert_eq!(at(0, 1, 1, 0, 0, 0).canonical(), Some("0000-01-01 00:00:00".to_string()));
    assert_eq!(at(9999, 12, 31, 23, 59, 59).canonical(), Some("9999-12-31 23:59:59".to_string()));
}

#[test]
fn timestamp_of_a_leap_second_shows_the_sixtieth() {
    let leap = Timestamp {
        year: 2016,
        month: 12,
        day: 31,
        hour: 23,
        minute: 59,
        second: 59,
        nanosecond: 1_500_000_000,
    };
    assert_eq!(leap.canonical(), Some("2016-12-31 23:59:60".to_string()));
}

#[test]
fn timestamp_that_does_not_fit_has_no_canonical_form() {
    assert_eq!(at(10000, 1, 1, 0, 0, 0).canonical(), None);
    assert_eq!(at(-1, 1, 1, 0, 0, 0).canonical(), None);
    assert_eq!(at(2024, 100, 1, 0, 0, 0).canonical(), None);
}

#[test]
fn timestamp_month_key() {
    assert_eq!(at(2024, 3, 5, 7, 8, 9).month_key(), "2024-03");
    assert_eq!(at(987, 11, 5, 7, 8, 9).month_key(), "0987-11");
    assert_eq!(at(0, 1, 5, 7, 8, 9).month_key(), "0000-01");
}

#[test]
fn timestamp_month_key_beyond_four_digit_years_has_a_sign() {
    assert_eq!(at(10000, 1, 1, 0, 0, 0).month_key(), "+10000-01");
    assert_eq!(at(-44, 3, 15, 0, 0, 0).month_key(), "-0044-03");
    assert_eq!(at(-12345, 12, 15, 0, 0, 0).month_key(), "-12345-12");
    assert_eq!(at(i32::MIN, 12, 15, 0, 0, 0).month_key(), "-2147483648-12");
    assert_eq!(at(2024, 123, 1, 0, 0, 0).month_key(), "2024-123");
}

#[test]
fn midnight_of_a_day() {
    let day = CalendarDate { year: 2024, month: 2, day: 29 };
    assert_eq!(day.at_midnight(), at(2024, 2, 29, 0, 0, 0));
}

#[test]
fn canonical_form_is_told_by_its_shape() {
    assert!(is_canonical_text("2024-03-15 10:20:30"));
    assert!(!is_canonical_text("2024-03-15"));
    assert!(!is_canonical_text("2024-03-15T10:20:30"));
    assert!(!is_canonical_text("2024/03/15 10:20:30"));
    assert!(!is_canonical_text("2024-03-15 10:20:3x"));
    assert!(!is_canonical_text("2024-03-15 10:20:300"));
    assert!(!is_canonical_text(""));
}
