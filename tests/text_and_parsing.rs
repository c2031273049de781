use nptt::calendar::{Day, Stamp};
use nptt::parsers::{force_parse_time, get_date_from_string, parse_integer, parse_time};
use nptt::text::{clock_to_text, hours_to_text, int_to_text};
use nptt::validators::{day_validator, signed_minute_validator, time_validator, unsigned_number_validator};

fn day(y: i32, m: u32, d: u32) -> Day {
    Day::from_ymd(y, m, d).unwrap()
}

#[test]
fn hours_are_rounded_to_hundredths() {
    assert_eq!(hours_to_text(90), "1.50");
    assert_eq!(hours_to_text(-90), "-1.50");
    assert_eq!(hours_to_text(0), "0.00");
    assert_eq!(hours_to_text(1), "0.02");
    assert_eq!(hours_to_text(-1), "-0.02");
    assert_eq!(hours_to_text(210), "3.50");
    assert_eq!(hours_to_text(6001), "100.02");
}

#[test]
fn integers_and_clock_times_render() {
    assert_eq!(int_to_text(-30), "-30");
    assert_eq!(int_to_text(0), "0");
    assert_eq!(int_to_text(1234567), "1234567");
    assert_eq!(clock_to_text(8 * 60 + 5), "08:05");
    assert_eq!(clock_to_text(23 * 60 + 59), "23:59");
}

#[test]
fn days_are_counted_and_rendered_by_the_calendar() {
    assert_eq!(Day::from_ymd(1, 1, 1), Some(Day { days_from_ce: 1 }));
    assert_eq!(day(2019, 11, 10).to_text(), "2019-11-10");
    assert_eq!(day(2020, 2, 29).to_text(), "2020-02-29");
    assert_eq!(Day::from_ymd(2019, 2, 29), None);
    assert_eq!(Day::from_ymd(2019, 13, 1), None);
    assert_eq!(day(2019, 11, 11).days_from_ce - day(2019, 11, 10).days_from_ce, 1);
    assert!(day(2019, 11, 16).is_weekend());
    assert!(day(2019, 11, 17).is_weekend());
    assert!(!day(2019, 11, 18).is_weekend());
    assert!(!day(2019, 11, 15).is_weekend());
}

#[test]
fn time_texts_parse() {
    assert_eq!(parse_time(Some("08:30")), Some((8, 30)));
    assert_eq!(parse_time(Some("24:00")), Some((24, 0)));
    assert_eq!(parse_time(Some("25:00")), None);
    assert_eq!(parse_time(Some("8:30")), None);
    assert_eq!(parse_time(None), None);
    assert_eq!(force_parse_time("17:45".to_string()), (17, 45));
    assert_eq!(Stamp::at(day(2019, 11, 10), 24, 0), None);
}

#[test]
fn integer_texts_parse_within_i32() {
    assert_eq!(parse_integer(Some("-30")), Some(-30));
    assert_eq!(parse_integer(Some("2147483647")), Some(2147483647));
    assert_eq!(parse_integer(Some("-2147483648")), Some(-2147483648));
    assert_eq!(parse_integer(Some("2147483648")), None);
    assert_eq!(parse_integer(Some("99999999999999999999")), None);
    assert_eq!(parse_integer(Some("1x")), None);
    assert_eq!(parse_integer(Some("-")), None);
    assert_eq!(parse_integer(None), None);
}

#[test]
fn day_texts_name_days() {
    let today = day(2019, 11, 20);
    assert_eq!(get_date_from_string("0d", today), Some(today));
    assert_eq!(get_date_from_string("20d", today), Some(day(2019, 10, 31)));
    assert_eq!(get_date_from_string("yesterday", today), Some(day(2019, 11, 19)));
    assert_eq!(get_date_from_string("2019-02-30", today), None);
    assert_eq!(get_date_from_string("0000-01-01", today), None);
    assert_eq!(get_date_from_string("99999999999d", today), None);
    assert_eq!(get_date_from_string("tomorrow", today), None);
}

#[test]
fn validators_name_the_rejected_text() {
    assert_eq!(time_validator("08:00".to_string()), Ok(()));
    assert_eq!(
        time_validator("8am".to_string()),
        Err("Specified value '8am' is not a valid time format. It should be in HH:mm.".to_string())
    );
    assert_eq!(
        unsigned_number_validator("x".to_string()),
        Err("Specified value 'x' is not a positive integer.".to_string())
    );
    assert_eq!(signed_minute_validator("-15".to_string()), Ok(()));
    assert_eq!(
        signed_minute_validator("--1".to_string()),
        Err("Specified value '--1' is not an integer.".to_string())
    );
    assert_eq!(day_validator("2019-1-1".to_string()).is_ok(), false);
    assert_eq!(
        day_validator("soon".to_string()),
        Err("Specified value 'soon' is not any of 'today', 'yesterday', an integer followed by 'd' (e.g. 10d), or a valid date (yyyy-mm-dd zero padded).".to_string())
    );
}
