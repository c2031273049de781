use chrono::{Datelike, Duration, Local};
use nptt::calendar::{Day, Stamp};
use nptt::parsers::{force_parse_datetime, force_parse_integer, get_date_from_string};
use nptt::validators::{day_validator, unsigned_number_validator};

fn today() -> Day {
    let now = Local::now().date_naive();
    Day::from_ymd(now.year(), now.month(), now.day()).unwrap()
}

#[test]
fn test_day_today() {
    assert_eq!(day_validator("today".to_string()).is_ok(), true);
    assert_eq!(get_date_from_string("today", today()), Some(today()));
}

#[test]
fn test_invalid_day_todays() {
    assert_eq!(day_validator("todays".to_string()).is_ok(), false);
}

#[test]
fn test_day_yesterday() {
    assert_eq!(day_validator("yesterday".to_string()).is_ok(), true);
    let y = Local::now().date_naive().pred_opt().unwrap();
    assert_eq!(get_date_from_string("yesterday", today()), Day::from_ymd(y.year(), y.month(), y.day()));
}

#[test]
fn test_day_x_days() {
    assert_eq!(day_validator("10d".to_string()).is_ok(), true);
    let d = (Local::now() - Duration::days(10)).date_naive();
    assert_eq!(get_date_from_string("10d", today()), Day::from_ymd(d.year(), d.month(), d.day()));
}

#[test]
fn test_day_date() {
    assert_eq!(day_validator("2019-11-10".to_string()).is_ok(), true);
    assert_eq!(get_date_from_string("2019-11-10", today()), Day::from_ymd(2019, 11, 10));
}

#[test]
fn test_parse_brake_time() {
    assert_eq!(unsigned_number_validator("59".to_string()).is_ok(), true);
    assert_eq!(force_parse_integer(Some("59")), 59);
    assert_eq!(unsigned_number_validator("0".to_string()).is_ok(), true);
    assert_eq!(force_parse_integer(Some("0")), 0);
    assert_eq!(unsigned_number_validator("5000".to_string()).is_ok(), true);
    assert_eq!(force_parse_integer(Some("5000")), 5000);
}

#[test]
fn test_bad_brake_time() {
    assert_eq!(unsigned_number_validator("10d".to_string()).is_ok(), false);
    assert_eq!(unsigned_number_validator("-1".to_string()).is_ok(), false);
}

#[test]
fn test_date() {
    let day = Day::from_ymd(2019, 11, 10).unwrap();
    assert_eq!(
        force_parse_datetime(Some("10:11"), Some("2019-11-10"), today()),
        Stamp::at(day, 10, 11)
    );
}
