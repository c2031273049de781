use nptt::calendar::{Day, Stamp};
use nptt::commands::{days_to_report, planned_flex, singleton_vec};
use nptt::flex::{build_map_by_date, calculate_flex, expected_workday_minutes, total_flex_minutes};
use nptt::ledger::{Ledger, LedgerError};
use nptt::records::{DailyTimeOverrideLine, DateLine, FlexLine};

fn day(y: i32, m: u32, d: u32) -> Day {
    Day::from_ymd(y, m, d).unwrap()
}

fn entry(d: Day, start: (u32, u32), end: (u32, u32), break_minutes: i32) -> DateLine {
    DateLine {
        start: Stamp::at(d, start.0, start.1).unwrap(),
        end: Stamp::at(d, end.0, end.1).unwrap(),
        break_time_minutes: break_minutes,
        date: d,
    }
}

fn monday() -> Day {
    day(2019, 11, 11)
}

#[test]
fn full_day_on_a_weekday_is_even() {
    let rows = vec![entry(monday(), (8, 0), (17, 0), 60)];
    assert_eq!(calculate_flex(&rows, monday(), &vec![]), 0);
}

#[test]
fn late_start_on_a_weekday_is_thirty_short() {
    let rows = vec![entry(monday(), (8, 30), (17, 0), 60)];
    assert_eq!(calculate_flex(&rows, monday(), &vec![]), -30);
}

#[test]
fn late_end_on_a_weekday_is_thirty_over() {
    let rows = vec![entry(monday(), (8, 0), (17, 30), 60)];
    assert_eq!(calculate_flex(&rows, monday(), &vec![]), 30);
}

#[test]
fn split_shifts_of_a_weekday_add_up() {
    let rows = vec![entry(monday(), (8, 0), (12, 0), 0), entry(monday(), (13, 0), (17, 30), 15)];
    // 240 + 270 - 15 - 480
    assert_eq!(calculate_flex(&rows, monday(), &vec![]), 15);
    assert_eq!(total_flex_minutes(&rows, &vec![], &vec![]), 15);
}

#[test]
fn weekend_expects_nothing_whatever_the_overrides() {
    let saturday = day(2019, 11, 16);
    let rows = vec![entry(saturday, (8, 0), (17, 0), 60)];
    let overrides = vec![DailyTimeOverrideLine { id: 1, start: day(2019, 11, 1), end: None, minutes_of_work: 360 }];
    assert_eq!(calculate_flex(&rows, saturday, &vec![]), 480);
    assert_eq!(calculate_flex(&rows, saturday, &overrides), 480);
    assert_eq!(expected_workday_minutes(&overrides, saturday), 0);
}

#[test]
fn override_sets_the_expected_length() {
    let rows = vec![entry(monday(), (8, 30), (17, 0), 60)];
    let overrides = vec![DailyTimeOverrideLine { id: 1, start: monday(), end: None, minutes_of_work: 360 }];
    assert_eq!(calculate_flex(&rows, monday(), &vec![]), -30);
    assert_eq!(calculate_flex(&rows, monday(), &overrides), 90);
}

#[test]
fn latest_opened_window_wins_where_windows_overlap() {
    let overrides = vec![
        DailyTimeOverrideLine { id: 1, start: day(2019, 11, 1), end: None, minutes_of_work: 360 },
        DailyTimeOverrideLine { id: 2, start: day(2019, 11, 10), end: Some(day(2019, 11, 12)), minutes_of_work: 240 },
    ];
    assert_eq!(expected_workday_minutes(&overrides, monday()), 240);
    assert_eq!(expected_workday_minutes(&overrides, day(2019, 11, 12)), 360);
    assert_eq!(expected_workday_minutes(&overrides, day(2019, 10, 31)), 480);
}

#[test]
fn closing_a_window_keeps_earlier_days() {
    let mut ledger = Ledger::new();
    let id = ledger.add_daily_time_override(day(2019, 11, 11), 360).unwrap();
    ledger.stop_daily_time_override(id, day(2019, 11, 13)).unwrap();
    let before = ledger.get_daily_time_override_for_date(day(2019, 11, 12));
    assert_eq!(before.map(|o| o.minutes_of_work), Some(360));
    assert_eq!(ledger.get_daily_time_override_for_date(day(2019, 11, 13)), None);
    assert_eq!(ledger.get_daily_time_override_for_date(day(2019, 11, 10)), None);
}

#[test]
fn balance_does_not_depend_on_recording_order() {
    let a = entry(monday(), (8, 0), (17, 0), 60);
    let b = entry(day(2019, 11, 12), (8, 30), (17, 0), 60);
    let c = entry(monday(), (18, 0), (19, 0), 0);
    let f1 = FlexLine { date: monday(), flex_minutes: 120, comment: String::new() };
    let f2 = FlexLine { date: day(2019, 11, 13), flex_minutes: -15, comment: String::new() };
    let first = total_flex_minutes(&vec![a, b, c], &vec![f1.clone(), f2.clone()], &vec![]);
    let second = total_flex_minutes(&vec![c, b, a], &vec![f2, f1], &vec![]);
    assert_eq!(first, second);
    assert_eq!(first, 0 - 30 + 60 + 120 - 15);
}

#[test]
fn manual_flex_counts_in_the_period() {
    let mut ledger = Ledger::new();
    let d11 = day(2019, 11, 11);
    let d12 = day(2019, 11, 12);
    ledger.insert_time(Stamp::at(d11, 8, 0).unwrap(), Stamp::at(d11, 17, 0).unwrap(), 60).unwrap();
    ledger.insert_time(Stamp::at(d12, 8, 30).unwrap(), Stamp::at(d12, 17, 0).unwrap(), 60).unwrap();
    ledger.add_flex(120, d12, None).unwrap();
    let (period, total) = ledger.flex_totals(d11, day(2019, 11, 13));
    assert_eq!(period, 90);
    assert_eq!(total, 90);
    let lines = ledger.report(d11, day(2019, 11, 13), false);
    assert!(lines.last().unwrap().contains("period: 1.50 hours"));
}

#[test]
fn override_swings_a_day_by_two_hours() {
    let mut ledger = Ledger::new();
    let d = day(2019, 11, 12);
    ledger.insert_time(Stamp::at(d, 8, 30).unwrap(), Stamp::at(d, 17, 0).unwrap(), 60).unwrap();
    assert_eq!(ledger.calculate_flex_minutes(), -30);
    ledger.add_daily_time_override(d, 360).unwrap();
    assert_eq!(ledger.calculate_flex_minutes(), 90);
    let lines = ledger.report(d, day(2019, 11, 13), false);
    assert_eq!(lines.last().unwrap(), "Flex diff for selected period: 1.50 hours. Total flex to spend: 1.50 hours");
}

#[test]
fn days_are_grouped_in_order() {
    let rows = vec![
        entry(day(2019, 11, 12), (8, 0), (9, 0), 0),
        entry(monday(), (10, 0), (11, 0), 0),
        entry(day(2019, 11, 12), (12, 0), (13, 0), 0),
    ];
    let groups = build_map_by_date(&rows);
    assert_eq!(groups.len(), 2);
    assert_eq!(groups[0].date, monday());
    assert_eq!(groups[0].lines, vec![rows[1]]);
    assert_eq!(groups[1].date, day(2019, 11, 12));
    assert_eq!(groups[1].lines, vec![rows[0], rows[2]]);
}

#[test]
fn ledger_refuses_bad_updates() {
    let mut ledger = Ledger::new();
    let d = monday();
    assert_eq!(
        ledger.insert_time(Stamp::at(d, 17, 0).unwrap(), Stamp::at(d, 8, 0).unwrap(), 0),
        Err(LedgerError::InvalidEntry)
    );
    assert_eq!(ledger.add_daily_time_override(d, 0), Err(LedgerError::InvalidEntry));
    assert_eq!(ledger.add_flex(10, Day { days_from_ce: 0 }, None), Err(LedgerError::InvalidEntry));
    assert_eq!(ledger.stop_daily_time_override(7, d), Err(LedgerError::NotFound));
    ledger.overrides.push(DailyTimeOverrideLine { id: i32::MAX, start: d, end: None, minutes_of_work: 480 });
    assert_eq!(ledger.add_daily_time_override(d, 300), Err(LedgerError::Full));
    assert_eq!(ledger.times.len(), 0);
}

#[test]
fn entry_count_and_last_entry_look_before_now() {
    let mut ledger = Ledger::new();
    let d11 = monday();
    let d13 = day(2019, 11, 13);
    ledger.insert_time(Stamp::at(d13, 8, 0).unwrap(), Stamp::at(d13, 9, 0).unwrap(), 0).unwrap();
    ledger.insert_time(Stamp::at(d11, 8, 0).unwrap(), Stamp::at(d11, 9, 0).unwrap(), 0).unwrap();
    let now = Stamp::at(day(2019, 11, 12), 12, 0).unwrap();
    assert_eq!(ledger.get_num_time_entries(now), 1);
    assert_eq!(ledger.get_date_for_last_entry(now), Some(d11));
    let later = Stamp::at(day(2019, 11, 20), 0, 0).unwrap();
    assert_eq!(ledger.get_date_for_last_entry(later), Some(d13));
    assert_eq!(ledger.get_date_for_last_entry(Stamp::at(day(2019, 11, 1), 0, 0).unwrap()), None);
}

#[test]
fn unreported_weekdays_are_listed() {
    // Friday the 8th to Wednesday the 13th: Monday and Tuesday remain.
    let days = days_to_report(day(2019, 11, 8), day(2019, 11, 13));
    assert_eq!(days, vec![day(2019, 11, 11), day(2019, 11, 12)]);
    assert_eq!(days_to_report(day(2019, 11, 13), day(2019, 11, 13)), vec![]);
}

#[test]
fn planned_flex_and_singleton() {
    assert_eq!(planned_flex((8, 0), (17, 30), 60), 30);
    assert_eq!(singleton_vec("x".to_string()), vec!["x".to_string()]);
}

#[test]
fn entries_are_listed_in_order_of_start() {
    let mut ledger = Ledger::new();
    let d = monday();
    ledger.insert_time(Stamp::at(d, 13, 0).unwrap(), Stamp::at(d, 17, 0).unwrap(), 0).unwrap();
    ledger.insert_time(Stamp::at(d, 8, 0).unwrap(), Stamp::at(d, 12, 0).unwrap(), 30).unwrap();
    ledger.insert_time(Stamp::at(day(2019, 11, 20), 8, 0).unwrap(), Stamp::at(day(2019, 11, 20), 9, 0).unwrap(), 0).unwrap();
    let rows = ledger.list_times(d, day(2019, 11, 12));
    assert_eq!(rows.len(), 2);
    assert_eq!(rows[0].start.clock(), "08:00");
    assert_eq!(rows[1].start.clock(), "13:00");
}
