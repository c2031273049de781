use nptt::calendar::{Day, Stamp};
use nptt::ledger::{Ledger, LedgerError};

fn day(y: i32, m: u32, d: u32) -> Day {
    Day::from_ymd(y, m, d).unwrap()
}

fn at(d: Day, h: u32, m: u32) -> Stamp {
    Stamp::at(d, h, m).unwrap()
}

fn add_time(ledger: &mut Ledger, d: Day, start: (u32, u32), end: (u32, u32), break_minutes: i32) {
    ledger
        .insert_time(at(d, start.0, start.1), at(d, end.0, end.1), break_minutes)
        .unwrap();
}

fn add_and_list_line(ledger: &mut Ledger) {
    let d = day(2019, 11, 10);
    add_time(ledger, d, (10, 0), (19, 0), 60);
    let rows = ledger.list_times(d, day(2019, 11, 12));
    assert_eq!(rows.len(), 1);
    assert_eq!(rows[0].date, d);
    assert_eq!(rows[0].start.clock(), "10:00");
    assert_eq!(rows[0].end.clock(), "19:00");
    assert_eq!(rows[0].break_time_minutes, 60);
}

fn add_and_list_flex(ledger: &mut Ledger) {
    let d = day(2019, 11, 10);
    ledger.add_flex(30, d, Some("Some text here".to_string())).unwrap();
    let rows = ledger.list_flex(d, day(2019, 11, 12));
    assert_eq!(rows.len(), 1);
    assert_eq!(rows[0].date.to_text(), "2019-11-10");
    assert_eq!(rows[0].flex_minutes, 30);
    assert_eq!(rows[0].comment, "Some text here");
}

fn add_and_list_and_stop_daily_time_override(ledger: &mut Ledger) {
    let id = ledger.add_daily_time_override(day(2020, 2, 14), 360).unwrap();
    assert_eq!(id, 1);
    let listed = ledger.list_daily_time_overrides();
    assert_eq!(listed.len(), 1);
    assert_eq!(listed[0].start.to_text(), "2020-02-14");
    assert_eq!(listed[0].minutes_of_work, 360);
    assert_eq!(listed[0].end, None);
    assert_eq!(listed[0].id, 1);
    ledger.stop_daily_time_override(1, day(2020, 2, 15)).unwrap();
    let listed = ledger.list_daily_time_overrides();
    assert_eq!(listed[0].start.to_text(), "2020-02-14");
    assert_eq!(listed[0].minutes_of_work, 360);
    assert_eq!(listed[0].end.map(|e| e.to_text()), Some("2020-02-15".to_string()));
    assert_eq!(listed[0].id, 1);
    assert_eq!(ledger.stop_daily_time_override(2, day(2020, 2, 15)), Err(LedgerError::NotFound));
}

fn combination_of_stuff(ledger: &mut Ledger) {
    add_time(ledger, day(2019, 11, 11), (8, 0), (17, 0), 60); // +0
    add_time(ledger, day(2019, 11, 12), (8, 30), (17, 0), 60); // -30 in the period
    add_time(ledger, day(2019, 11, 13), (8, 0), (17, 0), 90); // -30 in the period
    add_time(ledger, day(2019, 11, 14), (8, 0), (17, 30), 60); // +30 in the period
    ledger.add_flex(120, day(2019, 11, 11), None).unwrap(); // +120
    ledger.add_flex(120, day(2019, 11, 12), None).unwrap(); // +120 in the period
    let from = day(2019, 11, 12);
    let to = day(2019, 11, 15);
    let lines = ledger.report(from, to, false);
    assert_eq!(lines.last().unwrap().contains("period: 1.50 hours"), true);
    assert_eq!(lines.last().unwrap().contains("spend: 3.50"), true);
    // The 13th becomes +90 and the 14th +150: four hours more.
    ledger.add_daily_time_override(day(2019, 11, 13), 360).unwrap();
    let lines = ledger.report(from, to, false);
    assert_eq!(lines.last().unwrap().contains("period: 5.50 hours"), true);
    assert_eq!(lines.last().unwrap().contains("spend: 7.50"), true);
    // The 14th goes back to +30: two hours less.
    ledger.stop_daily_time_override(1, day(2019, 11, 14)).unwrap();
    let lines = ledger.report(from, to, false);
    assert_eq!(lines.last().unwrap().contains("period: 3.50 hours"), true);
    assert_eq!(lines.last().unwrap().contains("spend: 5.50"), true);
}

#[test]
fn test_e2e() {
    let mut ledger = Ledger::new();
    add_and_list_line(&mut ledger);
    ledger.clear();
    add_and_list_flex(&mut ledger);
    ledger.clear();
    add_and_list_and_stop_daily_time_override(&mut ledger);
    ledger.clear();
    combination_of_stuff(&mut ledger);
    ledger.clear();
}
