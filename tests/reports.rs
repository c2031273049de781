use nptt::calendar::{Day, Stamp};
use nptt::records::{DateLine, FlexLine};
use nptt::report_generation::{append_string_line_or_push_new, create_csv_report, create_human_friendly_report};

fn day(y: i32, m: u32, d: u32) -> Day {
    Day::from_ymd(y, m, d).unwrap()
}

fn entry(d: Day, start: (u32, u32), end: (u32, u32), break_minutes: i32) -> DateLine {
    DateLine {
        start: Stamp::at(d, start.0, start.1).unwrap(),
        end: Stamp::at(d, end.0, end.1).unwrap(),
        break_time_minutes: break_minutes,
        date: d,
    }
}

fn data() -> (Vec<DateLine>, Vec<FlexLine>) {
    let rows = vec![
        entry(day(2019, 11, 12), (8, 30), (12, 0), 0),
        entry(day(2019, 11, 12), (13, 0), (17, 0), 0),
        entry(day(2019, 11, 13), (8, 0), (17, 0), 90),
    ];
    let flex = vec![FlexLine { date: day(2019, 11, 12), flex_minutes: 120, comment: "holiday".to_string() }];
    (rows, flex)
}

#[test]
fn csv_report_layout() {
    let (rows, flex) = data();
    let lines = create_csv_report(rows, flex, &vec![], 210);
    assert_eq!(
        lines,
        vec![
            "Date,Start,End,Break,Flex (minutes),,,Flex for period (hours),Flex total (hours)",
            "2019-11-12,08:30,12:00,0,-30,,,1.00,3.50",
            ",13:00,17:00,0,",
            "2019-11-13,08:00,17:00,90,-30,,,Date for flex,Minutes reported,Comment",
            ",,,,,,,2019-11-12,120,holiday",
        ]
    );
}

#[test]
fn csv_report_pads_when_there_are_few_rows() {
    let lines = create_csv_report(vec![], vec![], &vec![], -45);
    assert_eq!(
        lines,
        vec![
            "Date,Start,End,Break,Flex (minutes),,,Flex for period (hours),Flex total (hours)",
            ",,,,,,,0.00,-0.75",
            "",
            ",,,,,,,Date for flex,Minutes reported,Comment",
        ]
    );
}

#[test]
fn human_report_layout() {
    let (rows, flex) = data();
    let lines = create_human_friendly_report(rows, flex, &vec![], 210, day(2019, 11, 12), day(2019, 11, 14));
    assert_eq!(
        lines,
        vec![
            "Time entries from 2019-11-12 to 2019-11-14.",
            "Got -30 flex minutes from 2019-11-12:",
            "Worked from 08:30 to 12:00 with a break of 0 minutes",
            "Worked from 13:00 to 17:00 with a break of 0 minutes",
            "Got -30 flex minutes from 2019-11-13:",
            "Worked from 08:00 to 17:00 with a break of 90 minutes",
            "Manual flex entries:",
            "Registered 120 minutes of flex at 2019-11-12 with comment: 'holiday'",
            "Flex diff for selected period: 1.00 hours. Total flex to spend: 3.50 hours",
        ]
    );
}

#[test]
fn both_reports_state_the_same_figures() {
    let (rows, flex) = data();
    let csv = create_csv_report(rows.clone(), flex.clone(), &vec![], 210);
    let human = create_human_friendly_report(rows, flex, &vec![], 210, day(2019, 11, 12), day(2019, 11, 14));
    assert!(csv[1].ends_with("1.00,3.50"));
    assert!(human.last().unwrap().contains("period: 1.00 hours. Total flex to spend: 3.50 hours"));
}

#[test]
fn append_pads_or_extends() {
    let mut rows = vec!["a".to_string()];
    append_string_line_or_push_new(&mut rows, 0, "x".to_string());
    assert_eq!(rows, vec!["a,,,x"]);
    append_string_line_or_push_new(&mut rows, 2, "y".to_string());
    assert_eq!(rows, vec!["a,,,x", "", ",,,,,,,y"]);
}
