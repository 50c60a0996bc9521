use punch::aggregate::DailyDuration;
use punch::aggregate::Status;
use punch::aggregate::current_status;
use punch::aggregate::month_cutoff;
use punch::aggregate::summary_since;
use punch::aggregate::week_cutoff;
use punch::calendar::Date;
use punch::calendar::Timestamp;
use punch::codec::Action;
use punch::log::Log;
use punch::log::ReadError;
use punch::render::format_duration;
use punch::state::punch;

fn ts(year: u16, month: u8, day: u8, hour: u8, minute: u8, second: u8) -> Timestamp {
    Timestamp { year, month, day, hour, minute, second }
}

fn date(year: u16, month: u8, day: u8) -> Date {
    Date { year, month, day }
}

fn two_day_log() -> Log {
    let mut log = Log::new();
    punch(&mut log, Action::PunchIn, &ts(2024, 1, 1, 9, 0, 0)).unwrap();
    punch(&mut log, Action::PunchOut, &ts(2024, 1, 1, 17, 0, 0)).unwrap();
    punch(&mut log, Action::PunchIn, &ts(2024, 1, 2, 9, 0, 0)).unwrap();
    punch(&mut log, Action::PunchOut, &ts(2024, 1, 2, 12, 0, 0)).unwrap();
    log
}

#[test]
fn aggregation_buckets_by_day() {
    let log = two_day_log();
    let (days, total) = summary_since(
        &log,
        &ts(2024, 1, 1, 0, 0, 0),
        &ts(2024, 1, 3, 0, 0, 0),
    )
    .unwrap();
    assert_eq!(
        days,
        vec![
            DailyDuration { date: date(2024, 1, 1), seconds: 8 * 3600 },
            DailyDuration { date: date(2024, 1, 2), seconds: 3 * 3600 },
        ]
    );
    assert_eq!(total, 11 * 3600);
}

#[test]
fn cutoff_excludes_earlier_records() {
    let log = two_day_log();
    let (days, total) = summary_since(
        &log,
        &ts(2024, 1, 2, 0, 0, 0),
        &ts(2024, 1, 3, 0, 0, 0),
    )
    .unwrap();
    assert_eq!(
        days,
        vec![DailyDuration { date: date(2024, 1, 2), seconds: 3 * 3600 }]
    );
    assert_eq!(total, 3 * 3600);
}

#[test]
fn open_session_counts_up_to_now() {
    let mut log = Log::new();
    punch(&mut log, Action::PunchIn, &ts(2024, 1, 5, 9, 0, 0)).unwrap();
    let (days, total) = summary_since(
        &log,
        &ts(2024, 1, 1, 0, 0, 0),
        &ts(2024, 1, 5, 11, 0, 0),
    )
    .unwrap();
    assert_eq!(
        days,
        vec![DailyDuration { date: date(2024, 1, 5), seconds: 2 * 3600 }]
    );
    assert_eq!(total, 2 * 3600);
}

#[test]
fn open_session_on_top_of_closed_ones() {
    let mut log = two_day_log();
    punch(&mut log, Action::PunchIn, &ts(2024, 1, 3, 8, 0, 0)).unwrap();
    let (days, total) = summary_since(
        &log,
        &ts(2024, 1, 1, 0, 0, 0),
        &ts(2024, 1, 3, 10, 30, 0),
    )
    .unwrap();
    assert_eq!(
        days,
        vec![
            DailyDuration { date: date(2024, 1, 1), seconds: 8 * 3600 },
            DailyDuration { date: date(2024, 1, 2), seconds: 3 * 3600 },
            DailyDuration { date: date(2024, 1, 3), seconds: 2 * 3600 + 30 * 60 },
        ]
    );
    assert_eq!(total, 13 * 3600 + 30 * 60);
}

#[test]
fn empty_log_summary_is_empty() {
    let log = Log::new();
    let (days, total) = summary_since(
        &log,
        &ts(2024, 1, 1, 0, 0, 0),
        &ts(2024, 1, 3, 0, 0, 0),
    )
    .unwrap();
    assert!(days.is_empty());
    assert_eq!(total, 0);
}

#[test]
fn corrupt_record_fails_the_summary() {
    let log = Log::from_bytes(b"2024-01-01T09:00:00_X\n".to_vec());
    let r = summary_since(&log, &ts(2024, 1, 1, 0, 0, 0), &ts(2024, 1, 2, 0, 0, 0));
    assert!(matches!(r, Err(ReadError::MalformedRecord(_, _))));
}

#[test]
fn current_status_reports_an_open_session() {
    let mut log = two_day_log();
    punch(&mut log, Action::PunchIn, &ts(2024, 1, 3, 8, 0, 0)).unwrap();
    let status = current_status(&log, &ts(2024, 1, 3, 9, 15, 0)).unwrap();
    assert_eq!(
        status,
        Status::PunchedIn {
            since: ts(2024, 1, 3, 8, 0, 0),
            elapsed_seconds: 3600 + 15 * 60,
        }
    );
}

#[test]
fn current_status_reports_the_last_closed_interval() {
    let log = two_day_log();
    let status = current_status(&log, &ts(2024, 1, 3, 9, 0, 0)).unwrap();
    assert_eq!(
        status,
        Status::PunchedOut {
            start: ts(2024, 1, 2, 9, 0, 0),
            end: ts(2024, 1, 2, 12, 0, 0),
            duration_seconds: 3 * 3600,
        }
    );
}

#[test]
fn current_status_needs_a_record() {
    let log = Log::new();
    assert_eq!(
        current_status(&log, &ts(2024, 1, 3, 9, 0, 0)),
        Err(ReadError::InsufficientData)
    );
}

#[test]
fn current_status_needs_two_records_after_a_punch_out() {
    let mut log = Log::new();
    punch(&mut log, Action::PunchOut, &ts(2024, 1, 1, 17, 0, 0)).unwrap();
    assert_eq!(
        current_status(&log, &ts(2024, 1, 2, 9, 0, 0)),
        Err(ReadError::InsufficientData)
    );
}

#[test]
fn week_cutoff_is_the_most_recent_monday_at_midnight() {
    // 2024-01-03 was a Wednesday; 2024-01-01 a Monday.
    assert_eq!(
        week_cutoff(&ts(2024, 1, 3, 15, 30, 45)),
        ts(2024, 1, 1, 0, 0, 0)
    );
    // A Monday maps to the same date with the time zeroed.
    assert_eq!(
        week_cutoff(&ts(2024, 1, 1, 23, 59, 59)),
        ts(2024, 1, 1, 0, 0, 0)
    );
    // A Sunday reaches back six days.
    assert_eq!(
        week_cutoff(&ts(2024, 1, 7, 1, 0, 0)),
        ts(2024, 1, 1, 0, 0, 0)
    );
    // Across a year boundary: 2021-01-01 was a Friday.
    assert_eq!(
        week_cutoff(&ts(2021, 1, 1, 12, 0, 0)),
        ts(2020, 12, 28, 0, 0, 0)
    );
}

#[test]
fn month_cutoff_is_the_first_at_midnight() {
    assert_eq!(
        month_cutoff(&ts(2024, 2, 29, 23, 59, 59)),
        ts(2024, 2, 1, 0, 0, 0)
    );
    assert_eq!(
        month_cutoff(&ts(2024, 1, 1, 0, 0, 0)),
        ts(2024, 1, 1, 0, 0, 0)
    );
}

#[test]
fn week_summary_covers_only_the_current_week() {
    // Work on Sunday 2024-01-07, then on Monday 2024-01-08: a week-to-date
    // summary taken on the Monday sees only the Monday session.
    let mut log = Log::new();
    punch(&mut log, Action::PunchIn, &ts(2024, 1, 7, 9, 0, 0)).unwrap();
    punch(&mut log, Action::PunchOut, &ts(2024, 1, 7, 10, 0, 0)).unwrap();
    punch(&mut log, Action::PunchIn, &ts(2024, 1, 8, 9, 0, 0)).unwrap();
    punch(&mut log, Action::PunchOut, &ts(2024, 1, 8, 13, 0, 0)).unwrap();
    let now = ts(2024, 1, 8, 18, 0, 0);
    let (days, total) = summary_since(&log, &week_cutoff(&now), &now).unwrap();
    assert_eq!(
        days,
        vec![DailyDuration { date: date(2024, 1, 8), seconds: 4 * 3600 }]
    );
    assert_eq!(total, 4 * 3600);
}

#[test]
fn format_duration_pads_to_two_digits() {
    assert_eq!(format_duration(8 * 3600), "08h00m");
    assert_eq!(format_duration(11 * 3600), "11h00m");
    assert_eq!(format_duration(3 * 3600 + 10 * 60), "03h10m");
    assert_eq!(format_duration(0), "00h00m");
    assert_eq!(format_duration(59), "00h00m");
    assert_eq!(format_duration(60), "00h01m");
}

#[test]
fn format_duration_grows_past_two_digits() {
    assert_eq!(format_duration(125 * 3600 + 59 * 60 + 59), "125h59m");
}
