use chrono::Datelike;
use rusty_time_tracker::aggregate::TimeWindow;
use rusty_time_tracker::day_log::DayLog;
use rusty_time_tracker::record::{LogRecord, LogType, Timestamp};

const DAY: i64 = 19783; // 2024-03-01
const HOUR: i64 = 3600;

fn at(day: i64, hour: i64, minute: i64) -> Timestamp {
    Timestamp { secs: day * 86400 + hour * HOUR + minute * 60 }
}

fn rec(t: Timestamp, lt: LogType) -> LogRecord {
    LogRecord { time: t, log_type: lt, add_seconds: None }
}

fn log_of(records: Vec<LogRecord>) -> DayLog {
    let mut log = DayLog::new();
    for r in records {
        log.append_record(r);
    }
    log
}

#[test]
fn work_break_work_counts_closed_and_open_intervals() {
    // [Work@09:00, Break@10:00, Work@11:00] at now 12:00 -> 2 hours.
    let log = log_of(vec![
        rec(at(DAY, 9, 0), LogType::Work),
        rec(at(DAY, 10, 0), LogType::Break),
        rec(at(DAY, 11, 0), LogType::Work),
    ]);
    let now = at(DAY, 12, 0);
    assert_eq!(log.aggregate_seconds(TimeWindow::All, now), 7200);
    assert_eq!(log.aggregate_seconds(TimeWindow::day_of(now), now), 7200);
}

#[test]
fn break_add_subtracts_from_closed_interval() {
    // [Work@09:00, BreakAdd{600}@09:30, Break@10:00] -> 3600 - 600.
    let log = log_of(vec![
        rec(at(DAY, 9, 0), LogType::Work),
        LogRecord {
            time: at(DAY, 9, 30),
            log_type: LogType::BreakAdd,
            add_seconds: Some(600),
        },
        rec(at(DAY, 10, 0), LogType::Break),
    ]);
    let now = at(DAY, 23, 0);
    assert_eq!(log.aggregate_seconds(TimeWindow::All, now), 3000);
}

#[test]
fn empty_window_yields_zero_whatever_now_is() {
    let log = log_of(vec![
        rec(at(DAY, 9, 0), LogType::Work),
        rec(at(DAY, 10, 0), LogType::Break),
    ]);
    // A window over a day none of the records belongs to.
    let other_day = TimeWindow::day_of(at(DAY + 3, 0, 0));
    assert_eq!(log.aggregate_seconds(other_day, at(DAY, 12, 0)), 0);
    assert_eq!(log.aggregate_seconds(other_day, at(DAY + 40, 1, 2)), 0);
}

#[test]
fn unclosed_interval_counts_up_to_now() {
    // [Work@09:00] at now 09:10 -> 600 seconds.
    let log = log_of(vec![rec(at(DAY, 9, 0), LogType::Work)]);
    assert_eq!(log.aggregate_seconds(TimeWindow::All, at(DAY, 9, 10)), 600);
}

#[test]
fn break_add_without_value_is_a_no_op() {
    let log = log_of(vec![
        rec(at(DAY, 9, 0), LogType::Work),
        LogRecord { time: at(DAY, 9, 30), log_type: LogType::BreakAdd, add_seconds: None },
        rec(at(DAY, 10, 0), LogType::Break),
    ]);
    assert_eq!(log.aggregate_seconds(TimeWindow::All, at(DAY, 20, 0)), 3600);
}

#[test]
fn unknown_records_are_ignored() {
    let log = log_of(vec![
        rec(at(DAY, 9, 0), LogType::Work),
        rec(at(DAY, 9, 30), LogType::Unknown),
        rec(at(DAY, 10, 0), LogType::Break),
    ]);
    assert_eq!(log.aggregate_seconds(TimeWindow::All, at(DAY, 20, 0)), 3600);
}

#[test]
fn duplicate_work_closes_previous_interval() {
    // A second Work closes the first interval and opens its own.
    let log = log_of(vec![
        rec(at(DAY, 9, 0), LogType::Work),
        rec(at(DAY, 9, 20), LogType::Work),
        rec(at(DAY, 9, 50), LogType::Break),
    ]);
    assert_eq!(log.aggregate_seconds(TimeWindow::All, at(DAY, 20, 0)), 3000);
}

#[test]
fn negative_total_is_returned_not_clamped() {
    // A lone correction makes the running total negative; the engine must
    // return it rather than fail.
    let log = log_of(vec![LogRecord {
        time: at(DAY, 9, 0),
        log_type: LogType::BreakAdd,
        add_seconds: Some(500),
    }]);
    assert_eq!(log.aggregate_seconds(TimeWindow::All, at(DAY, 10, 0)), -500);
}

#[test]
fn week_window_selects_whole_week() {
    // DAY is a Friday (2024-03-01); DAY+2 the following Sunday stays in the
    // same ISO week, DAY+3 the next Monday does not.
    let friday = rec(at(DAY, 9, 0), LogType::Work);
    let friday_end = rec(at(DAY, 10, 0), LogType::Break);
    let sunday = rec(at(DAY + 2, 9, 0), LogType::Work);
    let sunday_end = rec(at(DAY + 2, 9, 30), LogType::Break);
    let monday = rec(at(DAY + 3, 9, 0), LogType::Work);
    let monday_end = rec(at(DAY + 3, 9, 10), LogType::Break);
    let log = log_of(vec![friday, friday_end, sunday, sunday_end, monday, monday_end]);
    let week_of_friday = TimeWindow::week_of(at(DAY, 23, 0));
    assert_eq!(log.aggregate_seconds(week_of_friday, at(DAY + 3, 23, 0)), 3600 + 1800);
    let week_of_monday = TimeWindow::week_of(at(DAY + 3, 0, 0));
    assert_eq!(log.aggregate_seconds(week_of_monday, at(DAY + 3, 23, 0)), 600);
}

#[test]
fn day_and_week_keys_agree_with_chrono() {
    let samples = [
        "1970-01-01T00:00:00Z",
        "1999-12-31T23:59:59Z",
        "2024-02-29T12:00:00Z",
        "2024-03-01T09:00:00Z",
        "2024-03-03T23:59:59Z",
        "2024-03-04T00:00:00Z",
        "2024-12-30T08:00:00Z",
        "2025-01-01T00:00:00Z",
    ];
    for a in samples {
        for b in samples {
            let da = chrono::DateTime::parse_from_rfc3339(a).unwrap();
            let db = chrono::DateTime::parse_from_rfc3339(b).unwrap();
            let ta = Timestamp { secs: da.timestamp() };
            let tb = Timestamp { secs: db.timestamp() };
            assert_eq!(
                ta.day_number() == tb.day_number(),
                da.num_days_from_ce() == db.num_days_from_ce(),
                "day key disagreement for {a} / {b}"
            );
            assert_eq!(
                ta.week_number() == tb.week_number(),
                da.iso_week() == db.iso_week(),
                "week key disagreement for {a} / {b}"
            );
        }
    }
}
