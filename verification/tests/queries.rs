use rusty_time_tracker::clock::now_timestamp;
use rusty_time_tracker::day_log::{stale_work_break, DayLog};
use rusty_time_tracker::record::{LogRecord, LogType, Timestamp, TIMESTAMP_LIMIT};

const DAY: i64 = 19783;

fn at(day: i64, hour: i64, minute: i64) -> Timestamp {
    Timestamp { secs: day * 86400 + hour * 3600 + minute * 60 }
}

fn rec(t: Timestamp, lt: LogType) -> LogRecord {
    LogRecord { time: t, log_type: lt, add_seconds: None }
}

fn log_of(records: Vec<LogRecord>) -> DayLog {
    let mut log = DayLog::new();
    for r in records {
        log.append_record(r);
    }
    log
}

#[test]
fn last_log_with_empty_filter_returns_latest_record() {
    let log = log_of(vec![
        rec(at(DAY, 9, 0), LogType::Work),
        rec(at(DAY, 10, 0), LogType::Break),
    ]);
    assert_eq!(log.last_log(vec![]), Some(rec(at(DAY, 10, 0), LogType::Break)));
}

#[test]
fn last_log_with_type_filter_returns_latest_match() {
    let log = log_of(vec![
        rec(at(DAY, 9, 0), LogType::Work),
        rec(at(DAY, 10, 0), LogType::Break),
    ]);
    assert_eq!(
        log.last_log(vec![LogType::Work]),
        Some(rec(at(DAY, 9, 0), LogType::Work))
    );
}

#[test]
fn last_log_without_match_returns_none() {
    let log = log_of(vec![
        rec(at(DAY, 9, 0), LogType::Work),
        rec(at(DAY, 10, 0), LogType::Break),
    ]);
    assert_eq!(log.last_log(vec![LogType::BreakAdd]), None);
}

#[test]
fn last_log_resolves_time_ties_to_the_later_record() {
    let tied = at(DAY, 10, 0);
    let log = log_of(vec![
        rec(tied, LogType::Work),
        rec(tied, LogType::Break),
    ]);
    assert_eq!(log.last_log(vec![]), Some(rec(tied, LogType::Break)));
}

#[test]
fn last_log_ignores_insertion_order() {
    let log = log_of(vec![
        rec(at(DAY, 11, 0), LogType::Work),
        rec(at(DAY, 9, 0), LogType::Work),
    ]);
    assert_eq!(log.last_log(vec![]), Some(rec(at(DAY, 11, 0), LogType::Work)));
}

#[test]
fn stale_work_gets_a_synthesized_break() {
    let last = rec(at(DAY, 9, 0), LogType::Work);
    let now = at(DAY, 10, 0);
    assert_eq!(
        stale_work_break(Some(last), now),
        Some(rec(at(DAY, 9, 1), LogType::Break))
    );
}

#[test]
fn recent_work_gets_no_synthesized_break() {
    let last = rec(at(DAY, 9, 0), LogType::Work);
    let now = at(DAY, 9, 30);
    assert_eq!(stale_work_break(Some(last), now), None);
}

#[test]
fn closed_session_gets_no_synthesized_break() {
    let last = rec(at(DAY, 9, 0), LogType::Break);
    let now = at(DAY, 12, 0);
    assert_eq!(stale_work_break(Some(last), now), None);
    assert_eq!(stale_work_break(None, now), None);
}

#[test]
fn work_of_an_earlier_day_gets_no_synthesized_break() {
    let last = rec(at(DAY, 23, 0), LogType::Work);
    let now = at(DAY + 1, 8, 0);
    assert_eq!(stale_work_break(Some(last), now), None);
}

#[test]
fn the_clock_reads_a_representable_time() {
    let now = now_timestamp();
    assert!(0 <= now.secs && now.secs < TIMESTAMP_LIMIT);
    // Any machine running this test lives between 2020 and 9999.
    assert!(now.secs > 1577836800);
}

#[test]
fn clock_based_sums_of_an_empty_log_are_zero() {
    let log = DayLog::new();
    assert_eq!(log.get_today_working_seconds_sum(), 0);
    assert_eq!(log.tmp_get_week_working_seconds_without_today_sum(), 0);
}

#[test]
fn clock_based_sum_counts_an_open_interval_of_the_current_day() {
    let now = now_timestamp();
    let mut log = DayLog::new();
    // A work interval opened ten minutes ago and still open; started at
    // 00:10 at the earliest so that it stays within the current day.
    if now.secs % 86400 >= 600 {
        log.append_record(LogRecord {
            time: Timestamp { secs: now.secs - 600 },
            log_type: LogType::Work,
            add_seconds: None,
        });
        let sum = log.get_today_working_seconds_sum();
        assert!((600..700).contains(&sum), "unexpected sum {sum}");
    }
}
