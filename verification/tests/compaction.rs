use rusty_time_tracker::aggregate::TimeWindow;
use rusty_time_tracker::day_log::DayLog;
use rusty_time_tracker::record::{LogRecord, LogType, Timestamp};

const DAY: i64 = 19783;

fn at(day: i64, hour: i64, minute: i64) -> Timestamp {
    Timestamp { secs: day * 86400 + hour * 3600 + minute * 60 }
}

fn rec(t: Timestamp, lt: LogType) -> LogRecord {
    LogRecord { time: t, log_type: lt, add_seconds: None }
}

fn log_of(records: Vec<LogRecord>) -> DayLog {
    let mut log = DayLog::new();
    for r in records {
        log.append_record(r);
    }
    log
}

#[test]
fn repeated_types_within_a_day_collapse() {
    let mut log = log_of(vec![
        rec(at(DAY, 9, 0), LogType::Work),
        rec(at(DAY, 9, 5), LogType::Work),
        rec(at(DAY, 9, 10), LogType::Work),
        rec(at(DAY, 10, 0), LogType::Break),
        rec(at(DAY, 10, 5), LogType::Break),
        rec(at(DAY, 11, 0), LogType::Work),
    ]);
    log.clean_records();
    let kept: Vec<LogRecord> = log.records().clone();
    assert_eq!(
        kept,
        vec![
            rec(at(DAY, 9, 0), LogType::Work),
            rec(at(DAY, 10, 0), LogType::Break),
            rec(at(DAY, 11, 0), LogType::Work),
        ]
    );
}

#[test]
fn compaction_sorts_by_time() {
    let mut log = log_of(vec![
        rec(at(DAY, 11, 0), LogType::Work),
        rec(at(DAY, 9, 0), LogType::Work),
        rec(at(DAY, 10, 0), LogType::Break),
    ]);
    log.clean_records();
    let kept: Vec<LogRecord> = log.records().clone();
    assert_eq!(
        kept,
        vec![
            rec(at(DAY, 9, 0), LogType::Work),
            rec(at(DAY, 10, 0), LogType::Break),
            rec(at(DAY, 11, 0), LogType::Work),
        ]
    );
}

#[test]
fn compaction_is_idempotent_on_concrete_logs() {
    let mut log = log_of(vec![
        rec(at(DAY, 9, 0), LogType::Work),
        rec(at(DAY, 9, 5), LogType::Work),
        LogRecord { time: at(DAY, 9, 30), log_type: LogType::BreakAdd, add_seconds: Some(60) },
        rec(at(DAY, 10, 0), LogType::Break),
        rec(at(DAY + 1, 9, 0), LogType::Work),
        rec(at(DAY + 1, 9, 1), LogType::Work),
    ]);
    log.clean_records();
    let once: Vec<LogRecord> = log.records().clone();
    log.clean_records();
    let twice: Vec<LogRecord> = log.records().clone();
    assert_eq!(once, twice);
}

#[test]
fn break_add_records_are_always_kept_and_update_the_tracker() {
    // Work, BreakAdd, Work: the second Work is compared against BreakAdd,
    // not against the first Work, so it survives.
    let mut log = log_of(vec![
        rec(at(DAY, 9, 0), LogType::Work),
        LogRecord { time: at(DAY, 9, 30), log_type: LogType::BreakAdd, add_seconds: Some(600) },
        rec(at(DAY, 10, 0), LogType::Work),
        rec(at(DAY, 11, 0), LogType::Break),
    ]);
    log.clean_records();
    let kept: Vec<LogRecord> = log.records().clone();
    assert_eq!(kept.len(), 4);
    assert_eq!(kept[2], rec(at(DAY, 10, 0), LogType::Work));
}

#[test]
fn last_record_of_a_day_survives_even_as_a_repeat() {
    let mut log = log_of(vec![
        rec(at(DAY, 9, 0), LogType::Work),
        rec(at(DAY, 17, 0), LogType::Work),
    ]);
    log.clean_records();
    let kept: Vec<LogRecord> = log.records().clone();
    assert_eq!(
        kept,
        vec![rec(at(DAY, 9, 0), LogType::Work), rec(at(DAY, 17, 0), LogType::Work)]
    );
}

#[test]
fn day_groups_reset_the_tracker() {
    // The first Work of a new day survives although the previous day ended
    // in Work.
    let mut log = log_of(vec![
        rec(at(DAY, 9, 0), LogType::Work),
        rec(at(DAY + 1, 9, 0), LogType::Work),
        rec(at(DAY + 1, 10, 0), LogType::Work),
        rec(at(DAY + 1, 11, 0), LogType::Break),
    ]);
    log.clean_records();
    let kept: Vec<LogRecord> = log.records().clone();
    assert_eq!(
        kept,
        vec![
            rec(at(DAY, 9, 0), LogType::Work),
            rec(at(DAY + 1, 9, 0), LogType::Work),
            rec(at(DAY + 1, 11, 0), LogType::Break),
        ]
    );
}

#[test]
fn adjacent_days_of_different_months_stay_distinct() {
    // 2024-02-29 and 2024-03-01: a full calendar-date key keeps these apart.
    let feb29: i64 = DAY - 1;
    let mut log = log_of(vec![
        rec(at(feb29, 9, 0), LogType::Work),
        rec(at(DAY, 9, 0), LogType::Work),
        rec(at(DAY, 10, 0), LogType::Work),
        rec(at(DAY, 11, 0), LogType::Break),
    ]);
    log.clean_records();
    let kept: Vec<LogRecord> = log.records().clone();
    assert_eq!(kept.len(), 3);
    assert_eq!(kept[0], rec(at(feb29, 9, 0), LogType::Work));
    assert_eq!(kept[1], rec(at(DAY, 9, 0), LogType::Work));
}

#[test]
fn compaction_does_not_change_aggregates() {
    // A noisy, time-ordered log over two days: duplicates, corrections and
    // sentinels. Compaction must not move any window's total.
    let mut log = log_of(vec![
        rec(at(DAY, 8, 0), LogType::Unknown),
        rec(at(DAY, 9, 0), LogType::Work),
        rec(at(DAY, 9, 10), LogType::Work),
        LogRecord { time: at(DAY, 9, 30), log_type: LogType::BreakAdd, add_seconds: Some(300) },
        rec(at(DAY, 10, 0), LogType::Break),
        rec(at(DAY, 10, 5), LogType::Break),
        rec(at(DAY, 11, 0), LogType::Work),
        rec(at(DAY + 1, 9, 0), LogType::Work),
        rec(at(DAY + 1, 9, 30), LogType::Work),
    ]);
    let now = at(DAY + 1, 10, 0);
    let windows = [
        TimeWindow::All,
        TimeWindow::day_of(at(DAY, 0, 0)),
        TimeWindow::day_of(at(DAY + 1, 0, 0)),
        TimeWindow::week_of(at(DAY, 0, 0)),
    ];
    let before: Vec<i64> = windows.iter().map(|w| log.aggregate_seconds(*w, now)).collect();
    log.clean_records();
    let after: Vec<i64> = windows.iter().map(|w| log.aggregate_seconds(*w, now)).collect();
    assert_eq!(before, after);
    // The first day's total: 09:00 to 10:00, less the correction, plus the
    // interval opened at 11:00 and still open at the reference time.
    assert_eq!(before[1], 3600 - 300 + (now.secs - at(DAY, 11, 0).secs));
}

#[test]
fn unknown_first_record_is_dropped_unless_last_of_day() {
    // The tracker starts at Unknown, so a leading Unknown record matches it
    // and is dropped when something follows in the same day.
    let mut log = log_of(vec![
        rec(at(DAY, 8, 0), LogType::Unknown),
        rec(at(DAY, 9, 0), LogType::Work),
    ]);
    log.clean_records();
    let kept: Vec<LogRecord> = log.records().clone();
    assert_eq!(kept, vec![rec(at(DAY, 9, 0), LogType::Work)]);
}
