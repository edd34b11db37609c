use rusty_time_tracker::day_log::DayLog;
use rusty_time_tracker::record::{LogRecord, LogType, Timestamp};

const DAY: i64 = 19783;

fn at(day: i64, hour: i64, minute: i64) -> Timestamp {
    Timestamp { secs: day * 86400 + hour * 3600 + minute * 60 }
}

fn rec(t: Timestamp, lt: LogType) -> LogRecord {
    LogRecord { time: t, log_type: lt, add_seconds: None }
}

fn log_of(records: Vec<LogRecord>) -> DayLog {
    let mut log = DayLog::new();
    for r in records {
        log.append_record(r);
    }
    log
}

#[test]
fn save_and_reload_round_trips() {
    let records = vec![
        rec(at(DAY, 9, 0), LogType::Work),
        LogRecord { time: at(DAY, 9, 30), log_type: LogType::BreakAdd, add_seconds: Some(600) },
        LogRecord {
            time: at(DAY, 9, 45),
            log_type: LogType::BreakAdd,
            add_seconds: Some(-120),
        },
        rec(at(DAY, 10, 0), LogType::Break),
        rec(at(DAY + 31, 23, 59), LogType::Unknown),
    ];
    let log = log_of(records.clone());
    let bytes = log.to_bytes();
    let (reloaded, skipped) = DayLog::from_bytes(&bytes);
    assert_eq!(skipped, 0);
    assert_eq!(reloaded.records().clone(), records);
}

#[test]
fn rendered_bytes_are_the_expected_rows() {
    let log = log_of(vec![
        rec(at(DAY, 9, 0), LogType::Work),
        LogRecord { time: at(DAY, 10, 0), log_type: LogType::BreakAdd, add_seconds: Some(-42) },
    ]);
    let bytes = log.to_bytes();
    let text = String::from_utf8(bytes).unwrap();
    assert_eq!(
        text,
        "Time,LogType,AddSeconds\n2024-03-01T09:00:00Z,Work,\n2024-03-01T10:00:00Z,BreakAdd,-42\n"
    );
}

#[test]
fn empty_bytes_load_as_empty_log() {
    let (log, skipped) = DayLog::from_bytes(&Vec::new());
    assert_eq!(log.records().len(), 0);
    assert_eq!(skipped, 0);
}

#[test]
fn malformed_rows_are_skipped_and_counted() {
    let text = "Time,LogType,AddSeconds\n\
                2024-03-01T09:00:00Z,Work,\n\
                not a row at all\n\
                2024-03-01T09:30:00Z,Nap,\n\
                2024-03-01T10:00:00Z,Break,twelve\n\
                2024-13-01T10:00:00Z,Break,\n\
                2024-03-01T11:00:00Z,Break,\n";
    let data: Vec<u8> = text.bytes().collect();
    let (log, skipped) = DayLog::from_bytes(&data);
    assert_eq!(log.records().clone(), vec![
        rec(at(DAY, 9, 0), LogType::Work),
        rec(at(DAY, 11, 0), LogType::Break),
    ]);
    assert_eq!(skipped, 4);
}

#[test]
fn duplicate_header_rows_are_skipped_like_any_malformed_row() {
    let text = "Time,LogType,AddSeconds\n\
                2024-03-01T09:00:00Z,Work,\n\
                Time,LogType,AddSeconds\n\
                2024-03-01T10:00:00Z,Break,\n";
    let data: Vec<u8> = text.bytes().collect();
    let (log, skipped) = DayLog::from_bytes(&data);
    assert_eq!(log.records().len(), 2);
    assert_eq!(skipped, 1);
}

#[test]
fn append_payload_emits_header_only_for_the_first_record() {
    let mut log = DayLog::new();
    let first = log.append_payload(rec(at(DAY, 9, 0), LogType::Work));
    let second = log.append_payload(rec(at(DAY, 10, 0), LogType::Break));
    let first_text = String::from_utf8(first).unwrap();
    let second_text = String::from_utf8(second).unwrap();
    assert_eq!(first_text, "Time,LogType,AddSeconds\n2024-03-01T09:00:00Z,Work,\n");
    assert_eq!(second_text, "2024-03-01T10:00:00Z,Break,\n");
    assert_eq!(log.records().len(), 2);
}

#[test]
fn appended_payloads_concatenate_to_a_loadable_file() {
    let mut log = DayLog::new();
    let mut file: Vec<u8> = Vec::new();
    file.extend(log.append_payload(rec(at(DAY, 9, 0), LogType::Work)));
    file.extend(log.append_payload(rec(at(DAY, 10, 0), LogType::Break)));
    let (reloaded, skipped) = DayLog::from_bytes(&file);
    assert_eq!(skipped, 0);
    assert_eq!(reloaded.records().clone(), log.records().clone());
}

#[test]
fn rows_parse_with_the_csv_crate_and_chrono() {
    let records = vec![
        rec(at(DAY, 9, 0), LogType::Work),
        LogRecord {
            time: at(DAY + 100, 13, 37),
            log_type: LogType::BreakAdd,
            add_seconds: Some(9000),
        },
        rec(at(DAY + 100, 14, 0), LogType::Break),
    ];
    let log = log_of(records.clone());
    let bytes = log.to_bytes();
    let mut reader = csv::Reader::from_reader(&bytes[..]);
    let headers = reader.headers().unwrap().clone();
    assert_eq!(&headers[0], "Time");
    assert_eq!(&headers[1], "LogType");
    assert_eq!(&headers[2], "AddSeconds");
    let mut count = 0;
    for row in reader.records() {
        let row = row.unwrap();
        assert_eq!(row.len(), 3);
        let parsed = chrono::DateTime::parse_from_rfc3339(&row[0]).unwrap();
        assert_eq!(parsed.timestamp(), records[count].time.secs);
        let expected_type = match records[count].log_type {
            LogType::Work => "Work",
            LogType::Break => "Break",
            LogType::BreakAdd => "BreakAdd",
            LogType::Unknown => "Unknown",
        };
        assert_eq!(&row[1], expected_type);
        match records[count].add_seconds {
            Some(v) => assert_eq!(row[2].parse::<i64>().unwrap(), v),
            None => assert_eq!(&row[2], ""),
        }
        count += 1;
    }
    assert_eq!(count, records.len());
}

#[test]
fn extreme_corrections_round_trip() {
    let records = vec![
        LogRecord {
            time: at(DAY, 0, 0),
            log_type: LogType::BreakAdd,
            add_seconds: Some(i64::MAX),
        },
        LogRecord {
            time: at(DAY, 0, 1),
            log_type: LogType::BreakAdd,
            add_seconds: Some(i64::MIN),
        },
        LogRecord { time: at(DAY, 0, 2), log_type: LogType::BreakAdd, add_seconds: Some(0) },
    ];
    let log = log_of(records.clone());
    let (reloaded, skipped) = DayLog::from_bytes(&log.to_bytes());
    assert_eq!(skipped, 0);
    assert_eq!(reloaded.records().clone(), records);
}

#[test]
fn range_boundaries_round_trip() {
    let records = vec![
        rec(Timestamp { secs: 0 }, LogType::Work),
        rec(Timestamp { secs: 253402300799 }, LogType::Break),
    ];
    let log = log_of(records.clone());
    let bytes = log.to_bytes();
    let text = String::from_utf8(bytes.clone()).unwrap();
    assert!(text.contains("1970-01-01T00:00:00Z"));
    assert!(text.contains("9999-12-31T23:59:59Z"));
    let (reloaded, skipped) = DayLog::from_bytes(&bytes);
    assert_eq!(skipped, 0);
    assert_eq!(reloaded.records().clone(), records);
}

#[test]
fn fractional_second_timestamps_load_with_the_fraction_discarded() {
    let text = "Time,LogType,AddSeconds\n\
                2024-03-01T09:00:00.123Z,Work,\n\
                2024-03-01T10:00:00.999999999Z,Break,\n\
                2024-03-01T11:00:00.5Z,BreakAdd,600\n";
    let data: Vec<u8> = text.bytes().collect();
    let (log, skipped) = DayLog::from_bytes(&data);
    assert_eq!(skipped, 0);
    assert_eq!(log.records().clone(), vec![
        rec(at(DAY, 9, 0), LogType::Work),
        rec(at(DAY, 10, 0), LogType::Break),
        LogRecord { time: at(DAY, 11, 0), log_type: LogType::BreakAdd, add_seconds: Some(600) },
    ]);
}

#[test]
fn chrono_formatted_rows_load() {
    // Rows whose timestamps are rendered by chrono itself, RFC 3339 with a
    // `Z` and automatic subsecond digits, as a csv/serde writer emits them.
    let times = [
        (DAY * 86400 + 9 * 3600, 0u32),
        (DAY * 86400 + 10 * 3600, 123_000_000u32),
        (DAY * 86400 + 11 * 3600, 123_456_789u32),
    ];
    let mut text = String::from("Time,LogType,AddSeconds\n");
    for (secs, nanos) in times {
        let dt = chrono::DateTime::from_timestamp(secs, nanos).unwrap();
        text.push_str(&format!(
            "{},Work,\n",
            dt.to_rfc3339_opts(chrono::SecondsFormat::AutoSi, true)
        ));
    }
    let data: Vec<u8> = text.bytes().collect();
    let (log, skipped) = DayLog::from_bytes(&data);
    assert_eq!(skipped, 0);
    let records = log.records().clone();
    assert_eq!(records.len(), 3);
    for (i, (secs, _)) in times.iter().enumerate() {
        assert_eq!(records[i].time.secs, *secs);
        assert_eq!(records[i].log_type, LogType::Work);
    }
}

#[test]
fn broken_fraction_or_offset_timestamps_are_malformed_rows() {
    let text = "Time,LogType,AddSeconds\n\
                2024-03-01T09:00:00.Z,Work,\n\
                2024-03-01T09:00:00.12aZ,Work,\n\
                2024-03-01T09:00:00+00:00,Work,\n\
                2024-03-01T10:00:00Z,Work,\n";
    let data: Vec<u8> = text.bytes().collect();
    let (log, skipped) = DayLog::from_bytes(&data);
    assert_eq!(log.records().clone(), vec![rec(at(DAY, 10, 0), LogType::Work)]);
    assert_eq!(skipped, 3);
}

#[test]
fn out_of_range_timestamps_are_malformed_rows() {
    let text = "Time,LogType,AddSeconds\n\
                1969-12-31T23:59:59Z,Work,\n\
                2024-03-01T09:00:00Z,Work,\n";
    let data: Vec<u8> = text.bytes().collect();
    let (log, skipped) = DayLog::from_bytes(&data);
    assert_eq!(log.records().len(), 1);
    assert_eq!(skipped, 1);
}
