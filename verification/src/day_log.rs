//! The log store: the ordered record sequence of one tracking period, with
//! loading, saving and appending expressed over the byte form of its backing
//! file (the caller moves those bytes to and from disk), compaction, the
//! last-event query, and the aggregation entry points.

use vstd::prelude::*;
use crate::aggregate::{aggregate, aggregate_spec, clamp_i64, TimeWindow};
use crate::clock::now_timestamp;
use crate::codec::{
    file_repr, header_line, parse_file_records, parse_file_skipped, parse_record, parsed_from,
    push_header, push_row, row_repr, skipped_from, split_lines, split_lines_vec,
};
use crate::compact::{compact_log, compact_records};
use crate::record::{records_wf, LogRecord, LogType, Timestamp};

verus! {

/// Whether a record passes the type filter: an empty filter admits every
/// record.
pub open spec fn matches_filter(r: LogRecord, filter: Seq<LogType>) -> bool {
    filter.len() == 0 || filter.contains(r.log_type)
}

/// The record `last_log` returns: the latest matching record, later
/// occurrences winning ties in `time`.
pub open spec fn last_log_spec(s: Seq<LogRecord>, filter: Seq<LogType>) -> Option<LogRecord>
    decreases s.len(),
{
    if s.len() == 0 {
        Option::None
    } else {
        let prev = last_log_spec(s.drop_last(), filter);
        if matches_filter(s.last(), filter) {
            match prev {
                Option::None => Option::Some(s.last()),
                Option::Some(b) => if s.last().time.secs >= b.time.secs {
                    Option::Some(s.last())
                } else {
                    Option::Some(b)
                },
            }
        } else {
            prev
        }
    }
}

/// What `last_log` promises: `None` exactly when nothing matches, and
/// otherwise a matching record of maximal time.
pub proof fn lemma_last_log_props(s: Seq<LogRecord>, filter: Seq<LogType>)
    ensures
        last_log_spec(s, filter) is None <==> (forall|i: int|
            0 <= i < s.len() ==> !matches_filter(#[trigger] s[i], filter)),
        last_log_spec(s, filter) matches Some(b) ==> s.contains(b) && matches_filter(b, filter)
            && (forall|i: int|
            0 <= i < s.len() && matches_filter(#[trigger] s[i], filter) ==> s[i].time.secs
                <= b.time.secs),
    decreases s.len(),
{
    if s.len() > 0 {
        lemma_last_log_props(s.drop_last(), filter);
        let dl = s.drop_last();
        assert(s[s.len() - 1] == s.last());
        if last_log_spec(s, filter) is None {
            assert forall|i: int|
                0 <= i < s.len() implies !matches_filter(#[trigger] s[i], filter) by {
                if i < s.len() - 1 {
                    assert(s[i] == dl[i]);
                    assert(!matches_filter(dl[i], filter));
                }
            }
        }
        if forall|i: int| 0 <= i < s.len() ==> !matches_filter(#[trigger] s[i], filter) {
            assert forall|i: int|
                0 <= i < dl.len() implies !matches_filter(#[trigger] dl[i], filter) by {
                assert(dl[i] == s[i]);
                assert(!matches_filter(s[i], filter));
            }
            assert(!matches_filter(s[s.len() - 1], filter));
            assert(last_log_spec(s, filter) is None);
        }
        match last_log_spec(s, filter) {
            Option::Some(b) => {
                if b != s.last() {
                    assert(dl.contains(b));
                    let i = choose|i: int| 0 <= i < dl.len() && dl[i] == b;
                    assert(s[i] == b);
                } else {
                    assert(s[s.len() - 1] == b);
                }
                assert forall|i: int|
                    0 <= i < s.len() && matches_filter(#[trigger] s[i], filter) implies s[
                    i].time.secs <= b.time.secs by {
                    if i < s.len() - 1 {
                        assert(s[i] == dl[i]);
                        assert(matches_filter(dl[i], filter));
                        match last_log_spec(dl, filter) {
                            Option::Some(pb) => {
                                assert(dl[i].time.secs <= pb.time.secs);
                            },
                            Option::None => {
                                assert(!matches_filter(dl[i], filter));
                            },
                        }
                    }
                }
            },
            Option::None => {},
        }
    }
}

/// The ordered record sequence of one tracking period. The backing file
/// itself stays with the caller: the store turns records into file bytes and
/// file bytes into records.
pub struct DayLog {
    records: Vec<LogRecord>,
}

impl View for DayLog {
    type V = Seq<LogRecord>;

    closed spec fn view(&self) -> Seq<LogRecord> {
        self.records@
    }
}

impl DayLog {
    /// Every record of the log lies in the representable time range.
    pub open spec fn wf(&self) -> bool {
        records_wf(self@)
    }

    pub fn new() -> (log: Self)
        ensures
            log@ == Seq::<LogRecord>::empty(),
            log.wf(),
    {
        DayLog { records: Vec::new() }
    }

    pub fn records(&self) -> (r: &Vec<LogRecord>)
        ensures
            r@ == self@,
    {
        &self.records
    }

    /// Load a log from the bytes of its backing file: the first line is the
    /// header, every later line that fits the row grammar is a record, and
    /// the count of skipped lines is reported alongside. The bytes of an
    /// absent file are the empty sequence, which yields an empty log.
    pub fn from_bytes(data: &Vec<u8>) -> (r: (Self, usize))
        ensures
            r.0@ == parse_file_records(data@),
            r.1 == parse_file_skipped(data@),
            r.0.wf(),
    {
        let lines = split_lines_vec(data);
        let ghost ls = split_lines(data@);
        let mut records: Vec<LogRecord> = Vec::new();
        let mut skipped: usize = 0;
        let n = lines.len();
        let mut i: usize = 1;
        proof {
            assert(records@ + parsed_from(ls, 1) =~= parsed_from(ls, 1));
        }
        while i < n
            invariant
                1 <= i <= n || (n == 0 && i == 1),
                n == ls.len(),
                n == lines@.len(),
                forall|k: int| 0 <= k < n ==> #[trigger] lines@[k]@ == ls[k],
                records@ + parsed_from(ls, i as int) == parsed_from(ls, 1),
                records_wf(records@),
                skipped as int + skipped_from(ls, i as int) == skipped_from(ls, 1),
                skipped < i,
            decreases n - i,
        {
            let line = &lines[i];
            proof {
                assert(lines@[i as int]@ == ls[i as int]);
            }
            match parse_record(line) {
                Some(rec) => {
                    proof {
                        assert(records@.push(rec) + parsed_from(ls, i as int + 1)
                            =~= records@ + parsed_from(ls, i as int));
                    }
                    records.push(rec);
                },
                None => {
                    skipped = skipped + 1;
                },
            }
            i = i + 1;
        }
        proof {
            assert(parsed_from(ls, n as int).len() == 0);
            assert(records@ + parsed_from(ls, n as int) =~= records@);
            if n == 0 {
                assert(parsed_from(ls, 1).len() == 0);
                assert(records@ =~= parsed_from(ls, 1));
            }
        }
        (DayLog { records }, skipped)
    }

    /// Save: the full rewrite of the backing file, a header row and one row
    /// per record in order.
    pub fn to_bytes(&self) -> (out: Vec<u8>)
        requires
            self.wf(),
        ensures
            out@ == file_repr(self@),
    {
        let mut out: Vec<u8> = Vec::new();
        push_header(&mut out);
        let n = self.records.len();
        let mut i: usize = 0;
        proof {
            assert(out@ + crate::codec::rows_from(self@, 0) =~= file_repr(self@));
        }
        while i < n
            invariant
                n == self@.len(),
                i <= n,
                records_wf(self@),
                out@ + crate::codec::rows_from(self@, i as int) == file_repr(self@),
            decreases n - i,
        {
            proof {
                assert(self@[i as int].wf());
            }
            let ghost prev = out@;
            push_row(&mut out, self.records[i]);
            proof {
                assert(out@ + crate::codec::rows_from(self@, i as int + 1) =~= prev
                    + crate::codec::rows_from(self@, i as int));
            }
            i = i + 1;
        }
        proof {
            assert(crate::codec::rows_from(self@, n as int).len() == 0);
            assert(out@ + crate::codec::rows_from(self@, n as int) =~= out@);
        }
        out
    }

    /// Append one record to the in-memory sequence.
    pub fn append_record(&mut self, log_record: LogRecord)
        requires
            old(self).wf(),
            log_record.wf(),
        ensures
            final(self)@ == old(self)@.push(log_record),
            final(self).wf(),
    {
        self.records.push(log_record);
    }

    /// Append one record and return the bytes to write at the end of the
    /// backing file: a header first exactly when the in-memory sequence was
    /// empty before this append (so a file that already has rows receives a
    /// second header if the log was loaded empty — the deliberate contract
    /// of appending).
    pub fn append_payload(&mut self, log_record: LogRecord) -> (out: Vec<u8>)
        requires
            old(self).wf(),
            log_record.wf(),
        ensures
            final(self)@ == old(self)@.push(log_record),
            final(self).wf(),
            out@ == (if old(self)@.len() == 0 {
                header_line() + seq![10u8]
            } else {
                Seq::<u8>::empty()
            }) + row_repr(log_record) + seq![10u8],
    {
        let mut out: Vec<u8> = Vec::new();
        if self.records.len() == 0 {
            push_header(&mut out);
        }
        push_row(&mut out, log_record);
        self.records.push(log_record);
        proof {
            assert(out@ =~= (if old(self)@.len() == 0 {
                header_line() + seq![10u8]
            } else {
                Seq::<u8>::empty()
            }) + row_repr(log_record) + seq![10u8]);
        }
        out
    }

    /// Compact the sequence: sort by time and keep, within each day group,
    /// only the records that carry state-transition information, every
    /// correction, and each day's last record.
    pub fn clean_records(&mut self)
        requires
            old(self).wf(),
        ensures
            final(self)@ == compact_log(old(self)@),
            final(self).wf(),
    {
        let cleaned = compact_records(&self.records);
        self.records = cleaned;
    }

    /// The record with the greatest time among those whose type is in the
    /// filter (an empty filter admits all); later records win ties.
    pub fn last_log(&self, type_filter: Vec<LogType>) -> (r: Option<LogRecord>)
        ensures
            r == last_log_spec(self@, type_filter@),
    {
        let mut best: Option<LogRecord> = None;
        let n = self.records.len();
        let mut i: usize = 0;
        while i < n
            invariant
                n == self@.len(),
                i <= n,
                best == last_log_spec(self@.take(i as int), type_filter@),
            decreases n - i,
        {
            let r = self.records[i];
            proof {
                assert(self@.take(i as int + 1).drop_last() =~= self@.take(i as int));
                assert(self@.take(i as int + 1).last() == self@[i as int]);
            }
            if filter_admits(&type_filter, r.log_type) {
                match best {
                    Some(b) => {
                        if r.time.secs >= b.time.secs {
                            best = Some(r);
                        }
                    },
                    None => {
                        best = Some(r);
                    },
                }
            }
            i = i + 1;
        }
        proof {
            assert(self@.take(n as int) =~= self@);
        }
        best
    }

    /// Total active-work seconds of the records inside the window, as of
    /// `now`.
    pub fn aggregate_seconds(&self, window: TimeWindow, now: Timestamp) -> (r: i64)
        requires
            self.wf(),
            now.wf(),
        ensures
            r as int == clamp_i64(aggregate_spec(self@, window, now.secs as int)),
    {
        aggregate(&self.records, window, now)
    }

    /// Seconds worked on the current calendar day, up to the moment of the
    /// call.
    pub fn get_today_working_seconds_sum(&self) -> (r: i64)
        requires
            self.wf(),
        ensures
            exists|now: Timestamp|
                now.wf() && r as int == clamp_i64(
                    #[trigger] aggregate_spec(
                        self@,
                        TimeWindow::SameDay { day: now.day_number_spec() as i64 },
                        now.secs as int,
                    ),
                ),
    {
        let now = now_timestamp();
        let r = self.aggregate_seconds(TimeWindow::day_of(now), now);
        proof {
            assert(r as int == clamp_i64(
                aggregate_spec(
                    self@,
                    TimeWindow::SameDay { day: now.day_number_spec() as i64 },
                    now.secs as int,
                ),
            ));
        }
        r
    }

    /// Seconds worked in the current week, up to the moment of the call.
    /// The name is the historical one: the window covers the whole week,
    /// today included.
    pub fn tmp_get_week_working_seconds_without_today_sum(&self) -> (r: i64)
        requires
            self.wf(),
        ensures
            exists|now: Timestamp|
                now.wf() && r as int == clamp_i64(
                    #[trigger] aggregate_spec(
                        self@,
                        TimeWindow::SameWeek { week: now.week_number_spec() as i64 },
                        now.secs as int,
                    ),
                ),
    {
        let now = now_timestamp();
        let r = self.aggregate_seconds(TimeWindow::week_of(now), now);
        proof {
            assert(r as int == clamp_i64(
                aggregate_spec(
                    self@,
                    TimeWindow::SameWeek { week: now.week_number_spec() as i64 },
                    now.secs as int,
                ),
            ));
        }
        r
    }
}

/// Whether the filter admits the type: an empty filter admits everything.
fn filter_admits(filter: &Vec<LogType>, t: LogType) -> (b: bool)
    ensures
        b == (filter@.len() == 0 || filter@.contains(t)),
{
    let n = filter.len();
    if n == 0 {
        return true;
    }
    let mut i: usize = 0;
    while i < n
        invariant
            n == filter@.len(),
            i <= n,
            forall|k: int| 0 <= k < i ==> filter@[k] != t,
        decreases n - i,
    {
        if filter[i] == t {
            return true;
        }
        i = i + 1;
    }
    false
}

/// The synthesized break of the bootstrap sequence: when the last
/// work-or-break event is a `Work` on the same calendar day as `now` and
/// more than thirty minutes old, the session went idle and a `Break` dated
/// one minute after that `Work` is owed; otherwise nothing is.
pub open spec fn stale_work_break_spec(last: Option<LogRecord>, now: Timestamp) -> Option<
    LogRecord,
> {
    match last {
        Option::Some(l) => if l.log_type == LogType::Work && l.time.day_number_spec()
            == now.day_number_spec() && now.secs - l.time.secs > 1800 {
            Option::Some(
                LogRecord {
                    time: Timestamp { secs: (l.time.secs + 60) as i64 },
                    log_type: LogType::Break,
                    add_seconds: Option::None,
                },
            )
        } else {
            Option::None
        },
        Option::None => Option::None,
    }
}

/// Decide whether a break must be synthesized after an idle session.
pub fn stale_work_break(last: Option<LogRecord>, now: Timestamp) -> (r: Option<LogRecord>)
    requires
        last matches Some(l) ==> l.wf(),
        now.wf(),
    ensures
        r == stale_work_break_spec(last, now),
        r matches Some(b) ==> b.wf(),
{
    match last {
        Some(l) => {
            if l.log_type == LogType::Work && l.time.day_number() == now.day_number()
                && now.secs - l.time.secs > 1800 {
                Some(
                    LogRecord {
                        time: Timestamp { secs: l.time.secs + 60 },
                        log_type: LogType::Break,
                        add_seconds: None,
                    },
                )
            } else {
                None
            }
        },
        None => None,
    }
}

} // verus!
