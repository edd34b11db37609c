//! The aggregation engine: one pass over a time-ordered record sequence
//! that turns state-change events into a total of active-work seconds.
//!
//! The pass is implemented once, parameterized by the window predicate that
//! selects the records and by the reference "now" that closes a still-open
//! work interval; every reporting window (day, week, everything) reuses it.

use vstd::prelude::*;
use crate::record::{records_wf, LogRecord, LogType, Timestamp, TIMESTAMP_LIMIT};

verus! {

/// A caller-supplied time window: which records count toward an aggregate.
#[derive(Clone, Copy, Debug, PartialEq, Eq, Structural)]
pub enum TimeWindow {
    /// Every record.
    All,
    /// The records of one calendar day, keyed as in `Timestamp::day_number`.
    SameDay { day: i64 },
    /// The records of one Monday-started week, keyed as in
    /// `Timestamp::week_number`.
    SameWeek { week: i64 },
}

impl TimeWindow {
    pub open spec fn matches_spec(self, t: Timestamp) -> bool {
        match self {
            TimeWindow::All => true,
            TimeWindow::SameDay { day } => t.day_number_spec() == day,
            TimeWindow::SameWeek { week } => t.week_number_spec() == week,
        }
    }

    pub fn matches(self, t: Timestamp) -> (r: bool)
        requires
            t.wf(),
        ensures
            r == self.matches_spec(t),
    {
        match self {
            TimeWindow::All => true,
            TimeWindow::SameDay { day } => t.day_number() == day,
            TimeWindow::SameWeek { week } => t.week_number() == week,
        }
    }

    /// The window of the calendar day containing `t`.
    pub fn day_of(t: Timestamp) -> (w: TimeWindow)
        requires
            t.wf(),
        ensures
            w == (TimeWindow::SameDay { day: t.day_number_spec() as i64 }),
    {
        TimeWindow::SameDay { day: t.day_number() }
    }

    /// The window of the week containing `t`.
    pub fn week_of(t: Timestamp) -> (w: TimeWindow)
        requires
            t.wf(),
        ensures
            w == (TimeWindow::SameWeek { week: t.week_number_spec() as i64 }),
    {
        TimeWindow::SameWeek { week: t.week_number() }
    }
}

/// The records of `s` selected by the window, in order.
pub open spec fn filter_window(w: TimeWindow, s: Seq<LogRecord>) -> Seq<LogRecord>
    decreases s.len(),
{
    if s.len() == 0 {
        s
    } else {
        let rest = filter_window(w, s.drop_last());
        if w.matches_spec(s.last().time) {
            rest.push(s.last())
        } else {
            rest
        }
    }
}

/// Seconds a closing event adds: the span since the open work start, zero if
/// no interval is open.
pub open spec fn close_amount(open_start: Option<int>, t: int) -> int {
    match open_start {
        Option::Some(st) => t - st,
        Option::None => 0,
    }
}

/// The start of the work interval still open after the first `i` records:
/// the last `Work` not followed by a `Break`.
pub open spec fn agg_open(s: Seq<LogRecord>, i: int) -> Option<int>
    decreases i,
{
    if i <= 0 {
        Option::None
    } else {
        match s[i - 1].log_type {
            LogType::Work => Option::Some(s[i - 1].time.secs as int),
            LogType::Break => Option::None,
            _ => agg_open(s, i - 1),
        }
    }
}

/// The signed running total after the first `i` records: `Break` and `Work`
/// close a previously opened interval, `BreakAdd` subtracts its correction,
/// `Unknown` is ignored.
pub open spec fn agg_sum(s: Seq<LogRecord>, i: int) -> int
    decreases i,
{
    if i <= 0 {
        0
    } else {
        let r = s[i - 1];
        let prev = agg_sum(s, i - 1);
        match r.log_type {
            LogType::BreakAdd => prev - (match r.add_seconds {
                Option::Some(a) => a as int,
                Option::None => 0,
            }),
            LogType::Break => prev + close_amount(agg_open(s, i - 1), r.time.secs as int),
            LogType::Work => prev + close_amount(agg_open(s, i - 1), r.time.secs as int),
            LogType::Unknown => prev,
        }
    }
}

/// Total active-work seconds of an already filtered sequence, as of `now`:
/// the running total, plus the span from a still-open work start to `now`.
pub open spec fn aggregate_records_spec(s: Seq<LogRecord>, now: int) -> int {
    agg_sum(s, s.len() as int) + close_amount(agg_open(s, s.len() as int), now)
}

/// Total active-work seconds of the records selected by `w`, as of `now`.
pub open spec fn aggregate_spec(s: Seq<LogRecord>, w: TimeWindow, now: int) -> int {
    aggregate_records_spec(filter_window(w, s), now)
}

/// The nearest `i64` to a mathematical total.
pub open spec fn clamp_i64(x: int) -> int {
    if x > i64::MAX {
        i64::MAX as int
    } else if x < i64::MIN {
        i64::MIN as int
    } else {
        x
    }
}

spec fn open_view(o: Option<i64>) -> Option<int> {
    match o {
        Option::Some(v) => Option::Some(v as int),
        Option::None => Option::None,
    }
}

/// Total active-work seconds of the records selected by `window`, as of
/// `now`, saturated to `i64` (a total outside `i64` cannot arise from any
/// log a file can hold).
pub fn aggregate(records: &Vec<LogRecord>, window: TimeWindow, now: Timestamp) -> (r: i64)
    requires
        records_wf(records@),
        now.wf(),
    ensures
        r as int == clamp_i64(aggregate_spec(records@, window, now.secs as int)),
{
    let mut sum: i128 = 0;
    let mut open_start: Option<i64> = None;
    let n = records.len();
    let mut i: usize = 0;
    while i < n
        invariant
            n == records@.len(),
            i <= n,
            records_wf(records@),
            ({
                let f = filter_window(window, records@.take(i as int));
                &&& sum == agg_sum(f, f.len() as int)
                &&& open_view(open_start) == agg_open(f, f.len() as int)
            }),
            -(i as int) * 0x8000_0000_0000_0000 <= sum <= (i as int) * 0x8000_0000_0000_0000,
            open_start matches Some(st) ==> 0 <= st < TIMESTAMP_LIMIT,
        decreases n - i,
    {
        let r = records[i];
        proof {
            assert(records@[i as int].wf());
            assert(records@.take(i as int + 1).drop_last() =~= records@.take(i as int));
            assert(records@.take(i as int + 1).last() == records@[i as int]);
        }
        let ghost f = filter_window(window, records@.take(i as int));
        let ghost f1 = filter_window(window, records@.take(i as int + 1));
        if window.matches(r.time) {
            proof {
                assert(f1 == f.push(records@[i as int]));
                assert(f1.len() == f.len() + 1);
                assert(f1[f1.len() - 1] == records@[i as int]);
                assert(forall|k: int| 0 <= k < f.len() ==> f1[k] == f[k]);
                lemma_agg_prefix(f, f1);
            }
            match r.log_type {
                LogType::BreakAdd => {
                    if let Some(a) = r.add_seconds {
                        sum = sum - a as i128;
                    }
                },
                LogType::Break => {
                    if let Some(st) = open_start {
                        sum = sum + (r.time.secs as i128 - st as i128);
                    }
                    open_start = None;
                },
                LogType::Work => {
                    if let Some(st) = open_start {
                        sum = sum + (r.time.secs as i128 - st as i128);
                    }
                    open_start = Some(r.time.secs);
                },
                LogType::Unknown => {},
            }
        } else {
            proof {
                assert(f1 == f);
            }
        }
        i = i + 1;
    }
    proof {
        assert(records@.take(n as int) =~= records@);
    }
    if let Some(st) = open_start {
        sum = sum + (now.secs as i128 - st as i128);
    }
    if sum > i64::MAX as i128 {
        i64::MAX
    } else if sum < i64::MIN as i128 {
        i64::MIN
    } else {
        sum as i64
    }
}

/// The running state over a prefix is the state over the same records within
/// a longer sequence that extends it.
proof fn lemma_agg_prefix(f: Seq<LogRecord>, f1: Seq<LogRecord>)
    requires
        f1.len() == f.len() + 1,
        forall|k: int| 0 <= k < f.len() ==> f1[k] == f[k],
    ensures
        agg_sum(f1, f.len() as int) == agg_sum(f, f.len() as int),
        agg_open(f1, f.len() as int) == agg_open(f, f.len() as int),
{
    lemma_agg_agree(f, f1, f.len() as int);
}

proof fn lemma_agg_agree(f: Seq<LogRecord>, f1: Seq<LogRecord>, i: int)
    requires
        i <= f.len(),
        f1.len() == f.len() + 1,
        forall|k: int| 0 <= k < f.len() ==> f1[k] == f[k],
    ensures
        agg_sum(f1, i) == agg_sum(f, i),
        agg_open(f1, i) == agg_open(f, i),
    decreases i,
{
    if i > 0 {
        lemma_agg_agree(f, f1, i - 1);
    }
}

/// The interval state of the pass run directly over `s`, touching only the
/// records the window selects: what `agg_open` reads after the filtered
/// prefix.
pub open spec fn windowed_open(w: TimeWindow, s: Seq<LogRecord>, i: int) -> Option<int>
    decreases i,
{
    if i <= 0 {
        Option::None
    } else if !w.matches_spec(s[i - 1].time) {
        windowed_open(w, s, i - 1)
    } else {
        match s[i - 1].log_type {
            LogType::Work => Option::Some(s[i - 1].time.secs as int),
            LogType::Break => Option::None,
            _ => windowed_open(w, s, i - 1),
        }
    }
}

/// The running total of the pass run directly over `s`, touching only the
/// records the window selects.
pub open spec fn windowed_sum(w: TimeWindow, s: Seq<LogRecord>, i: int) -> int
    decreases i,
{
    if i <= 0 {
        0
    } else if !w.matches_spec(s[i - 1].time) {
        windowed_sum(w, s, i - 1)
    } else {
        let r = s[i - 1];
        let prev = windowed_sum(w, s, i - 1);
        match r.log_type {
            LogType::BreakAdd => prev - (match r.add_seconds {
                Option::Some(a) => a as int,
                Option::None => 0,
            }),
            LogType::Break => prev + close_amount(windowed_open(w, s, i - 1), r.time.secs as int),
            LogType::Work => prev + close_amount(windowed_open(w, s, i - 1), r.time.secs as int),
            LogType::Unknown => prev,
        }
    }
}

/// Skipping unselected records in place computes the same state as
/// filtering first.
pub proof fn lemma_windowed_is_filtered(w: TimeWindow, s: Seq<LogRecord>, i: int)
    requires
        0 <= i <= s.len(),
    ensures
        windowed_sum(w, s, i) == agg_sum(
            filter_window(w, s.take(i)),
            filter_window(w, s.take(i)).len() as int,
        ),
        windowed_open(w, s, i) == agg_open(
            filter_window(w, s.take(i)),
            filter_window(w, s.take(i)).len() as int,
        ),
    decreases i,
{
    if i == 0 {
        assert(s.take(0) =~= Seq::<LogRecord>::empty());
    } else {
        lemma_windowed_is_filtered(w, s, i - 1);
        assert(s.take(i).drop_last() =~= s.take(i - 1));
        assert(s.take(i).last() == s[i - 1]);
        let f0 = filter_window(w, s.take(i - 1));
        let f = filter_window(w, s.take(i));
        if w.matches_spec(s[i - 1].time) {
            assert(f == f0.push(s[i - 1]));
            lemma_agg_agree(f0, f, f0.len() as int);
        } else {
            assert(f == f0);
        }
    }
}

/// The windowed pass reads only the records below its cut: sequences that
/// agree there yield the same state.
pub proof fn lemma_windowed_agree(w: TimeWindow, s1: Seq<LogRecord>, s2: Seq<LogRecord>, i: int)
    requires
        0 <= i <= s1.len(),
        i <= s2.len(),
        forall|k: int| 0 <= k < i ==> s1[k] == #[trigger] s2[k],
    ensures
        windowed_sum(w, s1, i) == windowed_sum(w, s2, i),
        windowed_open(w, s1, i) == windowed_open(w, s2, i),
    decreases i,
{
    if i > 0 {
        lemma_windowed_agree(w, s1, s2, i - 1);
    }
}

/// Every window is a union of whole days: records of one day are selected
/// or rejected together.
pub proof fn lemma_window_day_closed(w: TimeWindow, a: Timestamp, b: Timestamp)
    requires
        a.day_number_spec() == b.day_number_spec(),
    ensures
        w.matches_spec(a) == w.matches_spec(b),
{
}

/// A window that selects no record aggregates to zero, whatever `now` is.
pub proof fn lemma_empty_window_aggregate(s: Seq<LogRecord>, w: TimeWindow, now: int)
    requires
        forall|i: int| 0 <= i < s.len() ==> !w.matches_spec(#[trigger] s[i].time),
    ensures
        aggregate_spec(s, w, now) == 0,
{
    lemma_filter_window_none(s, w);
}

proof fn lemma_filter_window_none(s: Seq<LogRecord>, w: TimeWindow)
    requires
        forall|i: int| 0 <= i < s.len() ==> !w.matches_spec(#[trigger] s[i].time),
    ensures
        filter_window(w, s).len() == 0,
    decreases s.len(),
{
    if s.len() > 0 {
        assert(forall|i: int|
            0 <= i < s.drop_last().len() ==> !w.matches_spec(
                #[trigger] s.drop_last()[i].time,
            ));
        lemma_filter_window_none(s.drop_last(), w);
        assert(!w.matches_spec(s.last().time));
    }
}

} // verus!
