//! Log compaction: rewrite a record sequence into the minimal equivalent
//! sequence that preserves every state transition, every correction event,
//! and the final known state of each day.
//!
//! The records are first sorted by time (stably), then walked day group by
//! day group; within a day a record is kept iff it is the last of its day,
//! or a `BreakAdd` correction, or its type differs from the type of the
//! last record kept so far in that day (the tracker starts each day at
//! `Unknown` and is updated by every kept record, `BreakAdd` included).

use vstd::prelude::*;
use vstd::arithmetic::div_mod::lemma_div_is_ordered;
use vstd::seq_lib::to_multiset_contains;
use crate::aggregate::{
    aggregate_spec, lemma_window_day_closed, lemma_windowed_agree, lemma_windowed_is_filtered,
    windowed_open, windowed_sum, TimeWindow,
};
use crate::record::{records_wf, LogRecord, LogType};
use crate::sort::{
    lemma_sort_by_time_multiset, lemma_sort_by_time_sorted, lemma_sort_of_sorted_id, sort_by_time,
    sorted_by_time, sorted_copy,
};

verus! {

/// The full calendar-date key a record is grouped by.
pub open spec fn day_of(r: LogRecord) -> int {
    r.time.day_number_spec()
}

/// No record of the same day follows position `i`.
pub open spec fn is_last_of_day(s: Seq<LogRecord>, i: int) -> bool {
    i == s.len() - 1 || day_of(s[i]) != day_of(s[i + 1])
}

/// The type of the nearest kept record before `i` within `i`'s day group,
/// `Unknown` if that group holds no kept record before `i`.
pub open spec fn last_kept_before(s: Seq<LogRecord>, i: int) -> LogType
    decreases i, 0int,
{
    if i <= 0 {
        LogType::Unknown
    } else if day_of(s[i - 1]) != day_of(s[i]) {
        LogType::Unknown
    } else if kept(s, i - 1) {
        s[i - 1].log_type
    } else {
        last_kept_before(s, i - 1)
    }
}

/// Whether compaction keeps the record at position `i` of a time-sorted
/// sequence.
pub open spec fn kept(s: Seq<LogRecord>, i: int) -> bool
    decreases i, 1int,
{
    ||| is_last_of_day(s, i)
    ||| s[i].log_type == LogType::BreakAdd
    ||| s[i].log_type != last_kept_before(s, i)
}

/// The kept records among the first `i` of `s`, in order.
pub open spec fn kept_upto(s: Seq<LogRecord>, i: int) -> Seq<LogRecord>
    decreases i,
{
    if i <= 0 {
        Seq::empty()
    } else if kept(s, i - 1) {
        kept_upto(s, i - 1).push(s[i - 1])
    } else {
        kept_upto(s, i - 1)
    }
}

/// The kept records of a time-sorted sequence.
pub open spec fn compact_sorted(s: Seq<LogRecord>) -> Seq<LogRecord> {
    kept_upto(s, s.len() as int)
}

/// What compaction leaves of an arbitrary record sequence: sort by time,
/// then keep the transition-relevant records of each day group.
pub open spec fn compact_log(s: Seq<LogRecord>) -> Seq<LogRecord> {
    compact_sorted(sort_by_time(s))
}

/// The compacted copy of `v`.
pub fn compact_records(v: &Vec<LogRecord>) -> (r: Vec<LogRecord>)
    requires
        records_wf(v@),
    ensures
        r@ == compact_log(v@),
        records_wf(r@),
{
    let sorted = sorted_copy(v);
    proof {
        lemma_sort_by_time_multiset(v@);
        assert forall|k: int| 0 <= k < sorted@.len() implies #[trigger] sorted@[k].wf() by {
            let x = sorted@[k];
            assert(sorted@.contains(x));
            to_multiset_contains(sorted@, x);
            to_multiset_contains(v@, x);
            let l = choose|l: int| 0 <= l < v@.len() && v@[l] == x;
            assert(v@[l].wf());
        }
    }
    let n = sorted.len();
    let mut out: Vec<LogRecord> = Vec::new();
    let mut last_kept: LogType = LogType::Unknown;
    let mut i: usize = 0;
    while i < n
        invariant
            n == sorted@.len(),
            i <= n,
            records_wf(sorted@),
            records_wf(out@),
            out@ == kept_upto(sorted@, i as int),
            i > 0 ==> last_kept == (if kept(sorted@, i as int - 1) {
                sorted@[i as int - 1].log_type
            } else {
                last_kept_before(sorted@, i as int - 1)
            }),
        decreases n - i,
    {
        let r = sorted[i];
        proof {
            assert(sorted@[i as int].wf());
            if i > 0 {
                assert(sorted@[i as int - 1].wf());
            }
            if i + 1 < n {
                assert(sorted@[i as int + 1].wf());
            }
        }
        let cur: LogType = if i == 0 {
            LogType::Unknown
        } else {
            if sorted[i - 1].time.day_number() != r.time.day_number() {
                LogType::Unknown
            } else {
                last_kept
            }
        };
        proof {
            assert(cur == last_kept_before(sorted@, i as int));
        }
        let last_of_day = if i + 1 == n {
            true
        } else {
            sorted[i + 1].time.day_number() != r.time.day_number()
        };
        let keep = last_of_day || r.log_type == LogType::BreakAdd || r.log_type != cur;
        proof {
            assert(last_of_day == is_last_of_day(sorted@, i as int));
            assert(keep == kept(sorted@, i as int));
        }
        if keep {
            out.push(r);
            last_kept = r.log_type;
        } else {
            last_kept = cur;
        }
        i = i + 1;
    }
    out
}

/// In a time-sorted sequence the day keys are non-decreasing.
proof fn lemma_days_ordered(s: Seq<LogRecord>, i: int, j: int)
    requires
        sorted_by_time(s),
        0 <= i <= j < s.len(),
    ensures
        day_of(s[i]) <= day_of(s[j]),
{
    if i < j {
        lemma_div_is_ordered(s[i].time.secs as int, s[j].time.secs as int, 86400);
    }
}

/// The kept records of a sorted prefix are sorted, and none is later than
/// the last record of the prefix.
proof fn lemma_kept_upto_sorted(s: Seq<LogRecord>, i: int)
    requires
        sorted_by_time(s),
        0 <= i <= s.len(),
    ensures
        sorted_by_time(kept_upto(s, i)),
        forall|k: int|
            0 <= k < kept_upto(s, i).len() ==> #[trigger] kept_upto(s, i)[k].time.secs <= s[i
                - 1].time.secs,
    decreases i,
{
    if i > 0 {
        lemma_kept_upto_sorted(s, i - 1);
    }
}

/// Longer prefixes of the input only extend the kept sequence.
proof fn lemma_kept_upto_extends(s: Seq<LogRecord>, i: int, j: int)
    requires
        0 <= i <= j,
    ensures
        kept_upto(s, i).len() <= kept_upto(s, j).len(),
        forall|k: int|
            0 <= k < kept_upto(s, i).len() ==> #[trigger] kept_upto(s, j)[k] == kept_upto(s, i)[k],
    decreases j - i,
{
    if i < j {
        lemma_kept_upto_extends(s, i, j - 1);
    }
}

/// A kept record stands in every long enough kept prefix, at the position
/// the shorter prefixes fixed for it.
proof fn lemma_kept_at(s: Seq<LogRecord>, i: int, j: int)
    requires
        0 <= i < j,
        kept(s, i),
    ensures
        kept_upto(s, j).len() > kept_upto(s, i).len(),
        kept_upto(s, j)[kept_upto(s, i).len() as int] == s[i],
{
    assert(kept_upto(s, i + 1) == kept_upto(s, i).push(s[i]));
    lemma_kept_upto_extends(s, i + 1, j);
}

/// Every record of a kept prefix comes from a kept position of the input.
proof fn lemma_kept_witness(s: Seq<LogRecord>, j: int, k: int)
    requires
        0 <= j,
        0 <= k < kept_upto(s, j).len(),
    ensures
        exists|i: int|
            0 <= i < j && #[trigger] kept(s, i) && kept_upto(s, i).len() == k && s[i] == kept_upto(
                s,
                j,
            )[k],
    decreases j,
{
    if kept(s, j - 1) && k == kept_upto(s, j - 1).len() {
        assert(0 <= j - 1 < j && kept(s, j - 1) && kept_upto(s, j - 1).len() == k && s[j - 1]
            == kept_upto(s, j)[k]);
    } else {
        lemma_kept_witness(s, j - 1, k);
        let i = choose|i: int|
            0 <= i < j - 1 && #[trigger] kept(s, i) && kept_upto(s, i).len() == k && s[i]
                == kept_upto(s, j - 1)[k];
        lemma_kept_at(s, i, j);
    }
}

/// If no kept record precedes `i` within its day group, the tracker reads
/// `Unknown` at `i`.
proof fn lemma_lkb_none(s: Seq<LogRecord>, i: int)
    requires
        0 <= i < s.len(),
        forall|j: int| 0 <= j < i && day_of(s[j]) == day_of(s[i]) ==> !#[trigger] kept(s, j),
    ensures
        last_kept_before(s, i) == LogType::Unknown,
    decreases i,
{
    if i > 0 && day_of(s[i - 1]) == day_of(s[i]) {
        assert(!kept(s, i - 1));
        lemma_lkb_none(s, i - 1);
    }
}

/// If `j` is the nearest kept record before `i` within `i`'s day group, the
/// tracker reads `j`'s type at `i`.
proof fn lemma_lkb_some(s: Seq<LogRecord>, i: int, j: int)
    requires
        sorted_by_time(s),
        0 <= j < i < s.len(),
        day_of(s[j]) == day_of(s[i]),
        kept(s, j),
        forall|l: int| j < l < i ==> !#[trigger] kept(s, l),
    ensures
        last_kept_before(s, i) == s[j].log_type,
    decreases i,
{
    lemma_days_ordered(s, j, i - 1);
    lemma_days_ordered(s, i - 1, i);
    assert(day_of(s[i - 1]) == day_of(s[i]));
    if j == i - 1 {
    } else {
        assert(!kept(s, i - 1));
        lemma_lkb_some(s, i - 1, j);
    }
}

/// One record of a pair of consecutive kept records: its witness index, with
/// the facts the day-invariant and idempotence proofs need.
proof fn lemma_pair_witnesses(s: Seq<LogRecord>, k: int) -> (w: (int, int))
    requires
        0 <= k,
        k + 1 < compact_sorted(s).len(),
    ensures
        0 <= w.0 < w.1 < s.len(),
        kept(s, w.0),
        kept(s, w.1),
        kept_upto(s, w.0).len() == k,
        kept_upto(s, w.1).len() == k + 1,
        s[w.0] == compact_sorted(s)[k],
        s[w.1] == compact_sorted(s)[k + 1],
        forall|l: int| w.0 < l < w.1 ==> !#[trigger] kept(s, l),
{
    let n = s.len() as int;
    lemma_kept_witness(s, n, k);
    lemma_kept_witness(s, n, k + 1);
    let i1 = choose|i: int|
        0 <= i < n && #[trigger] kept(s, i) && kept_upto(s, i).len() == k && s[i] == kept_upto(
            s,
            n,
        )[k];
    let i2 = choose|i: int|
        0 <= i < n && #[trigger] kept(s, i) && kept_upto(s, i).len() == k + 1 && s[i] == kept_upto(
            s,
            n,
        )[k + 1];
    if i2 <= i1 {
        lemma_kept_upto_extends(s, i2, i1);
    }
    assert forall|l: int| i1 < l < i2 implies !#[trigger] kept(s, l) by {
        if kept(s, l) {
            lemma_kept_at(s, i1, l);
            lemma_kept_at(s, l, i2);
            lemma_kept_upto_extends(s, i1 + 1, l);
            assert(kept_upto(s, i1 + 1).len() == kept_upto(s, i1).len() + 1);
            assert(kept_upto(s, l + 1).len() == kept_upto(s, l).len() + 1);
            lemma_kept_upto_extends(s, l + 1, i2);
        }
    }
    (i1, i2)
}

/// The witness of the first kept record: nothing before it is kept.
proof fn lemma_first_witness(s: Seq<LogRecord>) -> (w: int)
    requires
        compact_sorted(s).len() > 0,
    ensures
        0 <= w < s.len(),
        kept(s, w),
        kept_upto(s, w).len() == 0,
        s[w] == compact_sorted(s)[0],
        forall|l: int| 0 <= l < w ==> !#[trigger] kept(s, l),
{
    let n = s.len() as int;
    lemma_kept_witness(s, n, 0);
    let i0 = choose|i: int|
        0 <= i < n && #[trigger] kept(s, i) && kept_upto(s, i).len() == 0 && s[i] == kept_upto(
            s,
            n,
        )[0];
    assert forall|l: int| 0 <= l < i0 implies !#[trigger] kept(s, l) by {
        if kept(s, l) {
            lemma_kept_at(s, l, i0);
        }
    }
    i0
}

/// Two kept positions with the same output position are the same position.
proof fn lemma_witness_unique(s: Seq<LogRecord>, a: int, b: int)
    requires
        0 <= a,
        0 <= b,
        kept(s, a),
        kept(s, b),
        kept_upto(s, a).len() == kept_upto(s, b).len(),
    ensures
        a == b,
{
    if a < b {
        lemma_kept_at(s, a, b);
    }
    if b < a {
        lemma_kept_at(s, b, a);
    }
}

/// `a` can be read off `b` in order, skipping zero or more records.
pub open spec fn subsequence_of(a: Seq<LogRecord>, b: Seq<LogRecord>) -> bool
    decreases b.len(),
{
    if a.len() == 0 {
        true
    } else if b.len() == 0 {
        false
    } else if a.last() == b.last() {
        subsequence_of(a.drop_last(), b.drop_last())
    } else {
        subsequence_of(a, b.drop_last())
    }
}

proof fn lemma_subseq_drop_left(a: Seq<LogRecord>, b: Seq<LogRecord>)
    requires
        subsequence_of(a, b),
        a.len() > 0,
    ensures
        subsequence_of(a.drop_last(), b),
    decreases b.len(), 0int,
{
    if a.last() == b.last() {
        if a.drop_last().len() == 0 {
        } else {
            lemma_subseq_push_right(a.drop_last(), b.drop_last(), b.last());
            assert(b.drop_last().push(b.last()) =~= b);
        }
    } else {
        lemma_subseq_drop_left(a, b.drop_last());
        if a.drop_last().len() > 0 {
            lemma_subseq_push_right(a.drop_last(), b.drop_last(), b.last());
            assert(b.drop_last().push(b.last()) =~= b);
        }
    }
}

proof fn lemma_subseq_push_right(a: Seq<LogRecord>, b: Seq<LogRecord>, x: LogRecord)
    requires
        subsequence_of(a, b),
    ensures
        subsequence_of(a, b.push(x)),
    decreases b.len(), 1int,
{
    if a.len() == 0 {
    } else {
        assert(b.push(x).last() == x);
        assert(b.push(x).drop_last() =~= b);
        if a.last() == x {
            lemma_subseq_drop_left(a, b);
        }
    }
}

/// The kept records form a subsequence of the input prefix.
proof fn lemma_kept_upto_subseq(s: Seq<LogRecord>, i: int)
    requires
        0 <= i <= s.len(),
    ensures
        subsequence_of(kept_upto(s, i), s.take(i)),
    decreases i,
{
    if i == 0 {
    } else {
        lemma_kept_upto_subseq(s, i - 1);
        assert(s.take(i).drop_last() =~= s.take(i - 1));
        assert(s.take(i).last() == s[i - 1]);
        if kept(s, i - 1) {
            assert(kept_upto(s, i) == kept_upto(s, i - 1).push(s[i - 1]));
            assert(kept_upto(s, i).last() == s[i - 1]);
            assert(kept_upto(s, i).drop_last() =~= kept_upto(s, i - 1));
        } else {
            lemma_subseq_push_right(kept_upto(s, i - 1), s.take(i - 1), s[i - 1]);
            assert(s.take(i - 1).push(s[i - 1]) =~= s.take(i));
        }
    }
}

/// Every record of a compacted sorted sequence is itself kept, the heart of
/// idempotence.
proof fn lemma_kept_in_compact(t: Seq<LogRecord>, k: int)
    requires
        sorted_by_time(t),
        0 <= k < compact_sorted(t).len(),
    ensures
        kept(compact_sorted(t), k),
    decreases k,
{
    let c = compact_sorted(t);
    let n = t.len() as int;
    lemma_kept_upto_sorted(t, n);
    if k > 0 {
        lemma_kept_in_compact(t, k - 1);
    }
    if c[k].log_type == LogType::BreakAdd {
    } else if is_last_of_day(c, k) {
    } else {
        assert(k + 1 < c.len() && day_of(c[k]) == day_of(c[k + 1]));
        let w = lemma_pair_witnesses(t, k);
        let i1 = w.0;
        let i2 = w.1;
        lemma_days_ordered(t, i1, i1 + 1);
        lemma_days_ordered(t, i1 + 1, i2);
        assert(day_of(t[i1 + 1]) == day_of(t[i1]));
        assert(!is_last_of_day(t, i1));
        assert(t[i1].log_type != last_kept_before(t, i1));
        if k == 0 {
            let w0 = lemma_first_witness(t);
            lemma_witness_unique(t, w0, i1);
            assert forall|j: int|
                0 <= j < i1 && day_of(t[j]) == day_of(t[i1]) implies !#[trigger] kept(t, j) by {}
            lemma_lkb_none(t, i1);
            assert(last_kept_before(c, 0) == LogType::Unknown);
        } else {
            let h = lemma_pair_witnesses(t, k - 1);
            lemma_witness_unique(t, h.1, i1);
            assert(h.1 == i1);
            if day_of(c[k - 1]) == day_of(c[k]) {
                lemma_lkb_some(t, i1, h.0);
                assert(last_kept_before(t, i1) == c[k - 1].log_type);
                assert(last_kept_before(c, k) == c[k - 1].log_type);
            } else {
                assert forall|j: int|
                    0 <= j < i1 && day_of(t[j]) == day_of(t[i1]) implies !#[trigger] kept(
                    t,
                    j,
                ) by {
                    if kept(t, j) {
                        lemma_kept_at(t, j, i1);
                        let p = kept_upto(t, j).len() as int;
                        assert(p < k);
                        lemma_kept_at(t, j, n);
                        assert(c[p] == t[j]);
                        assert(sorted_by_time(c));
                        lemma_days_ordered(c, p, k - 1);
                        lemma_days_ordered(c, k - 1, k);
                        assert(day_of(c[p]) == day_of(c[k]));
                        assert(day_of(c[k - 1]) == day_of(c[k]));
                    }
                }
                lemma_lkb_none(t, i1);
                assert(last_kept_before(c, k) == LogType::Unknown);
            }
        }
    }
}

/// A sequence all of whose records are kept compacts to itself.
proof fn lemma_all_kept_id(c: Seq<LogRecord>, i: int)
    requires
        0 <= i <= c.len(),
        forall|k: int| 0 <= k < c.len() ==> #[trigger] kept(c, k),
    ensures
        kept_upto(c, i) == c.take(i),
    decreases i,
{
    if i == 0 {
        assert(kept_upto(c, 0) =~= c.take(0));
    } else {
        lemma_all_kept_id(c, i - 1);
        assert(kept(c, i - 1));
        assert(c.take(i - 1).push(c[i - 1]) =~= c.take(i));
    }
}

/// Compaction is idempotent: compacting an already compacted log changes
/// nothing.
pub proof fn lemma_compact_idempotent(s: Seq<LogRecord>)
    ensures
        compact_log(compact_log(s)) == compact_log(s),
{
    let t = sort_by_time(s);
    lemma_sort_by_time_sorted(s);
    let c = compact_sorted(t);
    lemma_kept_upto_sorted(t, t.len() as int);
    lemma_sort_of_sorted_id(c);
    assert forall|k: int| 0 <= k < c.len() implies #[trigger] kept(c, k) by {
        lemma_kept_in_compact(t, k);
    }
    lemma_all_kept_id(c, c.len() as int);
    assert(c.take(c.len() as int) =~= c);
}

/// The day-group invariant: after compaction no two records of one day that
/// stand next to each other share a type, unless that type is `BreakAdd` or
/// the later record is the day's last; and the last record of every day of
/// the sorted input survives.
#[verifier::rlimit(50)]
pub proof fn lemma_compact_day_invariant(s: Seq<LogRecord>)
    ensures
        forall|k: int|
            #![trigger compact_log(s)[k]]
            0 <= k && k + 1 < compact_log(s).len() && day_of(compact_log(s)[k]) == day_of(
                compact_log(s)[k + 1],
            ) && compact_log(s)[k].log_type == compact_log(s)[k + 1].log_type && compact_log(
                s,
            )[k].log_type != LogType::BreakAdd ==> is_last_of_day(compact_log(s), k + 1),
        forall|i: int|
            0 <= i < sort_by_time(s).len() && #[trigger] is_last_of_day(sort_by_time(s), i)
                ==> compact_log(s).contains(sort_by_time(s)[i]),
{
    let t = sort_by_time(s);
    lemma_sort_by_time_sorted(s);
    let c = compact_sorted(t);
    let n = t.len() as int;
    assert forall|k: int|
        0 <= k && k + 1 < c.len() && day_of(#[trigger] c[k]) == day_of(c[k + 1]) && c[k].log_type
            == c[k + 1].log_type && c[k].log_type != LogType::BreakAdd implies is_last_of_day(
        c,
        k + 1,
    ) by {
        let w = lemma_pair_witnesses(t, k);
        let i1 = w.0;
        let i2 = w.1;
        if !is_last_of_day(t, i2) {
            lemma_lkb_some(t, i2, i1);
            assert(t[i2].log_type != last_kept_before(t, i2));
            assert(false);
        }
        if k + 2 < c.len() {
            let h = lemma_pair_witnesses(t, k + 1);
            lemma_witness_unique(t, h.0, i2);
            let i3 = h.1;
            assert(i2 < i3 < n);
            assert(day_of(t[i2]) != day_of(t[i2 + 1]));
            lemma_days_ordered(t, i2, i2 + 1);
            lemma_days_ordered(t, i2 + 1, i3);
            assert(day_of(c[k + 1]) != day_of(c[k + 2]));
        }
    }
    assert forall|i: int|
        0 <= i < t.len() && #[trigger] is_last_of_day(t, i) implies c.contains(t[i]) by {
        assert(kept(t, i));
        lemma_kept_at(t, i, n);
        assert(c[kept_upto(t, i).len() as int] == t[i]);
    }
}

/// Entering a position whose day group already holds records, the tracker
/// tells the state of the open work interval: a `Work` tracker means an
/// interval is open, a `Break` tracker means none is. (The record right
/// before the position always carries the tracker's type.)
proof fn lemma_tracker_open(w: TimeWindow, t: Seq<LogRecord>, i: int)
    requires
        sorted_by_time(t),
        0 <= i < t.len(),
        w.matches_spec(t[i].time),
    ensures
        last_kept_before(t, i) == LogType::Work ==> windowed_open(w, t, i) is Some,
        last_kept_before(t, i) == LogType::Break ==> windowed_open(w, t, i) is None,
{
    if i > 0 && day_of(t[i - 1]) == day_of(t[i]) {
        lemma_window_day_closed(w, t[i - 1].time, t[i].time);
        if !kept(t, i - 1) {
            assert(t[i - 1].log_type == last_kept_before(t, i - 1));
            assert(last_kept_before(t, i) == last_kept_before(t, i - 1));
        }
        assert(t[i - 1].log_type == last_kept_before(t, i) || last_kept_before(t, i)
            == LogType::Unknown || last_kept_before(t, i) == LogType::BreakAdd);
    }
}

/// The windowed pass over the sorted input and over its kept records move
/// in step: their open intervals agree in kind, and their totals agree up
/// to the start of the currently open interval.
proof fn lemma_compact_agg_sim(w: TimeWindow, t: Seq<LogRecord>, i: int)
    requires
        sorted_by_time(t),
        0 <= i <= t.len(),
    ensures
        ({
            let ku = kept_upto(t, i);
            let k = ku.len() as int;
            let fo = windowed_open(w, t, i);
            let co = windowed_open(w, ku, k);
            &&& (fo is Some <==> co is Some)
            &&& (fo is None ==> windowed_sum(w, t, i) == windowed_sum(w, ku, k))
            &&& (fo is Some && co is Some ==> windowed_sum(w, t, i) - fo->Some_0
                == windowed_sum(w, ku, k) - co->Some_0)
        }),
    decreases i,
{
    if i > 0 {
        lemma_compact_agg_sim(w, t, i - 1);
        let ku0 = kept_upto(t, i - 1);
        let k0 = ku0.len() as int;
        let ku = kept_upto(t, i);
        let r = t[i - 1];
        if kept(t, i - 1) {
            assert(ku == ku0.push(r));
            assert(forall|k: int| 0 <= k < k0 ==> ku0[k] == #[trigger] ku[k]);
            lemma_windowed_agree(w, ku0, ku, k0);
            assert(ku[k0] == r);
        } else {
            assert(ku == ku0);
            assert(r.log_type == last_kept_before(t, i - 1));
            assert(r.log_type != LogType::BreakAdd);
            if w.matches_spec(r.time) {
                lemma_tracker_open(w, t, i - 1);
            }
        }
    }
}

/// Compaction never changes what a window aggregates: for every window and
/// every reference time, the compacted log yields the same total as the
/// time-sorted input it came from.
pub proof fn lemma_compact_preserves_aggregate(s: Seq<LogRecord>, w: TimeWindow, now: int)
    ensures
        aggregate_spec(compact_log(s), w, now) == aggregate_spec(sort_by_time(s), w, now),
{
    let t = sort_by_time(s);
    let n = t.len() as int;
    let c = compact_sorted(t);
    lemma_sort_by_time_sorted(s);
    lemma_compact_agg_sim(w, t, n);
    lemma_windowed_is_filtered(w, t, n);
    lemma_windowed_is_filtered(w, c, c.len() as int);
    assert(t.take(n) =~= t);
    assert(c.take(c.len() as int) =~= c);
}

/// Order preservation: the surviving records stand in non-decreasing time
/// order and form a subsequence of the time-sorted input.
pub proof fn lemma_compact_order(s: Seq<LogRecord>)
    ensures
        sorted_by_time(compact_log(s)),
        subsequence_of(compact_log(s), sort_by_time(s)),
{
    let t = sort_by_time(s);
    lemma_sort_by_time_sorted(s);
    lemma_kept_upto_sorted(t, t.len() as int);
    lemma_kept_upto_subseq(t, t.len() as int);
    assert(t.take(t.len() as int) =~= t);
}

} // verus!
