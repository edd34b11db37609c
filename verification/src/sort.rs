//! A verified stable sort of records by timestamp, the first step of
//! compaction.

use vstd::prelude::*;
use vstd::seq_lib::to_multiset_build;
use crate::record::LogRecord;

verus! {

/// The records appear in non-decreasing time order.
pub open spec fn sorted_by_time(s: Seq<LogRecord>) -> bool {
    forall|i: int, j: int| 0 <= i < j < s.len() ==> s[i].time.secs <= s[j].time.secs
}

/// Insert `x` into the sorted sequence `s`, after every record whose time is
/// less than or equal to `x`'s (so that insertion keeps equal times stable).
pub open spec fn insert_sorted(s: Seq<LogRecord>, x: LogRecord) -> Seq<LogRecord>
    decreases s.len(),
{
    if s.len() == 0 || s.last().time.secs <= x.time.secs {
        s.push(x)
    } else {
        insert_sorted(s.drop_last(), x).push(s.last())
    }
}

/// Stable insertion sort by time.
pub open spec fn sort_by_time(s: Seq<LogRecord>) -> Seq<LogRecord>
    decreases s.len(),
{
    if s.len() == 0 {
        Seq::empty()
    } else {
        insert_sorted(sort_by_time(s.drop_last()), s.last())
    }
}

/// Every record of an insertion's result is the inserted record or one of the
/// originals.
proof fn lemma_insert_sorted_elems(s: Seq<LogRecord>, x: LogRecord)
    ensures
        insert_sorted(s, x).len() == s.len() + 1,
        forall|k: int|
            0 <= k < insert_sorted(s, x).len() ==> (#[trigger] insert_sorted(s, x)[k] == x
                || s.contains(insert_sorted(s, x)[k])),
    decreases s.len(),
{
    if s.len() == 0 || s.last().time.secs <= x.time.secs {
    } else {
        lemma_insert_sorted_elems(s.drop_last(), x);
        assert forall|k: int| 0 <= k < insert_sorted(s, x).len() implies (
        #[trigger] insert_sorted(s, x)[k] == x || s.contains(insert_sorted(s, x)[k])) by {
            let t = insert_sorted(s.drop_last(), x);
            if k < t.len() {
                if t[k] != x {
                    let l = choose|l: int| 0 <= l < s.drop_last().len() && s.drop_last()[l] == t[k];
                    assert(s[l] == t[k]);
                }
            } else {
                assert(insert_sorted(s, x)[k] == s.last());
                assert(s[s.len() - 1] == s.last());
            }
        }
    }
}

/// Insertion into a sorted sequence keeps it sorted.
proof fn lemma_insert_sorted_sorted(s: Seq<LogRecord>, x: LogRecord)
    requires
        sorted_by_time(s),
    ensures
        sorted_by_time(insert_sorted(s, x)),
    decreases s.len(),
{
    if s.len() == 0 || s.last().time.secs <= x.time.secs {
        assert forall|i: int, j: int|
            0 <= i < j < s.push(x).len() implies s.push(x)[i].time.secs
            <= s.push(x)[j].time.secs by {
            if j < s.len() {
            } else {
                if i < s.len() - 1 {
                    assert(s[i].time.secs <= s[s.len() - 1].time.secs);
                }
            }
        }
    } else {
        assert(sorted_by_time(s.drop_last()));
        lemma_insert_sorted_sorted(s.drop_last(), x);
        lemma_insert_sorted_elems(s.drop_last(), x);
        let t = insert_sorted(s.drop_last(), x);
        assert forall|i: int, j: int|
            0 <= i < j < t.push(s.last()).len() implies t.push(s.last())[i].time.secs <= t.push(
            s.last(),
        )[j].time.secs by {
            if j < t.len() {
            } else {
                if t[i] == x {
                } else {
                    let l = choose|l: int|
                        0 <= l < s.drop_last().len() && s.drop_last()[l] == t[i];
                    assert(s[l].time.secs <= s[s.len() - 1].time.secs);
                }
            }
        }
    }
}

/// Sorting yields a sequence in non-decreasing time order.
pub proof fn lemma_sort_by_time_sorted(s: Seq<LogRecord>)
    ensures
        sorted_by_time(sort_by_time(s)),
        sort_by_time(s).len() == s.len(),
    decreases s.len(),
{
    if s.len() == 0 {
    } else {
        lemma_sort_by_time_sorted(s.drop_last());
        lemma_insert_sorted_sorted(sort_by_time(s.drop_last()), s.last());
        lemma_insert_sorted_elems(sort_by_time(s.drop_last()), s.last());
    }
}

/// Sorting an already sorted sequence returns it unchanged.
pub proof fn lemma_sort_of_sorted_id(s: Seq<LogRecord>)
    requires
        sorted_by_time(s),
    ensures
        sort_by_time(s) == s,
    decreases s.len(),
{
    if s.len() == 0 {
        assert(sort_by_time(s) =~= s);
    } else {
        assert(sorted_by_time(s.drop_last()));
        lemma_sort_of_sorted_id(s.drop_last());
        assert(s.drop_last().len() == 0 || s.drop_last().last().time.secs <= s.last().time.secs);
        assert(sort_by_time(s) == s.drop_last().push(s.last()));
        assert(s.drop_last().push(s.last()) =~= s);
    }
}

/// Sorting keeps exactly the original records, with their multiplicities.
pub proof fn lemma_sort_by_time_multiset(s: Seq<LogRecord>)
    ensures
        sort_by_time(s).to_multiset() == s.to_multiset(),
    decreases s.len(),
{
    broadcast use to_multiset_build;

    if s.len() == 0 {
        assert(sort_by_time(s) =~= s);
    } else {
        lemma_sort_by_time_multiset(s.drop_last());
        lemma_insert_sorted_multiset(sort_by_time(s.drop_last()), s.last());
        assert(s.drop_last().push(s.last()) =~= s);
        assert(s.drop_last().push(s.last()).to_multiset() == s.drop_last().to_multiset().insert(
            s.last(),
        ));
    }
}

proof fn lemma_insert_sorted_multiset(s: Seq<LogRecord>, x: LogRecord)
    ensures
        insert_sorted(s, x).to_multiset() == s.to_multiset().insert(x),
    decreases s.len(),
{
    broadcast use to_multiset_build;

    if s.len() == 0 || s.last().time.secs <= x.time.secs {
    } else {
        lemma_insert_sorted_multiset(s.drop_last(), x);
        let t = insert_sorted(s.drop_last(), x);
        assert(t.push(s.last()).to_multiset() == t.to_multiset().insert(s.last()));
        assert(s.drop_last().push(s.last()) =~= s);
        assert(s.drop_last().push(s.last()).to_multiset() == s.drop_last().to_multiset().insert(
            s.last(),
        ));
        assert(s.drop_last().to_multiset().insert(x).insert(s.last())
            =~= s.drop_last().to_multiset().insert(s.last()).insert(x));
    }
}

/// `insert_sorted` lands at the position found by scanning from the right.
proof fn lemma_insert_sorted_at(s: Seq<LogRecord>, x: LogRecord, j: int)
    requires
        0 <= j <= s.len(),
        forall|k: int| j <= k < s.len() ==> s[k].time.secs > x.time.secs,
        j > 0 ==> s[j - 1].time.secs <= x.time.secs,
    ensures
        insert_sorted(s, x) == s.insert(j, x),
    decreases s.len(),
{
    if j == s.len() {
        assert(insert_sorted(s, x) == s.push(x));
        assert(s.insert(j, x) =~= s.push(x));
    } else {
        assert(s[s.len() - 1].time.secs > x.time.secs);
        lemma_insert_sorted_at(s.drop_last(), x, j);
        assert(insert_sorted(s, x) == s.drop_last().insert(j, x).push(s.last()));
        assert(s.drop_last().insert(j, x).push(s.last()) =~= s.insert(j, x));
    }
}

/// A copy of the records in non-decreasing time order, equal times kept in
/// their original relative order.
pub fn sorted_copy(v: &Vec<LogRecord>) -> (r: Vec<LogRecord>)
    ensures
        r@ == sort_by_time(v@),
{
    let mut out: Vec<LogRecord> = Vec::new();
    let n = v.len();
    let mut i: usize = 0;
    while i < n
        invariant
            n == v@.len(),
            i <= n,
            out@ == sort_by_time(v@.take(i as int)),
            sorted_by_time(out@),
        decreases n - i,
    {
        let x = v[i];
        let mut j: usize = out.len();
        while j > 0 && out[j - 1].time.secs > x.time.secs
            invariant
                j <= out@.len(),
                forall|k: int| j <= k < out@.len() ==> out@[k].time.secs > x.time.secs,
                sorted_by_time(out@),
            decreases j,
        {
            j = j - 1;
        }
        proof {
            lemma_insert_sorted_at(out@, x, j as int);
            assert(v@.take(i as int + 1).drop_last() =~= v@.take(i as int));
            assert(v@.take(i as int + 1).last() == v@[i as int]);
            lemma_insert_sorted_sorted(out@, x);
        }
        out.insert(j, x);
        i = i + 1;
    }
    proof {
        assert(v@.take(n as int) =~= v@);
    }
    out
}

} // verus!
