//! The row file codec: rendering records to the comma-separated row format
//! and parsing them back.
//!
//! One file holds a header row and one data row per record, fields in the
//! order `Time,LogType,AddSeconds`: an ISO-8601 UTC timestamp
//! (`2024-03-01T09:00:00Z`), a type token, and an optional signed integer.
//! Files are written strictly and read permissively: a row that does not
//! match the grammar is skipped, never an error.

use vstd::prelude::*;
use crate::calendar::{
    civil_date_valid, civil_from_days, civil_of_days, days_from_civil, epoch_days,
    lemma_civil_of_days, lemma_epoch_days_bound, lemma_epoch_days_limit,
};
use crate::record::{LogRecord, LogType, Timestamp, TIMESTAMP_LIMIT};
use vstd::arithmetic::div_mod::{
    lemma_div_denominator, lemma_div_is_ordered, lemma_fundamental_div_mod,
};

verus! {

pub open spec fn is_digit(b: u8) -> bool {
    48 <= b <= 57
}

pub open spec fn digit_val(b: u8) -> int {
    b - 48
}

pub open spec fn digit_of(n: int) -> u8 {
    (48 + n) as u8
}

/// The canonical 20-byte timestamp form `YYYY-MM-DDTHH:MM:SSZ` of an epoch
/// second count.
pub open spec fn ts_repr(secs: int) -> Seq<u8> {
    let z = secs / 86400;
    let rem = secs % 86400;
    let (y, m, d) = civil_of_days(z);
    let hh = rem / 3600;
    let mi = (rem / 60) % 60;
    let ss = rem % 60;
    seq![
        digit_of(y / 1000),
        digit_of((y / 100) % 10),
        digit_of((y / 10) % 10),
        digit_of(y % 10),
        45u8,
        digit_of(m / 10),
        digit_of(m % 10),
        45u8,
        digit_of(d / 10),
        digit_of(d % 10),
        84u8,
        digit_of(hh / 10),
        digit_of(hh % 10),
        58u8,
        digit_of(mi / 10),
        digit_of(mi % 10),
        58u8,
        digit_of(ss / 10),
        digit_of(ss % 10),
        90u8,
    ]
}

pub open spec fn d4val(s: Seq<u8>, i: int) -> int {
    1000 * digit_val(s[i]) + 100 * digit_val(s[i + 1]) + 10 * digit_val(s[i + 2]) + digit_val(
        s[i + 3],
    )
}

pub open spec fn d2val(s: Seq<u8>, i: int) -> int {
    10 * digit_val(s[i]) + digit_val(s[i + 1])
}

/// The shape of a timestamp field: digits and separators each in their
/// place, then either the plain `Z` of the canonical whole-second form or a
/// fractional-seconds suffix (a dot and at least one digit) before the `Z`.
pub open spec fn ts_shape_ok(s: Seq<u8>) -> bool {
    &&& s.len() >= 20
    &&& is_digit(s[0]) && is_digit(s[1]) && is_digit(s[2]) && is_digit(s[3])
    &&& s[4] == 45u8
    &&& is_digit(s[5]) && is_digit(s[6])
    &&& s[7] == 45u8
    &&& is_digit(s[8]) && is_digit(s[9])
    &&& s[10] == 84u8
    &&& is_digit(s[11]) && is_digit(s[12])
    &&& s[13] == 58u8
    &&& is_digit(s[14]) && is_digit(s[15])
    &&& s[16] == 58u8
    &&& is_digit(s[17]) && is_digit(s[18])
    &&& if s.len() == 20 {
        s[19] == 90u8
    } else {
        &&& s[19] == 46u8
        &&& s.len() >= 22
        &&& s[s.len() - 1] == 90u8
        &&& forall|k: int| 20 <= k < s.len() - 1 ==> is_digit(#[trigger] s[k])
    }
}

/// The epoch seconds a timestamp field denotes, `None` if the bytes do not
/// fit the grammar. Fractional seconds are discarded: the model keeps whole
/// seconds.
pub open spec fn parse_ts(s: Seq<u8>) -> Option<int> {
    if ts_shape_ok(s) {
        let y = d4val(s, 0);
        let m = d2val(s, 5);
        let d = d2val(s, 8);
        let hh = d2val(s, 11);
        let mm = d2val(s, 14);
        let ss = d2val(s, 17);
        if civil_date_valid(y, m, d) && hh < 24 && mm < 60 && ss < 60 {
            Option::Some(epoch_days(y, m, d) * 86400 + hh * 3600 + mm * 60 + ss)
        } else {
            Option::None
        }
    } else {
        Option::None
    }
}

/// A parsed timestamp lies in the representable range.
pub proof fn lemma_parse_ts_in_range(s: Seq<u8>)
    requires
        parse_ts(s) is Some,
    ensures
        0 <= parse_ts(s)->Some_0 < TIMESTAMP_LIMIT,
{
    let y = d4val(s, 0);
    let m = d2val(s, 5);
    let d = d2val(s, 8);
    lemma_epoch_days_bound(y, m, d);
    lemma_epoch_days_limit();
}

/// Reading the zero-padded digits of a four-digit number gives it back.
proof fn lemma_digits4(n: int)
    requires
        0 <= n < 10000,
    ensures
        1000 * (n / 1000) + 100 * ((n / 100) % 10) + 10 * ((n / 10) % 10) + n % 10 == n,
        0 <= n / 1000 <= 9,
        0 <= (n / 100) % 10 <= 9,
        0 <= (n / 10) % 10 <= 9,
        0 <= n % 10 <= 9,
{
    lemma_fundamental_div_mod(n, 10);
    lemma_fundamental_div_mod(n / 10, 10);
    lemma_fundamental_div_mod(n / 100, 10);
    lemma_div_denominator(n, 10, 10);
    lemma_div_denominator(n, 100, 10);
    lemma_div_is_ordered(n, 9999, 1000);
}

proof fn lemma_digits2(n: int)
    requires
        0 <= n < 100,
    ensures
        10 * (n / 10) + n % 10 == n,
        0 <= n / 10 <= 9,
        0 <= n % 10 <= 9,
{
    lemma_fundamental_div_mod(n, 10);
    lemma_div_is_ordered(n, 99, 10);
}

/// Splitting the seconds of a day into hours, minutes and seconds loses
/// nothing.
proof fn lemma_time_of_day(rem: int)
    requires
        0 <= rem < 86400,
    ensures
        (rem / 3600) * 3600 + ((rem / 60) % 60) * 60 + rem % 60 == rem,
        0 <= rem / 3600 < 24,
        0 <= (rem / 60) % 60 < 60,
        0 <= rem % 60 < 60,
{
    lemma_fundamental_div_mod(rem, 60);
    lemma_fundamental_div_mod(rem / 60, 60);
    lemma_div_denominator(rem, 60, 60);
    lemma_div_is_ordered(rem, 86399, 3600);
}

/// Rendering a representable timestamp yields bytes that parse back to it.
pub proof fn lemma_ts_round_trip(secs: int)
    requires
        0 <= secs < TIMESTAMP_LIMIT,
    ensures
        parse_ts(ts_repr(secs)) == Option::Some(secs),
{
    let z = secs / 86400;
    let rem = secs % 86400;
    lemma_fundamental_div_mod(secs, 86400);
    lemma_epoch_days_limit();
    lemma_div_is_ordered(secs, TIMESTAMP_LIMIT - 1, 86400);
    lemma_civil_of_days(z);
    let (y, m, d) = civil_of_days(z);
    let s = ts_repr(secs);
    assert(1970 <= y <= 9999 && 1 <= m <= 12 && 1 <= d <= 31);
    lemma_digits4(y);
    lemma_digits2(m);
    lemma_digits2(d);
    lemma_time_of_day(rem);
    assert(ts_shape_ok(s));
    assert(d4val(s, 0) == y);
    assert(d2val(s, 5) == m);
    assert(d2val(s, 8) == d);
    assert(d2val(s, 11) == rem / 3600);
    assert(d2val(s, 14) == (rem / 60) % 60);
    assert(d2val(s, 17) == rem % 60);
    assert(parse_ts(s) == Option::Some(epoch_days(y, m, d) * 86400 + rem));
}

/// Append the canonical form of a representable timestamp.
pub fn push_ts(out: &mut Vec<u8>, t: Timestamp)
    requires
        t.wf(),
    ensures
        final(out)@ == old(out)@ + ts_repr(t.secs as int),
{
    let secs = t.secs as u64;
    let z = secs / 86400;
    let rem = secs % 86400;
    proof {
        lemma_epoch_days_limit();
        lemma_div_is_ordered(secs as int, TIMESTAMP_LIMIT - 1, 86400);
    }
    let (y, m, d) = civil_from_days(z);
    let hh = rem / 3600;
    let mi = (rem / 60) % 60;
    let ss = rem % 60;
    out.push((48 + y / 1000) as u8);
    out.push((48 + (y / 100) % 10) as u8);
    out.push((48 + (y / 10) % 10) as u8);
    out.push((48 + y % 10) as u8);
    out.push(45u8);
    out.push((48 + m / 10) as u8);
    out.push((48 + m % 10) as u8);
    out.push(45u8);
    out.push((48 + d / 10) as u8);
    out.push((48 + d % 10) as u8);
    out.push(84u8);
    out.push((48 + hh / 10) as u8);
    out.push((48 + hh % 10) as u8);
    out.push(58u8);
    out.push((48 + mi / 10) as u8);
    out.push((48 + mi % 10) as u8);
    out.push(58u8);
    out.push((48 + ss / 10) as u8);
    out.push((48 + ss % 10) as u8);
    out.push(90u8);
    proof {
        assert(final(out)@ =~= old(out)@ + ts_repr(t.secs as int));
    }
}

/// Read the timestamp field spanning the first `end` bytes of `line`.
fn parse_ts_at(line: &Vec<u8>, end: usize) -> (r: Option<i64>)
    requires
        end <= line@.len(),
    ensures
        match r {
            Option::Some(v) => parse_ts(line@.subrange(0, end as int)) == Option::Some(v as int)
                && 0 <= v < TIMESTAMP_LIMIT,
            Option::None => parse_ts(line@.subrange(0, end as int)) is None,
        },
{
    let ghost s = line@.subrange(0, end as int);
    proof {
        assert(forall|k: int| 0 <= k < end ==> s[k] == line@[k]);
    }
    if end < 20 {
        proof {
            assert(!ts_shape_ok(s));
        }
        return None;
    }
    let mut k: usize = 0;
    while k < 19
        invariant
            k <= 19,
            20 <= end <= line@.len(),
            s == line@.subrange(0, end as int),
            forall|j: int|
                0 <= j < k ==> (if j == 4 || j == 7 {
                    line@[j] == 45u8
                } else if j == 10 {
                    line@[j] == 84u8
                } else if j == 13 || j == 16 {
                    line@[j] == 58u8
                } else {
                    is_digit(line@[j])
                }),
        decreases 19 - k,
    {
        let b = line[k];
        let ok = if k == 4 || k == 7 {
            b == 45u8
        } else if k == 10 {
            b == 84u8
        } else if k == 13 || k == 16 {
            b == 58u8
        } else {
            48 <= b && b <= 57
        };
        if !ok {
            proof {
                assert(s[k as int] == line@[k as int]);
                assert(!ts_shape_ok(s));
            }
            return None;
        }
        k = k + 1;
    }
    if end == 20 {
        if line[19] != 90u8 {
            proof {
                assert(!ts_shape_ok(s));
            }
            return None;
        }
        proof {
            assert(ts_shape_ok(s));
        }
    } else {
        if line[19] != 46u8 {
            proof {
                assert(!ts_shape_ok(s));
            }
            return None;
        }
        if end < 22 {
            proof {
                assert(!ts_shape_ok(s));
            }
            return None;
        }
        if line[end - 1] != 90u8 {
            proof {
                assert(s[s.len() - 1] == line@[end - 1]);
                assert(!ts_shape_ok(s));
            }
            return None;
        }
        let mut f: usize = 20;
        while f < end - 1
            invariant
                20 <= f <= end - 1,
                22 <= end <= line@.len(),
                s == line@.subrange(0, end as int),
                forall|j: int| 20 <= j < f ==> is_digit(line@[j]),
            decreases end - 1 - f,
        {
            let b = line[f];
            if b < 48 || b > 57 {
                proof {
                    assert(s[f as int] == line@[f as int]);
                    assert(!is_digit(s[f as int]));
                    assert(!ts_shape_ok(s));
                }
                return None;
            }
            f = f + 1;
        }
        proof {
            assert(forall|j: int| 20 <= j < s.len() - 1 ==> is_digit(#[trigger] s[j]));
            assert(ts_shape_ok(s));
        }
    }
    let y = 1000 * ((line[0] - 48) as u64) + 100 * ((line[1] - 48) as u64) + 10 * ((line[2]
        - 48) as u64) + (line[3] - 48) as u64;
    let m = 10 * ((line[5] - 48) as u64) + (line[6] - 48) as u64;
    let d = 10 * ((line[8] - 48) as u64) + (line[9] - 48) as u64;
    let hh = 10 * ((line[11] - 48) as u64) + (line[12] - 48) as u64;
    let mm = 10 * ((line[14] - 48) as u64) + (line[15] - 48) as u64;
    let ss = 10 * ((line[17] - 48) as u64) + (line[18] - 48) as u64;
    proof {
        assert(y == d4val(s, 0) && m == d2val(s, 5) && d == d2val(s, 8));
        assert(hh == d2val(s, 11) && mm == d2val(s, 14) && ss == d2val(s, 17));
    }
    if y < 1970 {
        return None;
    }
    if m < 1 || m > 12 {
        return None;
    }
    let dim = crate::calendar::month_days(y, m);
    if d < 1 || d > dim {
        return None;
    }
    if hh >= 24 || mm >= 60 || ss >= 60 {
        return None;
    }
    let z = days_from_civil(y, m, d);
    proof {
        lemma_epoch_days_bound(y as int, m as int, d as int);
        lemma_epoch_days_limit();
    }
    let secs = z * 86400 + hh * 3600 + mm * 60 + ss;
    Some(secs as i64)
}

pub open spec fn pow10(k: int) -> int
    decreases k,
{
    if k <= 0 {
        1
    } else {
        10 * pow10(k - 1)
    }
}

/// Decimal digits of a non-negative number, most significant first, no
/// leading zeros.
pub open spec fn udec(n: int) -> Seq<u8>
    decreases n,
{
    if n < 10 {
        seq![digit_of(n)]
    } else {
        udec(n / 10).push(digit_of(n % 10))
    }
}

/// Decimal form of a signed number: a minus sign for negatives, then the
/// digits of the magnitude.
pub open spec fn idec(n: int) -> Seq<u8> {
    if n < 0 {
        seq![45u8] + udec(-n)
    } else {
        udec(n)
    }
}

/// Digits only, and no leading zero: each value has exactly one such form.
pub open spec fn is_canon_udec(s: Seq<u8>) -> bool {
    &&& s.len() > 0
    &&& forall|k: int| 0 <= k < s.len() ==> is_digit(#[trigger] s[k])
    &&& s.len() > 1 ==> s[0] != 48u8
}

pub open spec fn uval(s: Seq<u8>) -> int
    decreases s.len(),
{
    if s.len() == 0 {
        0
    } else {
        uval(s.drop_last()) * 10 + digit_val(s.last())
    }
}

/// The value an `AddSeconds` field denotes, `None` if the bytes are not the
/// canonical decimal form of an `i64`.
pub open spec fn parse_int_field(s: Seq<u8>) -> Option<int> {
    if s.len() > 0 && s[0] == 45u8 {
        let t = s.skip(1);
        if is_canon_udec(t) && uval(t) != 0 && uval(t) <= 0x8000_0000_0000_0000 {
            Option::Some(-uval(t))
        } else {
            Option::None
        }
    } else if is_canon_udec(s) && uval(s) <= 0x7fff_ffff_ffff_ffff {
        Option::Some(uval(s))
    } else {
        Option::None
    }
}

/// The digits of a non-negative number are canonical and denote it.
pub proof fn lemma_udec_canon(n: int)
    requires
        0 <= n,
    ensures
        is_canon_udec(udec(n)),
        uval(udec(n)) == n,
        n >= 1 ==> udec(n)[0] != 48u8,
    decreases n,
{
    if n < 10 {
        assert(udec(n) == seq![digit_of(n)]);
        assert(udec(n).drop_last() =~= Seq::<u8>::empty());
        assert(uval(Seq::<u8>::empty()) == 0);
        assert(udec(n).last() == digit_of(n));
    } else {
        lemma_fundamental_div_mod(n, 10);
        lemma_udec_canon(n / 10);
        assert(udec(n).drop_last() =~= udec(n / 10));
        assert(udec(n).last() == digit_of(n % 10));
        assert(uval(udec(n)) == uval(udec(n / 10)) * 10 + digit_val(digit_of(n % 10)));
        assert(udec(n)[0] == udec(n / 10)[0]);
    }
}

/// A canonical digit string of `k` digits denotes at least `10^(k-1)`.
proof fn lemma_uval_lower(s: Seq<u8>)
    requires
        is_canon_udec(s),
        s.len() >= 2,
    ensures
        uval(s) >= pow10(s.len() - 1),
    decreases s.len(),
{
    if s.len() == 2 {
        assert(digit_val(s[0]) >= 1);
        assert(uval(s.drop_last()) == digit_val(s[0])) by {
            assert(s.drop_last().drop_last() =~= Seq::<u8>::empty());
            assert(uval(Seq::<u8>::empty()) == 0);
            assert(s.drop_last().last() == s[0]);
        }
        assert(pow10(1) == 10 * pow10(0));
        assert(uval(s) == uval(s.drop_last()) * 10 + digit_val(s.last()));
        assert(digit_val(s.last()) >= 0);
    } else {
        assert(is_canon_udec(s.drop_last())) by {
            assert(forall|k: int|
                0 <= k < s.drop_last().len() ==> is_digit(#[trigger] s.drop_last()[k]));
        }
        lemma_uval_lower(s.drop_last());
        assert(digit_val(s.last()) >= 0);
    }
}

/// `k` digits denote less than `10^k`.
proof fn lemma_uval_upper(s: Seq<u8>)
    requires
        forall|k: int| 0 <= k < s.len() ==> is_digit(#[trigger] s[k]),
    ensures
        0 <= uval(s) < pow10(s.len() as int),
    decreases s.len(),
{
    if s.len() > 0 {
        assert(forall|k: int|
            0 <= k < s.drop_last().len() ==> is_digit(#[trigger] s.drop_last()[k]));
        lemma_uval_upper(s.drop_last());
        assert(digit_val(s.last()) <= 9);
    }
}

/// Rendering an `i64` yields bytes that parse back to it.
pub proof fn lemma_int_round_trip(n: int)
    requires
        i64::MIN <= n <= i64::MAX,
    ensures
        parse_int_field(idec(n)) == Option::Some(n),
{
    if n >= 0 {
        lemma_udec_canon(n);
        assert(udec(n)[0] != 45u8);
    } else {
        lemma_udec_canon(-n);
        let s = idec(n);
        assert(s[0] == 45u8);
        assert(s.skip(1) =~= udec(-n));
    }
}

/// Append the decimal digits of a number.
fn push_u64_dec(out: &mut Vec<u8>, n: u64)
    ensures
        final(out)@ == old(out)@ + udec(n as int),
    decreases n,
{
    if n < 10 {
        out.push(48 + n as u8);
        proof {
            assert(final(out)@ =~= old(out)@ + udec(n as int));
        }
    } else {
        push_u64_dec(out, n / 10);
        out.push(48 + (n % 10) as u8);
        proof {
            assert(final(out)@ =~= old(out)@ + udec(n as int));
        }
    }
}

/// Append the decimal form of a signed number.
pub fn push_i64_dec(out: &mut Vec<u8>, n: i64)
    ensures
        final(out)@ == old(out)@ + idec(n as int),
{
    if n >= 0 {
        push_u64_dec(out, n as u64);
    } else {
        out.push(45u8);
        let mag: u64 = if n == i64::MIN {
            0x8000_0000_0000_0000u64
        } else {
            (-n) as u64
        };
        push_u64_dec(out, mag);
        proof {
            assert(final(out)@ =~= old(out)@ + idec(n as int));
        }
    }
}

/// Read the number field spanning `start..end` of `line`.
fn parse_int_range(line: &Vec<u8>, start: usize, end: usize) -> (r: Option<i64>)
    requires
        start <= end <= line@.len(),
    ensures
        match r {
            Option::Some(v) => parse_int_field(line@.subrange(start as int, end as int))
                == Option::Some(v as int),
            Option::None => parse_int_field(line@.subrange(start as int, end as int)) is None,
        },
{
    let ghost s = line@.subrange(start as int, end as int);
    proof {
        assert(forall|k: int| 0 <= k < s.len() ==> s[k] == line@[start + k]);
    }
    if start == end {
        return None;
    }
    let neg = line[start] == 45u8;
    let dstart = if neg {
        start + 1
    } else {
        start
    };
    let ghost t = line@.subrange(dstart as int, end as int);
    proof {
        if neg {
            assert(t =~= s.skip(1));
        } else {
            assert(t =~= s);
        }
    }
    if dstart == end {
        return None;
    }
    if end - dstart > 1 && line[dstart] == 48u8 {
        return None;
    }
    if end - dstart >= 20 {
        proof {
            if is_canon_udec(t) {
                lemma_uval_lower(t);
                lemma_pow10_mono(19, t.len() - 1);
                lemma_pow10_values();
            }
        }
        return None;
    }
    proof {
        lemma_pow10_values();
        lemma_pow10_mono(0, 19);
        assert(t.subrange(0, 0) =~= Seq::<u8>::empty());
        assert(uval(Seq::<u8>::empty()) == 0);
        assert(forall|k: int| 0 <= k < t.len() ==> t[k] == line@[dstart + k]);
    }
    let mut acc: u64 = 0;
    let mut i = dstart;
    while i < end
        invariant
            start <= dstart <= i <= end <= line@.len(),
            end - dstart < 20,
            s == line@.subrange(start as int, end as int),
            t == line@.subrange(dstart as int, end as int),
            neg ==> s.len() > 0 && s[0] == 45u8 && dstart == start + 1 && t == s.skip(1),
            !neg ==> dstart == start && t == s && (s.len() > 0 ==> s[0] != 45u8),
            t.len() > 1 ==> t[0] != 48u8,
            forall|k: int| 0 <= k < i - dstart ==> is_digit(#[trigger] t[k]),
            acc == uval(t.subrange(0, i - dstart)),
            acc < pow10(i - dstart),
            pow10(i - dstart) <= pow10(19),
            pow10(19) == 10000000000000000000,
        decreases end - i,
    {
        let b = line[i];
        if b < 48 || b > 57 {
            proof {
                assert(t[i - dstart] == line@[i as int]);
                assert(!is_canon_udec(t));
            }
            return None;
        }
        proof {
            assert(t.subrange(0, i - dstart + 1).drop_last() =~= t.subrange(0, i - dstart));
            assert(t.subrange(0, i - dstart + 1).last() == line@[i as int]);
            lemma_pow10_mono(i - dstart + 1, 19);
            lemma_pow10_mono(i - dstart, 18);
            lemma_pow10_mono(18, 19);
        }
        acc = acc * 10 + (b - 48) as u64;
        i = i + 1;
    }
    proof {
        assert(t.subrange(0, t.len() as int) =~= t);
        assert(is_canon_udec(t));
    }
    if neg {
        if acc == 0 {
            return None;
        }
        if acc > 0x8000_0000_0000_0000u64 {
            return None;
        }
        if acc == 0x8000_0000_0000_0000u64 {
            Some(i64::MIN)
        } else {
            Some(-(acc as i64))
        }
    } else {
        if acc > 0x7fff_ffff_ffff_ffffu64 {
            return None;
        }
        Some(acc as i64)
    }
}

proof fn lemma_pow10_mono(a: int, b: int)
    requires
        a <= b,
    ensures
        pow10(a) <= pow10(b),
        pow10(a) >= 1,
    decreases b - a,
{
    if a < b {
        lemma_pow10_mono(a, b - 1);
    } else {
        lemma_pow10_pos(a);
    }
}

proof fn lemma_pow10_pos(a: int)
    ensures
        pow10(a) >= 1,
    decreases a,
{
    if a > 0 {
        lemma_pow10_pos(a - 1);
    }
}

proof fn lemma_pow10_values()
    ensures
        pow10(19) == 10000000000000000000,
{
    reveal_with_fuel(pow10, 21);
}

/// The literal token a record type is written as.
pub open spec fn token_repr(t: LogType) -> Seq<u8> {
    match t {
        LogType::Work => seq![87u8, 111u8, 114u8, 107u8],
        LogType::Break => seq![66u8, 114u8, 101u8, 97u8, 107u8],
        LogType::BreakAdd => seq![66u8, 114u8, 101u8, 97u8, 107u8, 65u8, 100u8, 100u8],
        LogType::Unknown => seq![85u8, 110u8, 107u8, 110u8, 111u8, 119u8, 110u8],
    }
}

/// The record type a token denotes, `None` for any other bytes.
pub open spec fn token_of(s: Seq<u8>) -> Option<LogType> {
    if s == token_repr(LogType::Work) {
        Option::Some(LogType::Work)
    } else if s == token_repr(LogType::Break) {
        Option::Some(LogType::Break)
    } else if s == token_repr(LogType::BreakAdd) {
        Option::Some(LogType::BreakAdd)
    } else if s == token_repr(LogType::Unknown) {
        Option::Some(LogType::Unknown)
    } else {
        Option::None
    }
}

/// The first position at or after `i` holding byte `b`, the length if none.
pub open spec fn find_from(s: Seq<u8>, i: int, b: u8) -> int
    decreases s.len() - i,
{
    if i >= s.len() {
        s.len() as int
    } else if s[i] == b {
        i
    } else {
        find_from(s, i + 1, b)
    }
}

proof fn lemma_find_from_hits(s: Seq<u8>, i: int, j: int, b: u8)
    requires
        0 <= i <= j < s.len(),
        forall|k: int| i <= k < j ==> s[k] != b,
        s[j] == b,
    ensures
        find_from(s, i, b) == j,
    decreases j - i,
{
    if i < j {
        lemma_find_from_hits(s, i + 1, j, b);
    }
}

proof fn lemma_find_from_misses(s: Seq<u8>, i: int, b: u8)
    requires
        0 <= i,
        forall|k: int| i <= k < s.len() ==> s[k] != b,
    ensures
        find_from(s, i, b) == s.len(),
    decreases s.len() - i,
{
    if i < s.len() {
        lemma_find_from_misses(s, i + 1, b);
    }
}

/// The bytes of one data row, without the terminating newline: the
/// timestamp, the type token, and the optional correction, comma separated.
pub open spec fn row_repr(r: LogRecord) -> Seq<u8> {
    ts_repr(r.time.secs as int) + seq![44u8] + token_repr(r.log_type) + seq![44u8] + (
    match r.add_seconds {
        Option::Some(v) => idec(v as int),
        Option::None => Seq::empty(),
    })
}

/// The record a row of the file denotes, `None` if the row does not fit the
/// grammar (such a row is skipped when loading). The timestamp field runs
/// to the first comma, so it may carry a fractional-seconds suffix.
pub open spec fn parse_row(line: Seq<u8>) -> Option<LogRecord> {
    let c1 = find_from(line, 0, 44u8);
    if c1 >= line.len() {
        Option::None
    } else if parse_ts(line.subrange(0, c1)) is None {
        Option::None
    } else {
        let secs = parse_ts(line.subrange(0, c1))->Some_0;
        let c = find_from(line, c1 + 1, 44u8);
        if c >= line.len() {
            Option::None
        } else {
            match token_of(line.subrange(c1 + 1, c)) {
                Option::None => Option::None,
                Option::Some(lt) => {
                    let rest = line.subrange(c + 1, line.len() as int);
                    if rest.len() == 0 {
                        Option::Some(
                            LogRecord {
                                time: Timestamp { secs: secs as i64 },
                                log_type: lt,
                                add_seconds: Option::None,
                            },
                        )
                    } else {
                        match parse_int_field(rest) {
                            Option::Some(v) => Option::Some(
                                LogRecord {
                                    time: Timestamp { secs: secs as i64 },
                                    log_type: lt,
                                    add_seconds: Option::Some(v as i64),
                                },
                            ),
                            Option::None => Option::None,
                        }
                    }
                },
            }
        }
    }
}

fn push_token(out: &mut Vec<u8>, t: LogType)
    ensures
        final(out)@ == old(out)@ + token_repr(t),
{
    match t {
        LogType::Work => {
            out.push(87u8);
            out.push(111u8);
            out.push(114u8);
            out.push(107u8);
        },
        LogType::Break => {
            out.push(66u8);
            out.push(114u8);
            out.push(101u8);
            out.push(97u8);
            out.push(107u8);
        },
        LogType::BreakAdd => {
            out.push(66u8);
            out.push(114u8);
            out.push(101u8);
            out.push(97u8);
            out.push(107u8);
            out.push(65u8);
            out.push(100u8);
            out.push(100u8);
        },
        LogType::Unknown => {
            out.push(85u8);
            out.push(110u8);
            out.push(107u8);
            out.push(110u8);
            out.push(111u8);
            out.push(119u8);
            out.push(110u8);
        },
    }
    proof {
        assert(final(out)@ =~= old(out)@ + token_repr(t));
    }
}

/// Append one data row and its terminating newline.
pub fn push_row(out: &mut Vec<u8>, r: LogRecord)
    requires
        r.wf(),
    ensures
        final(out)@ == old(out)@ + row_repr(r) + seq![10u8],
{
    push_ts(out, r.time);
    out.push(44u8);
    push_token(out, r.log_type);
    out.push(44u8);
    match r.add_seconds {
        Some(v) => {
            push_i64_dec(out, v);
        },
        None => {},
    }
    out.push(10u8);
    proof {
        assert(final(out)@ =~= old(out)@ + row_repr(r) + seq![10u8]);
    }
}

/// Read the record a full line denotes.
pub fn parse_record(line: &Vec<u8>) -> (r: Option<LogRecord>)
    ensures
        r == parse_row(line@),
        r matches Some(rec) ==> rec.wf(),
{
    proof {
        if parse_row(line@) is Some {
            lemma_parse_row_wf(line@);
        }
    }
    let n = line.len();
    let mut c1: usize = 0;
    while c1 < n && line[c1] != 44u8
        invariant
            c1 <= n == line@.len(),
            forall|k: int| 0 <= k < c1 ==> line@[k] != 44u8,
        decreases n - c1,
    {
        c1 = c1 + 1;
    }
    proof {
        if c1 < n {
            lemma_find_from_hits(line@, 0, c1 as int, 44u8);
        } else {
            lemma_find_from_misses(line@, 0, 44u8);
        }
    }
    if c1 >= n {
        return None;
    }
    let secs = match parse_ts_at(line, c1) {
        Some(v) => v,
        None => {
            return None;
        },
    };
    let t0 = c1 + 1;
    let mut c: usize = t0;
    while c < n && line[c] != 44u8
        invariant
            t0 == c1 + 1,
            c1 < n,
            t0 <= c <= n == line@.len(),
            forall|k: int| t0 <= k < c ==> line@[k] != 44u8,
        decreases n - c,
    {
        c = c + 1;
    }
    proof {
        if c < n {
            lemma_find_from_hits(line@, t0 as int, c as int, 44u8);
        } else {
            lemma_find_from_misses(line@, t0 as int, 44u8);
        }
    }
    if c >= n {
        return None;
    }
    let tl = c - t0;
    let ghost tok = line@.subrange(t0 as int, c as int);
    proof {
        assert(forall|k: int| 0 <= k < tok.len() ==> tok[k] == line@[t0 + k]);
    }
    let lt: LogType = if tl == 4 && line[t0] == 87 && line[t0 + 1] == 111 && line[t0 + 2] == 114
        && line[t0 + 3] == 107 {
        proof {
            assert(tok =~= token_repr(LogType::Work));
        }
        LogType::Work
    } else if tl == 5 && line[t0] == 66 && line[t0 + 1] == 114 && line[t0 + 2] == 101 && line[t0
        + 3] == 97 && line[t0 + 4] == 107 {
        proof {
            assert(tok =~= token_repr(LogType::Break));
        }
        LogType::Break
    } else if tl == 8 && line[t0] == 66 && line[t0 + 1] == 114 && line[t0 + 2] == 101 && line[t0
        + 3] == 97 && line[t0 + 4] == 107 && line[t0 + 5] == 65 && line[t0 + 6] == 100 && line[t0
        + 7] == 100 {
        proof {
            assert(tok =~= token_repr(LogType::BreakAdd));
        }
        LogType::BreakAdd
    } else if tl == 7 && line[t0] == 85 && line[t0 + 1] == 110 && line[t0 + 2] == 107 && line[t0
        + 3] == 110 && line[t0 + 4] == 111 && line[t0 + 5] == 119 && line[t0 + 6] == 110 {
        proof {
            assert(tok =~= token_repr(LogType::Unknown));
        }
        LogType::Unknown
    } else {
        proof {
            assert(token_of(tok) is None) by {
                assert(tok.len() == c - t0);
                if tok == token_repr(LogType::Work) {
                    assert(tok[0] == 87 && tok[1] == 111 && tok[2] == 114 && tok[3] == 107);
                }
                if tok == token_repr(LogType::Break) {
                    assert(tok[0] == 66 && tok[1] == 114 && tok[2] == 101 && tok[3] == 97 && tok[4]
                        == 107);
                }
                if tok == token_repr(LogType::BreakAdd) {
                    assert(tok[0] == 66 && tok[1] == 114 && tok[2] == 101 && tok[3] == 97 && tok[4]
                        == 107 && tok[5] == 65 && tok[6] == 100 && tok[7] == 100);
                }
                if tok == token_repr(LogType::Unknown) {
                    assert(tok[0] == 85 && tok[1] == 110 && tok[2] == 107 && tok[3] == 110 && tok[4]
                        == 111 && tok[5] == 119 && tok[6] == 110);
                }
            }
        }
        return None;
    };
    if c + 1 == n {
        proof {
            assert(line@.subrange(c as int + 1, n as int).len() == 0);
        }
        return Some(LogRecord { time: Timestamp { secs }, log_type: lt, add_seconds: None });
    }
    match parse_int_range(line, c + 1, n) {
        Some(v) => Some(
            LogRecord { time: Timestamp { secs }, log_type: lt, add_seconds: Some(v) },
        ),
        None => None,
    }
}

/// Whatever parses as a row is a well-formed record.
pub proof fn lemma_parse_row_wf(line: Seq<u8>)
    requires
        parse_row(line) is Some,
    ensures
        parse_row(line)->Some_0.wf(),
{
    lemma_parse_ts_in_range(line.subrange(0, find_from(line, 0, 44u8)));
}

/// The lines of a byte stream: maximal newline-free chunks; a trailing
/// newline ends the last line rather than opening an empty one.
pub open spec fn split_lines(d: Seq<u8>) -> Seq<Seq<u8>>
    decreases d.len(),
{
    if d.len() == 0 {
        Seq::empty()
    } else {
        let i = find_from(d, 0, 10u8);
        if i < 0 || i >= d.len() {
            seq![d]
        } else {
            seq![d.subrange(0, i)] + split_lines(d.subrange(i + 1, d.len() as int))
        }
    }
}

/// The records the data lines (all lines but the header) denote, row grammar
/// failures skipped.
pub open spec fn parsed_from(ls: Seq<Seq<u8>>, i: int) -> Seq<LogRecord>
    decreases ls.len() - i,
{
    if i < 0 || i >= ls.len() {
        Seq::empty()
    } else {
        match parse_row(ls[i]) {
            Option::Some(r) => seq![r] + parsed_from(ls, i + 1),
            Option::None => parsed_from(ls, i + 1),
        }
    }
}

/// How many data lines failed the row grammar and were skipped.
pub open spec fn skipped_from(ls: Seq<Seq<u8>>, i: int) -> int
    decreases ls.len() - i,
{
    if i < 0 || i >= ls.len() {
        0
    } else {
        match parse_row(ls[i]) {
            Option::Some(r) => skipped_from(ls, i + 1),
            Option::None => 1 + skipped_from(ls, i + 1),
        }
    }
}

/// The records a whole file denotes: every line after the header row that
/// fits the row grammar.
pub open spec fn parse_file_records(d: Seq<u8>) -> Seq<LogRecord> {
    parsed_from(split_lines(d), 1)
}

pub open spec fn parse_file_skipped(d: Seq<u8>) -> int {
    skipped_from(split_lines(d), 1)
}

/// The header row `Time,LogType,AddSeconds`, without its newline.
pub open spec fn header_line() -> Seq<u8> {
    seq![
        84u8, 105u8, 109u8, 101u8, 44u8, 76u8, 111u8, 103u8, 84u8, 121u8, 112u8, 101u8, 44u8,
        65u8, 100u8, 100u8, 83u8, 101u8, 99u8, 111u8, 110u8, 100u8, 115u8,
    ]
}

/// The newline-terminated rows of the records from position `i` on.
pub open spec fn rows_from(s: Seq<LogRecord>, i: int) -> Seq<u8>
    decreases s.len() - i,
{
    if i < 0 || i >= s.len() {
        Seq::empty()
    } else {
        row_repr(s[i]) + seq![10u8] + rows_from(s, i + 1)
    }
}

/// The full rewrite of a log: the header row, then one row per record in
/// order.
pub open spec fn file_repr(s: Seq<LogRecord>) -> Seq<u8> {
    header_line() + seq![10u8] + rows_from(s, 0)
}

/// Append the header row and its newline.
pub fn push_header(out: &mut Vec<u8>)
    ensures
        final(out)@ == old(out)@ + header_line() + seq![10u8],
{
    out.push(84u8);
    out.push(105u8);
    out.push(109u8);
    out.push(101u8);
    out.push(44u8);
    out.push(76u8);
    out.push(111u8);
    out.push(103u8);
    out.push(84u8);
    out.push(121u8);
    out.push(112u8);
    out.push(101u8);
    out.push(44u8);
    out.push(65u8);
    out.push(100u8);
    out.push(100u8);
    out.push(83u8);
    out.push(101u8);
    out.push(99u8);
    out.push(111u8);
    out.push(110u8);
    out.push(100u8);
    out.push(115u8);
    out.push(10u8);
    proof {
        assert(final(out)@ =~= old(out)@ + header_line() + seq![10u8]);
    }
}

/// The lines of a byte stream, each line its own vector.
pub fn split_lines_vec(data: &Vec<u8>) -> (r: Vec<Vec<u8>>)
    ensures
        r@.len() == split_lines(data@).len(),
        forall|k: int| 0 <= k < r@.len() ==> #[trigger] r@[k]@ == split_lines(data@)[k],
{
    let n = data.len();
    let mut done: Vec<Vec<u8>> = Vec::new();
    let mut cur: Vec<u8> = Vec::new();
    let ghost mut cs: int = 0;
    let mut i: usize = 0;
    proof {
        assert(data@.subrange(0, n as int) =~= data@);
        assert(done@.map_values(|v: Vec<u8>| v@) =~= Seq::<Seq<u8>>::empty());
        assert(cur@ =~= data@.subrange(0, 0));
    }
    while i < n
        invariant
            n == data@.len(),
            0 <= cs <= i <= n,
            cur@ == data@.subrange(cs, i as int),
            forall|k: int| cs <= k < i ==> data@[k] != 10u8,
            split_lines(data@) =~= done@.map_values(|v: Vec<u8>| v@) + split_lines(
                data@.subrange(cs, n as int),
            ),
            forall|k: int|
                0 <= k < done@.len() ==> #[trigger] done@[k]@ == split_lines(data@)[k],
        decreases n - i,
    {
        let b = data[i];
        if b == 10u8 {
            proof {
                let tail = data@.subrange(cs, n as int);
                assert(forall|k: int| 0 <= k < tail.len() ==> tail[k] == data@[cs + k]);
                lemma_find_from_hits(tail, 0, i - cs, 10u8);
                assert(tail.subrange(0, i - cs) =~= data@.subrange(cs, i as int));
                assert(tail.subrange(i - cs + 1, tail.len() as int) =~= data@.subrange(
                    i + 1,
                    n as int,
                ));
                assert(split_lines(tail) == seq![cur@] + split_lines(
                    data@.subrange(i + 1, n as int),
                ));
                assert(done@.push(cur).map_values(|v: Vec<u8>| v@) =~= done@.map_values(
                    |v: Vec<u8>| v@,
                ).push(cur@));
            }
            done.push(cur);
            cur = Vec::new();
            proof {
                cs = i + 1;
                assert(cur@ =~= data@.subrange(cs, i + 1));
            }
        } else {
            cur.push(b);
            proof {
                assert(cur@ =~= data@.subrange(cs, i + 1));
            }
        }
        i = i + 1;
    }
    if cur.len() > 0 {
        proof {
            let tail = data@.subrange(cs, n as int);
            assert(forall|k: int| 0 <= k < tail.len() ==> tail[k] == data@[cs + k]);
            lemma_find_from_misses(tail, 0, 10u8);
            assert(split_lines(tail) == seq![tail]);
            assert(tail =~= cur@);
            assert(done@.push(cur).map_values(|v: Vec<u8>| v@) =~= done@.map_values(
                |v: Vec<u8>| v@,
            ).push(cur@));
        }
        done.push(cur);
    } else {
        proof {
            assert(data@.subrange(cs, n as int).len() == 0);
        }
    }
    done
}

/// The bytes of a rendered timestamp: decimal digits and the four
/// separators, nothing else.
proof fn lemma_ts_repr_bytes(secs: int)
    requires
        0 <= secs < TIMESTAMP_LIMIT,
    ensures
        forall|k: int|
            0 <= k < 20 ==> (is_digit(#[trigger] ts_repr(secs)[k]) || ts_repr(secs)[k] == 45u8
                || ts_repr(secs)[k] == 84u8 || ts_repr(secs)[k] == 58u8 || ts_repr(secs)[k]
                == 90u8),
{
    let z = secs / 86400;
    let rem = secs % 86400;
    lemma_fundamental_div_mod(secs, 86400);
    lemma_epoch_days_limit();
    lemma_div_is_ordered(secs, TIMESTAMP_LIMIT - 1, 86400);
    lemma_civil_of_days(z);
    let (y, m, d) = civil_of_days(z);
    lemma_digits4(y);
    lemma_digits2(m);
    lemma_digits2(d);
    lemma_time_of_day(rem);
}

/// Every byte of a well-formed row is printable: no newline hides in it.
proof fn lemma_row_no_nl(r: LogRecord)
    requires
        r.wf(),
    ensures
        forall|k: int| 0 <= k < row_repr(r).len() ==> #[trigger] row_repr(r)[k] != 10u8,
{
    let secs = r.time.secs as int;
    lemma_ts_repr_bytes(secs);
    match r.add_seconds {
        Option::Some(v) => {
            if v >= 0 {
                lemma_udec_canon(v as int);
            } else {
                lemma_udec_canon(-(v as int));
            }
        },
        Option::None => {},
    }
    assert forall|k: int| 0 <= k < row_repr(r).len() implies #[trigger] row_repr(r)[k]
        != 10u8 by {
        let row = row_repr(r);
        let ts = ts_repr(secs);
        let tok = token_repr(r.log_type);
        if k < 20 {
            assert(row[k] == ts[k]);
        } else if k == 20 {
        } else if k < 21 + tok.len() {
            assert(row[k] == tok[k - 21]);
        } else if k == 21 + tok.len() {
        } else {
            let rest = match r.add_seconds {
                Option::Some(v) => idec(v as int),
                Option::None => Seq::<u8>::empty(),
            };
            assert(row[k] == rest[k - 22 - tok.len()]);
            match r.add_seconds {
                Option::Some(v) => {
                    if v >= 0 {
                        assert(is_digit(rest[k - 22 - tok.len()]));
                    } else {
                        if k - 22 - tok.len() > 0 {
                            assert(rest[k - 22 - tok.len()] == udec(-(v as int))[k - 23
                                - tok.len()]);
                            assert(is_digit(udec(-(v as int))[k - 23 - tok.len()]));
                        }
                    }
                },
                Option::None => {},
            }
        }
    }
}

/// Splitting at the newline that ends a newline-free line peels that line
/// off.
proof fn lemma_split_concat(line: Seq<u8>, rest: Seq<u8>)
    requires
        forall|k: int| 0 <= k < line.len() ==> #[trigger] line[k] != 10u8,
    ensures
        split_lines(line + seq![10u8] + rest) == seq![line] + split_lines(rest),
{
    let whole = line + seq![10u8] + rest;
    assert(whole.len() > 0);
    assert(forall|k: int| 0 <= k < line.len() ==> whole[k] == line[k]);
    assert(whole[line.len() as int] == 10u8);
    lemma_find_from_hits(whole, 0, line.len() as int, 10u8);
    assert(whole.subrange(0, line.len() as int) =~= line);
    assert(whole.subrange(line.len() as int + 1, whole.len() as int) =~= rest);
}

/// Prepending a line shifts parsing by one position.
proof fn lemma_parsed_shift(x: Seq<u8>, ls: Seq<Seq<u8>>, i: int)
    requires
        0 <= i,
    ensures
        parsed_from(seq![x] + ls, i + 1) == parsed_from(ls, i),
        skipped_from(seq![x] + ls, i + 1) == skipped_from(ls, i),
    decreases ls.len() - i,
{
    if i < ls.len() {
        assert((seq![x] + ls)[i + 1] == ls[i]);
        lemma_parsed_shift(x, ls, i + 1);
    }
}

/// The rendered rows of well-formed records parse back to exactly those
/// records, none skipped.
proof fn lemma_rows_parse(s: Seq<LogRecord>, i: int)
    requires
        0 <= i <= s.len(),
        forall|k: int| 0 <= k < s.len() ==> #[trigger] s[k].wf(),
    ensures
        parsed_from(split_lines(rows_from(s, i)), 0) == s.subrange(i, s.len() as int),
        skipped_from(split_lines(rows_from(s, i)), 0) == 0,
    decreases s.len() - i,
{
    if i == s.len() {
        assert(s.subrange(i, s.len() as int) =~= Seq::<LogRecord>::empty());
    } else {
        lemma_rows_parse(s, i + 1);
        lemma_row_no_nl(s[i]);
        lemma_row_round_trip(s[i]);
        let rest = rows_from(s, i + 1);
        assert(rows_from(s, i) =~= row_repr(s[i]) + seq![10u8] + rest);
        lemma_split_concat(row_repr(s[i]), rest);
        let ls = split_lines(rest);
        assert(split_lines(rows_from(s, i)) == seq![row_repr(s[i])] + ls);
        assert((seq![row_repr(s[i])] + ls)[0] == row_repr(s[i]));
        lemma_parsed_shift(row_repr(s[i]), ls, 0);
        assert(seq![s[i]] + s.subrange(i + 1, s.len() as int) =~= s.subrange(i, s.len() as int));
    }
}

/// Round trip: saving well-formed records and loading the bytes back yields
/// the same records in the same order, with nothing skipped.
pub proof fn lemma_file_round_trip(s: Seq<LogRecord>)
    requires
        forall|k: int| 0 <= k < s.len() ==> #[trigger] s[k].wf(),
    ensures
        parse_file_records(file_repr(s)) == s,
        parse_file_skipped(file_repr(s)) == 0,
{
    assert(forall|k: int| 0 <= k < header_line().len() ==> #[trigger] header_line()[k] != 10u8);
    lemma_split_concat(header_line(), rows_from(s, 0));
    lemma_rows_parse(s, 0);
    lemma_parsed_shift(header_line(), split_lines(rows_from(s, 0)), 0);
    assert(s.subrange(0, s.len() as int) =~= s);
}

/// Rendering a well-formed record yields a row that parses back to it.
pub proof fn lemma_row_round_trip(r: LogRecord)
    requires
        r.wf(),
    ensures
        parse_row(row_repr(r)) == Option::Some(r),
{
    let row = row_repr(r);
    let secs = r.time.secs as int;
    let tok = token_repr(r.log_type);
    let tl = tok.len() as int;
    lemma_ts_round_trip(secs);
    lemma_ts_repr_bytes(secs);
    assert(ts_repr(secs).len() == 20);
    assert(row.subrange(0, 20) =~= ts_repr(secs));
    assert forall|k: int| 0 <= k < 20 implies row[k] != 44u8 by {
        assert(row[k] == ts_repr(secs)[k]);
    }
    assert(row[20] == 44u8);
    lemma_find_from_hits(row, 0, 20, 44u8);
    assert forall|k: int| 21 <= k < 21 + tl implies row[k] != 44u8 by {
        assert(row[k] == tok[k - 21]);
    }
    assert(row[21 + tl] == 44u8);
    lemma_find_from_hits(row, 21, 21 + tl, 44u8);
    assert(row.subrange(21, 21 + tl) =~= tok);
    assert(token_of(tok) == Option::Some(r.log_type));
    let rest = row.subrange(21 + tl + 1, row.len() as int);
    match r.add_seconds {
        Option::Some(v) => {
            assert(rest =~= idec(v as int));
            lemma_int_round_trip(v as int);
        },
        Option::None => {
            assert(rest.len() == 0);
        },
    }
}

} // verus!
