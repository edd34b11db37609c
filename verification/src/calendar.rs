//! Gregorian calendar arithmetic over plain integers: the bridge between
//! epoch seconds and the civil dates written in the row file.
//!
//! Days are counted from 1970-01-01 (day 0); the supported range covers the
//! years 1970 through 9999.

use vstd::prelude::*;
use vstd::arithmetic::div_mod::{
    lemma_fundamental_div_mod, lemma_fundamental_div_mod_converse, lemma_mod_multiples_basic,
};

verus! {

pub open spec fn is_leap_year(y: int) -> bool {
    (y % 4 == 0 && y % 100 != 0) || y % 400 == 0
}

pub open spec fn days_in_year(y: int) -> int {
    if is_leap_year(y) {
        366
    } else {
        365
    }
}

/// Days of all years in [1970, y).
pub open spec fn days_before_year(y: int) -> int
    decreases y - 1970,
{
    if y <= 1970 {
        0
    } else {
        days_before_year(y - 1) + days_in_year(y - 1)
    }
}

pub open spec fn days_in_month(y: int, m: int) -> int {
    if m == 2 {
        if is_leap_year(y) {
            29
        } else {
            28
        }
    } else if m == 4 || m == 6 || m == 9 || m == 11 {
        30
    } else if 1 <= m <= 12 {
        31
    } else {
        0
    }
}

/// Days of all months in [1, m) of year y.
pub open spec fn days_before_month(y: int, m: int) -> int
    decreases m - 1,
{
    if m <= 1 {
        0
    } else {
        days_before_month(y, m - 1) + days_in_month(y, m - 1)
    }
}

pub open spec fn civil_date_valid(y: int, m: int, d: int) -> bool {
    1970 <= y <= 9999 && 1 <= m <= 12 && 1 <= d <= days_in_month(y, m)
}

/// Days since 1970-01-01 of the civil date y-m-d.
pub open spec fn epoch_days(y: int, m: int, d: int) -> int {
    days_before_year(y) + days_before_month(y, m) + (d - 1)
}

/// Leap years in [1, y), counted by the usual floor-division formula.
pub open spec fn leap_days(y: int) -> int {
    (y - 1) / 4 - (y - 1) / 100 + (y - 1) / 400
}

/// `y/d` grows by one exactly at the multiples of `d`.
proof fn lemma_div_step(y: int, d: int)
    requires
        y >= 1,
        d >= 1,
    ensures
        y / d - (y - 1) / d == if y % d == 0 {
            1int
        } else {
            0int
        },
{
    lemma_fundamental_div_mod(y, d);
    let q = y / d;
    let r = y % d;
    assert(y == q * d + r) by (nonlinear_arith)
        requires y == d * q + r;
    if r == 0 {
        assert(y - 1 == (q - 1) * d + (d - 1)) by (nonlinear_arith)
            requires y == q * d + r && r == 0;
        lemma_fundamental_div_mod_converse(y - 1, d, q - 1, d - 1);
    } else {
        assert(y - 1 == q * d + (r - 1));
        lemma_fundamental_div_mod_converse(y - 1, d, q, r - 1);
    }
}

/// A multiple of `a * b` is a multiple of `b`.
proof fn lemma_mod_factor(x: int, a: int, b: int)
    requires
        a >= 1,
        b >= 1,
        x % (a * b) == 0,
    ensures
        x % b == 0,
{
    assert(a * b >= 1) by (nonlinear_arith)
        requires a >= 1 && b >= 1;
    lemma_fundamental_div_mod(x, a * b);
    assert(x == (x / (a * b) * a) * b) by (nonlinear_arith)
        requires x == (a * b) * (x / (a * b));
    lemma_mod_multiples_basic(x / (a * b) * a, b);
}

/// Closed form of `days_before_year`, used to evaluate it at the end of the
/// supported range.
proof fn lemma_days_before_year_closed(y: int)
    requires
        1970 <= y <= 10000,
    ensures
        days_before_year(y) == 365 * (y - 1970) + leap_days(y) - 477,
    decreases y,
{
    if y == 1970 {
        assert(leap_days(1970) == 477);
    } else {
        lemma_days_before_year_closed(y - 1);
        lemma_div_step(y - 1, 4);
        lemma_div_step(y - 1, 100);
        lemma_div_step(y - 1, 400);
        if (y - 1) % 400 == 0 {
            lemma_mod_factor(y - 1, 4, 100);
            lemma_mod_factor(y - 1, 100, 4);
        }
        if (y - 1) % 100 == 0 {
            lemma_mod_factor(y - 1, 25, 4);
        }
    }
}

/// Number of days in the supported range: all of years 1970..=9999.
pub proof fn lemma_epoch_days_limit()
    ensures
        days_before_year(10000) == 2932897,
{
    lemma_days_before_year_closed(10000);
}

pub proof fn lemma_days_before_year_mono(y1: int, y2: int)
    requires
        y1 <= y2,
    ensures
        days_before_year(y1) <= days_before_year(y2),
    decreases y2 - y1,
{
    if y1 < y2 {
        lemma_days_before_year_mono(y1, y2 - 1);
    }
}

/// A year's months sum to the year's days.
pub proof fn lemma_months_fill_year(y: int)
    ensures
        days_before_month(y, 13) == days_in_year(y),
{
    reveal_with_fuel(days_before_month, 13);
}

pub proof fn lemma_days_before_month_mono(y: int, m1: int, m2: int)
    requires
        1 <= m1 <= m2 <= 13,
    ensures
        days_before_month(y, m1) <= days_before_month(y, m2),
    decreases m2 - m1,
{
    if m1 < m2 {
        lemma_days_before_month_mono(y, m1, m2 - 1);
    }
}

/// Every valid civil date falls on a day of the supported range.
pub proof fn lemma_epoch_days_bound(y: int, m: int, d: int)
    requires
        civil_date_valid(y, m, d),
    ensures
        0 <= epoch_days(y, m, d) < days_before_year(10000),
{
    lemma_days_before_year_mono(1970, y);
    lemma_days_before_month_mono(y, 1, m);
    lemma_days_before_month_mono(y, m + 1, 13);
    lemma_months_fill_year(y);
    lemma_days_before_year_mono(y + 1, 10000);
    assert(days_before_month(y, m + 1) == days_before_month(y, m) + days_in_month(y, m));
    assert(days_before_year(y + 1) == days_before_year(y) + days_in_year(y));
}

/// The year containing a day offset, found by stepping over whole years,
/// together with the remaining days within that year.
pub open spec fn split_year(z: int, y: int) -> (int, int)
    decreases z,
{
    if z < days_in_year(y) || z < 0 {
        (y, z)
    } else {
        split_year(z - days_in_year(y), y + 1)
    }
}

pub proof fn lemma_split_year(z: int, y: int)
    requires
        0 <= z,
        1970 <= y,
        days_before_year(y) + z < days_before_year(10000),
    ensures
        ({
            let (ry, rem) = split_year(z, y);
            &&& y <= ry <= 9999
            &&& 0 <= rem < days_in_year(ry)
            &&& days_before_year(ry) + rem == days_before_year(y) + z
        }),
    decreases z,
{
    if z < days_in_year(y) {
        if y >= 10000 {
            lemma_days_before_year_mono(10000, y);
        }
    } else {
        assert(days_before_year(y + 1) == days_before_year(y) + days_in_year(y));
        lemma_split_year(z - days_in_year(y), y + 1);
    }
}

/// The month containing a day offset within year `y`, found by stepping over
/// whole months, together with the remaining days within that month.
pub open spec fn split_month(y: int, doy: int, m: int) -> (int, int)
    decreases 12 - m,
{
    if m >= 12 || doy < days_in_month(y, m) {
        (m, doy)
    } else {
        split_month(y, doy - days_in_month(y, m), m + 1)
    }
}

pub proof fn lemma_split_month(y: int, doy: int, m: int)
    requires
        1 <= m <= 12,
        0 <= doy,
        days_before_month(y, m) + doy < days_in_year(y),
    ensures
        ({
            let (rm, rem) = split_month(y, doy, m);
            &&& m <= rm <= 12
            &&& 0 <= rem < days_in_month(y, rm)
            &&& days_before_month(y, rm) + rem == days_before_month(y, m) + doy
        }),
    decreases 12 - m,
{
    if m >= 12 || doy < days_in_month(y, m) {
        if m >= 12 {
            lemma_months_fill_year(y);
            assert(days_before_month(y, 13) == days_before_month(y, 12) + days_in_month(y, 12));
        }
    } else {
        assert(days_before_month(y, m + 1) == days_before_month(y, m) + days_in_month(y, m));
        lemma_split_month(y, doy - days_in_month(y, m), m + 1);
    }
}

/// The civil date of a day offset from 1970-01-01.
pub open spec fn civil_of_days(z: int) -> (int, int, int) {
    let (y, doy) = split_year(z, 1970);
    let (m, rem) = split_month(y, doy, 1);
    (y, m, rem + 1)
}

/// The civil date of every supported day offset is valid and maps back to
/// that offset.
pub proof fn lemma_civil_of_days(z: int)
    requires
        0 <= z < days_before_year(10000),
    ensures
        ({
            let (y, m, d) = civil_of_days(z);
            &&& civil_date_valid(y, m, d)
            &&& epoch_days(y, m, d) == z
        }),
{
    lemma_split_year(z, 1970);
    let (y, doy) = split_year(z, 1970);
    lemma_split_month(y, doy, 1);
}

pub fn leap_year(y: u64) -> (b: bool)
    ensures
        b == is_leap_year(y as int),
{
    (y % 4 == 0 && y % 100 != 0) || y % 400 == 0
}

pub fn year_days(y: u64) -> (n: u64)
    ensures
        n == days_in_year(y as int),
{
    if leap_year(y) {
        366
    } else {
        365
    }
}

pub fn month_days(y: u64, m: u64) -> (n: u64)
    ensures
        n == days_in_month(y as int, m as int),
{
    if m == 2 {
        if leap_year(y) {
            29
        } else {
            28
        }
    } else if m == 4 || m == 6 || m == 9 || m == 11 {
        30
    } else if 1 <= m && m <= 12 {
        31
    } else {
        0
    }
}

/// The civil date of a day offset in the supported range.
pub fn civil_from_days(z: u64) -> (r: (u64, u64, u64))
    requires
        z < days_before_year(10000),
    ensures
        (r.0 as int, r.1 as int, r.2 as int) == civil_of_days(z as int),
        civil_date_valid(r.0 as int, r.1 as int, r.2 as int),
        epoch_days(r.0 as int, r.1 as int, r.2 as int) == z,
{
    proof {
        lemma_civil_of_days(z as int);
        lemma_split_year(z as int, 1970);
    }
    let ghost full = z as int;
    let mut y: u64 = 1970;
    let mut rem: u64 = z;
    loop
        invariant
            1970 <= y <= 9999,
            days_before_year(y as int) + rem == full,
            full < days_before_year(10000),
            split_year(rem as int, y as int) == split_year(full, 1970),
        ensures
            rem < days_in_year(y as int),
        decreases rem,
    {
        let diy = year_days(y);
        if rem < diy {
            break ;
        }
        proof {
            assert(days_before_year(y as int + 1) == days_before_year(y as int) + days_in_year(
                y as int,
            ));
            assert(split_year(rem as int, y as int) == split_year(
                rem as int - days_in_year(y as int),
                y as int + 1,
            ));
            lemma_split_year((rem - diy) as int, y as int + 1);
        }
        rem = rem - diy;
        y = y + 1;
    }
    proof {
        assert(split_year(rem as int, y as int) == (y as int, rem as int));
        lemma_split_month(y as int, rem as int, 1);
    }
    let ghost doy = rem as int;
    let mut m: u64 = 1;
    loop
        invariant
            1 <= m <= 12,
            days_before_month(y as int, m as int) + rem == doy,
            days_before_month(y as int, 1) + doy < days_in_year(y as int),
            split_month(y as int, rem as int, m as int) == split_month(y as int, doy, 1),
            1970 <= y <= 9999,
        ensures
            m as int >= 12 || rem < days_in_month(y as int, m as int),
        decreases 12 - m,
    {
        if m >= 12 {
            break ;
        }
        let dim = month_days(y, m);
        if rem < dim {
            break ;
        }
        proof {
            assert(days_before_month(y as int, m as int + 1) == days_before_month(y as int, m as int)
                + days_in_month(y as int, m as int));
            assert(split_month(y as int, rem as int, m as int) == split_month(
                y as int,
                rem as int - days_in_month(y as int, m as int),
                m as int + 1,
            ));
        }
        rem = rem - dim;
        m = m + 1;
    }
    proof {
        assert(split_month(y as int, rem as int, m as int) == (m as int, rem as int));
    }
    (y, m, rem + 1)
}

/// The day offset of a valid civil date.
pub fn days_from_civil(y: u64, m: u64, d: u64) -> (z: u64)
    requires
        civil_date_valid(y as int, m as int, d as int),
    ensures
        z == epoch_days(y as int, m as int, d as int),
        z < days_before_year(10000),
{
    proof {
        lemma_epoch_days_bound(y as int, m as int, d as int);
    }
    let mut acc: u64 = 0;
    let mut yy: u64 = 1970;
    while yy < y
        invariant
            1970 <= yy <= y,
            acc == days_before_year(yy as int),
            acc <= 366 * (yy - 1970),
            y <= 9999,
        decreases y - yy,
    {
        let diy = year_days(yy);
        proof {
            assert(days_before_year(yy as int + 1) == days_before_year(yy as int) + days_in_year(
                yy as int,
            ));
        }
        acc = acc + diy;
        yy = yy + 1;
    }
    let mut mm: u64 = 1;
    while mm < m
        invariant
            1 <= mm <= m <= 12,
            acc == days_before_year(y as int) + days_before_month(y as int, mm as int),
            acc <= 366 * 8030 + 31 * 12,
            days_before_year(y as int) <= 366 * 8030,
        decreases m - mm,
    {
        let dim = month_days(y, mm);
        proof {
            assert(days_before_month(y as int, mm as int + 1) == days_before_month(
                y as int,
                mm as int,
            ) + days_in_month(y as int, mm as int));
            lemma_days_before_month_mono(y as int, mm as int + 1, 13);
            lemma_months_fill_year(y as int);
        }
        acc = acc + dim;
        mm = mm + 1;
    }
    acc + (d - 1)
}

} // verus!
