//! Calendar arithmetic for UTC dates and second-precision instants.
//!
//! Dates are proleptic Gregorian. Day 0 of the day index is 0001-01-01,
//! which is a Monday, so `day_index(d) % 7` gives the weekday with
//! 0 standing for Monday.

use vstd::prelude::*;
use vstd::arithmetic::div_mod::lemma_fundamental_div_mod;
use vstd::arithmetic::div_mod::lemma_fundamental_div_mod_converse;

verus! {

/// A calendar date, UTC.
#[derive(Clone, Copy, Debug, PartialEq, Eq, Structural)]
pub struct Date {
    pub year: u16,
    pub month: u8,
    pub day: u8,
}

/// An instant with second precision, UTC, no sub-second component.
#[derive(Clone, Copy, Debug, PartialEq, Eq, Structural)]
pub struct Timestamp {
    pub year: u16,
    pub month: u8,
    pub day: u8,
    pub hour: u8,
    pub minute: u8,
    pub second: u8,
}

pub open spec fn is_leap_year(y: int) -> bool {
    y % 4 == 0 && (y % 100 != 0 || y % 400 == 0)
}

pub open spec fn days_in_month(y: int, m: int) -> int {
    if m == 2 {
        if is_leap_year(y) {
            29
        } else {
            28
        }
    } else if m == 4 || m == 6 || m == 9 || m == 11 {
        30
    } else {
        31
    }
}

/// Days from the start of year `y` up to the first of month `m`.
pub open spec fn days_before_month(y: int, m: int) -> int {
    let base: int = if m == 1 {
        0
    } else if m == 2 {
        31
    } else if m == 3 {
        59
    } else if m == 4 {
        90
    } else if m == 5 {
        120
    } else if m == 6 {
        151
    } else if m == 7 {
        181
    } else if m == 8 {
        212
    } else if m == 9 {
        243
    } else if m == 10 {
        273
    } else if m == 11 {
        304
    } else {
        334
    };
    base + if m > 2 && is_leap_year(y) {
        1int
    } else {
        0int
    }
}

/// Leap days in the years 1 .. y (excluding year y itself).
pub open spec fn leap_days_before(y: int) -> int {
    (y - 1) / 4 - (y - 1) / 100 + (y - 1) / 400
}

impl Date {
    pub open spec fn valid(self) -> bool {
        &&& 1 <= self.year <= 9999
        &&& 1 <= self.month <= 12
        &&& 1 <= self.day <= days_in_month(self.year as int, self.month as int)
    }

    /// Days since 0001-01-01 (which is day 0, a Monday).
    pub open spec fn day_index(self) -> int {
        365 * (self.year - 1) + leap_days_before(self.year as int) + days_before_month(
            self.year as int,
            self.month as int,
        ) + (self.day - 1)
    }

    /// Weekday as a number: 0 is Monday, 6 is Sunday.
    pub open spec fn weekday(self) -> int {
        self.day_index() % 7
    }
}

impl Timestamp {
    pub open spec fn date(self) -> Date {
        Date { year: self.year, month: self.month, day: self.day }
    }

    pub open spec fn valid(self) -> bool {
        &&& self.date().valid()
        &&& self.hour <= 23
        &&& self.minute <= 59
        &&& self.second <= 59
    }

    /// Seconds since 0001-01-01T00:00:00 UTC.
    pub open spec fn seconds(self) -> int {
        86400 * self.date().day_index() + 3600 * (self.hour as int) + 60 * (self.minute as int)
            + self.second as int
    }
}

/// The number of seconds of 9999-12-31T23:59:59, the largest valid instant.
pub const MAX_SECONDS: u64 = 315_537_897_599;

/// How a quotient changes when the dividend steps down by one: it drops
/// exactly when the dividend was a multiple of the divisor.
proof fn lemma_div_step_down(n: int, k: int)
    requires
        n >= 1,
        k >= 1,
    ensures
        n / k - (n - 1) / k == if n % k == 0 {
            1int
        } else {
            0int
        },
{
    lemma_fundamental_div_mod(n, k);
    let q = n / k;
    let r = n % k;
    assert((q - 1) * k == k * q - k && q * k == k * q) by (nonlinear_arith);
    if r == 0 {
        lemma_fundamental_div_mod_converse(n - 1, k, q - 1, k - 1);
    } else {
        lemma_fundamental_div_mod_converse(n - 1, k, q, r - 1);
    }
}

/// Stepping back from January 1st lands on December 31st of the previous
/// year, one day earlier in the day index.
proof fn lemma_day_index_year_step(y: int)
    requires
        2 <= y,
    ensures
        365 * (y - 1) + leap_days_before(y) == 365 * (y - 2) + leap_days_before(y - 1) + 364 + (
        if is_leap_year(y - 1) {
            1int
        } else {
            0int
        }) + 1,
{
    lemma_div_step_down(y - 1, 4);
    lemma_div_step_down(y - 1, 100);
    lemma_div_step_down(y - 1, 400);
    if (y - 1) % 400 == 0 {
        lemma_fundamental_div_mod(y - 1, 400);
        assert((y - 1) % 4 == 0) by {
            lemma_fundamental_div_mod_converse(y - 1, 4, 100 * ((y - 1) / 400), 0);
        }
        assert((y - 1) % 100 == 0) by {
            lemma_fundamental_div_mod_converse(y - 1, 100, 4 * ((y - 1) / 400), 0);
        }
    } else if (y - 1) % 100 == 0 {
        lemma_fundamental_div_mod(y - 1, 100);
        assert((y - 1) % 4 == 0) by {
            lemma_fundamental_div_mod_converse(y - 1, 4, 25 * ((y - 1) / 100), 0);
        }
    }
}

/// The day index of a valid date fits comfortably under 3_700_000, and the
/// seconds of a valid instant never exceed `MAX_SECONDS`.
pub proof fn lemma_seconds_bounds(ts: Timestamp)
    requires
        ts.valid(),
    ensures
        0 <= ts.date().day_index() < 3_700_000,
        0 <= ts.seconds() <= MAX_SECONDS,
{
    let y = ts.year as int;
    assert((y - 1) / 4 <= 2499 && (y - 1) / 4 >= 0) by (nonlinear_arith)
        requires 1 <= y <= 9999;
    assert((y - 1) / 100 <= (y - 1) / 4) by (nonlinear_arith)
        requires 1 <= y;
    assert((y - 1) / 100 >= 0 && (y - 1) / 400 >= 0) by (nonlinear_arith)
        requires 1 <= y;
    assert(ts.date().day_index() <= 365 * 9998 + 2499 + 2499 + 335 + 30);
    assert(86400 * ts.date().day_index() <= 86400 * 3652058) by (nonlinear_arith)
        requires 0 <= ts.date().day_index() <= 3652058;
    assert(86400 * ts.date().day_index() >= 0) by (nonlinear_arith)
        requires 0 <= ts.date().day_index();
}

/// Whether `y` is a leap year in the Gregorian calendar.
pub fn is_leap_year_of(y: u16) -> (r: bool)
    ensures
        r == is_leap_year(y as int),
{
    y % 4 == 0 && (y % 100 != 0 || y % 400 == 0)
}

/// The number of days in month `m` of year `y`.
pub fn days_in_month_of(y: u16, m: u8) -> (n: u8)
    requires
        1 <= m <= 12,
    ensures
        n == days_in_month(y as int, m as int),
{
    if m == 2 {
        if is_leap_year_of(y) {
            29
        } else {
            28
        }
    } else if m == 4 || m == 6 || m == 9 || m == 11 {
        30
    } else {
        31
    }
}

/// The day index of a valid date: days since 0001-01-01.
pub fn day_index_of(d: &Date) -> (n: u64)
    requires
        d.valid(),
    ensures
        n == d.day_index(),
{
    let y = d.year as u64;
    let q4 = (y - 1) / 4;
    let q100 = (y - 1) / 100;
    let q400 = (y - 1) / 400;
    proof {
        assert(q4 == (d.year - 1) as int / 4 && q100 == (d.year - 1) as int / 100 && q400 == (
        d.year - 1) as int / 400);
        assert(q100 <= q4 && q4 <= 2499 && q400 <= q4) by (nonlinear_arith)
            requires
                1 <= y <= 9999,
                q4 == (y - 1) as int / 4,
                q100 == (y - 1) as int / 100,
                q400 == (y - 1) as int / 400;
    }
    let dbm: u64 = match d.month {
        1 => 0,
        2 => 31,
        3 => 59,
        4 => 90,
        5 => 120,
        6 => 151,
        7 => 181,
        8 => 212,
        9 => 243,
        10 => 273,
        11 => 304,
        _ => 334,
    };
    let leap_adjust: u64 = if d.month > 2 && is_leap_year_of(d.year) {
        1
    } else {
        0
    };
    365 * (y - 1) + q4 + q400 + dbm + leap_adjust + (d.day - 1) as u64 - q100
}

/// Seconds since 0001-01-01T00:00:00 UTC of a valid instant.
pub fn timestamp_seconds(ts: &Timestamp) -> (s: u64)
    requires
        ts.valid(),
    ensures
        s == ts.seconds(),
        s <= MAX_SECONDS,
{
    proof {
        lemma_seconds_bounds(*ts);
    }
    let d = Date { year: ts.year, month: ts.month, day: ts.day };
    let days = day_index_of(&d);
    86400 * days + 3600 * (ts.hour as u64) + 60 * (ts.minute as u64) + ts.second as u64
}

/// The calendar date of an instant.
pub fn date_of(ts: &Timestamp) -> (d: Date)
    ensures
        d == ts.date(),
{
    Date { year: ts.year, month: ts.month, day: ts.day }
}

/// The day before a valid date (which must not be 0001-01-01).
pub fn previous_date(d: &Date) -> (p: Date)
    requires
        d.valid(),
        d.day_index() > 0,
    ensures
        p.valid(),
        p.day_index() == d.day_index() - 1,
{
    if d.day > 1 {
        Date { year: d.year, month: d.month, day: d.day - 1 }
    } else if d.month > 1 {
        let pm = d.month - 1;
        let pd = days_in_month_of(d.year, pm);
        Date { year: d.year, month: pm, day: pd }
    } else {
        proof {
            if d.year == 1 {
                assert(leap_days_before(1) == 0);
                assert(d.day_index() == 0);
            }
            lemma_day_index_year_step(d.year as int);
        }
        Date { year: d.year - 1, month: 12, day: 31 }
    }
}

/// The weekday of a valid date: 0 is Monday, 6 is Sunday.
pub fn weekday_of(d: &Date) -> (w: u8)
    requires
        d.valid(),
    ensures
        w == d.weekday(),
        w <= 6,
{
    (day_index_of(d) % 7) as u8
}

} // verus!
