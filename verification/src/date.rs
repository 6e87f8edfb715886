//! Calendar dates of the proleptic Gregorian calendar.
//!
//! A date is represented by its day number `rd` (for "rata die"): day 1 is
//! the first of January of year 1, which falls on a Monday. The supported
//! range runs from year 1 through year 9999.

use vstd::arithmetic::div_mod::{lemma_fundamental_div_mod, lemma_fundamental_div_mod_converse};
use vstd::prelude::*;

verus! {

/// Day number of the last supported day, the 31st of December of year 9999.
pub const MAX_RD: u64 = 3652059;

pub open spec fn is_leap_year(y: int) -> bool {
    (y % 4 == 0 && y % 100 != 0) || y % 400 == 0
}

pub open spec fn days_in_year(y: int) -> int {
    if is_leap_year(y) {
        366
    } else {
        365
    }
}

/// Number of days in the years 1 .. y-1, i.e. the day number of the last day
/// of year y - 1.
pub open spec fn days_before_year(y: int) -> int {
    365 * (y - 1) + (y - 1) / 4 - (y - 1) / 100 + (y - 1) / 400
}

pub open spec fn days_in_month(y: int, m: int) -> int {
    if m == 2 {
        if is_leap_year(y) {
            29
        } else {
            28
        }
    } else if m == 4 || m == 6 || m == 9 || m == 11 {
        30
    } else {
        31
    }
}

/// Number of days of year y that precede month m (1 <= m <= 13; month 13
/// stands for the end of the year).
pub open spec fn days_before_month(y: int, m: int) -> int {
    let base: int = if m == 1 {
        0
    } else if m == 2 {
        31
    } else if m == 3 {
        59
    } else if m == 4 {
        90
    } else if m == 5 {
        120
    } else if m == 6 {
        151
    } else if m == 7 {
        181
    } else if m == 8 {
        212
    } else if m == 9 {
        243
    } else if m == 10 {
        273
    } else if m == 11 {
        304
    } else if m == 12 {
        334
    } else {
        365
    };
    if m > 2 && is_leap_year(y) {
        base + 1
    } else {
        base
    }
}

pub open spec fn valid_ymd(y: int, m: int, d: int) -> bool {
    &&& 1 <= y <= 9999
    &&& 1 <= m <= 12
    &&& 1 <= d <= days_in_month(y, m)
}

/// Day number of the date (y, m, d).
pub open spec fn rd_of_ymd(y: int, m: int, d: int) -> int {
    days_before_year(y) + days_before_month(y, m) + d
}

/// Weekday of day number rd, counted from 0 = Monday to 6 = Sunday.
pub open spec fn day_of_week0(rd: int) -> int {
    (rd - 1) % 7
}

/// Stepping a year adds exactly the length of the old year to the day count.
pub proof fn lemma_days_before_year_step(y: int)
    requires
        y >= 1,
    ensures
        days_before_year(y + 1) == days_before_year(y) + days_in_year(y),
{
    lemma_div_step(y, 4);
    lemma_div_step(y, 100);
    lemma_div_step(y, 400);
    if y % 400 == 0 {
        lemma_fundamental_div_mod(y, 400);
        assert(y == 4 * (100 * (y / 400))) by {
            assert(y == 400 * (y / 400));
        }
        lemma_fundamental_div_mod_converse(y, 4, 100 * (y / 400), 0);
        assert(y == 100 * (4 * (y / 400)));
        lemma_fundamental_div_mod_converse(y, 100, 4 * (y / 400), 0);
    } else if y % 100 == 0 {
        lemma_fundamental_div_mod(y, 100);
        assert(y == 4 * (25 * (y / 100))) by {
            assert(y == 100 * (y / 100));
        }
        lemma_fundamental_div_mod_converse(y, 4, 25 * (y / 100), 0);
    }
}

/// Dividing x and x - 1 by d gives the same quotient, except that the
/// quotient steps up by one exactly when d divides x.
proof fn lemma_div_step(x: int, d: int)
    requires
        x >= 1,
        d >= 1,
    ensures
        x % d == 0 ==> x / d == (x - 1) / d + 1,
        x % d != 0 ==> x / d == (x - 1) / d,
{
    lemma_fundamental_div_mod(x - 1, d);
    let q = (x - 1) / d;
    let r = (x - 1) % d;
    assert(q * d == d * q) by (nonlinear_arith);
    if r == d - 1 {
        assert((q + 1) * d == q * d + d) by (nonlinear_arith);
        lemma_fundamental_div_mod_converse(x, d, q + 1, 0);
    } else {
        lemma_fundamental_div_mod_converse(x, d, q, r + 1);
    }
}

/// Day counts grow with the year.
pub proof fn lemma_days_before_year_le(a: int, b: int)
    requires
        1 <= a <= b,
    ensures
        days_before_year(a) <= days_before_year(b),
        days_before_year(a) + 365 * (b - a) <= days_before_year(b),
    decreases b - a,
{
    if a < b {
        lemma_days_before_year_le(a, b - 1);
        lemma_days_before_year_step(b - 1);
    }
}

/// An immutable calendar date, identified by its day number.
#[derive(Clone, Copy, Debug, PartialEq, Eq, Structural)]
pub struct CalendarDate {
    rd: u64,
}

impl View for CalendarDate {
    type V = int;

    closed spec fn view(&self) -> int {
        self.rd as int
    }
}

impl CalendarDate {
    /// The day number lies in the supported range.
    pub open spec fn wf(&self) -> bool {
        1 <= self@ <= MAX_RD
    }

    #[verifier::type_invariant]
    pub(crate) open spec fn type_inv(&self) -> bool {
        self.wf()
    }

    pub(crate) fn from_rd(rd: u64) -> (r: CalendarDate)
        requires
            1 <= rd <= MAX_RD,
        ensures
            r@ == rd,
            r.wf(),
    {
        CalendarDate { rd }
    }

    pub fn rd(&self) -> (r: u64)
        ensures
            r == self@,
    {
        proof {
            use_type_invariant(self);
        }
        self.rd
    }

    /// Builds the date of a given year, month and day; rejects triples that
    /// do not name a day of the supported calendar.
    pub fn from_ymd(y: u64, m: u64, d: u64) -> (r: Option<CalendarDate>)
        ensures
            r is Some <==> valid_ymd(y as int, m as int, d as int),
            r matches Some(date) ==> {
                &&& date.wf()
                &&& date@ == rd_of_ymd(y as int, m as int, d as int)
            },
    {
        if y < 1 || y > 9999 || m < 1 || m > 12 || d < 1 {
            return None;
        }
        let dim = days_in_month_exec(y, m);
        if d > dim {
            return None;
        }
        let dby = days_before_year_exec(y);
        let dbm = days_before_month_exec(y, m);
        proof {
            lemma_rd_of_ymd_in_range(y as int, m as int, d as int);
        }
        Some(CalendarDate { rd: dby + dbm + d })
    }

    /// The next day.
    pub fn succ(&self) -> (r: CalendarDate)
        requires
            self@ < MAX_RD,
        ensures
            r.wf(),
            r@ == self@ + 1,
    {
        proof {
            use_type_invariant(self);
        }
        CalendarDate { rd: self.rd + 1 }
    }

    /// The date's weekday, numbered from Monday: 1 = Monday .. 7 = Sunday.
    pub fn weekday_from_monday(&self) -> (r: u32)
        ensures
            r == day_of_week0(self@) + 1,
            1 <= r <= 7,
    {
        proof {
            use_type_invariant(self);
        }
        ((self.rd - 1) % 7 + 1) as u32
    }

    /// Whether this date comes before another.
    pub fn is_before(&self, other: &CalendarDate) -> (r: bool)
        ensures
            r == (self@ < other@),
    {
        self.rd < other.rd
    }

    /// Whether the two dates are the same day.
    pub fn is_same_day(&self, other: &CalendarDate) -> (r: bool)
        ensures
            r == (self@ == other@),
    {
        self.rd == other.rd
    }
}

/// A date of the supported range has a day number of the supported range.
pub proof fn lemma_rd_of_ymd_in_range(y: int, m: int, d: int)
    requires
        valid_ymd(y, m, d),
    ensures
        1 <= rd_of_ymd(y, m, d) <= MAX_RD,
        rd_of_ymd(y, m, d) <= days_before_year(y + 1),
{
    assert(days_before_month(y, m) + d <= days_in_year(y));
    lemma_days_before_year_step(y);
    lemma_days_before_year_le(y + 1, 10000);
    assert(days_before_year(10000) == MAX_RD) by {
        lemma_fundamental_div_mod_converse(9999, 4, 2499, 3);
        lemma_fundamental_div_mod_converse(9999, 100, 99, 99);
        lemma_fundamental_div_mod_converse(9999, 400, 24, 399);
    }
    assert(days_before_year(y) >= 0);
}

fn days_in_month_exec(y: u64, m: u64) -> (r: u64)
    requires
        1 <= y <= 9999,
        1 <= m <= 12,
    ensures
        r == days_in_month(y as int, m as int),
{
    if m == 2 {
        if is_leap_year_exec(y) {
            29
        } else {
            28
        }
    } else if m == 4 || m == 6 || m == 9 || m == 11 {
        30
    } else {
        31
    }
}

pub(crate) fn is_leap_year_exec(y: u64) -> (r: bool)
    requires
        y <= 10001,
    ensures
        r == is_leap_year(y as int),
{
    (y % 4 == 0 && y % 100 != 0) || y % 400 == 0
}

pub(crate) fn days_before_year_exec(y: u64) -> (r: u64)
    requires
        1 <= y <= 10001,
    ensures
        r == days_before_year(y as int),
{
    365 * (y - 1) + (y - 1) / 4 - (y - 1) / 100 + (y - 1) / 400
}

fn days_before_month_exec(y: u64, m: u64) -> (r: u64)
    requires
        1 <= y <= 9999,
        1 <= m <= 12,
    ensures
        r == days_before_month(y as int, m as int),
{
    let base: u64 = if m == 1 {
        0
    } else if m == 2 {
        31
    } else if m == 3 {
        59
    } else if m == 4 {
        90
    } else if m == 5 {
        120
    } else if m == 6 {
        151
    } else if m == 7 {
        181
    } else if m == 8 {
        212
    } else if m == 9 {
        243
    } else if m == 10 {
        273
    } else if m == 11 {
        304
    } else {
        334
    };
    if m > 2 && is_leap_year_exec(y) {
        base + 1
    } else {
        base
    }
}

} // verus!
