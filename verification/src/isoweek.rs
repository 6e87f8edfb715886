//! ISO-8601 week dates.
//!
//! A date's ISO week is the week (Monday .. Sunday) that contains it; the
//! week's year is the calendar year of the week's Thursday, which makes week
//! 1 the week that holds the year's first Thursday. A week date names a day
//! by (week-based year, week number, weekday 1 = Monday .. 7 = Sunday).

use crate::date::{
    day_of_week0, days_before_year, days_before_year_exec, days_in_year, is_leap_year_exec,
    lemma_days_before_year_le, lemma_days_before_year_step, CalendarDate, MAX_RD,
};
use vstd::arithmetic::div_mod::{
    lemma_fundamental_div_mod, lemma_fundamental_div_mod_converse, lemma_mod_decreases,
    lemma_mod_division_less_than_divisor,
};
use vstd::prelude::*;

verus! {

/// Day number of the Thursday of the week that holds day rd.
pub open spec fn thursday_of_week(rd: int) -> int {
    rd + 3 - day_of_week0(rd)
}

/// Day rd falls in calendar year y.
pub open spec fn is_year_of_day(rd: int, y: int) -> bool {
    days_before_year(y) < rd <= days_before_year(y) + days_in_year(y)
}

/// (iy, w, wd) is the ISO week date of day rd.
pub open spec fn is_iso_parts(rd: int, iy: int, w: int, wd: int) -> bool {
    &&& is_year_of_day(thursday_of_week(rd), iy)
    &&& w == (thursday_of_week(rd) - days_before_year(iy) - 1) / 7 + 1
    &&& wd == day_of_week0(rd) + 1
}

/// Day number of the Monday of week 1 of the ISO year iy: the Monday of the
/// week that holds the 4th of January.
pub open spec fn week1_monday(iy: int) -> int {
    let j4 = days_before_year(iy) + 4;
    j4 - day_of_week0(j4)
}

/// Day number that the ISO week date (iy, w, wd) points at.
pub open spec fn rd_of_iso(iy: int, w: int, wd: int) -> int {
    week1_monday(iy) + 7 * (w - 1) + (wd - 1)
}

/// The ISO week date (iy, w, wd) names a real day: its weekday is a weekday
/// and the day it points at has ISO year iy (this rules out week 0 and a week
/// 53 of a 52-week year).
pub open spec fn iso_ywd_valid(iy: int, w: int, wd: int) -> bool {
    &&& 1 <= wd <= 7
    &&& is_year_of_day(thursday_of_week(rd_of_iso(iy, w, wd)), iy)
}

/// A day falls in exactly one year.
pub proof fn lemma_year_of_day_unique(rd: int, y1: int, y2: int)
    requires
        y1 >= 1,
        y2 >= 1,
        is_year_of_day(rd, y1),
        is_year_of_day(rd, y2),
    ensures
        y1 == y2,
{
    if y1 < y2 {
        lemma_days_before_year_step(y1);
        lemma_days_before_year_le(y1 + 1, y2);
    }
    if y2 < y1 {
        lemma_days_before_year_step(y2);
        lemma_days_before_year_le(y2 + 1, y1);
    }
}

/// The ISO week date of a day is unique.
pub proof fn lemma_iso_parts_unique(rd: int, iy1: int, w1: int, wd1: int, iy2: int, w2: int, wd2: int)
    requires
        iy1 >= 1,
        iy2 >= 1,
        is_iso_parts(rd, iy1, w1, wd1),
        is_iso_parts(rd, iy2, w2, wd2),
    ensures
        iy1 == iy2,
        w1 == w2,
        wd1 == wd2,
{
    lemma_year_of_day_unique(thursday_of_week(rd), iy1, iy2);
}

/// The Thursday of any day's week falls on a Thursday, and lies within three
/// days of the day.
pub proof fn lemma_thursday_weekday(rd: int)
    requires
        rd >= 1,
    ensures
        day_of_week0(thursday_of_week(rd)) == 3,
        rd - 3 <= thursday_of_week(rd) <= rd + 3,
        thursday_of_week(rd) >= 4,
{
    let x = rd - 1;
    lemma_fundamental_div_mod(x, 7);
    lemma_mod_division_less_than_divisor(x, 7);
    let q = x / 7;
    assert(q >= 0);
    assert(thursday_of_week(rd) - 1 == q * 7 + 3);
    lemma_fundamental_div_mod_converse(thursday_of_week(rd) - 1, 7, q, 3);
    lemma_mod_decreases(x as nat, 7);
}

/// Week 1's Monday falls on a Monday, within the week around the 4th of
/// January.
pub proof fn lemma_week1_monday_weekday(iy: int)
    requires
        iy >= 1,
        days_before_year(iy) >= 3,
    ensures
        day_of_week0(week1_monday(iy)) == 0,
        days_before_year(iy) - 2 <= week1_monday(iy) <= days_before_year(iy) + 4,
{
    let j4 = days_before_year(iy) + 4;
    let x = j4 - 1;
    lemma_fundamental_div_mod(x, 7);
    lemma_mod_division_less_than_divisor(x, 7);
    let q = x / 7;
    assert(week1_monday(iy) - 1 == q * 7);
    lemma_fundamental_div_mod_converse(week1_monday(iy) - 1, 7, q, 0);
}

/// Rebuilding a day from its own ISO week date gives the day back, so the
/// week date is valid.
pub proof fn lemma_iso_parts_round_trip(rd: int, iy: int, w: int, wd: int)
    requires
        rd >= 1,
        iy >= 1,
        days_before_year(iy) >= 3,
        is_iso_parts(rd, iy, w, wd),
    ensures
        rd_of_iso(iy, w, wd) == rd,
        iso_ywd_valid(iy, w, wd),
{
    let dby = days_before_year(iy);
    let thu = thursday_of_week(rd);
    let t = thu - dby;
    let c = day_of_week0(rd);
    lemma_thursday_weekday(rd);
    lemma_mod_division_less_than_divisor(rd - 1, 7);
    let j4 = dby + 4;
    let a = day_of_week0(j4);
    lemma_mod_division_less_than_divisor(j4 - 1, 7);
    // thu - 1 is 3 past a multiple of seven and j4 - 1 is a past one, so
    // t - 1 is (6 - a) past a multiple of seven.
    lemma_fundamental_div_mod(thu - 1, 7);
    lemma_fundamental_div_mod(j4 - 1, 7);
    let k = (thu - 1) / 7;
    let j = (j4 - 1) / 7;
    assert(t - 1 == (k - j) * 7 + (6 - a)) by {
        assert(thu - 1 == k * 7 + 3);
        assert(j4 - 1 == j * 7 + a);
        assert((k - j) * 7 == k * 7 - j * 7) by (nonlinear_arith);
    }
    lemma_fundamental_div_mod_converse(t - 1, 7, k - j, 6 - a);
    assert((t - 1) % 7 == 6 - a);
    assert(7 * ((t - 1) / 7) == t - 7 + a) by {
        assert((k - j) * 7 == 7 * (k - j)) by (nonlinear_arith);
    }
    assert(rd_of_iso(iy, w, wd) == (dby + 4 - a) + 7 * ((t - 1) / 7) + c) by {
        assert(w - 1 == (t - 1) / 7);
        assert(7 * (w - 1) == 7 * ((t - 1) / 7));
    }
    assert(rd_of_iso(iy, w, wd) == dby + t - 3 + c);
    assert(rd == thu - 3 + c);
}

/// Calendar year of a day, found by walking the years.
pub(crate) fn year_of_rd(rd: u64) -> (y: u64)
    requires
        1 <= rd <= MAX_RD + 3,
    ensures
        1 <= y <= 10000,
        is_year_of_day(rd as int, y as int),
{
    proof {
        lemma_max_rd_bounds();
    }
    let mut y: u64 = 1;
    loop
        invariant
            1 <= y <= 10000,
            days_before_year(y as int) < rd <= MAX_RD + 3,
            days_before_year(10001) == MAX_RD + 366,
        decreases 10001 - y,
    {
        let dy: u64 = if is_leap_year_exec(y) {
            366
        } else {
            365
        };
        let db_y = days_before_year_exec(y);
        if rd <= db_y + dy {
            proof {
                lemma_days_before_year_step(y as int);
            }
            return y;
        }
        proof {
            lemma_days_before_year_step(y as int);
            if y == 10000 {
                assert(days_before_year(10001) < rd);
            }
        }
        y = y + 1;
    }
}

/// The day counts at the edge of the supported range.
pub proof fn lemma_max_rd_bounds()
    ensures
        days_before_year(10000) == MAX_RD,
        days_before_year(10001) == MAX_RD + 366,
{
    lemma_fundamental_div_mod_converse(9999, 4, 2499, 3);
    lemma_fundamental_div_mod_converse(9999, 100, 99, 99);
    lemma_fundamental_div_mod_converse(9999, 400, 24, 399);
    lemma_fundamental_div_mod_converse(10000, 4, 2500, 0);
    lemma_fundamental_div_mod_converse(10000, 100, 100, 0);
    lemma_fundamental_div_mod_converse(10000, 400, 25, 0);
}

/// The ISO week date of a calendar date.
pub fn iso_parts_of(date: &CalendarDate) -> (r: (u64, u64, u64))
    ensures
        is_iso_parts(date@, r.0 as int, r.1 as int, r.2 as int),
        1 <= r.0 <= 10000,
        1 <= r.1 <= 53,
        1 <= r.2 <= 7,
{
    proof {
        use_type_invariant(date);
        lemma_thursday_weekday(date@);
    }
    let rd = date.rd();
    let wd0 = (rd - 1) % 7;
    let thu = rd + 3 - wd0;
    let iy = year_of_rd(thu);
    let dby = days_before_year_exec(iy);
    let w = (thu - dby - 1) / 7 + 1;
    proof {
        assert(thu - dby - 1 <= 365);
        assert((thu as int - dby as int - 1) / 7 <= 52) by {
            vstd::arithmetic::div_mod::lemma_div_is_ordered(thu as int - dby as int - 1, 365, 7);
        }
        assert(365int / 7 == 52) by {
            lemma_fundamental_div_mod_converse(365, 7, 52, 1);
        }
    }
    (iy, w, wd0 + 1)
}

/// The calendar date that an ISO week date points at, if it names a real
/// day. The weekday must already be a weekday number; weeks of the version
/// format have two digits.
pub fn iso_ywd_to_date(iy: u64, w: u64, wd: u64) -> (r: Option<CalendarDate>)
    requires
        2000 <= iy <= 2099,
        w <= 99,
        1 <= wd <= 7,
    ensures
        r is Some <==> iso_ywd_valid(iy as int, w as int, wd as int),
        r matches Some(d) ==> {
            &&& d.wf()
            &&& d@ == rd_of_iso(iy as int, w as int, wd as int)
            &&& is_iso_parts(d@, iy as int, w as int, wd as int)
        },
{
    proof {
        lemma_days_before_year_le(1, iy as int);
        lemma_days_before_year_le(iy as int, 2100);
        lemma_days_before_year_le(2100, 10000);
        lemma_max_rd_bounds();
        lemma_week1_monday_weekday(iy as int);
    }
    let j4 = days_before_year_exec(iy) + 4;
    let a = (j4 - 1) % 7;
    proof {
        lemma_mod_decreases((j4 - 1) as nat, 7);
        lemma_mod_division_less_than_divisor(j4 as int - 1, 7);
    }
    let w1m = j4 - a;
    let cand = w1m + 7 * w + wd - 8;
    proof {
        assert(cand == rd_of_iso(iy as int, w as int, wd as int));
        assert(1 <= cand <= MAX_RD);
        lemma_cand_weekday(w1m as int, w as int, wd as int);
        lemma_thursday_weekday(cand as int);
    }
    let cwd0 = (cand - 1) % 7;
    let thu = cand + 3 - cwd0;
    let iyc = year_of_rd(thu);
    if iyc == iy {
        proof {
            let dby = days_before_year(iy as int);
            let ti = thu as int;
            assert(ti == w1m + 7 * (w as int - 1) + 3) by {
                assert(7 * (w as int) == 7 * (w as int - 1) + 7) by (nonlinear_arith);
            }
            assert(ti - dby - 1 == 7 * (w as int - 1) + (6 - a)) by {
                assert(w1m == dby + 4 - a);
            }
            assert((ti - dby - 1) / 7 == w as int - 1) by {
                assert(7 * (w as int - 1) == (w as int - 1) * 7) by (nonlinear_arith);
                lemma_fundamental_div_mod_converse(ti - dby - 1, 7, w as int - 1, 6 - a);
            }
            assert(is_iso_parts(cand as int, iy as int, w as int, wd as int));
        }
        Some(CalendarDate::from_rd(cand))
    } else {
        proof {
            if iso_ywd_valid(iy as int, w as int, wd as int) {
                lemma_year_of_day_unique(thu as int, iy as int, iyc as int);
            }
        }
        None
    }
}

/// A day built from week 1's Monday by whole weeks and a weekday offset has
/// that weekday.
proof fn lemma_cand_weekday(w1m: int, w: int, wd: int)
    requires
        w1m >= 1,
        day_of_week0(w1m) == 0,
        w >= 0,
        1 <= wd <= 7,
    ensures
        day_of_week0(w1m + 7 * w + wd - 8) == wd - 1,
{
    lemma_fundamental_div_mod(w1m - 1, 7);
    let q = (w1m - 1) / 7;
    assert(w1m + 7 * w + wd - 8 - 1 == (q + w - 1) * 7 + (wd - 1)) by {
        assert(w1m - 1 == q * 7);
        assert((q + w - 1) * 7 == q * 7 + 7 * w - 7) by (nonlinear_arith);
    }
    lemma_fundamental_div_mod_converse(w1m + 7 * w + wd - 8 - 1, 7, q + w - 1, wd - 1);
}

} // verus!
