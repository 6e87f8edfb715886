//! The `YYwWW.D` version string: parsing and formatting.
//!
//! The pattern is two digits, a literal `w`, two digits, a literal `.` and
//! one digit. Parsing looks for the pattern anywhere in the text and takes
//! the leftmost occurrence; formatting zero-pads the year and the week.

use crate::date::{days_before_year, lemma_days_before_year_le, CalendarDate};
use crate::errors::{ConversionError, CwverError, ParseError};
use crate::isoweek::{
    is_iso_parts, iso_parts_of, iso_ywd_to_date, iso_ywd_valid, lemma_iso_parts_round_trip,
    lemma_iso_parts_unique, rd_of_iso, thursday_of_week,
};
use vstd::arithmetic::div_mod::{
    lemma_fundamental_div_mod_converse, lemma_mod_division_less_than_divisor,
};
use vstd::prelude::*;
use vstd::string::StrSliceExecFns;
use vstd::string::StringExecFns;

verus! {

pub open spec fn is_digit_char(c: char) -> bool {
    48 <= c as u32 <= 57
}

/// Numeric value of a digit character.
pub open spec fn digit_val(c: char) -> int {
    c as u32 - 48
}

/// Value of the two-digit group that starts at position i.
pub open spec fn two_digit_val(s: Seq<char>, i: int) -> int {
    10 * digit_val(s[i]) + digit_val(s[i + 1])
}

/// The version pattern stands at position i of the text.
pub open spec fn match_at(s: Seq<char>, i: int) -> bool {
    &&& 0 <= i
    &&& i + 7 <= s.len()
    &&& is_digit_char(s[i])
    &&& is_digit_char(s[i + 1])
    &&& s[i + 2] == 'w'
    &&& is_digit_char(s[i + 3])
    &&& is_digit_char(s[i + 4])
    &&& s[i + 5] == '.'
    &&& is_digit_char(s[i + 6])
}

/// Position of the leftmost occurrence of the pattern at or after i.
pub open spec fn first_match_from(s: Seq<char>, i: int) -> Option<int>
    decreases s.len() - i,
{
    if i + 7 > s.len() {
        None
    } else if match_at(s, i) {
        Some(i)
    } else {
        first_match_from(s, i + 1)
    }
}

/// Digit character of a value 0 .. 9.
pub open spec fn digit_char(v: int) -> char {
    if v == 0 {
        '0'
    } else if v == 1 {
        '1'
    } else if v == 2 {
        '2'
    } else if v == 3 {
        '3'
    } else if v == 4 {
        '4'
    } else if v == 5 {
        '5'
    } else if v == 6 {
        '6'
    } else if v == 7 {
        '7'
    } else if v == 8 {
        '8'
    } else {
        '9'
    }
}

/// The seven characters of the version string of a two-digit year, a week
/// and a weekday.
pub open spec fn cwver_chars(y2: int, w: int, wd: int) -> Seq<char> {
    seq![
        digit_char(y2 / 10),
        digit_char(y2 % 10),
        'w',
        digit_char(w / 10),
        digit_char(w % 10),
        '.',
        digit_char(wd),
    ]
}

pub(crate) fn char_digit(c: char) -> (r: Option<u32>)
    ensures
        r is Some <==> is_digit_char(c),
        r matches Some(v) ==> v == digit_val(c) && v <= 9,
{
    let v = c as u32;
    if 48 <= v && v <= 57 {
        Some(v - 48)
    } else {
        None
    }
}

fn try_match_at(s: &str, i: usize) -> (r: Option<(u32, u32, u32)>)
    requires
        i + 7 <= s@.len(),
        i + 7 <= usize::MAX,
    ensures
        r is Some <==> match_at(s@, i as int),
        r matches Some(t) ==> {
            &&& t.0 == two_digit_val(s@, i as int) && t.0 <= 99
            &&& t.1 == two_digit_val(s@, i as int + 3) && t.1 <= 99
            &&& t.2 == digit_val(s@[i as int + 6]) && t.2 <= 9
        },
{
    let d0 = match char_digit(s.get_char(i)) {
        Some(v) => v,
        None => {
            return None;
        },
    };
    let d1 = match char_digit(s.get_char(i + 1)) {
        Some(v) => v,
        None => {
            return None;
        },
    };
    if s.get_char(i + 2) != 'w' {
        return None;
    }
    let d3 = match char_digit(s.get_char(i + 3)) {
        Some(v) => v,
        None => {
            return None;
        },
    };
    let d4 = match char_digit(s.get_char(i + 4)) {
        Some(v) => v,
        None => {
            return None;
        },
    };
    if s.get_char(i + 5) != '.' {
        return None;
    }
    let d6 = match char_digit(s.get_char(i + 6)) {
        Some(v) => v,
        None => {
            return None;
        },
    };
    Some((10 * d0 + d1, 10 * d3 + d4, d6))
}

/// Finds the leftmost `YYwWW.D` pattern in the text and returns its three
/// numeric groups (two-digit year, week, weekday digit), without any range
/// check; yields nothing when the text holds no such pattern.
pub fn parse_cwver_str(cw_ver_str: &str) -> (r: Option<(u32, u32, u32)>)
    ensures
        match first_match_from(cw_ver_str@, 0) {
            Option::None => r is None,
            Option::Some(i) => match_at(cw_ver_str@, i) && r == Some(
                (
                    two_digit_val(cw_ver_str@, i) as u32,
                    two_digit_val(cw_ver_str@, i + 3) as u32,
                    digit_val(cw_ver_str@[i + 6]) as u32,
                ),
            ),
        },
        r matches Some(t) ==> t.0 <= 99 && t.1 <= 99 && t.2 <= 9,
{
    let n = cw_ver_str.unicode_len();
    if n < 7 {
        return None;
    }
    let mut i: usize = 0;
    while i <= n - 7
        invariant
            n == cw_ver_str@.len(),
            7 <= n,
            i <= n,
            first_match_from(cw_ver_str@, 0) == first_match_from(cw_ver_str@, i as int),
        decreases n - i,
    {
        match try_match_at(cw_ver_str, i) {
            Some(t) => {
                return Some(t);
            },
            None => {
            },
        }
        i = i + 1;
    }
    None
}

fn digit_str(v: u32) -> (r: &'static str)
    requires
        v <= 9,
    ensures
        r@ =~= seq![digit_char(v as int)],
{
    proof {
        reveal_strlit("0");
        reveal_strlit("1");
        reveal_strlit("2");
        reveal_strlit("3");
        reveal_strlit("4");
        reveal_strlit("5");
        reveal_strlit("6");
        reveal_strlit("7");
        reveal_strlit("8");
        reveal_strlit("9");
    }
    if v == 0 {
        "0"
    } else if v == 1 {
        "1"
    } else if v == 2 {
        "2"
    } else if v == 3 {
        "3"
    } else if v == 4 {
        "4"
    } else if v == 5 {
        "5"
    } else if v == 6 {
        "6"
    } else if v == 7 {
        "7"
    } else if v == 8 {
        "8"
    } else {
        "9"
    }
}

/// Formats a date as its `YYwWW.D` version string: the ISO week-based year
/// modulo 100 and the week, both zero-padded to two digits, and the weekday
/// digit. Every date has exactly one such string.
pub fn date_to_cwver_str(date: &CalendarDate) -> (r: String)
    ensures
        exists|iy: int, w: int, wd: int|
            #[trigger] is_iso_parts(date@, iy, w, wd) && 1 <= iy && r@ == cwver_chars(
                iy % 100,
                w,
                wd,
            ),
        forall|iy: int, w: int, wd: int|
            1 <= iy && #[trigger] is_iso_parts(date@, iy, w, wd) ==> r@ == cwver_chars(
                iy % 100,
                w,
                wd,
            ),
{
    proof {
        use_type_invariant(date);
    }
    let (iy, w, wd) = iso_parts_of(date);
    let y2 = iy % 100;
    let mut s = String::new();
    s.append(digit_str((y2 / 10) as u32));
    s.append(digit_str((y2 % 10) as u32));
    s.append("w");
    s.append(digit_str((w / 10) as u32));
    s.append(digit_str((w % 10) as u32));
    s.append(".");
    s.append(digit_str(wd as u32));
    proof {
        reveal_strlit("w");
        reveal_strlit(".");
        assert(s@ =~= cwver_chars(y2 as int, w as int, wd as int));
        assert(y2 as int == (iy as int) % 100);
        assert forall|iy0: int, w0: int, wd0: int|
            1 <= iy0 && #[trigger] is_iso_parts(date@, iy0, w0, wd0) implies s@ == cwver_chars(
            iy0 % 100,
            w0,
            wd0,
        ) by {
            lemma_iso_parts_unique(date@, iy0, w0, wd0, iy as int, w as int, wd as int);
        }
    }
    s
}

/// Parses a `YYwWW.D` version string and converts it to the calendar date it
/// names: the year is 2000 plus the two-digit group, the weekday digit must
/// be a weekday number, and the triple must name a real ISO week date.
pub fn cwver_str_to_date(cw_ver_str: &str) -> (r: Result<CalendarDate, CwverError>)
    ensures
        match first_match_from(cw_ver_str@, 0) {
            Option::None => r == Err::<CalendarDate, CwverError>(CwverError::Parse(ParseError::Malformed)),
            Option::Some(i) => {
                let y2 = two_digit_val(cw_ver_str@, i);
                let w = two_digit_val(cw_ver_str@, i + 3);
                let wd = digit_val(cw_ver_str@[i + 6]);
                if wd < 1 || wd > 7 {
                    r == Err::<CalendarDate, CwverError>(
                        CwverError::Convert(ConversionError::WeekdayOutOfRange(wd as u32)),
                    )
                } else if !iso_ywd_valid(2000 + y2, w, wd) {
                    r == Err::<CalendarDate, CwverError>(CwverError::Convert(ConversionError::NoSuchWeekDate))
                } else {
                    r matches Ok(d) && d.wf() && d@ == rd_of_iso(2000 + y2, w, wd)
                        && is_iso_parts(d@, 2000 + y2, w, wd)
                }
            },
        },
{
    let (y2, w, wd) = match parse_cwver_str(cw_ver_str) {
        Some(t) => t,
        None => {
            return Err(CwverError::Parse(ParseError::Malformed));
        },
    };
    if wd < 1 || wd > 7 {
        return Err(CwverError::Convert(ConversionError::WeekdayOutOfRange(wd)));
    }
    match iso_ywd_to_date(2000 + y2 as u64, w as u64, wd as u64) {
        Some(d) => Ok(d),
        None => Err(CwverError::Convert(ConversionError::NoSuchWeekDate)),
    }
}

/// Round trip: the version string of any date whose ISO week-based year lies
/// in 2000 .. 2099 parses back, as the leftmost (and only) pattern of the
/// string, to the groups that were formatted, and those groups name exactly
/// the original date. Together with the contracts of `date_to_cwver_str`,
/// `parse_cwver_str` and `cwver_str_to_date` this says that formatting a
/// date and parsing the string back returns the date itself.
pub proof fn lemma_cwver_round_trip(d: CalendarDate, iy: int, w: int, wd: int)
    requires
        d.wf(),
        is_iso_parts(d@, iy, w, wd),
        2000 <= iy <= 2099,
    ensures
        ({
            let s = cwver_chars(iy % 100, w, wd);
            &&& first_match_from(s, 0) == Some(0int)
            &&& two_digit_val(s, 0) == iy % 100
            &&& two_digit_val(s, 3) == w
            &&& digit_val(s[6]) == wd
            &&& 1 <= wd <= 7
            &&& iso_ywd_valid(2000 + iy % 100, w, wd)
            &&& rd_of_iso(2000 + iy % 100, w, wd) == d@
        }),
{
    lemma_mod_division_less_than_divisor(d@ - 1, 7);
    assert(1 <= wd <= 7);
    lemma_fundamental_div_mod_converse(iy, 100, 20, iy - 2000);
    assert(iy % 100 == iy - 2000);
    let thu = thursday_of_week(d@);
    crate::isoweek::lemma_thursday_weekday(d@);
    assert(0 <= thu - days_before_year(iy) - 1 <= 365);
    assert(1 <= w <= 53) by {
        vstd::arithmetic::div_mod::lemma_div_is_ordered(thu - days_before_year(iy) - 1, 365, 7);
        lemma_fundamental_div_mod_converse(365, 7, 52, 1);
        vstd::arithmetic::div_mod::lemma_div_pos_is_pos(thu - days_before_year(iy) - 1, 7);
    }
    let y2 = iy % 100;
    let s = cwver_chars(y2, w, wd);
    lemma_fundamental_div_mod_converse(y2, 10, y2 / 10, y2 % 10);
    assert(0 <= y2 / 10 <= 9 && 0 <= y2 % 10 <= 9) by {
        lemma_mod_division_less_than_divisor(y2, 10);
        vstd::arithmetic::div_mod::lemma_div_is_ordered(y2, 99, 10);
        vstd::arithmetic::div_mod::lemma_div_pos_is_pos(y2, 10);
        lemma_fundamental_div_mod_converse(99, 10, 9, 9);
    }
    assert(0 <= w / 10 <= 9 && 0 <= w % 10 <= 9) by {
        lemma_mod_division_less_than_divisor(w, 10);
        vstd::arithmetic::div_mod::lemma_div_is_ordered(w, 99, 10);
        vstd::arithmetic::div_mod::lemma_div_pos_is_pos(w, 10);
        lemma_fundamental_div_mod_converse(99, 10, 9, 9);
    }
    assert(match_at(s, 0));
    assert(two_digit_val(s, 0) == 10 * (y2 / 10) + (y2 % 10) == y2);
    assert(two_digit_val(s, 3) == 10 * (w / 10) + (w % 10) == w) by {
        vstd::arithmetic::div_mod::lemma_fundamental_div_mod(w, 10);
    }
    assert(digit_val(s[6]) == wd);
    assert(first_match_from(s, 0) == Some(0int));
    lemma_days_before_year_le(1, iy);
    lemma_iso_parts_round_trip(d@, iy, w, wd);
}

} // verus!
