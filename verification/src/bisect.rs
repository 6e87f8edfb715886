//! Workday bisection of a date range.

use crate::date::{CalendarDate, MAX_RD};
use crate::errors::RangeError;
use crate::workdays::{
    count_workdays, count_workdays_spec, is_nth_workday_after, is_workday, lemma_nth_workday_below,
    lemma_nth_workday_count, lemma_workdays_between_nonneg, lemma_workdays_between_split,
    lemma_workdays_between_witness, next_workday, workdays_between,
};
use crate::workweek::WorkweekSet;
use vstd::prelude::*;

verus! {

/// The offsets of the two bisection candidates: half the workday span,
/// rounded down and rounded up.
pub open spec fn low_offset(total: int) -> int {
    total / 2
}

pub open spec fn high_offset(total: int) -> int {
    total - total / 2
}

/// Finds the workday(s) in the middle of a date range, measured by
/// `count_workdays`. A span shorter than two workdays yields no date; an even
/// span yields the single middle workday; an odd span yields the two adjacent
/// middle workdays, in ascending order. Fails when the range is unordered.
pub fn bisect_range(workdays: &WorkweekSet, from: &CalendarDate, till: &CalendarDate) -> (r:
    Result<Vec<CalendarDate>, RangeError>)
    ensures
        r is Err <==> from@ > till@,
        r matches Err(e) ==> e == RangeError::Unordered,
        r matches Ok(v) ==> ({
            let total = count_workdays_spec(workdays@, from@, till@);
            &&& total < 2 ==> v@.len() == 0
            &&& total >= 2 ==> {
                &&& v@.len() == if total % 2 == 0 {
                    1int
                } else {
                    2int
                }
                &&& is_nth_workday_after(workdays@, from@, low_offset(total) as nat, v@[0]@)
                &&& v@.len() == 2 ==> is_nth_workday_after(
                    workdays@,
                    from@,
                    high_offset(total) as nat,
                    v@[v@.len() - 1]@,
                )
                &&& forall|i: int|
                    0 <= i < v@.len() ==> (#[trigger] v@[i]).wf() && from@ < v@[i]@ < till@
                &&& v@.len() == 2 ==> v@[0]@ < v@[1]@
            }
        }),
{
    proof {
        use_type_invariant(from);
        use_type_invariant(till);
    }
    let total = match count_workdays(workdays, from, till) {
        Ok(n) => n,
        Err(e) => {
            return Err(e);
        },
    };
    if total < 2 {
        return Ok(Vec::new());
    }
    let ghost ww = workdays@;
    let ghost wb = workdays_between(ww, from@, till@);
    proof {
        assert(wb == total - 1);
        lemma_workdays_between_nonneg(ww, from@, till@);
    }
    let lo = total / 2;
    let hi = total - lo;
    proof {
        vstd::arithmetic::div_mod::lemma_fundamental_div_mod(total as int, 2);
        assert(1 <= lo < total);
        assert(lo <= hi < total);
        assert(hi - lo == total % 2);
    }
    let mut date = *from;
    let mut i: u32 = 0;
    while i < lo
        invariant
            i <= lo,
            1 <= lo < total,
            date.wf(),
            from.wf(),
            till.wf(),
            from@ < till@ <= MAX_RD,
            total == count_workdays_spec(ww, from@, till@),
            wb == workdays_between(ww, from@, till@) == total - 1,
            ww == workdays@,
            is_nth_workday_after(ww, from@, i as nat, date@),
            i > 0 ==> workdays_between(ww, from@, date@ + 1) == i && is_workday(ww, date@),
            from@ <= date@ < till@,
        decreases lo - i,
    {
        proof {
            lemma_remaining_workday(ww, from@, date@, till@, i as nat, wb);
        }
        let prev = date;
        date = next_workday(workdays, &date);
        proof {
            assert(is_nth_workday_after(ww, from@, (i + 1) as nat, date@));
            lemma_nth_workday_count(ww, from@, (i + 1) as nat, date@);
            lemma_nth_workday_below(ww, from@, (i + 1) as nat, date@, till@);
        }
        i = i + 1;
    }
    proof {
        lemma_nth_workday_count(ww, from@, lo as nat, date@);
    }
    if hi > lo {
        proof {
            lemma_remaining_workday(ww, from@, date@, till@, lo as nat, wb);
        }
        let second = next_workday(workdays, &date);
        proof {
            assert(is_nth_workday_after(ww, from@, hi as nat, second@));
            lemma_nth_workday_count(ww, from@, hi as nat, second@);
            lemma_nth_workday_below(ww, from@, hi as nat, second@, till@);
        }
        let mut v: Vec<CalendarDate> = Vec::new();
        v.push(date);
        v.push(second);
        Ok(v)
    } else {
        let mut v: Vec<CalendarDate> = Vec::new();
        v.push(date);
        Ok(v)
    }
}

/// While fewer steps were taken than there are workdays strictly between the
/// endpoints, another workday lies between the current day and the end.
proof fn lemma_remaining_workday(ww: Set<int>, a: int, cur: int, t: int, steps: nat, wb: int)
    requires
        a <= cur < t <= MAX_RD,
        is_nth_workday_after(ww, a, steps, cur),
        wb == workdays_between(ww, a, t),
        steps < wb,
    ensures
        exists|b: int| cur < b <= MAX_RD && is_workday(ww, b),
{
    if steps == 0 {
        assert(cur == a);
        lemma_workdays_between_witness(ww, a, t);
        let c = choose|c: int| a < c < t && is_workday(ww, c);
        assert(cur < c <= MAX_RD && is_workday(ww, c));
    } else {
        lemma_nth_workday_count(ww, a, steps, cur);
        lemma_workdays_between_split(ww, a, cur, t);
        lemma_workdays_between_witness(ww, cur, t);
        let c = choose|c: int| cur < c < t && is_workday(ww, c);
        assert(cur < c <= MAX_RD && is_workday(ww, c));
    }
}

} // verus!
