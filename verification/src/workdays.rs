//! Counting and advancing over workdays.

use crate::date::{day_of_week0, CalendarDate, MAX_RD};
use crate::errors::RangeError;
use crate::workweek::WorkweekSet;
use vstd::prelude::*;

verus! {

/// Whether the day with number rd falls on a weekday of the workweek ww.
pub open spec fn is_workday(ww: Set<int>, rd: int) -> bool {
    ww.contains(day_of_week0(rd) + 1)
}

/// Number of workdays strictly between the days a and b.
pub open spec fn workdays_between(ww: Set<int>, a: int, b: int) -> int
    decreases b - a,
{
    if b <= a + 1 {
        0
    } else {
        workdays_between(ww, a, b - 1) + if is_workday(ww, b - 1) {
            1int
        } else {
            0int
        }
    }
}

/// What `count_workdays` returns for an ordered range: zero for an empty
/// range, else one (for the start day, unconditionally) plus the workdays
/// strictly between the two endpoints. The end day itself is never tested.
pub open spec fn count_workdays_spec(ww: Set<int>, a: int, b: int) -> int {
    if a == b {
        0
    } else {
        1 + workdays_between(ww, a, b)
    }
}

/// b is the earliest workday strictly after a.
pub open spec fn is_next_workday(ww: Set<int>, a: int, b: int) -> bool {
    &&& a < b
    &&& is_workday(ww, b)
    &&& forall|c: int| a < c < b ==> !is_workday(ww, c)
}

/// b is reached from a by stepping to the next workday exactly n times.
pub open spec fn is_nth_workday_after(ww: Set<int>, a: int, n: nat, b: int) -> bool
    decreases n,
{
    if n == 0 {
        b == a
    } else {
        exists|m: int|
            is_nth_workday_after(ww, a, (n - 1) as nat, m) && is_next_workday(ww, m, b)
    }
}

/// A workday count is never negative.
pub proof fn lemma_workdays_between_nonneg(ww: Set<int>, a: int, b: int)
    ensures
        workdays_between(ww, a, b) >= 0,
    decreases b - a,
{
    if b > a + 1 {
        lemma_workdays_between_nonneg(ww, a, b - 1);
    }
}

/// Counting over an interval splits at any interior day.
pub proof fn lemma_workdays_between_split(ww: Set<int>, a: int, m: int, b: int)
    requires
        a <= m < b,
    ensures
        workdays_between(ww, a, b) == workdays_between(ww, a, m + 1) + workdays_between(ww, m, b),
    decreases b - m,
{
    if b > m + 1 {
        lemma_workdays_between_split(ww, a, m, b - 1);
    }
}

/// An interval without workdays counts zero.
pub proof fn lemma_workdays_between_zero(ww: Set<int>, a: int, b: int)
    requires
        forall|c: int| a < c < b ==> !is_workday(ww, c),
    ensures
        workdays_between(ww, a, b) == 0,
    decreases b - a,
{
    if b > a + 1 {
        lemma_workdays_between_zero(ww, a, b - 1);
    }
}

/// A workday inside the interval makes the count positive.
pub proof fn lemma_workdays_between_pos(ww: Set<int>, a: int, x: int, b: int)
    requires
        a < x < b,
        is_workday(ww, x),
    ensures
        workdays_between(ww, a, b) >= 1,
    decreases b - a,
{
    lemma_workdays_between_nonneg(ww, a, b - 1);
    if x < b - 1 {
        lemma_workdays_between_pos(ww, a, x, b - 1);
    }
}

/// A positive count names a workday inside the interval.
pub proof fn lemma_workdays_between_witness(ww: Set<int>, a: int, b: int)
    requires
        workdays_between(ww, a, b) >= 1,
    ensures
        exists|c: int| a < c < b && is_workday(ww, c),
    decreases b - a,
{
    if b > a + 1 {
        if is_workday(ww, b - 1) {
            assert(a < b - 1 < b && is_workday(ww, b - 1));
        } else {
            lemma_workdays_between_witness(ww, a, b - 1);
            let c = choose|c: int| a < c < b - 1 && is_workday(ww, c);
            assert(a < c < b && is_workday(ww, c));
        }
    }
}

/// After n steps to the next workday (n >= 1), the day reached is a workday,
/// lies after the start, and exactly n workdays lie in (start, reached].
pub proof fn lemma_nth_workday_count(ww: Set<int>, a: int, n: nat, b: int)
    requires
        n >= 1,
        is_nth_workday_after(ww, a, n, b),
    ensures
        a < b,
        is_workday(ww, b),
        workdays_between(ww, a, b + 1) == n,
    decreases n,
{
    let m = choose|m: int|
        is_nth_workday_after(ww, a, (n - 1) as nat, m) && is_next_workday(ww, m, b);
    if n == 1 {
        assert(m == a);
        lemma_workdays_between_zero(ww, a, b);
    } else {
        lemma_nth_workday_count(ww, a, (n - 1) as nat, m);
        lemma_workdays_between_zero(ww, m, b);
        lemma_workdays_between_split(ww, a, m, b + 1);
    }
}

/// A day reached by at most as many steps as there are workdays strictly
/// between a and t lies strictly before t.
pub proof fn lemma_nth_workday_below(ww: Set<int>, a: int, n: nat, b: int, t: int)
    requires
        a < t,
        is_nth_workday_after(ww, a, n, b),
        n <= workdays_between(ww, a, t),
    ensures
        b < t,
{
    if n == 0 {
        assert(b == a);
    } else {
        lemma_nth_workday_count(ww, a, n, b);
        if b >= t {
            lemma_workdays_between_split(ww, a, t - 1, b + 1);
            lemma_workdays_between_pos(ww, t - 1, b, b + 1);
            lemma_workdays_between_nonneg(ww, a, t);
            assert(workdays_between(ww, a, b + 1) >= workdays_between(ww, a, t) + 1);
        }
    }
}

/// Within the seven days after any day, every weekday occurs; so a non-empty
/// workweek puts a workday among them.
pub proof fn lemma_workday_within_seven(ww: Set<int>, a: int, d: int)
    requires
        ww.contains(d),
        1 <= d <= 7,
    ensures
        exists|k: int| 1 <= k <= 7 && #[trigger] is_workday(ww, a + k),
{
    let k = (d - 1 - a) % 7 + 1;
    assert(0 <= (d - 1 - a) % 7 < 7) by {
        vstd::arithmetic::div_mod::lemma_mod_division_less_than_divisor(d - 1 - a, 7);
    }
    assert(day_of_week0(a + k) == d - 1) by {
        vstd::arithmetic::div_mod::lemma_fundamental_div_mod(d - 1 - a, 7);
        let q = (d - 1 - a) / 7;
        assert(a + k - 1 == (d - 1) + (-q) * 7) by {
            assert((-q) * 7 == -(q * 7)) by (nonlinear_arith);
            assert(q * 7 == 7 * q) by (nonlinear_arith);
        }
        vstd::arithmetic::div_mod::lemma_fundamental_div_mod_converse(a + k - 1, 7, -q, d - 1);
    }
    assert(is_workday(ww, a + k));
}

/// Counts the workdays from one date to a later one: one for the start day,
/// unconditionally, plus one for every workday strictly between the two
/// dates; the end day itself is never tested. Fails when the range is
/// unordered.
pub fn count_workdays(workdays_of_week: &WorkweekSet, from: &CalendarDate, till: &CalendarDate) -> (r:
    Result<u32, RangeError>)
    ensures
        r is Err <==> from@ > till@,
        r matches Err(e) ==> e == RangeError::Unordered,
        r matches Ok(n) ==> n == count_workdays_spec(workdays_of_week@, from@, till@),
{
    proof {
        use_type_invariant(from);
        use_type_invariant(till);
    }
    if till.is_before(from) {
        return Err(RangeError::Unordered);
    }
    if from.is_same_day(till) {
        return Ok(0);
    }
    let mut current = from.succ();
    let mut count: u32 = 1;
    loop
        invariant
            1 <= from@ < current@ <= till@,
            till@ <= MAX_RD,
            current.wf(),
            count == 1 + workdays_between(workdays_of_week@, from@, current@),
            count <= current@ - from@,
        decreases till@ - current@,
    {
        if current.is_same_day(till) {
            return Ok(count);
        }
        if workdays_of_week.contains(current.weekday_from_monday()) {
            count = count + 1;
        }
        current = current.succ();
    }
}

/// The earliest workday strictly after the given date. The workweek must
/// name at least one weekday, and a workday must exist within the supported
/// calendar range.
pub fn next_workday(workdays: &WorkweekSet, from: &CalendarDate) -> (r: CalendarDate)
    requires
        exists|b: int| from@ < b <= MAX_RD && is_workday(workdays@, b),
    ensures
        r.wf(),
        is_next_workday(workdays@, from@, r@),
{
    proof {
        use_type_invariant(from);
        let b0 = choose|b: int| from@ < b <= MAX_RD && is_workday(workdays@, b);
        assert(from@ < MAX_RD);
    }
    let mut next = from.succ();
    loop
        invariant
            from@ < next@,
            next.wf(),
            forall|c: int| from@ < c < next@ ==> !is_workday(workdays@, c),
            exists|b: int| next@ <= b <= MAX_RD && is_workday(workdays@, b),
        decreases MAX_RD - next@,
    {
        if workdays.contains(next.weekday_from_monday()) {
            return next;
        }
        proof {
            let b = choose|b: int| next@ <= b <= MAX_RD && is_workday(workdays@, b);
            assert(next@ < b);
        }
        next = next.succ();
    }
}

/// Steps to the next workday exactly n times; zero steps return the start
/// day itself. The workweek must name a weekday when n is positive, and the
/// walk must fit in the supported calendar range.
pub fn jump_n_workdays(from: &CalendarDate, n: u32, workdays: &WorkweekSet) -> (r: CalendarDate)
    requires
        n > 0 ==> exists|d: int| workdays@.contains(d),
        from@ + 7 * (n as int) <= MAX_RD,
    ensures
        r.wf(),
        is_nth_workday_after(workdays@, from@, n as nat, r@),
        r@ <= from@ + 7 * (n as int),
{
    proof {
        use_type_invariant(from);
    }
    let mut date = *from;
    let mut i: u32 = 0;
    while i < n
        invariant
            i <= n,
            date.wf(),
            is_nth_workday_after(workdays@, from@, i as nat, date@),
            date@ <= from@ + 7 * (i as int),
            from@ + 7 * (n as int) <= MAX_RD,
            n > 0 ==> exists|d: int| workdays@.contains(d),
        decreases n - i,
    {
        proof {
            let d = choose|d: int| workdays@.contains(d);
            workdays.lemma_members();
            lemma_workday_within_seven(workdays@, date@, d);
            let k = choose|k: int| 1 <= k <= 7 && #[trigger] is_workday(workdays@, date@ + k);
            assert(date@ + k <= MAX_RD);
        }
        let prev = date;
        date = next_workday(workdays, &date);
        proof {
            assert(is_next_workday(workdays@, prev@, date@));
            let k = choose|k: int| 1 <= k <= 7 && #[trigger] is_workday(workdays@, prev@ + k);
            assert(date@ <= prev@ + k);
            assert(is_nth_workday_after(workdays@, from@, (i + 1) as nat, date@));
        }
        i = i + 1;
    }
    date
}

} // verus!
