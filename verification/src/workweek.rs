//! The workweek: which weekdays count as workdays.

use crate::codec::{digit_val, is_digit_char};
use crate::errors::ParseError;
use vstd::prelude::*;
use vstd::seq_lib::*;
use vstd::string::StrSliceExecFns;

verus! {

/// Position of the first comma at or after i.
pub open spec fn first_comma_from(s: Seq<char>, i: int) -> Option<int>
    decreases s.len() - i,
{
    if i >= s.len() {
        None
    } else if s[i] == ',' {
        Some(i)
    } else {
        first_comma_from(s, i + 1)
    }
}

/// The comma-separated tokens of the text; a text without commas is one
/// token, possibly empty.
pub open spec fn split_csv(s: Seq<char>) -> Seq<Seq<char>>
    decreases s.len(),
{
    match first_comma_from(s, 0) {
        Option::None => seq![s],
        Option::Some(i) => {
            if 0 <= i < s.len() {
                seq![s.subrange(0, i)] + split_csv(s.subrange(i + 1, s.len() as int))
            } else {
                seq![s]
            }
        },
    }
}

/// A comma found is a comma inside the text.
pub proof fn lemma_first_comma_in_range(s: Seq<char>, i: int, j: int)
    requires
        0 <= i,
        first_comma_from(s, i) == Some(j),
    ensures
        i <= j < s.len(),
        s[j] == ',',
    decreases s.len() - i,
{
    if i < s.len() && s[i] != ',' {
        lemma_first_comma_in_range(s, i + 1, j);
    }
}

/// Value of a string of digit characters, read in base ten.
pub open spec fn digits_val(t: Seq<char>) -> int
    decreases t.len(),
{
    if t.len() == 0 {
        0
    } else {
        digits_val(t.drop_last()) * 10 + digit_val(t.last())
    }
}

pub open spec fn all_digits(t: Seq<char>) -> bool {
    forall|i: int| 0 <= i < t.len() ==> is_digit_char(#[trigger] t[i])
}

/// The token's digits, behind an optional leading plus sign.
pub open spec fn token_digits(t: Seq<char>) -> Seq<char> {
    if t.len() >= 1 && t[0] == '+' {
        t.subrange(1, t.len() as int)
    } else {
        t
    }
}

/// The token reads as an unsigned integer: an optional plus sign, then one
/// or more digits, with a value that fits the integer type.
pub open spec fn token_parses(t: Seq<char>) -> bool {
    &&& token_digits(t).len() >= 1
    &&& all_digits(token_digits(t))
    &&& digits_val(token_digits(t)) <= u32::MAX
}

pub open spec fn token_val(t: Seq<char>) -> int {
    digits_val(token_digits(t))
}

/// The token reads as a weekday number.
pub open spec fn token_ok(t: Seq<char>) -> bool {
    token_parses(t) && 1 <= token_val(t) <= 7
}

/// A digit string's value is not negative, and grows when digits follow.
pub proof fn lemma_digits_val_nonneg(t: Seq<char>)
    requires
        all_digits(t),
    ensures
        digits_val(t) >= 0,
    decreases t.len(),
{
    if t.len() > 0 {
        assert(all_digits(t.drop_last())) by {
            assert(forall|i: int|
                0 <= i < t.drop_last().len() ==> #[trigger] t.drop_last()[i] == t[i]);
        }
        lemma_digits_val_nonneg(t.drop_last());
        assert(digits_val(t.drop_last()) * 10 >= 0) by (nonlinear_arith)
            requires
                digits_val(t.drop_last()) >= 0,
        ;
    }
}

/// A set of weekday numbers (1 = Monday .. 7 = Sunday) that count as
/// workdays. It may be empty (no workdays) or hold all seven days.
#[derive(Debug)]
pub struct WorkweekSet {
    days: Vec<u32>,
}

impl View for WorkweekSet {
    type V = Set<int>;

    closed spec fn view(&self) -> Set<int> {
        Set::new(
            |d: int|
                1 <= d <= 7 && exists|i: int| 0 <= i < self.days@.len() && self.days@[i] == d,
        )
    }
}

impl WorkweekSet {
    #[verifier::type_invariant]
    spec fn type_inv(&self) -> bool {
        forall|i: int| 0 <= i < self.days@.len() ==> 1 <= #[trigger] self.days@[i] <= 7
    }

    /// Every member is a weekday number.
    pub proof fn lemma_members(&self)
        ensures
            forall|d: int| #[trigger] self@.contains(d) ==> 1 <= d <= 7,
    {
    }

    /// Builds a workweek from a list of weekday numbers; rejects the list if
    /// any entry lies outside 1..=7. Duplicates collapse.
    pub fn from_days(days: Vec<u32>) -> (r: Option<WorkweekSet>)
        ensures
            r is Some <==> (forall|i: int| 0 <= i < days@.len() ==> 1 <= #[trigger] days@[i] <= 7),
            r matches Some(ws) ==> forall|d: int|
                #[trigger] ws@.contains(d) <==> exists|i: int|
                    0 <= i < days@.len() && days@[i] == d,
    {
        let mut k: usize = 0;
        while k < days.len()
            invariant
                k <= days@.len(),
                forall|i: int| 0 <= i < k ==> 1 <= #[trigger] days@[i] <= 7,
            decreases days@.len() - k,
        {
            if days[k] < 1 || days[k] > 7 {
                return None;
            }
            k += 1;
        }
        Some(WorkweekSet { days })
    }

    /// Membership test: is the given weekday number a workday?
    pub fn contains(&self, d: u32) -> (r: bool)
        ensures
            r == self@.contains(d as int),
    {
        proof {
            use_type_invariant(self);
        }
        let mut k: usize = 0;
        while k < self.days.len()
            invariant
                k <= self.days@.len(),
                forall|i: int| 0 <= i < k ==> #[trigger] self.days@[i] != d,
                forall|i: int|
                    0 <= i < self.days@.len() ==> 1 <= #[trigger] self.days@[i] <= 7,
            decreases self.days@.len() - k,
        {
            if self.days[k] == d {
                return true;
            }
            k += 1;
        }
        false
    }

    /// Whether no weekday at all counts as a workday.
    pub fn is_empty(&self) -> (r: bool)
        ensures
            r ==> self@ =~= Set::<int>::empty(),
            !r ==> exists|d: int| self@.contains(d),
    {
        proof {
            use_type_invariant(self);
        }
        if self.days.len() == 0 {
            assert(self@ =~= Set::<int>::empty());
            true
        } else {
            assert(self@.contains(self.days@[0] as int));
            false
        }
    }
}

/// Reads a token as an unsigned integer: an optional plus sign, then one or
/// more digits; rejects anything else, and a value too large for the type.
fn parse_uint_token(t: &str) -> (r: Option<u32>)
    ensures
        r is Some <==> token_parses(t@),
        r matches Some(v) ==> v == token_val(t@),
{
    let n = t.unicode_len();
    let start: usize = if n >= 1 && t.get_char(0) == '+' {
        1
    } else {
        0
    };
    proof {
        assert(token_digits(t@) =~= t@.subrange(start as int, n as int));
    }
    if n == start {
        return None;
    }
    let ghost digs = token_digits(t@);
    let mut i: usize = start;
    let mut acc: u64 = 0;
    let mut big: bool = false;
    while i < n
        invariant
            start <= i <= n,
            n == t@.len(),
            digs == t@.subrange(start as int, n as int),
            digs == token_digits(t@),
            all_digits(t@.subrange(start as int, i as int)),
            !big ==> acc == digits_val(t@.subrange(start as int, i as int)) && acc <= u32::MAX,
            big ==> digits_val(t@.subrange(start as int, i as int)) > u32::MAX,
        decreases n - i,
    {
        let ghost pre = t@.subrange(start as int, i as int);
        let ghost ext = t@.subrange(start as int, i as int + 1);
        proof {
            assert(ext.drop_last() =~= pre);
            assert(ext.last() == t@[i as int]);
            lemma_digits_val_nonneg(pre);
        }
        let d = match crate::codec::char_digit(t.get_char(i)) {
            Some(d) => d,
            None => {
                proof {
                    assert(!all_digits(digs)) by {
                        assert(digs[i - start] == t@[i as int]);
                    }
                }
                return None;
            },
        };
        proof {
            assert(all_digits(ext)) by {
                assert(forall|j: int| 0 <= j < pre.len() ==> ext[j] == #[trigger] pre[j]);
            }
            assert(digits_val(ext) == digits_val(pre) * 10 + digit_val(t@[i as int]));
            if big {
                lemma_digits_val_nonneg(ext);
                assert(digits_val(pre) * 10 >= digits_val(pre)) by (nonlinear_arith)
                    requires
                        digits_val(pre) >= 0,
                ;
            }
        }
        if !big {
            acc = acc * 10 + (d as u64);
            if acc > 0xffff_ffff {
                big = true;
            }
        }
        i = i + 1;
    }
    proof {
        assert(t@.subrange(start as int, n as int) == digs);
    }
    if big {
        return None;
    }
    Some(acc as u32)
}

/// Parses a comma-separated list of weekday numbers (1 = Monday .. 7 =
/// Sunday) into a workweek. A token that is not an unsigned integer fails as
/// invalid, carrying the token; an integer outside 1..=7 fails as
/// out-of-range, carrying the value; the first failing token decides.
/// Duplicates collapse.
/// A split always yields at least one token.
pub proof fn lemma_split_csv_len(s: Seq<char>)
    ensures
        split_csv(s).len() >= 1,
{
}

/// One comma splits off one token; the rest of the tokens are the split of
/// the rest of the text.
pub proof fn lemma_split_csv_step(s: Seq<char>, c: int)
    requires
        first_comma_from(s, 0) == Some(c),
    ensures
        0 <= c < s.len(),
        split_csv(s).len() >= 2,
        split_csv(s)[0] == s.subrange(0, c),
        split_csv(s).subrange(1, split_csv(s).len() as int) == split_csv(
            s.subrange(c + 1, s.len() as int),
        ),
{
    lemma_first_comma_in_range(s, 0, c);
    let tail = s.subrange(c + 1, s.len() as int);
    assert(split_csv(s) == seq![s.subrange(0, c)] + split_csv(tail));
    lemma_split_csv_len(tail);
    assert(split_csv(s).subrange(1, split_csv(s).len() as int) =~= split_csv(tail));
}

/// Reads one token as a weekday number, with the token or the value in the
/// error.
fn check_token(tok: &str) -> (r: Result<u32, ParseError>)
    ensures
        r is Ok <==> token_ok(tok@),
        r matches Ok(v) ==> v == token_val(tok@) && 1 <= v <= 7,
        r matches Err(e) ==> if !token_parses(tok@) {
            e matches ParseError::InvalidWorkday(t) && t@ == tok@
        } else {
            e == ParseError::WorkdayOutOfRange(token_val(tok@) as u32)
        },
{
    match parse_uint_token(tok) {
        None => Err(ParseError::InvalidWorkday(tok.to_owned())),
        Some(v) => {
            if v < 1 || v > 7 {
                Err(ParseError::WorkdayOutOfRange(v))
            } else {
                Ok(v)
            }
        },
    }
}

/// Parses a comma-separated list of weekday numbers (1 = Monday .. 7 =
/// Sunday) into a workweek. A token that is not an unsigned integer fails as
/// invalid, carrying the token; an integer outside 1..=7 fails as
/// out-of-range, carrying the value; the first failing token decides.
/// Duplicates collapse.
#[verifier::rlimit(100)]
pub fn workdays_to_hashset(workdays_of_week: &str) -> (r: Result<WorkweekSet, ParseError>)
    ensures
        ({
            let toks = split_csv(workdays_of_week@);
            &&& (r is Ok <==> forall|k: int| 0 <= k < toks.len() ==> token_ok(#[trigger] toks[k]))
            &&& r matches Ok(ws) ==> forall|d: int|
                #[trigger] ws@.contains(d) <==> exists|k: int|
                    0 <= k < toks.len() && token_val(#[trigger] toks[k]) == d
            &&& r matches Err(e) ==> exists|k: int|
                {
                    &&& 0 <= k < toks.len()
                    &&& !token_ok(#[trigger] toks[k])
                    &&& forall|j: int| 0 <= j < k ==> token_ok(#[trigger] toks[j])
                    &&& if !token_parses(toks[k]) {
                        e matches ParseError::InvalidWorkday(t) && t@ == toks[k]
                    } else {
                        e == ParseError::WorkdayOutOfRange(token_val(toks[k]) as u32)
                    }
                }
        }),
{
    let ghost toks = split_csv(workdays_of_week@);
    let mut days: Vec<u32> = Vec::new();
    let mut rest: &str = workdays_of_week;
    let ghost mut k: int = 0;
    loop
        invariant_except_break
            toks == split_csv(workdays_of_week@),
            0 <= k < toks.len(),
            split_csv(rest@) == toks.subrange(k, toks.len() as int),
            forall|j: int| 0 <= j < k ==> token_ok(#[trigger] toks[j]),
            forall|i: int| 0 <= i < days@.len() ==> 1 <= #[trigger] days@[i] <= 7,
            days@.len() == k,
            forall|j: int| 0 <= j < k ==> #[trigger] days@[j] == token_val(toks[j]),
        ensures
            toks == split_csv(workdays_of_week@),
            0 <= k == toks.len() - 1,
            rest@ == toks[k],
            forall|j: int| 0 <= j < k ==> token_ok(#[trigger] toks[j]),
            forall|i: int| 0 <= i < days@.len() ==> 1 <= #[trigger] days@[i] <= 7,
            days@.len() == k,
            forall|j: int| 0 <= j < k ==> #[trigger] days@[j] == token_val(toks[j]),
        decreases rest@.len(),
    {
        let n = rest.unicode_len();
        let c = match find_comma(rest) {
            None => {
                proof {
                    assert(split_csv(rest@) == seq![rest@]);
                    assert(toks.subrange(k, toks.len() as int).len() == 1);
                    assert(toks[k] == toks.subrange(k, toks.len() as int)[0]);
                }
                break;
            },
            Some(c) => c,
        };
        proof {
            lemma_split_csv_step(rest@, c as int);
        }
        let tok: &str = rest.substring_char(0, c);
        let ghost old_days = days@;
        proof {
            assert(tok@ == toks.subrange(k, toks.len() as int)[0]);
            assert(tok@ == toks[k]);
        }
        let v = match check_token(tok) {
            Ok(v) => v,
            Err(e) => {
                return Err(e);
            },
        };
        days.push(v);
        proof {
            assert(split_csv(rest@.subrange(c as int + 1, rest@.len() as int)) == toks.subrange(
                k,
                toks.len() as int,
            ).subrange(1, toks.len() - k));
            assert(toks.subrange(k, toks.len() as int).subrange(1, toks.len() - k) =~= toks
                .subrange(k + 1, toks.len() as int));
            assert(days@ == old_days.push(v));
        }
        rest = rest.substring_char(c + 1, n);
        proof {
            k = k + 1;
        }
    }
    let ghost old_days = days@;
    let v = match check_token(rest) {
        Ok(v) => v,
        Err(e) => {
            return Err(e);
        },
    };
    days.push(v);
    proof {
        assert(days@ == old_days.push(v));
        assert(forall|j: int| 0 <= j < toks.len() ==> token_ok(#[trigger] toks[j]));
        assert(days@.len() == toks.len());
        assert(forall|j: int| 0 <= j < toks.len() ==> #[trigger] days@[j] == token_val(toks[j]));
    }
    match WorkweekSet::from_days(days) {
        Some(ws) => {
            proof {
                assert forall|d: int| #[trigger] ws@.contains(d) <==> exists|k0: int|
                    0 <= k0 < toks.len() && token_val(#[trigger] toks[k0]) == d by {
                    if ws@.contains(d) {
                        let i = choose|i: int|
                            0 <= i < days@.len() && #[trigger] days@[i] == d;
                        assert(0 <= i < toks.len() && token_val(toks[i]) == d);
                    }
                    if exists|k0: int|
                        0 <= k0 < toks.len() && token_val(#[trigger] toks[k0]) == d {
                        let k0 = choose|k0: int|
                            0 <= k0 < toks.len() && token_val(#[trigger] toks[k0]) == d;
                        assert(days@[k0] == d);
                    }
                }
            }
            Ok(ws)
        },
        None => vstd::pervasive::unreached(),
    }
}

/// Position of the first comma of the text.
fn find_comma(s: &str) -> (r: Option<usize>)
    ensures
        r matches Some(c) ==> first_comma_from(s@, 0) == Some(c as int) && c < s@.len(),
        r is None ==> first_comma_from(s@, 0) is None,
{
    let n = s.unicode_len();
    let mut i: usize = 0;
    while i < n
        invariant
            i <= n,
            n == s@.len(),
            first_comma_from(s@, 0) == first_comma_from(s@, i as int),
        decreases n - i,
    {
        if s.get_char(i) == ',' {
            return Some(i);
        }
        i = i + 1;
    }
    None
}

} // verus!
