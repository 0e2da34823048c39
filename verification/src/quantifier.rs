//! Quantifiers: `{min}` and `{min,max}`.
//!
//! Each of the two fields is a run of decimal digits. A field counts as the
//! number that it writes with the digits `0` to `9`; a field that holds a
//! digit of another script, or writes a number that does not fit the
//! machine's word, counts as 1.

use crate::digit::{decimal_digit, is_decimal_digit, is_digit};
use vstd::prelude::*;

verus! {

/// A quantifier as it was read from a text.
#[derive(Clone, Copy, Debug, PartialEq, Eq)]
pub struct Quantifier {
    /// Index after the closing brace.
    pub end: usize,
    /// The least number of characters.
    pub min: usize,
    /// The greatest number of characters.
    pub max: usize,
}

/// The mathematical value of a `Quantifier`.
pub struct QuantifierModel {
    pub end: int,
    pub min: int,
    pub max: int,
}

impl View for Quantifier {
    type V = QuantifierModel;

    open spec fn view(&self) -> QuantifierModel {
        QuantifierModel { end: self.end as int, min: self.min as int, max: self.max as int }
    }
}

/// Every character is one of the digits `0` to `9`.
pub open spec fn all_digits(digits: Seq<char>) -> bool {
    forall|k: int| 0 <= k < digits.len() ==> is_digit(#[trigger] digits[k])
}

/// The number that the digits write in base ten.
pub open spec fn decimal_value(digits: Seq<char>) -> int
    decreases digits.len(),
{
    if digits.len() == 0 {
        0
    } else {
        10 * decimal_value(digits.drop_last()) + (digits.last() as int - '0' as int)
    }
}

/// The count that a field of a quantifier stands for: its number, or 1 where
/// the field does not write, with the digits `0` to `9` alone, a number that
/// fits the machine's word.
pub open spec fn count_of(field: Seq<char>) -> int {
    if field.len() > 0 && all_digits(field) && decimal_value(field) <= usize::MAX {
        decimal_value(field)
    } else {
        1
    }
}

/// The index at which the run of decimal digits that starts at `from` ends.
pub open spec fn digits_end(s: Seq<char>, from: int) -> int
    decreases s.len() - from,
{
    if 0 <= from < s.len() && is_decimal_digit(s[from]) {
        digits_end(s, from + 1)
    } else {
        from
    }
}

/// The quantifier that starts at `at`, where there is one: an opening brace,
/// a run of decimal digits, a comma and a second run or neither, and a
/// closing brace.
pub open spec fn quantifier_at(s: Seq<char>, at: int) -> Option<QuantifierModel> {
    let min_end = digits_end(s, at + 1);
    let max_end = digits_end(s, min_end + 1);
    if 0 <= at < s.len() && s[at] == '{' && at + 1 < min_end < s.len() {
        let min = count_of(s.subrange(at + 1, min_end));
        if s[min_end] == '}' {
            Some(QuantifierModel { end: min_end + 1, min, max: min })
        } else if s[min_end] == ',' && min_end + 1 < max_end < s.len() && s[max_end] == '}' {
            Some(
                QuantifierModel {
                    end: max_end + 1,
                    min,
                    max: count_of(s.subrange(min_end + 1, max_end)),
                },
            )
        } else {
            None
        }
    } else {
        None
    }
}

/// The run of decimal digits from `from` ends between `from` and the length,
/// holds decimal digits only, and is followed by none.
pub proof fn lemma_digits_end(s: Seq<char>, from: int)
    requires
        0 <= from <= s.len(),
    ensures
        from <= digits_end(s, from) <= s.len(),
        forall|k: int| from <= k < digits_end(s, from) ==> is_decimal_digit(s[k]),
        digits_end(s, from) < s.len() ==> !is_decimal_digit(s[digits_end(s, from)]),
    decreases s.len() - from,
{
    if from < s.len() && is_decimal_digit(s[from]) {
        lemma_digits_end(s, from + 1);
    }
}

/// An index with the three properties of `lemma_digits_end` is `digits_end`.
pub proof fn lemma_digits_end_is(s: Seq<char>, from: int, end: int)
    requires
        0 <= from <= end <= s.len(),
        forall|k: int| from <= k < end ==> is_decimal_digit(s[k]),
        end < s.len() ==> !is_decimal_digit(s[end]),
    ensures
        digits_end(s, from) == end,
    decreases end - from,
{
    if from < end {
        lemma_digits_end_is(s, from + 1, end);
    }
}

/// Digits write a number that is not negative, and no smaller than the one
/// that any of their prefixes writes.
pub proof fn lemma_decimal_value_grows(digits: Seq<char>, n: int)
    requires
        all_digits(digits),
        0 <= n <= digits.len(),
    ensures
        0 <= decimal_value(digits.take(n)) <= decimal_value(digits),
    decreases digits.len(),
{
    if digits.len() == 0 {
        assert(digits.take(n) =~= digits);
    } else if n == digits.len() {
        assert(digits.take(n) =~= digits);
        assert(all_digits(digits.drop_last()));
        lemma_decimal_value_grows(digits.drop_last(), n - 1);
    } else {
        assert(all_digits(digits.drop_last()));
        assert(digits.drop_last().take(n) =~= digits.take(n));
        lemma_decimal_value_grows(digits.drop_last(), n);
    }
}

/// Where an opening brace, the digits of `min` and a closing brace stand at
/// `at`, they are a quantifier that allows the count of `min` and no other.
pub proof fn lemma_quantifier_exact(s: Seq<char>, at: int, min: Seq<char>)
    requires
        0 <= at,
        at + min.len() + 2 <= s.len(),
        min.len() > 0,
        all_digits(min),
        s[at] == '{',
        s.subrange(at + 1, at + 1 + min.len()) == min,
        s[at + 1 + min.len()] == '}',
    ensures
        quantifier_at(s, at) == Some(
            QuantifierModel { end: at + min.len() + 2, min: count_of(min), max: count_of(min) },
        ),
{
    let min_end = at + 1 + min.len();
    assert forall|k: int| at + 1 <= k < min_end implies is_decimal_digit(s[k]) by {
        assert(s[k] == min[k - at - 1]);
    }
    lemma_digits_end_is(s, at + 1, min_end);
}

/// Where an opening brace, the digits of `min`, a comma, the digits of `max`
/// and a closing brace stand at `at`, they are a quantifier that allows the
/// counts from that of `min` to that of `max`.
pub proof fn lemma_quantifier_between(s: Seq<char>, at: int, min: Seq<char>, max: Seq<char>)
    requires
        0 <= at,
        at + min.len() + max.len() + 3 <= s.len(),
        min.len() > 0,
        max.len() > 0,
        all_digits(min),
        all_digits(max),
        s[at] == '{',
        s.subrange(at + 1, at + 1 + min.len()) == min,
        s[at + 1 + min.len()] == ',',
        s.subrange(at + 2 + min.len(), at + 2 + min.len() + max.len()) == max,
        s[at + 2 + min.len() + max.len()] == '}',
    ensures
        quantifier_at(s, at) == Some(
            QuantifierModel {
                end: at + min.len() + max.len() + 3,
                min: count_of(min),
                max: count_of(max),
            },
        ),
{
    let min_end = at + 1 + min.len();
    let max_end = min_end + 1 + max.len();
    assert forall|k: int| at + 1 <= k < min_end implies is_decimal_digit(s[k]) by {
        assert(s[k] == min[k - at - 1]);
    }
    lemma_digits_end_is(s, at + 1, min_end);
    assert forall|k: int| min_end + 1 <= k < max_end implies is_decimal_digit(s[k]) by {
        assert(s[k] == max[k - min_end - 1]);
    }
    lemma_digits_end_is(s, min_end + 1, max_end);
}

/// Reading in the second of two texts: the run of digits in `a + b` from an
/// index of `b` on is the run in `b`, moved by the length of `a`.
pub proof fn lemma_digits_end_after(a: Seq<char>, b: Seq<char>, from: int)
    requires
        0 <= from,
    ensures
        digits_end(a + b, a.len() + from) == a.len() + digits_end(b, from),
    decreases b.len() - from,
{
    if from < b.len() {
        assert((a + b)[a.len() + from] == b[from]);
        if is_decimal_digit(b[from]) {
            lemma_digits_end_after(a, b, from + 1);
        }
    }
}

/// The quantifier moved to the right by `by`.
pub open spec fn moved_quantifier(quantifier: Option<QuantifierModel>, by: int) -> Option<
    QuantifierModel,
> {
    match quantifier {
        Some(found) => Some(QuantifierModel { end: found.end + by, ..found }),
        None => None,
    }
}

/// The quantifier of `a + b` at an index of `b` is the one that `b` has
/// there, moved by the length of `a`.
pub proof fn lemma_quantifier_after(a: Seq<char>, b: Seq<char>, at: int)
    requires
        0 <= at,
    ensures
        quantifier_at(a + b, a.len() + at) == moved_quantifier(
            quantifier_at(b, at),
            a.len() as int,
        ),
{
    let n = a.len() as int;
    let both = a + b;
    lemma_digits_end_after(a, b, at + 1);
    let min_end = digits_end(b, at + 1);
    if at + 1 <= b.len() {
        lemma_digits_end(b, at + 1);
    }
    lemma_digits_end_after(a, b, min_end + 1);
    let max_end = digits_end(b, min_end + 1);
    if at < b.len() {
        assert(both[n + at] == b[at]);
        if at + 1 < min_end < b.len() {
            assert(both[n + min_end] == b[min_end]);
            assert(both.subrange(n + at + 1, n + min_end) =~= b.subrange(at + 1, min_end));
            if min_end + 1 < max_end < b.len() {
                assert(both[n + max_end] == b[max_end]);
                assert(both.subrange(n + min_end + 1, n + max_end) =~= b.subrange(
                    min_end + 1,
                    max_end,
                ));
            }
        }
    }
}

/// The end of the run of decimal digits that starts at `from`.
pub fn scan_digits(s: &Vec<char>, from: usize) -> (end: usize)
    requires
        from <= s.len(),
    ensures
        end == digits_end(s@, from as int),
        from <= end <= s.len(),
{
    let mut end: usize = from;
    while end < s.len() && decimal_digit(s[end])
        invariant
            from <= end <= s.len(),
            digits_end(s@, end as int) == digits_end(s@, from as int),
        decreases s.len() - end,
    {
        end += 1;
    }
    end
}

/// The count that `s[from..to]` stands for.
pub fn parse_count(s: &Vec<char>, from: usize, to: usize) -> (count: usize)
    requires
        from <= to <= s.len(),
    ensures
        count == count_of(s@.subrange(from as int, to as int)),
{
    let ghost field = s@.subrange(from as int, to as int);
    if from == to {
        return 1;
    }
    let mut value: usize = 0;
    let mut fits = true;
    let mut i: usize = from;
    while i < to
        invariant
            from <= i <= to <= s.len(),
            field == s@.subrange(from as int, to as int),
            all_digits(field.take(i - from)),
            fits ==> value == decimal_value(field.take(i - from)),
            !fits ==> decimal_value(field.take(i - from)) > usize::MAX,
        decreases to - i,
    {
        let c = s[i];
        if !('0' <= c && c <= '9') {
            assert(!is_digit(field[i - from]));
            return 1;
        }
        let digit: usize = (c as u32 - '0' as u32) as usize;
        proof {
            let longer = field.take(i - from + 1);
            assert(longer.drop_last() =~= field.take(i - from));
            assert(longer.last() == c);
            lemma_decimal_value_grows(field.take(i - from), 0);
        }
        if fits {
            match value.checked_mul(10) {
                Some(tens) => match tens.checked_add(digit) {
                    Some(sum) => {
                        value = sum;
                    },
                    None => {
                        fits = false;
                    },
                },
                None => {
                    fits = false;
                },
            }
        }
        i += 1;
    }
    assert(field.take(to - from) =~= field);
    if fits {
        value
    } else {
        1
    }
}

/// The quantifier that starts at `at`, where there is one.
pub fn read_quantifier(s: &Vec<char>, at: usize) -> (found: Option<Quantifier>)
    requires
        at <= s.len(),
    ensures
        match found {
            Some(quantifier) => quantifier_at(s@, at as int) == Some(quantifier@),
            None => quantifier_at(s@, at as int) is None,
        },
{
    if at >= s.len() || s[at] != '{' {
        return None;
    }
    let min_end = scan_digits(s, at + 1);
    if min_end == at + 1 || min_end >= s.len() {
        return None;
    }
    let min = parse_count(s, at + 1, min_end);
    if s[min_end] == '}' {
        return Some(Quantifier { end: min_end + 1, min, max: min });
    }
    if s[min_end] != ',' {
        return None;
    }
    let max_end = scan_digits(s, min_end + 1);
    if max_end == min_end + 1 || max_end >= s.len() || s[max_end] != '}' {
        return None;
    }
    let max = parse_count(s, min_end + 1, max_end);
    Some(Quantifier { end: max_end + 1, min, max })
}

} // verus!
