//! Digits.
//!
//! A number is written with the ten digits `0` to `9`. A field of a
//! quantifier may hold decimal digits of any script; beyond ASCII, a decimal
//! digit is what the `regex` crate takes for `\d`.

use regex::Regex;
use vstd::prelude::*;

verus! {

/// What `Regex::new` and `Regex::is_match` give for a pattern and a text:
/// nothing where the pattern does not compile, else whether the pattern
/// matches somewhere in the text.
pub uninterp spec fn regex_is_match(pattern: Seq<char>, text: Seq<char>) -> Option<bool>;

/// `Regex::new` on the pattern, then `Regex::is_match` on the text. Both are
/// functions of their arguments alone; the result has the name
/// `regex_is_match`, and nothing more is claimed of it.
#[verifier::external_body]
pub(crate) fn pattern_matches(pattern: &str, text: &str) -> (found: Option<bool>)
    ensures
        found == regex_is_match(pattern@, text@),
{
    match Regex::new(pattern) {
        Ok(compiled) => Some(compiled.is_match(text)),
        Err(_) => None,
    }
}

/// One of the ten digits `0` to `9`.
pub open spec fn is_digit(c: char) -> bool {
    '0' <= c <= '9'
}

/// Whether `c` is a decimal digit, given what the pattern `\d` gave for the
/// text made of `c` alone: within ASCII the ten digits and no other
/// character, whatever the pattern gave; beyond ASCII what the pattern
/// matched.
pub open spec fn is_digit_given(c: char, matched: Option<bool>) -> bool {
    if c <= '\u{7F}' {
        is_digit(c)
    } else {
        matched == Some(true)
    }
}

/// A decimal digit of any script: within ASCII one of the ten digits,
/// beyond ASCII a character that the pattern `\d` matches.
pub open spec fn is_decimal_digit(c: char) -> bool {
    is_digit_given(c, regex_is_match("\\d"@, seq![c]))
}

/// Whether `c` is a decimal digit, given what the pattern `\d` gave for the
/// text made of `c` alone.
pub fn digit_given(c: char, matched: Option<bool>) -> (found: bool)
    ensures
        found == is_digit_given(c, matched),
{
    if c <= '\u{7F}' {
        '0' <= c && c <= '9'
    } else {
        match matched {
            Some(found) => found,
            None => false,
        }
    }
}

/// Whether the character is a decimal digit of any script.
pub fn decimal_digit(c: char) -> (found: bool)
    ensures
        found == is_decimal_digit(c),
{
    if c <= '\u{7F}' {
        digit_given(c, None)
    } else {
        let mut text = String::new();
        text.push(c);
        assert(text@ =~= seq![c]);
        digit_given(c, pattern_matches("\\d", text.as_str()))
    }
}

} // verus!
