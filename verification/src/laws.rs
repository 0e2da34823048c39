//! What holds of every string that a pattern of a given form stands for.
//!
//! The forms are a group alone, `(first|second)`, and a class alone, `[body]`,
//! `[body]{min}` and `[body]{min,max}`. Each law speaks of all strings that
//! `generates` relates to the pattern, and so of every outcome of
//! `process_pattern`, whatever was drawn.

use crate::alternation::{
    lemma_lone_group, lemma_no_groups, lemma_resolves_plain, lemma_split_on_members, resolves,
    split_on,
};
use crate::class::{
    can_be_filled, can_fail_with, class_at, fits, lemma_class_at_start, lemma_class_then,
    lemma_materializes_plain, lemma_no_classes, lemma_whole_class, materializes, may_fail,
    ClassModel,
};
use crate::digit::is_digit;
use crate::error::PatternError;
use crate::generate::{generates, may_reject};
use crate::pool::{lemma_pool_members, lemma_pool_plain, pool_of, written_in};
use crate::quantifier::{
    all_digits, count_of, lemma_decimal_value_grows, lemma_quantifier_between,
    lemma_quantifier_exact,
};
use crate::shorthand::{
    expand, is_blank, is_word_char, lemma_expand_concat, lemma_expand_marker,
    lemma_expand_members, lemma_expand_plain, lemma_shorthand_sets, shorthand_set,
};
use vstd::prelude::*;

verus! {

/// The pattern `(body)`.
pub open spec fn lone_group(body: Seq<char>) -> Seq<char> {
    seq!['('] + body + seq![')']
}

/// The pattern `[body]`.
pub open spec fn bare_class(body: Seq<char>) -> Seq<char> {
    seq!['['] + body + seq![']']
}

/// The pattern `[body]{min}`.
pub open spec fn counted_class(body: Seq<char>, min: Seq<char>) -> Seq<char> {
    bare_class(body) + (seq!['{'] + min + seq!['}'])
}

/// The pattern `[body]{min,max}`.
pub open spec fn ranged_class(body: Seq<char>, min: Seq<char>, max: Seq<char>) -> Seq<char> {
    bare_class(body) + (seq!['{'] + min + seq![','] + max + seq!['}'])
}

/// A body for a class that stands alone: no character that would close the
/// class and none that would open a group. It may be empty.
pub open spec fn is_class_body(body: Seq<char>) -> bool {
    forall|k: int| 0 <= k < body.len() ==> body[k] != ']' && body[k] != '('
}

/// A field of a quantifier: at least one digit, and digits only.
pub open spec fn is_count_field(field: Seq<char>) -> bool {
    field.len() > 0 && all_digits(field)
}

/// The class that a pattern of `length` characters is, where it is one class
/// with the given body and counts: the body's markers are expanded before
/// the class is read.
pub open spec fn lone_class(length: nat, body: Seq<char>, min: int, max: int) -> ClassModel {
    ClassModel { start: 0, end: length as int, body: expand(body), min, max }
}

/// Text without an opening parenthesis, an opening bracket or a backslash
/// stands for itself and for nothing else, and is never rejected.
pub proof fn law_plain_text(pattern: Seq<char>)
    requires
        forall|k: int|
            0 <= k < pattern.len() ==> pattern[k] != '(' && pattern[k] != '[' && pattern[k]
                != '\\',
    ensures
        forall|out: Seq<char>| #[trigger] generates(pattern, out) <==> out == pattern,
        forall|error: PatternError| !#[trigger] may_reject(pattern, error),
{
    lemma_no_groups(pattern, 0);
    lemma_expand_plain(pattern);
    lemma_no_classes(pattern, 0);
    lemma_resolves_plain(pattern, pattern);
    lemma_materializes_plain(pattern, pattern);
    assert forall|out: Seq<char>| #[trigger] generates(pattern, out) <==> out == pattern by {
        if generates(pattern, out) {
            let resolved = choose|resolved: Seq<char>| #[trigger]
                resolves(pattern, resolved) && materializes(expand(resolved), out);
            lemma_resolves_plain(pattern, resolved);
            lemma_materializes_plain(pattern, out);
        }
    }
    assert forall|error: PatternError| !#[trigger] may_reject(pattern, error) by {
        if may_reject(pattern, error) {
            let resolved = choose|resolved: Seq<char>| #[trigger]
                resolves(pattern, resolved) && may_fail(expand(resolved), error);
            lemma_resolves_plain(pattern, resolved);
        }
    }
}

/// A class alone, followed by a suffix that holds no opening parenthesis
/// and no backslash, reaches the third pass with the markers of its body
/// expanded and is otherwise unchanged.
proof fn lemma_class_alone(body: Seq<char>, suffix: Seq<char>)
    requires
        is_class_body(body),
        forall|k: int| 0 <= k < suffix.len() ==> suffix[k] != '(' && suffix[k] != '\\',
    ensures
        expand(bare_class(body) + suffix) == bare_class(expand(body)) + suffix,
        (bare_class(expand(body)) + suffix).len() == (bare_class(body) + suffix).len()
            - body.len() + expand(body).len(),
        forall|out: Seq<char>| #[trigger]
            generates(bare_class(body) + suffix, out) <==> materializes(
                bare_class(expand(body)) + suffix,
                out,
            ),
        forall|error: PatternError| #[trigger]
            may_reject(bare_class(body) + suffix, error) <==> may_fail(
                bare_class(expand(body)) + suffix,
                error,
            ),
        forall|k: int| 0 <= k < expand(body).len() ==> expand(body)[k] != ']',
{
    let pattern = bare_class(body) + suffix;
    let text = bare_class(expand(body)) + suffix;
    let tail = seq![']'] + suffix;
    assert(pattern =~= seq!['['] + (body + tail));
    lemma_expand_concat(seq!['['], body + tail);
    lemma_expand_plain(seq!['[']);
    lemma_expand_concat(body, tail);
    lemma_expand_plain(tail);
    assert(text =~= seq!['['] + (expand(body) + tail));
    lemma_no_groups(pattern, 0);
    assert forall|out: Seq<char>| #[trigger] generates(pattern, out) <==> materializes(
        text,
        out,
    ) by {
        lemma_resolves_plain(pattern, pattern);
        if generates(pattern, out) {
            let resolved = choose|resolved: Seq<char>| #[trigger]
                resolves(pattern, resolved) && materializes(expand(resolved), out);
            lemma_resolves_plain(pattern, resolved);
        }
    }
    assert forall|error: PatternError| #[trigger]
        may_reject(pattern, error) <==> may_fail(text, error) by {
        lemma_resolves_plain(pattern, pattern);
        if may_reject(pattern, error) {
            let resolved = choose|resolved: Seq<char>| #[trigger]
                resolves(pattern, resolved) && may_fail(expand(resolved), error);
            lemma_resolves_plain(pattern, resolved);
        }
    }
    assert forall|k: int| 0 <= k < expand(body).len() implies expand(body)[k] != ']' by {
        if expand(body)[k] == ']' {
            lemma_expand_members(body, ']');
        }
    }
}

/// A class without a quantifier stands for one character of its pool.
///
/// Of each string that `[body]` generates: it holds exactly one character,
/// and the pool holds that character; each such string is generated. The
/// pattern is rejected where the pool is empty, and only there.
pub proof fn law_bare_class(body: Seq<char>)
    requires
        is_class_body(body),
    ensures
        forall|out: Seq<char>| #[trigger]
            generates(bare_class(body), out) <==> out.len() == 1 && pool_of(
                expand(body),
            ).contains(out[0]),
        forall|error: PatternError| #[trigger]
            may_reject(bare_class(body), error) <==> error == PatternError::EmptyClass && pool_of(
                expand(body),
            ).len() == 0,
{
    let none = Seq::<char>::empty();
    lemma_class_alone(body, none);
    assert(bare_class(body) + none =~= bare_class(body));
    let text = bare_class(expand(body));
    assert(text + none =~= text);
    lemma_class_at_start(expand(body), none);
    assert(seq!['['] + expand(body) + seq![']'] + none =~= text);
    let class = lone_class(text.len(), body, 1, 1);
    assert(class_at(text, 0) == Some(class));
    lemma_whole_class(text, class);
    assert forall|out: Seq<char>| #[trigger] generates(bare_class(body), out) <==> out.len() == 1
        && pool_of(expand(body)).contains(out[0]) by {
        assert(generates(bare_class(body) + none, out) <==> materializes(text + none, out));
        assert(materializes(text, out) <==> fits(class, out));
    }
    assert forall|error: PatternError| #[trigger]
        may_reject(bare_class(body), error) <==> error == PatternError::EmptyClass && pool_of(
            expand(body),
        ).len() == 0 by {
        assert(may_reject(bare_class(body) + none, error) <==> may_fail(text + none, error));
        assert(may_fail(text, error) <==> can_fail_with(class, error));
    }
}

/// A class with the quantifier `{min}` stands for as many characters of its
/// pool as the field counts.
///
/// Of each string that `[body]{min}` generates: its length is the count of
/// the field, and the pool holds each of its characters; each such string
/// is generated. The pattern is rejected where the pool is empty and the
/// count is above zero, and only there.
pub proof fn law_counted_class(body: Seq<char>, min: Seq<char>)
    requires
        is_class_body(body),
        is_count_field(min),
    ensures
        forall|out: Seq<char>| #[trigger]
            generates(counted_class(body, min), out) <==> fits(
                lone_class(counted_class(body, min).len(), body, count_of(min), count_of(min)),
                out,
            ),
        forall|out: Seq<char>| #[trigger]
            generates(counted_class(body, min), out) ==> out.len() == count_of(min),
        forall|error: PatternError| #[trigger]
            may_reject(counted_class(body, min), error) <==> error == PatternError::EmptyClass
                && count_of(min) > 0 && pool_of(expand(body)).len() == 0,
{
    let suffix = seq!['{'] + min + seq!['}'];
    let pattern = counted_class(body, min);
    lemma_class_alone(body, suffix);
    let text = bare_class(expand(body)) + suffix;
    let at = expand(body).len() as int + 2;
    lemma_class_at_start(expand(body), suffix);
    assert(text.subrange(at + 1, at + 1 + min.len()) =~= min);
    lemma_quantifier_exact(text, at, min);
    lemma_count_of_bounds(min);
    let class = lone_class(text.len(), body, count_of(min), count_of(min));
    assert(class_at(text, 0) == Some(class));
    lemma_whole_class(text, class);
    assert forall|out: Seq<char>| #[trigger] generates(pattern, out) <==> fits(
        lone_class(pattern.len(), body, count_of(min), count_of(min)),
        out,
    ) by {
        assert(generates(bare_class(body) + suffix, out) <==> materializes(text, out));
        assert(materializes(text, out) <==> fits(class, out));
    }
    assert forall|error: PatternError| #[trigger]
        may_reject(pattern, error) <==> error == PatternError::EmptyClass && count_of(min) > 0
            && pool_of(expand(body)).len() == 0 by {
        assert(may_reject(bare_class(body) + suffix, error) <==> may_fail(text, error));
        assert(may_fail(text, error) <==> can_fail_with(class, error));
    }
}

/// A class with the quantifier `{min,max}` stands for characters of its
/// pool, at least as many as the first field counts and at most as many as
/// the second.
///
/// Of each string that `[body]{min,max}` generates: its length lies between
/// the two counts, and the pool holds each of its characters; each such
/// string is generated. Where the two counts are equal, the length is that
/// count. The pattern is rejected with `InvertedQuantifier` where the first
/// count is above the second; with `EmptyClass` where it is not, the second is
/// above zero and the pool is empty; and nowhere else.
pub proof fn law_ranged_class(body: Seq<char>, min: Seq<char>, max: Seq<char>)
    requires
        is_class_body(body),
        is_count_field(min),
        is_count_field(max),
    ensures
        forall|out: Seq<char>| #[trigger]
            generates(ranged_class(body, min, max), out) <==> fits(
                lone_class(
                    ranged_class(body, min, max).len(),
                    body,
                    count_of(min),
                    count_of(max),
                ),
                out,
            ),
        forall|out: Seq<char>| #[trigger]
            generates(ranged_class(body, min, max), out) ==> count_of(min) <= out.len()
                <= count_of(max),
        forall|error: PatternError| #[trigger]
            may_reject(ranged_class(body, min, max), error) <==> can_fail_with(
                lone_class(
                    ranged_class(body, min, max).len(),
                    body,
                    count_of(min),
                    count_of(max),
                ),
                error,
            ),
{
    let suffix = seq!['{'] + min + seq![','] + max + seq!['}'];
    let pattern = ranged_class(body, min, max);
    lemma_class_alone(body, suffix);
    let text = bare_class(expand(body)) + suffix;
    let at = expand(body).len() as int + 2;
    lemma_class_at_start(expand(body), suffix);
    assert(text.subrange(at + 1, at + 1 + min.len()) =~= min);
    assert(text.subrange(at + 2 + min.len(), at + 2 + min.len() + max.len()) =~= max);
    lemma_quantifier_between(text, at, min, max);
    let class = lone_class(text.len(), body, count_of(min), count_of(max));
    assert(class_at(text, 0) == Some(class));
    lemma_whole_class(text, class);
    assert forall|out: Seq<char>| #[trigger] generates(pattern, out) <==> fits(
        lone_class(pattern.len(), body, count_of(min), count_of(max)),
        out,
    ) by {
        assert(generates(bare_class(body) + suffix, out) <==> materializes(text, out));
        assert(materializes(text, out) <==> fits(class, out));
    }
    assert forall|error: PatternError| #[trigger]
        may_reject(pattern, error) <==> can_fail_with(
            lone_class(pattern.len(), body, count_of(min), count_of(max)),
            error,
        ) by {
        assert(may_reject(bare_class(body) + suffix, error) <==> may_fail(text, error));
        assert(may_fail(text, error) <==> can_fail_with(class, error));
    }
}

/// Every character drawn for a class is written in its body.
///
/// Of each string that `[body]{min}` generates: each of its characters
/// stands in the expanded body itself, or lies between the two ends of a
/// range `x-y` that stands there.
pub proof fn law_class_members(body: Seq<char>, min: Seq<char>, out: Seq<char>)
    requires
        is_class_body(body),
        is_count_field(min),
        generates(counted_class(body, min), out),
    ensures
        forall|k: int| 0 <= k < out.len() ==> written_in(expand(body), #[trigger] out[k]),
{
    law_counted_class(body, min);
    assert forall|k: int| 0 <= k < out.len() implies written_in(
        expand(body),
        #[trigger] out[k],
    ) by {
        lemma_pool_members(expand(body), out[k]);
    }
}

/// The class of the marker with the given letter, with the quantifier
/// `{min}`, stands for as many characters of the marker's set as the field
/// counts.
proof fn lemma_marker_class(letter: char, min: Seq<char>, out: Seq<char>)
    requires
        letter == 'd' || letter == 's' || letter == 'w',
        is_count_field(min),
        generates(counted_class(seq!['\\', letter], min), out),
    ensures
        out.len() == count_of(min),
        forall|k: int|
            0 <= k < out.len() ==> (shorthand_set(letter)->0).contains(#[trigger] out[k]),
{
    let body = seq!['\\', letter];
    law_counted_class(body, min);
    lemma_expand_marker(letter);
    let set = shorthand_set(letter)->0;
    assert forall|k: int| 0 <= k < set.len() implies set[k] != '-' by {
        lemma_shorthand_sets('-');
    }
    lemma_pool_plain(set);
}

/// The digit class: `[\d]{min}` stands for as many digits as the field
/// counts.
pub proof fn law_digit_class(min: Seq<char>, out: Seq<char>)
    requires
        is_count_field(min),
        generates(counted_class(seq!['\\', 'd'], min), out),
    ensures
        out.len() == count_of(min),
        forall|k: int| 0 <= k < out.len() ==> is_digit(#[trigger] out[k]),
{
    lemma_marker_class('d', min, out);
    assert forall|k: int| 0 <= k < out.len() implies is_digit(#[trigger] out[k]) by {
        lemma_shorthand_sets(out[k]);
    }
}

/// The blank class: `[\s]{min}` stands for as many blanks as the field
/// counts.
pub proof fn law_blank_class(min: Seq<char>, out: Seq<char>)
    requires
        is_count_field(min),
        generates(counted_class(seq!['\\', 's'], min), out),
    ensures
        out.len() == count_of(min),
        forall|k: int| 0 <= k < out.len() ==> is_blank(#[trigger] out[k]),
{
    lemma_marker_class('s', min, out);
    assert forall|k: int| 0 <= k < out.len() implies is_blank(#[trigger] out[k]) by {
        lemma_shorthand_sets(out[k]);
    }
}

/// The word class: `[\w]{min}` stands for as many letters, digits and
/// underscores as the field counts.
pub proof fn law_word_class(min: Seq<char>, out: Seq<char>)
    requires
        is_count_field(min),
        generates(counted_class(seq!['\\', 'w'], min), out),
    ensures
        out.len() == count_of(min),
        forall|k: int| 0 <= k < out.len() ==> is_word_char(#[trigger] out[k]),
{
    lemma_marker_class('w', min, out);
    assert forall|k: int| 0 <= k < out.len() implies is_word_char(#[trigger] out[k]) by {
        lemma_shorthand_sets(out[k]);
    }
}

/// Two classes, one after the other, stand for what the first stands for,
/// followed by what the second stands for.
///
/// Of `[first]{min}[second]{min}`: it generates the strings made of one that
/// the first class alone generates and one that the second alone generates,
/// and nothing else. So the length of each is the sum of the two counts, its
/// first characters are of the first pool and its last of the second. It is
/// rejected with an error where the first class alone is rejected with it,
/// and where the first class alone generates some string and the second
/// alone is rejected with it; and nowhere else.
pub proof fn law_class_after_class(
    first_body: Seq<char>,
    first_min: Seq<char>,
    second_body: Seq<char>,
    second_min: Seq<char>,
)
    requires
        is_class_body(first_body),
        is_count_field(first_min),
        is_class_body(second_body),
        is_count_field(second_min),
    ensures
        forall|out: Seq<char>| #[trigger]
            generates(
                counted_class(first_body, first_min) + counted_class(second_body, second_min),
                out,
            ) <==> exists|first: Seq<char>, second: Seq<char>|
                generates(counted_class(first_body, first_min), first) && generates(
                    counted_class(second_body, second_min),
                    second,
                ) && out == first + second,
        forall|out: Seq<char>| #[trigger]
            generates(
                counted_class(first_body, first_min) + counted_class(second_body, second_min),
                out,
            ) ==> {
                &&& out.len() == count_of(first_min) + count_of(second_min)
                &&& forall|k: int|
                    0 <= k < count_of(first_min) ==> pool_of(expand(first_body)).contains(
                        #[trigger] out[k],
                    )
                &&& forall|k: int|
                    count_of(first_min) <= k < out.len() ==> pool_of(
                        expand(second_body),
                    ).contains(#[trigger] out[k])
            },
        forall|error: PatternError| #[trigger]
            may_reject(
                counted_class(first_body, first_min) + counted_class(second_body, second_min),
                error,
            ) <==> may_reject(counted_class(first_body, first_min), error) || ((exists|
                first: Seq<char>,
            | generates(counted_class(first_body, first_min), first)) && may_reject(
                counted_class(second_body, second_min),
                error,
            )),
{
    let first_suffix = seq!['{'] + first_min + seq!['}'];
    let second_suffix = seq!['{'] + second_min + seq!['}'];
    let first_pattern = counted_class(first_body, first_min);
    let second_pattern = counted_class(second_body, second_min);
    let pattern = first_pattern + second_pattern;
    let first_text = bare_class(expand(first_body)) + first_suffix;
    let second_text = bare_class(expand(second_body)) + second_suffix;
    let text = first_text + second_text;
    lemma_class_alone(first_body, first_suffix);
    lemma_class_alone(second_body, second_suffix);
    law_counted_class(first_body, first_min);
    law_counted_class(second_body, second_min);
    lemma_expand_concat(first_pattern, second_pattern);
    assert(expand(pattern) == text);
    let at = expand(first_body).len() as int + 2;
    assert(text =~= seq!['['] + expand(first_body) + seq![']'] + (first_suffix + second_text));
    lemma_class_at_start(expand(first_body), first_suffix + second_text);
    assert(text.subrange(at + 1, at + 1 + first_min.len()) =~= first_min);
    lemma_quantifier_exact(text, at, first_min);
    let n = count_of(first_min);
    let class = lone_class(first_text.len(), first_body, n, n);
    assert(class_at(text, 0) == Some(class));
    lemma_class_then(first_text, second_text, class);
    lemma_no_groups(pattern, 0);
    assert forall|out: Seq<char>| #[trigger] generates(pattern, out) <==> exists|
        first: Seq<char>,
        second: Seq<char>,
    |
        generates(first_pattern, first) && generates(second_pattern, second) && out == first
            + second by {
        lemma_resolves_plain(pattern, pattern);
        if generates(pattern, out) {
            let resolved = choose|resolved: Seq<char>| #[trigger]
                resolves(pattern, resolved) && materializes(expand(resolved), out);
            lemma_resolves_plain(pattern, resolved);
            assert(materializes(text, out));
            let (fill, tail) = choose|fill: Seq<char>, tail: Seq<char>|
                fits(class, fill) && materializes(second_text, tail) && out == fill + tail;
            assert(fits(lone_class(first_pattern.len(), first_body, n, n), fill));
            assert(generates(first_pattern, fill));
            assert(generates(bare_class(second_body) + second_suffix, tail));
        }
        if exists|first: Seq<char>, second: Seq<char>|
            generates(first_pattern, first) && generates(second_pattern, second) && out == first
                + second {
            let (first, second) = choose|first: Seq<char>, second: Seq<char>|
                generates(first_pattern, first) && generates(second_pattern, second) && out
                    == first + second;
            assert(fits(lone_class(first_pattern.len(), first_body, n, n), first));
            assert(fits(class, first));
            assert(generates(bare_class(second_body) + second_suffix, second));
            assert(materializes(second_text, second));
            assert(materializes(text, out));
            assert(resolves(pattern, pattern) && materializes(expand(pattern), out));
        }
    }
    assert forall|out: Seq<char>| #[trigger] generates(pattern, out) implies {
        &&& out.len() == count_of(first_min) + count_of(second_min)
        &&& forall|k: int|
            0 <= k < count_of(first_min) ==> pool_of(expand(first_body)).contains(
                #[trigger] out[k],
            )
        &&& forall|k: int|
            count_of(first_min) <= k < out.len() ==> pool_of(expand(second_body)).contains(
                #[trigger] out[k],
            )
    } by {
        let (first, second) = choose|first: Seq<char>, second: Seq<char>|
            generates(first_pattern, first) && generates(second_pattern, second) && out == first
                + second;
        let m = count_of(second_min);
        assert(fits(lone_class(first_pattern.len(), first_body, n, n), first));
        assert(fits(lone_class(second_pattern.len(), second_body, m, m), second));
        assert forall|k: int| 0 <= k < n implies pool_of(expand(first_body)).contains(
            #[trigger] out[k],
        ) by {
            assert(out[k] == first[k]);
        }
        assert forall|k: int| n <= k < out.len() implies pool_of(expand(second_body)).contains(
            #[trigger] out[k],
        ) by {
            assert(out[k] == second[k - n]);
        }
    }
    assert forall|error: PatternError| #[trigger]
        may_reject(pattern, error) <==> may_reject(first_pattern, error) || ((exists|
            first: Seq<char>,
        | generates(first_pattern, first)) && may_reject(second_pattern, error)) by {
        lemma_resolves_plain(pattern, pattern);
        if may_reject(pattern, error) {
            let resolved = choose|resolved: Seq<char>| #[trigger]
                resolves(pattern, resolved) && may_fail(expand(resolved), error);
            lemma_resolves_plain(pattern, resolved);
        }
        assert(may_reject(pattern, error) <==> may_fail(text, error));
        assert(may_fail(text, error) <==> can_fail_with(class, error) || (can_be_filled(class)
            && may_fail(second_text, error)));
        assert(may_reject(first_pattern, error) <==> can_fail_with(class, error));
        assert(may_reject(bare_class(second_body) + second_suffix, error) <==> may_fail(
            second_text,
            error,
        ));
        if can_be_filled(class) {
            let fill = choose|fill: Seq<char>| fits(class, fill);
            assert(fits(lone_class(first_pattern.len(), first_body, n, n), fill));
            assert(generates(first_pattern, fill));
        }
        if exists|first: Seq<char>| generates(first_pattern, first) {
            let first = choose|first: Seq<char>| generates(first_pattern, first);
            assert(fits(lone_class(first_pattern.len(), first_body, n, n), first));
            assert(fits(class, first));
        }
    }
}

/// A group alone stands for its options.
///
/// Where the body holds no closing parenthesis, no opening bracket and no
/// backslash, `(body)` generates each of the pieces that `|` leaves of the
/// body, and nothing else; it is never rejected.
pub proof fn law_lone_group(body: Seq<char>)
    requires
        body.len() > 0,
        forall|k: int|
            0 <= k < body.len() ==> body[k] != ')' && body[k] != '[' && body[k] != '\\',
    ensures
        forall|out: Seq<char>| #[trigger]
            generates(lone_group(body), out) <==> split_on(body, '|').contains(out),
        forall|error: PatternError| !#[trigger] may_reject(lone_group(body), error),
{
    let pattern = lone_group(body);
    assert forall|piece: Seq<char>| #[trigger]
        split_on(body, '|').contains(piece) implies expand(piece) == piece && (forall|
        out: Seq<char>,
    | #[trigger] materializes(piece, out) <==> out == piece) && (forall|error: PatternError|
        !#[trigger] may_fail(piece, error)) by {
        assert forall|k: int| 0 <= k < piece.len() implies piece[k] != '[' && piece[k]
            != '\\' by {
            assert(piece.contains(piece[k]));
            lemma_split_on_members(body, '|', piece, piece[k]);
        }
        lemma_expand_plain(piece);
        lemma_no_classes(piece, 0);
        assert forall|out: Seq<char>| #[trigger] materializes(piece, out) <==> out == piece by {
            lemma_materializes_plain(piece, out);
        }
        lemma_materializes_plain(piece, piece);
    }
    assert forall|out: Seq<char>| #[trigger] generates(pattern, out) <==> split_on(
        body,
        '|',
    ).contains(out) by {
        if generates(pattern, out) {
            let resolved = choose|resolved: Seq<char>| #[trigger]
                resolves(pattern, resolved) && materializes(expand(resolved), out);
            lemma_lone_group(body, resolved);
            assert(split_on(body, '|').contains(resolved));
        }
        if split_on(body, '|').contains(out) {
            lemma_lone_group(body, out);
            assert(resolves(pattern, out) && materializes(expand(out), out));
        }
    }
    assert forall|error: PatternError| !#[trigger] may_reject(pattern, error) by {
        if may_reject(pattern, error) {
            let resolved = choose|resolved: Seq<char>| #[trigger]
                resolves(pattern, resolved) && may_fail(expand(resolved), error);
            lemma_lone_group(body, resolved);
            assert(split_on(body, '|').contains(resolved));
        }
    }
}

/// A pattern does not decide its string: where the pool of a class holds two
/// characters, the class stands for the one and for the other, so that two
/// runs on one pattern may differ.
pub proof fn law_two_outcomes(body: Seq<char>, first: char, second: char)
    requires
        is_class_body(body),
        pool_of(expand(body)).contains(first),
        pool_of(expand(body)).contains(second),
        first != second,
    ensures
        generates(bare_class(body), seq![first]),
        generates(bare_class(body), seq![second]),
        seq![first] != seq![second],
{
    law_bare_class(body);
    assert(seq![first][0] == first);
    assert(seq![second][0] == second);
}

/// The count of a field is not negative.
proof fn lemma_count_of_bounds(field: Seq<char>)
    ensures
        0 <= count_of(field),
{
    if all_digits(field) {
        lemma_decimal_value_grows(field, 0);
    }
}

} // verus!
