//! Character classes: `[body]`, `[body]{min}` and `[body]{min,max}`.
//!
//! A class opens with `[`, holds characters of which none is `]`, and closes
//! with the first `]` that follows; a quantifier may follow the closing
//! bracket at once. Without one, exactly one character is asked for.
//! The classes of a text are found from left to right and do not overlap.
//! Materializing a text replaces each class by characters drawn from its pool,
//! as many as its quantifier allows.
//!
//! An opening bracket inside a class is a character of its body: the body of
//! `[[a]` is `[a`. A pair of brackets with nothing between them is a class
//! with an empty body, and so with an empty pool: nothing can be drawn for
//! it, and a text that asks for a character of it is refused.

use crate::error::PatternError;
use crate::pool::{build_pool, pool_of};
use crate::quantifier::{lemma_quantifier_after, quantifier_at, read_quantifier, QuantifierModel};
use crate::random::{choose_from, draw_between};
use crate::text::{
    append_range, find_first, first_at, lemma_first_at, lemma_first_at_after, lemma_first_at_is,
    lemma_splice_after, lemma_splice_one, lemma_splice_push, lemma_splice_tail, moved, splice,
    well_spaced,
};
use rand::rngs::ThreadRng;
use vstd::prelude::*;

verus! {

/// A character class as it was found in a text.
#[derive(Debug, PartialEq, Eq)]
pub struct CharClass {
    /// Index of the opening bracket.
    pub start: usize,
    /// Index after the closing bracket, or after the quantifier's closing
    /// brace where there is a quantifier.
    pub end: usize,
    /// What stands between the brackets.
    pub body: Vec<char>,
    /// The least number of characters to draw.
    pub min: usize,
    /// The greatest number of characters to draw.
    pub max: usize,
}

/// The mathematical value of a `CharClass`.
pub struct ClassModel {
    pub start: int,
    pub end: int,
    pub body: Seq<char>,
    pub min: int,
    pub max: int,
}

impl View for CharClass {
    type V = ClassModel;

    open spec fn view(&self) -> ClassModel {
        ClassModel {
            start: self.start as int,
            end: self.end as int,
            body: self.body@,
            min: self.min as int,
            max: self.max as int,
        }
    }
}

/// The values of the classes of a vector.
pub open spec fn class_models(found: Seq<CharClass>) -> Seq<ClassModel> {
    found.map_values(|class: CharClass| class@)
}

/// The class that starts at `start` and has the given body, with the
/// quantifier that follows it: without one, exactly one character is asked
/// for.
pub open spec fn class_of(
    start: int,
    body: Seq<char>,
    quantifier: Option<QuantifierModel>,
) -> ClassModel {
    match quantifier {
        Some(quantifier) => ClassModel {
            start,
            end: quantifier.end,
            body,
            min: quantifier.min,
            max: quantifier.max,
        },
        None => ClassModel { start, end: start + body.len() + 2, body, min: 1, max: 1 },
    }
}

/// The class that starts at `at`, where there is one.
pub open spec fn class_at(s: Seq<char>, at: int) -> Option<ClassModel> {
    let close = first_at(s, ']', at + 1);
    if 0 <= at < s.len() && s[at] == '[' && at + 1 <= close < s.len() {
        Some(class_of(at, s.subrange(at + 1, close), quantifier_at(s, close + 1)))
    } else {
        None
    }
}

/// The classes of `s` from `from` on: the leftmost one, then those after its
/// end.
pub open spec fn classes_from(s: Seq<char>, from: int) -> Seq<ClassModel>
    decreases s.len() - from,
{
    if from < 0 || from >= s.len() {
        Seq::empty()
    } else {
        match class_at(s, from) {
            Some(class) => seq![class] + classes_from(s, class.end),
            None => classes_from(s, from + 1),
        }
    }
}

/// The classes of a text.
pub open spec fn classes(s: Seq<char>) -> Seq<ClassModel> {
    classes_from(s, 0)
}

/// The stretches of the text that the classes take, quantifiers included.
pub open spec fn class_holes(found: Seq<ClassModel>) -> Seq<(int, int)> {
    found.map_values(|class: ClassModel| (class.start, class.end))
}

/// `fill` may stand for the class: its length is one that the quantifier
/// allows, and each of its characters is in the pool.
pub open spec fn fits(class: ClassModel, fill: Seq<char>) -> bool {
    &&& class.min <= fill.len() <= class.max
    &&& forall|k: int| 0 <= k < fill.len() ==> pool_of(class.body).contains(#[trigger] fill[k])
}

/// One fitting fill for each class.
pub open spec fn is_filling(found: Seq<ClassModel>, fills: Seq<Seq<char>>) -> bool {
    &&& fills.len() == found.len()
    &&& forall|i: int| 0 <= i < found.len() ==> fits(found[i], #[trigger] fills[i])
}

/// `out` is `text` with each class replaced by a fill that fits it.
pub open spec fn materializes(text: Seq<char>, out: Seq<char>) -> bool {
    exists|fills: Seq<Seq<char>>|
        is_filling(classes(text), fills) && out == splice(
            text,
            class_holes(classes(text)),
            fills,
        )
}

/// Some fill fits the class.
pub open spec fn can_be_filled(class: ClassModel) -> bool {
    exists|fill: Seq<char>| fits(class, fill)
}

/// Drawing for the class can end in the given error: the quantifier allows no
/// length at all, or it allows a length above zero while the pool is empty.
pub open spec fn can_fail_with(class: ClassModel, error: PatternError) -> bool {
    match error {
        PatternError::InvertedQuantifier => class.min > class.max,
        PatternError::EmptyClass => class.min <= class.max && class.max > 0 && pool_of(
            class.body,
        ).len() == 0,
    }
}

/// Materializing `text` can end in the given error: one of its classes can
/// fail with it, and each class before that one can be filled.
pub open spec fn may_fail(text: Seq<char>, error: PatternError) -> bool {
    exists|i: int|
        0 <= i < classes(text).len() && can_fail_with(#[trigger] classes(text)[i], error)
            && forall|j: int| 0 <= j < i ==> can_be_filled(#[trigger] classes(text)[j])
}

/// `class` is a class of `s`: an opening bracket, a body that holds no `]`,
/// a closing bracket, and the quantifier that follows it or the counts 1 and
/// 1.
pub open spec fn is_class(s: Seq<char>, class: ClassModel) -> bool {
    let close = class.start + 1 + class.body.len();
    &&& 0 <= class.start
    &&& close < class.end <= s.len()
    &&& s[class.start] == '['
    &&& s[close] == ']'
    &&& class.body == s.subrange(class.start + 1, close)
    &&& forall|k: int| 0 <= k < class.body.len() ==> class.body[k] != ']'
    &&& class == class_of(class.start, class.body, quantifier_at(s, close + 1))
}

/// What is found from `from` on are classes that start at or after `from`,
/// follow one another without overlap and end inside the text.
pub proof fn lemma_classes_spaced(s: Seq<char>, from: int)
    requires
        0 <= from,
    ensures
        well_spaced(class_holes(classes_from(s, from)), s.len() as int),
        forall|i: int|
            0 <= i < classes_from(s, from).len() ==> from <= (#[trigger] classes_from(
                s,
                from,
            )[i]).start,
        forall|i: int|
            0 <= i < classes_from(s, from).len() ==> is_class(
                s,
                #[trigger] classes_from(s, from)[i],
            ),
    decreases s.len() - from,
{
    if from < s.len() {
        match class_at(s, from) {
            Some(class) => {
                lemma_classes_spaced(s, class.end);
                lemma_first_at(s, ']', from + 1);
                let rest = classes_from(s, class.end);
                let all = classes_from(s, from);
                assert(forall|i: int| 1 <= i < all.len() ==> all[i] == rest[i - 1]);
                let holes = class_holes(all);
                let rest_holes = class_holes(rest);
                assert forall|i: int, j: int| 0 <= i < j < holes.len() implies (
                #[trigger] holes[i]).1 <= (#[trigger] holes[j]).0 by {
                    assert(holes[j] == rest_holes[j - 1]);
                    if i > 0 {
                        assert(holes[i] == rest_holes[i - 1]);
                    }
                }
                assert forall|i: int| 0 <= i < holes.len() implies 0 <= (#[trigger] holes[i]).0
                    < holes[i].1 <= s.len() by {
                    if i > 0 {
                        assert(holes[i] == rest_holes[i - 1]);
                    }
                }
            },
            None => {
                lemma_classes_spaced(s, from + 1);
            },
        }
    }
}

/// A class that asks for no negative number of characters can be filled
/// where its quantifier allows some length, and allows the length zero if
/// the pool is empty; and only there.
pub proof fn lemma_can_be_filled(class: ClassModel)
    requires
        0 <= class.min,
    ensures
        can_be_filled(class) <==> class.min <= class.max && (pool_of(class.body).len() > 0
            || class.min == 0),
{
    let pool = pool_of(class.body);
    if can_be_filled(class) {
        let fill = choose|fill: Seq<char>| fits(class, fill);
        if fill.len() > 0 {
            assert(pool.contains(fill[0]));
        }
    }
    if class.min <= class.max && (pool.len() > 0 || class.min == 0) {
        let fill = Seq::new(class.min as nat, |i: int| pool[0]);
        assert forall|k: int| 0 <= k < fill.len() implies pool.contains(#[trigger] fill[k]) by {
            assert(pool[0] == fill[k]);
        }
        assert(fits(class, fill));
    }
}

/// Without an opening bracket from `from` on there is no class.
pub proof fn lemma_no_classes(s: Seq<char>, from: int)
    requires
        0 <= from,
        forall|k: int| from <= k < s.len() ==> s[k] != '[',
    ensures
        classes_from(s, from) == Seq::<ClassModel>::empty(),
    decreases s.len() - from,
{
    if from < s.len() {
        lemma_no_classes(s, from + 1);
    }
}

/// A text without a class materializes to itself and to nothing else, and
/// cannot fail.
pub proof fn lemma_materializes_plain(s: Seq<char>, out: Seq<char>)
    requires
        classes(s).len() == 0,
    ensures
        materializes(s, out) <==> out == s,
        forall|error: PatternError| !#[trigger] may_fail(s, error),
{
    let none = Seq::<Seq<char>>::empty();
    assert(is_filling(classes(s), none));
    assert(splice(s, class_holes(classes(s)), none) == s);
}

/// A text that is one class from its first character to its last
/// materializes to each fill that fits the class and to nothing else, and can
/// fail as the class can.
pub proof fn lemma_whole_class(text: Seq<char>, class: ClassModel)
    requires
        class_at(text, 0) == Some(class),
        class.end == text.len(),
    ensures
        classes(text) == seq![class],
        forall|out: Seq<char>| #[trigger] materializes(text, out) <==> fits(class, out),
        forall|error: PatternError| #[trigger]
            may_fail(text, error) <==> can_fail_with(class, error),
{
    assert(classes_from(text, class.end) == Seq::<ClassModel>::empty());
    assert(classes(text) =~= seq![class]);
    let holes = class_holes(classes(text));
    assert(holes =~= seq![(0int, class.end)]);
    assert forall|fills: Seq<Seq<char>>| fills.len() == 1 implies #[trigger] splice(
        text,
        holes,
        fills,
    ) == fills[0] by {
        lemma_splice_one(text, holes, fills);
        assert(text.skip(class.end) =~= Seq::<char>::empty());
        assert(text.take(0) =~= Seq::<char>::empty());
        assert(Seq::<char>::empty() + fills[0] + Seq::<char>::empty() =~= fills[0]);
    }
    assert forall|out: Seq<char>| #[trigger] materializes(text, out) <==> fits(class, out) by {
        if materializes(text, out) {
            let fills = choose|fills: Seq<Seq<char>>|
                is_filling(classes(text), fills) && out == splice(
                    text,
                    class_holes(classes(text)),
                    fills,
                );
            assert(fits(classes(text)[0], fills[0]));
        }
        if fits(class, out) {
            let fills = seq![out];
            assert(fills[0] == out);
            assert(is_filling(classes(text), fills));
            assert(out == splice(text, holes, fills));
        }
    }
    assert forall|error: PatternError| #[trigger]
        may_fail(text, error) <==> can_fail_with(class, error) by {
        if can_fail_with(class, error) {
            assert(can_fail_with(classes(text)[0], error));
        }
    }
}

/// The text made of an opening bracket, `body`, a closing bracket and
/// `suffix`, where the body holds no closing bracket, starts with a class of
/// that body. What follows the closing
/// bracket decides about its quantifier.
pub proof fn lemma_class_at_start(body: Seq<char>, suffix: Seq<char>)
    requires
        forall|k: int| 0 <= k < body.len() ==> body[k] != ']',
    ensures
        class_at(seq!['['] + body + seq![']'] + suffix, 0) == Some(
            class_of(
                0,
                body,
                quantifier_at(seq!['['] + body + seq![']'] + suffix, body.len() as int + 2),
            ),
        ),
{
    let text = seq!['['] + body + seq![']'] + suffix;
    let close = body.len() as int + 1;
    assert(forall|k: int| 1 <= k < close ==> text[k] == body[k - 1]);
    lemma_first_at_is(text, ']', 1, close);
    assert(text.subrange(1, close) =~= body);
}

/// The classes moved to the right by `by`.
pub open spec fn moved_classes(found: Seq<ClassModel>, by: int) -> Seq<ClassModel> {
    found.map_values(
        |class: ClassModel| ClassModel { start: class.start + by, end: class.end + by, ..class },
    )
}

/// The classes of `a + b` from an index of `b` on are those that `b` has
/// from there on, moved by the length of `a`.
pub proof fn lemma_classes_after(a: Seq<char>, b: Seq<char>, from: int)
    requires
        0 <= from,
    ensures
        classes_from(a + b, a.len() + from) == moved_classes(
            classes_from(b, from),
            a.len() as int,
        ),
    decreases b.len() - from,
{
    let n = a.len() as int;
    let both = a + b;
    if from < b.len() {
        assert(both[n + from] == b[from]);
        lemma_first_at_after(a, b, ']', from + 1);
        let close = first_at(b, ']', from + 1);
        lemma_first_at(b, ']', from + 1);
        lemma_quantifier_after(a, b, close + 1);
        match class_at(b, from) {
            Some(class) => {
                assert(both.subrange(n + from + 1, n + close) =~= b.subrange(from + 1, close));
                let moved = ClassModel { start: class.start + n, end: class.end + n, ..class };
                assert(class_at(both, n + from) == Some(moved));
                lemma_classes_after(a, b, class.end);
                assert(moved_classes(seq![class] + classes_from(b, class.end), n) =~= seq![moved]
                    + moved_classes(classes_from(b, class.end), n));
            },
            None => {
                assert(class_at(both, n + from) is None);
                lemma_classes_after(a, b, from + 1);
            },
        }
    } else {
        assert(moved_classes(Seq::<ClassModel>::empty(), n) =~= Seq::<ClassModel>::empty());
    }
}

/// A text that starts with a class, followed by a second text, materializes
/// to a fill that fits the class followed by what the second text
/// materializes to, and to nothing else. It can fail as the class can, and,
/// where the class can be filled, as the second text can.
pub proof fn lemma_class_then(a: Seq<char>, b: Seq<char>, class: ClassModel)
    requires
        class_at(a + b, 0) == Some(class),
        class.end == a.len(),
    ensures
        classes(a + b) == seq![class] + moved_classes(classes(b), a.len() as int),
        forall|out: Seq<char>| #[trigger]
            materializes(a + b, out) <==> exists|fill: Seq<char>, tail: Seq<char>|
                fits(class, fill) && materializes(b, tail) && out == fill + tail,
        forall|error: PatternError| #[trigger]
            may_fail(a + b, error) <==> can_fail_with(class, error) || (can_be_filled(class)
                && may_fail(b, error)),
{
    let n = a.len() as int;
    let both = a + b;
    lemma_classes_after(a, b, 0);
    let later = classes(b);
    let found = classes(both);
    assert(found =~= seq![class] + moved_classes(later, n));
    let holes = class_holes(found);
    let later_holes = class_holes(later);
    assert(holes =~= seq![(0int, n)] + moved(later_holes, n));
    lemma_classes_spaced(b, 0);
    assert forall|out: Seq<char>| #[trigger]
        materializes(both, out) <==> exists|fill: Seq<char>, tail: Seq<char>|
            fits(class, fill) && materializes(b, tail) && out == fill + tail by {
        if materializes(both, out) {
            let fills = choose|fills: Seq<Seq<char>>|
                is_filling(found, fills) && out == splice(both, holes, fills);
            let fill = fills[0];
            let rest = fills.skip(1);
            assert(fits(found[0], fill));
            assert forall|i: int| 0 <= i < later.len() implies fits(
                later[i],
                #[trigger] rest[i],
            ) by {
                assert(fits(found[i + 1], fills[i + 1]));
            }
            assert(is_filling(later, rest));
            assert(fills =~= seq![fill] + rest);
            lemma_splice_after(a, b, later_holes, fill, rest);
            let tail = splice(b, later_holes, rest);
            assert(materializes(b, tail));
            assert(fits(class, fill) && materializes(b, tail) && out == fill + tail);
        }
        if exists|fill: Seq<char>, tail: Seq<char>|
            fits(class, fill) && materializes(b, tail) && out == fill + tail {
            let (fill, tail) = choose|fill: Seq<char>, tail: Seq<char>|
                fits(class, fill) && materializes(b, tail) && out == fill + tail;
            let rest = choose|rest: Seq<Seq<char>>|
                is_filling(later, rest) && tail == splice(b, later_holes, rest);
            let fills = seq![fill] + rest;
            assert forall|i: int| 0 <= i < found.len() implies fits(
                found[i],
                #[trigger] fills[i],
            ) by {
                if i > 0 {
                    assert(fits(later[i - 1], rest[i - 1]));
                }
            }
            assert(is_filling(found, fills));
            lemma_splice_after(a, b, later_holes, fill, rest);
        }
    }
    assert forall|error: PatternError| #[trigger]
        may_fail(both, error) <==> can_fail_with(class, error) || (can_be_filled(class)
            && may_fail(b, error)) by {
        if may_fail(both, error) {
            let i = choose|i: int|
                0 <= i < found.len() && can_fail_with(#[trigger] found[i], error) && forall|
                    j: int,
                | 0 <= j < i ==> can_be_filled(#[trigger] found[j]);
            if i > 0 {
                assert(can_be_filled(found[0]));
                assert(can_fail_with(later[i - 1], error));
                assert forall|j: int| 0 <= j < i - 1 implies can_be_filled(
                    #[trigger] later[j],
                ) by {
                    let moved = found[j + 1];
                    let fill = choose|fill: Seq<char>| fits(moved, fill);
                    assert(fits(later[j], fill));
                }
            }
        }
        if can_fail_with(class, error) {
            assert(can_fail_with(found[0], error));
        }
        if can_be_filled(class) && may_fail(b, error) {
            let i = choose|i: int|
                0 <= i < later.len() && can_fail_with(#[trigger] later[i], error) && forall|
                    j: int,
                | 0 <= j < i ==> can_be_filled(#[trigger] later[j]);
            assert(can_fail_with(found[i + 1], error));
            assert forall|j: int| 0 <= j < i + 1 implies can_be_filled(#[trigger] found[j]) by {
                if j > 0 {
                    let earlier = later[j - 1];
                    let fill = choose|fill: Seq<char>| fits(earlier, fill);
                    assert(fits(found[j], fill));
                }
            }
        }
    }
}

/// The character classes of a text, from left to right.
pub fn find_classes(text: &Vec<char>) -> (found: Vec<CharClass>)
    ensures
        class_models(found@) == classes(text@),
{
    let mut found: Vec<CharClass> = Vec::new();
    let mut at: usize = 0;
    while at < text.len()
        invariant
            at <= text.len(),
            class_models(found@) + classes_from(text@, at as int) == classes(text@),
        decreases text.len() - at,
    {
        if text[at] == '[' {
            let close = find_first(text, ']', at + 1);
            if close < text.len() {
                let mut body: Vec<char> = Vec::new();
                append_range(&mut body, text, at + 1, close);
                let class = match read_quantifier(text, close + 1) {
                    Some(quantifier) => CharClass {
                        start: at,
                        end: quantifier.end,
                        body,
                        min: quantifier.min,
                        max: quantifier.max,
                    },
                    None => CharClass { start: at, end: close + 1, body, min: 1, max: 1 },
                };
                proof {
                    assert(class.body@ =~= text@.subrange(at + 1, close as int));
                    assert(class_at(text@, at as int) == Some(class@));
                    let rest = classes_from(text@, class.end as int);
                    assert(class_models(found@.push(class)) =~= class_models(found@).push(
                        class@,
                    ));
                    assert(class_models(found@).push(class@) + rest =~= class_models(found@) + (
                    seq![class@] + rest));
                }
                at = class.end;
                found.push(class);
            } else {
                at += 1;
            }
        } else {
            at += 1;
        }
    }
    found
}

/// The text with each character class replaced by characters drawn at
/// random from its pool, as many as its quantifier allows.
///
/// A class whose quantifier allows no length ends the work with
/// `InvertedQuantifier`; a class with an empty pool for which a length above
/// zero was drawn ends it with `EmptyClass`.
///
/// # Panics
///
/// Where the generator cannot be seeded anew by the operating system.
pub fn materialize_classes(text: &Vec<char>, rng: &mut ThreadRng) -> (result: Result<
    Vec<char>,
    PatternError,
>)
    ensures
        match result {
            Ok(out) => materializes(text@, out@),
            Err(error) => may_fail(text@, error),
        },
{
    let found = find_classes(text);
    let ghost holes = class_holes(classes(text@));
    let ghost mut fills: Seq<Seq<char>> = Seq::empty();
    proof {
        lemma_classes_spaced(text@, 0);
    }
    let mut out: Vec<char> = Vec::new();
    let mut cursor: usize = 0;
    let mut k: usize = 0;
    while k < found.len()
        invariant
            k <= found.len(),
            cursor <= text.len(),
            class_models(found@) == classes(text@),
            holes == class_holes(classes(text@)),
            well_spaced(holes, text@.len() as int),
            well_spaced(holes.take(k as int), cursor as int),
            k < found.len() ==> cursor <= holes[k as int].0,
            is_filling(classes(text@).take(k as int), fills),
            out@ == splice(text@.take(cursor as int), holes.take(k as int), fills),
        decreases found.len() - k,
    {
        let class = &found[k];
        proof {
            assert(class@ == class_models(found@)[k as int]);
            assert(holes[k as int] == (class.start as int, class.end as int));
            assert forall|j: int| 0 <= j < k implies can_be_filled(
                #[trigger] classes(text@)[j],
            ) by {
                assert(classes(text@).take(k as int)[j] == classes(text@)[j]);
                assert(fits(classes(text@)[j], fills[j]));
            }
        }
        if class.min > class.max {
            assert(can_fail_with(classes(text@)[k as int], PatternError::InvertedQuantifier));
            return Err(PatternError::InvertedQuantifier);
        }
        let length = if class.min == class.max {
            class.min
        } else {
            draw_between(rng, class.min, class.max)
        };
        append_range(&mut out, text, cursor, class.start);
        let pool = build_pool(&class.body);
        let ghost before = out@;
        let ghost mut fill: Seq<char> = Seq::empty();
        let mut n: usize = 0;
        while n < length
            invariant
                n <= length,
                0 <= k < found.len(),
                class_models(found@) == classes(text@),
                *class == found@[k as int],
                pool@ == pool_of(class.body@),
                length <= class.max,
                class.min <= class.max,
                fill.len() == n,
                forall|i: int| 0 <= i < fill.len() ==> pool@.contains(#[trigger] fill[i]),
                out@ == before + fill,
                forall|j: int| 0 <= j < k ==> can_be_filled(#[trigger] classes(text@)[j]),
            decreases length - n,
        {
            match choose_from(rng, &pool) {
                Some(c) => {
                    proof {
                        assert(fill.push(*c).drop_last() =~= fill);
                        assert(before + fill.push(*c) =~= (before + fill).push(*c));
                        fill = fill.push(*c);
                    }
                    out.push(*c);
                },
                None => {
                    assert(class@ == class_models(found@)[k as int]);
                    assert(can_fail_with(classes(text@)[k as int], PatternError::EmptyClass));
                    return Err(PatternError::EmptyClass);
                },
            }
            n += 1;
        }
        proof {
            lemma_splice_push(
                text@,
                holes.take(k as int),
                fills,
                holes[k as int],
                fill,
                cursor as int,
            );
            assert(holes.take(k as int).push(holes[k as int]) =~= holes.take(k + 1));
            let earlier = classes(text@).take(k as int);
            let later = classes(text@).take(k + 1);
            assert forall|i: int| 0 <= i < later.len() implies fits(
                later[i],
                #[trigger] fills.push(fill)[i],
            ) by {
                if i < k {
                    assert(earlier[i] == later[i]);
                    assert(fills.push(fill)[i] == fills[i]);
                }
            }
            fills = fills.push(fill);
        }
        cursor = class.end;
        k += 1;
    }
    proof {
        lemma_splice_tail(text@, holes, fills, cursor as int, text@.len() as int);
        assert(holes.take(k as int) =~= holes);
        assert(classes(text@).take(k as int) =~= classes(text@));
        assert(text@.take(text@.len() as int) =~= text@);
    }
    let end = text.len();
    append_range(&mut out, text, cursor, end);
    Ok(out)
}

} // verus!
