//! Character sequences: conversion from and to strings, searching, and the
//! replacement of disjoint stretches of a text.

use vstd::prelude::*;

verus! {

/// `String::push` appends one character to the string.
pub assume_specification[ String::push ](s: &mut String, c: char)
    ensures
        final(s)@ == old(s)@.push(c),
;

/// The characters of a string, in order.
pub fn chars_of(s: &str) -> (chars: Vec<char>)
    ensures
        chars@ == s@,
{
    let mut chars: Vec<char> = Vec::new();
    for c in it: s.chars()
        invariant
            it.seq() == s@,
            chars@ == it.seq().take(it.index() as int),
    {
        chars.push(c);
    }
    chars
}

/// The string made of the given characters, in order.
pub fn string_of(chars: &Vec<char>) -> (s: String)
    ensures
        s@ == chars@,
{
    let mut s = String::new();
    let mut i: usize = 0;
    while i < chars.len()
        invariant
            i <= chars.len(),
            s@ == chars@.take(i as int),
        decreases chars.len() - i,
    {
        s.push(chars[i]);
        i += 1;
    }
    s
}

/// Appends `src[from..to]` to `out`.
pub fn append_range(out: &mut Vec<char>, src: &Vec<char>, from: usize, to: usize)
    requires
        from <= to <= src.len(),
    ensures
        final(out)@ == old(out)@ + src@.subrange(from as int, to as int),
{
    let mut i: usize = from;
    while i < to
        invariant
            from <= i <= to <= src.len(),
            out@ == old(out)@ + src@.subrange(from as int, i as int),
        decreases to - i,
    {
        out.push(src[i]);
        i += 1;
    }
}

/// The first index at or after `from` at which `s` holds `target`; the length
/// of `s` where there is none.
pub open spec fn first_at(s: Seq<char>, target: char, from: int) -> int
    decreases s.len() - from,
{
    if from < 0 || from >= s.len() {
        s.len() as int
    } else if s[from] == target {
        from
    } else {
        first_at(s, target, from + 1)
    }
}

/// `first_at` lies between `from` and the length, nothing before it holds the
/// target, and it holds the target unless it is the length.
pub proof fn lemma_first_at(s: Seq<char>, target: char, from: int)
    requires
        0 <= from <= s.len(),
    ensures
        from <= first_at(s, target, from) <= s.len(),
        forall|k: int| from <= k < first_at(s, target, from) ==> s[k] != target,
        first_at(s, target, from) < s.len() ==> s[first_at(s, target, from)] == target,
    decreases s.len() - from,
{
    if from < s.len() && s[from] != target {
        lemma_first_at(s, target, from + 1);
    }
}

/// An index with the three properties of `lemma_first_at` is `first_at`.
pub proof fn lemma_first_at_is(s: Seq<char>, target: char, from: int, at: int)
    requires
        0 <= from <= at <= s.len(),
        forall|k: int| from <= k < at ==> s[k] != target,
        at < s.len() ==> s[at] == target,
    ensures
        first_at(s, target, from) == at,
    decreases at - from,
{
    if from < at {
        lemma_first_at_is(s, target, from + 1, at);
    }
}

/// Searching in the second of two texts: what is found in `a + b` from an
/// index of `b` on is what is found in `b`, moved by the length of `a`.
pub proof fn lemma_first_at_after(a: Seq<char>, b: Seq<char>, target: char, from: int)
    requires
        0 <= from <= b.len(),
    ensures
        first_at(a + b, target, a.len() + from) == a.len() + first_at(b, target, from),
{
    lemma_first_at(b, target, from);
    let at = first_at(b, target, from);
    assert forall|k: int| a.len() + from <= k < a.len() + at implies (a + b)[k] != target by {
        assert((a + b)[k] == b[k - a.len()]);
    }
    if at < b.len() {
        assert((a + b)[a.len() + at] == b[at]);
    }
    lemma_first_at_is(a + b, target, a.len() + from, a.len() + at);
}

/// The first index at or after `from` at which `s` holds `target`.
pub fn find_first(s: &Vec<char>, target: char, from: usize) -> (at: usize)
    requires
        from <= s.len(),
    ensures
        at == first_at(s@, target, from as int),
        from <= at <= s.len(),
{
    let mut i: usize = from;
    while i < s.len() && s[i] != target
        invariant
            from <= i <= s.len(),
            forall|k: int| from <= k < i ==> s@[k] != target,
        decreases s.len() - i,
    {
        i += 1;
    }
    proof {
        lemma_first_at_is(s@, target, from as int, i as int);
    }
    i
}

/// Stretches of a text of length `len`, each given by its start and its end:
/// none is empty, each ends before the next one starts, and all lie inside
/// the text.
pub open spec fn well_spaced(holes: Seq<(int, int)>, len: int) -> bool {
    &&& forall|i: int| 0 <= i < holes.len() ==> 0 <= (#[trigger] holes[i]).0 < holes[i].1 <= len
    &&& forall|i: int, j: int|
        0 <= i < j < holes.len() ==> (#[trigger] holes[i]).1 <= (#[trigger] holes[j]).0
}

/// The text `s` with each of the `holes` replaced by the fill of the same
/// index, and everything between the holes kept as it is.
pub open spec fn splice(s: Seq<char>, holes: Seq<(int, int)>, fills: Seq<Seq<char>>) -> Seq<char>
    decreases holes.len(),
{
    if holes.len() == 0 {
        s
    } else {
        splice(s.take(holes.last().0), holes.drop_last(), fills.drop_last()) + fills.last()
            + s.skip(holes.last().1)
    }
}

/// With one hole the text before it, the fill and the text after it follow
/// one another.
pub proof fn lemma_splice_one(s: Seq<char>, holes: Seq<(int, int)>, fills: Seq<Seq<char>>)
    requires
        holes.len() == 1,
        fills.len() == 1,
    ensures
        splice(s, holes, fills) == s.take(holes[0].0) + fills[0] + s.skip(holes[0].1),
{
    assert(holes.drop_last().len() == 0);
    assert(splice(s.take(holes[0].0), holes.drop_last(), fills.drop_last()) == s.take(
        holes[0].0,
    ));
}

/// Text that follows the last hole is copied: replacing in the first `b`
/// characters gives what replacing in the first `a` gives, followed by the
/// characters from `a` to `b`.
pub proof fn lemma_splice_tail(
    s: Seq<char>,
    holes: Seq<(int, int)>,
    fills: Seq<Seq<char>>,
    a: int,
    b: int,
)
    requires
        well_spaced(holes, a),
        0 <= a <= b <= s.len(),
    ensures
        splice(s.take(b), holes, fills) == splice(s.take(a), holes, fills) + s.subrange(a, b),
{
    if holes.len() == 0 {
        assert(s.take(b) =~= s.take(a) + s.subrange(a, b));
    } else {
        let (x, y) = holes.last();
        assert(s.take(b).take(x) =~= s.take(a).take(x));
        assert(s.take(b).skip(y) =~= s.take(a).skip(y) + s.subrange(a, b));
        let head = splice(s.take(a).take(x), holes.drop_last(), fills.drop_last());
        assert(head + fills.last() + (s.take(a).skip(y) + s.subrange(a, b)) =~= (head
            + fills.last() + s.take(a).skip(y)) + s.subrange(a, b));
    }
}

/// The holes moved to the right by `by`.
pub open spec fn moved(holes: Seq<(int, int)>, by: int) -> Seq<(int, int)> {
    holes.map_values(|hole: (int, int)| (hole.0 + by, hole.1 + by))
}

/// Where the first hole is all of `a` and the other holes lie in `b`, the
/// text `a + b` is replaced by the first fill, followed by what `b` is
/// replaced by.
pub proof fn lemma_splice_after(
    a: Seq<char>,
    b: Seq<char>,
    holes: Seq<(int, int)>,
    first: Seq<char>,
    fills: Seq<Seq<char>>,
)
    requires
        well_spaced(holes, b.len() as int),
        fills.len() == holes.len(),
    ensures
        splice(
            a + b,
            seq![(0int, a.len() as int)] + moved(holes, a.len() as int),
            seq![first] + fills,
        ) == first + splice(b, holes, fills),
    decreases holes.len(),
{
    let n = a.len() as int;
    let all_holes = seq![(0int, n)] + moved(holes, n);
    let all_fills = seq![first] + fills;
    if holes.len() == 0 {
        lemma_splice_one(a + b, all_holes, all_fills);
        assert((a + b).take(0) =~= Seq::<char>::empty());
        assert((a + b).skip(n) =~= b);
        assert(Seq::<char>::empty() + first + b =~= first + b);
    } else {
        let (x, y) = holes.last();
        assert(holes[holes.len() - 1] == (x, y));
        assert(all_holes.last() == (x + n, y + n));
        assert(all_holes.drop_last() =~= seq![(0int, n)] + moved(holes.drop_last(), n));
        assert(all_fills.drop_last() =~= seq![first] + fills.drop_last());
        assert(all_fills.last() == fills.last());
        assert((a + b).take(x + n) =~= a + b.take(x));
        assert((a + b).skip(y + n) =~= b.skip(y));
        assert(well_spaced(holes.drop_last(), x)) by {
            assert forall|i: int| 0 <= i < holes.drop_last().len() implies 0 <= (
            #[trigger] holes.drop_last()[i]).0 < holes.drop_last()[i].1 <= x by {
                assert(holes.drop_last()[i] == holes[i]);
            }
            assert forall|i: int, j: int| 0 <= i < j < holes.drop_last().len() implies (
            #[trigger] holes.drop_last()[i]).1 <= (#[trigger] holes.drop_last()[j]).0 by {
                assert(holes.drop_last()[i] == holes[i]);
                assert(holes.drop_last()[j] == holes[j]);
            }
        }
        lemma_splice_after(a, b.take(x), holes.drop_last(), first, fills.drop_last());
        let inner = splice(b.take(x), holes.drop_last(), fills.drop_last());
        assert((first + inner) + fills.last() + b.skip(y) =~= first + (inner + fills.last()
            + b.skip(y)));
    }
}

/// Replacing one more hole: the text up to the end of the new hole is the
/// text up to its start, with the earlier holes replaced, followed by the new
/// fill.
pub proof fn lemma_splice_push(
    s: Seq<char>,
    holes: Seq<(int, int)>,
    fills: Seq<Seq<char>>,
    hole: (int, int),
    fill: Seq<char>,
    cursor: int,
)
    requires
        well_spaced(holes, cursor),
        0 <= cursor <= hole.0 <= hole.1 <= s.len(),
    ensures
        splice(s.take(hole.1), holes.push(hole), fills.push(fill)) == splice(
            s.take(cursor),
            holes,
            fills,
        ) + s.subrange(cursor, hole.0) + fill,
{
    lemma_splice_tail(s, holes, fills, cursor, hole.0);
    assert(holes.push(hole).drop_last() =~= holes);
    assert(fills.push(fill).drop_last() =~= fills);
    assert(s.take(hole.1).take(hole.0) =~= s.take(hole.0));
    assert(s.take(hole.1).skip(hole.1) =~= Seq::<char>::empty());
}

} // verus!
