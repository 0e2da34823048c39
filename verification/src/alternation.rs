//! Alternation groups: `(first|second|...)`.
//!
//! A group opens with `(`, holds at least one character, none of them `)`,
//! and closes with the first `)` that follows. The groups of a pattern are
//! found from left to right and do not overlap. Resolving a pattern replaces
//! each group by one of the options that `|` separates in it.
//!
//! Groups do not nest. An opening parenthesis inside a group is a character
//! of the option it stands in, and the group still ends at the first closing
//! parenthesis: in `((a|b)` the options are `(a` and `b`.

use crate::random::choose_from;
use crate::text::{
    append_range, find_first, first_at, lemma_first_at, lemma_first_at_is, lemma_splice_one,
    lemma_splice_push, lemma_splice_tail, splice, well_spaced,
};
use rand::rngs::ThreadRng;
use vstd::prelude::*;

verus! {

/// An alternation group as it was found in a pattern.
#[derive(Debug, PartialEq, Eq)]
pub struct AlternationGroup {
    /// Index of the opening parenthesis.
    pub start: usize,
    /// Index after the closing parenthesis.
    pub end: usize,
    /// What stands between the parentheses, split at each `|`.
    pub options: Vec<Vec<char>>,
}

/// The mathematical value of an `AlternationGroup`.
pub struct GroupModel {
    pub start: int,
    pub end: int,
    pub options: Seq<Seq<char>>,
}

/// The pieces of a vector of vectors, each taken as a sequence.
pub open spec fn pieces_of(pieces: Seq<Vec<char>>) -> Seq<Seq<char>> {
    pieces.map_values(|piece: Vec<char>| piece@)
}

impl View for AlternationGroup {
    type V = GroupModel;

    open spec fn view(&self) -> GroupModel {
        GroupModel {
            start: self.start as int,
            end: self.end as int,
            options: pieces_of(self.options@),
        }
    }
}

/// The values of the groups of a vector.
pub open spec fn group_models(found: Seq<AlternationGroup>) -> Seq<GroupModel> {
    found.map_values(|group: AlternationGroup| group@)
}

/// The pieces of `s` that the separator leaves: one more than it occurs, an
/// empty piece where two of them meet or one stands at an end.
pub open spec fn split_on(s: Seq<char>, separator: char) -> Seq<Seq<char>>
    decreases s.len(),
{
    let cut = first_at(s, separator, 0);
    if 0 <= cut < s.len() {
        seq![s.take(cut)] + split_on(s.skip(cut + 1), separator)
    } else {
        seq![s]
    }
}

/// Where a group starts at `at`, the index after its closing parenthesis.
pub open spec fn group_end(s: Seq<char>, at: int) -> Option<int> {
    let close = first_at(s, ')', at + 1);
    if 0 <= at < s.len() && s[at] == '(' && at + 1 < close < s.len() {
        Some(close + 1)
    } else {
        None
    }
}

/// The groups of `s` from `from` on: the leftmost one, then those after its
/// end.
pub open spec fn groups_from(s: Seq<char>, from: int) -> Seq<GroupModel>
    decreases s.len() - from,
{
    if from < 0 || from >= s.len() {
        Seq::empty()
    } else {
        match group_end(s, from) {
            Some(end) => seq![
                GroupModel {
                    start: from,
                    end,
                    options: split_on(s.subrange(from + 1, end - 1), '|'),
                },
            ] + groups_from(s, end),
            None => groups_from(s, from + 1),
        }
    }
}

/// The groups of a pattern.
pub open spec fn groups(s: Seq<char>) -> Seq<GroupModel> {
    groups_from(s, 0)
}

/// The stretches of the pattern that the groups take.
pub open spec fn group_holes(found: Seq<GroupModel>) -> Seq<(int, int)> {
    found.map_values(|group: GroupModel| (group.start, group.end))
}

/// One option for each group.
pub open spec fn is_choice(found: Seq<GroupModel>, fills: Seq<Seq<char>>) -> bool {
    &&& fills.len() == found.len()
    &&& forall|i: int| 0 <= i < found.len() ==> found[i].options.contains(#[trigger] fills[i])
}

/// `out` is `pattern` with each group replaced by one of its options.
pub open spec fn resolves(pattern: Seq<char>, out: Seq<char>) -> bool {
    exists|fills: Seq<Seq<char>>|
        is_choice(groups(pattern), fills) && out == splice(
            pattern,
            group_holes(groups(pattern)),
            fills,
        )
}

/// `group` is a group of `s`: an opening parenthesis, at least one character
/// and none of them `)`, a closing parenthesis, and the options between them.
pub open spec fn is_group(s: Seq<char>, group: GroupModel) -> bool {
    &&& 0 <= group.start
    &&& group.start + 2 < group.end <= s.len()
    &&& s[group.start] == '('
    &&& s[group.end - 1] == ')'
    &&& forall|k: int| group.start < k < group.end - 1 ==> s[k] != ')'
    &&& group.options == split_on(s.subrange(group.start + 1, group.end - 1), '|')
    &&& group.options.len() > 0
}

/// What is found from `from` on are groups that start at or after `from`,
/// follow one another without overlap and end inside the text.
pub proof fn lemma_groups_spaced(s: Seq<char>, from: int)
    requires
        0 <= from,
    ensures
        well_spaced(group_holes(groups_from(s, from)), s.len() as int),
        forall|i: int|
            0 <= i < groups_from(s, from).len() ==> from <= (#[trigger] groups_from(
                s,
                from,
            )[i]).start,
        forall|i: int|
            0 <= i < groups_from(s, from).len() ==> is_group(s, #[trigger] groups_from(s, from)[i]),
    decreases s.len() - from,
{
    if from < s.len() {
        match group_end(s, from) {
            Some(end) => {
                lemma_groups_spaced(s, end);
                lemma_first_at(s, ')', from + 1);
                let rest = groups_from(s, end);
                let all = groups_from(s, from);
                assert(forall|i: int| 1 <= i < all.len() ==> all[i] == rest[i - 1]);
                let holes = group_holes(all);
                let rest_holes = group_holes(rest);
                assert forall|i: int, j: int| 0 <= i < j < holes.len() implies (
                #[trigger] holes[i]).1 <= (#[trigger] holes[j]).0 by {
                    assert(holes[j] == rest_holes[j - 1]);
                    if i > 0 {
                        assert(holes[i] == rest_holes[i - 1]);
                    }
                }
                assert forall|i: int| 0 <= i < holes.len() implies 0 <= (#[trigger] holes[i]).0
                    < holes[i].1 <= s.len() by {
                    if i > 0 {
                        assert(holes[i] == rest_holes[i - 1]);
                    }
                }
            },
            None => {
                lemma_groups_spaced(s, from + 1);
            },
        }
    }
}

/// A piece holds characters of the text that was split, and none of them is
/// the separator.
pub proof fn lemma_split_on_members(s: Seq<char>, separator: char, piece: Seq<char>, c: char)
    requires
        split_on(s, separator).contains(piece),
        piece.contains(c),
    ensures
        s.contains(c),
        c != separator,
    decreases s.len(),
{
    let cut = first_at(s, separator, 0);
    lemma_first_at(s, separator, 0);
    let pieces = split_on(s, separator);
    let n = choose|n: int| 0 <= n < pieces.len() && pieces[n] == piece;
    let i = choose|i: int| 0 <= i < piece.len() && piece[i] == c;
    if cut < s.len() {
        if n == 0 {
            assert(s[i] == c);
        } else {
            let rest = s.skip(cut + 1);
            assert(split_on(rest, separator)[n - 1] == piece);
            lemma_split_on_members(rest, separator, piece, c);
            let j = choose|j: int| 0 <= j < rest.len() && rest[j] == c;
            assert(s[j + cut + 1] == c);
        }
    } else {
        assert(s[i] == c);
    }
}

/// Without an opening parenthesis from `from` on there is no group.
pub proof fn lemma_no_groups(s: Seq<char>, from: int)
    requires
        0 <= from,
        forall|k: int| from <= k < s.len() ==> s[k] != '(',
    ensures
        groups_from(s, from) == Seq::<GroupModel>::empty(),
    decreases s.len() - from,
{
    if from < s.len() {
        lemma_no_groups(s, from + 1);
    }
}

/// A pattern without a group resolves to itself and to nothing else.
pub proof fn lemma_resolves_plain(s: Seq<char>, out: Seq<char>)
    requires
        groups(s).len() == 0,
    ensures
        resolves(s, out) <==> out == s,
{
    let none = Seq::<Seq<char>>::empty();
    assert(is_choice(groups(s), none));
    assert(splice(s, group_holes(groups(s)), none) == s);
}

/// A pattern that is one group, with a body that holds no closing
/// parenthesis, resolves to each option of the body and to nothing else.
pub proof fn lemma_lone_group(body: Seq<char>, out: Seq<char>)
    requires
        body.len() > 0,
        forall|k: int| 0 <= k < body.len() ==> body[k] != ')',
    ensures
        groups(seq!['('] + body + seq![')']) == seq![
            GroupModel {
                start: 0,
                end: body.len() as int + 2,
                options: split_on(body, '|'),
            },
        ],
        resolves(seq!['('] + body + seq![')'], out) <==> split_on(body, '|').contains(out),
{
    let pattern = seq!['('] + body + seq![')'];
    let end: int = body.len() as int + 2;
    let group = GroupModel { start: 0, end, options: split_on(body, '|') };
    assert(forall|k: int| 1 <= k < end - 1 ==> pattern[k] == body[k - 1]);
    lemma_first_at_is(pattern, ')', 1, end - 1);
    assert(pattern.subrange(1, end - 1) =~= body);
    assert(groups_from(pattern, end) == Seq::<GroupModel>::empty());
    assert(groups(pattern) =~= seq![group]);
    let holes = group_holes(groups(pattern));
    assert(holes =~= seq![(0int, end)]);
    assert forall|fills: Seq<Seq<char>>| fills.len() == 1 implies #[trigger] splice(
        pattern,
        holes,
        fills,
    ) == fills[0] by {
        lemma_splice_one(pattern, holes, fills);
        assert(pattern.skip(end) =~= Seq::<char>::empty());
        assert(pattern.take(0) =~= Seq::<char>::empty());
        assert(Seq::<char>::empty() + fills[0] + Seq::<char>::empty() =~= fills[0]);
    }
    if resolves(pattern, out) {
        let fills = choose|fills: Seq<Seq<char>>|
            is_choice(groups(pattern), fills) && out == splice(
                pattern,
                group_holes(groups(pattern)),
                fills,
            );
        assert(groups(pattern)[0].options.contains(fills[0]));
    }
    if split_on(body, '|').contains(out) {
        let fills = seq![out];
        assert(fills[0] == out);
        assert(is_choice(groups(pattern), fills));
        assert(out == splice(pattern, holes, fills));
    }
}

/// The pieces of `s[from..to]` that `|` leaves.
pub fn split_options(s: &Vec<char>, from: usize, to: usize) -> (pieces: Vec<Vec<char>>)
    requires
        from <= to <= s.len(),
    ensures
        pieces_of(pieces@) == split_on(s@.subrange(from as int, to as int), '|'),
{
    let mut pieces: Vec<Vec<char>> = Vec::new();
    let mut piece: Vec<char> = Vec::new();
    let ghost mut piece_start: int = from as int;
    let mut i: usize = from;
    while i < to
        invariant
            from <= piece_start <= i <= to <= s.len(),
            piece@ == s@.subrange(piece_start, i as int),
            forall|k: int| piece_start <= k < i ==> s@[k] != '|',
            pieces_of(pieces@) + split_on(s@.subrange(piece_start, to as int), '|') == split_on(
                s@.subrange(from as int, to as int),
                '|',
            ),
        decreases to - i,
    {
        if s[i] == '|' {
            proof {
                let rest = s@.subrange(piece_start, to as int);
                lemma_first_at_is(rest, '|', 0, i - piece_start);
                assert(rest.take(i - piece_start) =~= piece@);
                assert(rest.skip(i - piece_start + 1) =~= s@.subrange(i + 1, to as int));
                assert(pieces_of(pieces@.push(piece)) =~= pieces_of(pieces@).push(piece@));
                assert(pieces_of(pieces@).push(piece@) + split_on(
                    s@.subrange(i + 1, to as int),
                    '|',
                ) =~= pieces_of(pieces@) + (seq![piece@] + split_on(
                    s@.subrange(i + 1, to as int),
                    '|',
                )));
                piece_start = i + 1;
            }
            pieces.push(piece);
            piece = Vec::new();
        } else {
            piece.push(s[i]);
        }
        i += 1;
        assert(piece@ =~= s@.subrange(piece_start, i as int));
    }
    proof {
        let rest = s@.subrange(piece_start, to as int);
        lemma_first_at_is(rest, '|', 0, rest.len() as int);
        assert(rest =~= piece@);
        assert(pieces_of(pieces@.push(piece)) =~= pieces_of(pieces@).push(piece@));
        assert(pieces_of(pieces@).push(piece@) =~= pieces_of(pieces@) + seq![piece@]);
    }
    pieces.push(piece);
    pieces
}

/// The alternation groups of a pattern, from left to right.
pub fn find_groups(pattern: &Vec<char>) -> (found: Vec<AlternationGroup>)
    ensures
        group_models(found@) == groups(pattern@),
{
    let mut found: Vec<AlternationGroup> = Vec::new();
    let mut at: usize = 0;
    while at < pattern.len()
        invariant
            at <= pattern.len(),
            group_models(found@) + groups_from(pattern@, at as int) == groups(pattern@),
        decreases pattern.len() - at,
    {
        if pattern[at] == '(' {
            let close = find_first(pattern, ')', at + 1);
            if at + 1 < close && close < pattern.len() {
                let group = AlternationGroup {
                    start: at,
                    end: close + 1,
                    options: split_options(pattern, at + 1, close),
                };
                proof {
                    let rest = groups_from(pattern@, close + 1);
                    assert(group_models(found@.push(group)) =~= group_models(found@).push(
                        group@,
                    ));
                    assert(group_models(found@).push(group@) + rest =~= group_models(found@) + (
                    seq![group@] + rest));
                }
                found.push(group);
                at = close + 1;
            } else {
                at += 1;
            }
        } else {
            at += 1;
        }
    }
    found
}

/// The pattern with each alternation group replaced by one of its options,
/// drawn at random.
///
/// # Panics
///
/// Where the generator cannot be seeded anew by the operating system.
pub fn resolve_alternations(pattern: &Vec<char>, rng: &mut ThreadRng) -> (out: Vec<char>)
    ensures
        resolves(pattern@, out@),
{
    let found = find_groups(pattern);
    let ghost holes = group_holes(groups(pattern@));
    let ghost mut fills: Seq<Seq<char>> = Seq::empty();
    proof {
        lemma_groups_spaced(pattern@, 0);
    }
    let mut out: Vec<char> = Vec::new();
    let mut cursor: usize = 0;
    let mut k: usize = 0;
    while k < found.len()
        invariant
            k <= found.len(),
            cursor <= pattern.len(),
            group_models(found@) == groups(pattern@),
            holes == group_holes(groups(pattern@)),
            well_spaced(holes, pattern@.len() as int),
            well_spaced(holes.take(k as int), cursor as int),
            k < found.len() ==> cursor <= holes[k as int].0,
            is_choice(groups(pattern@).take(k as int), fills),
            out@ == splice(pattern@.take(cursor as int), holes.take(k as int), fills),
        decreases found.len() - k,
    {
        let group = &found[k];
        proof {
            assert(group@ == group_models(found@)[k as int]);
            assert(holes[k as int] == (group.start as int, group.end as int));
            lemma_groups_spaced(pattern@, 0);
            assert(is_group(pattern@, groups(pattern@)[k as int]));
        }
        append_range(&mut out, pattern, cursor, group.start);
        let pick = choose_from(rng, &group.options);
        assert(pick is Some);
        let option = pick.unwrap();
        let ghost fill = option@;
        proof {
            let i = choose|i: int| 0 <= i < group.options@.len() && group.options@[i] == *option;
            assert(pieces_of(group.options@)[i] == fill);
            assert(option@.subrange(0, option@.len() as int) =~= option@);
        }
        append_range(&mut out, option, 0, option.len());
        proof {
            lemma_splice_push(
                pattern@,
                holes.take(k as int),
                fills,
                holes[k as int],
                fill,
                cursor as int,
            );
            assert(holes.take(k as int).push(holes[k as int]) =~= holes.take(k + 1));
            let before = groups(pattern@).take(k as int);
            let after = groups(pattern@).take(k + 1);
            assert forall|i: int| 0 <= i < after.len() implies after[i].options.contains(
                #[trigger] fills.push(fill)[i],
            ) by {
                if i < k {
                    assert(before[i] == after[i]);
                    assert(fills.push(fill)[i] == fills[i]);
                }
            }
            fills = fills.push(fill);
        }
        cursor = group.end;
        k += 1;
    }
    proof {
        lemma_splice_tail(pattern@, holes, fills, cursor as int, pattern@.len() as int);
        assert(holes.take(k as int) =~= holes);
        assert(groups(pattern@).take(k as int) =~= groups(pattern@));
        assert(pattern@.take(pattern@.len() as int) =~= pattern@);
    }
    let end = pattern.len();
    append_range(&mut out, pattern, cursor, end);
    out
}

} // verus!
