//! The shorthand markers `\d`, `\s` and `\w`.
//!
//! Each marker is a backslash and a letter, and stands for a fixed set of
//! characters. Expanding a text replaces every marker in it, wherever it
//! stands, by the characters of its set.

use crate::text::{append_range, chars_of};
use vstd::prelude::*;

verus! {

/// The characters that the marker made of a backslash and `letter` stands
/// for, where there is such a marker.
pub open spec fn shorthand_set(letter: char) -> Option<Seq<char>> {
    if letter == 'd' {
        Some("0123456789"@)
    } else if letter == 's' {
        Some(" \t\n\r"@)
    } else if letter == 'w' {
        Some("abcdefghijklmnopqrstuvwxyzABCDEFGHIJKLMNOPQRSTUVWXYZ0123456789_"@)
    } else {
        None
    }
}

/// The text with every marker replaced by its set, read from left to right.
pub open spec fn expand(s: Seq<char>) -> Seq<char>
    decreases s.len(),
{
    if s.len() == 0 {
        Seq::empty()
    } else if s.len() >= 2 && s[0] == '\\' && shorthand_set(s[1]) is Some {
        shorthand_set(s[1])->0 + expand(s.skip(2))
    } else {
        seq![s[0]] + expand(s.skip(1))
    }
}

/// A text without a backslash holds no marker: it expands to itself.
pub proof fn lemma_expand_plain(s: Seq<char>)
    requires
        forall|k: int| 0 <= k < s.len() ==> s[k] != '\\',
    ensures
        expand(s) == s,
    decreases s.len(),
{
    if s.len() > 0 {
        lemma_expand_plain(s.skip(1));
        assert(seq![s[0]] + s.skip(1) =~= s);
    }
}

/// Two texts expand one after the other, unless a backslash ends the first
/// and forms a marker with the letter that starts the second.
pub proof fn lemma_expand_concat(a: Seq<char>, b: Seq<char>)
    requires
        a.len() == 0 || a.last() != '\\' || b.len() == 0 || shorthand_set(b[0]) is None,
    ensures
        expand(a + b) == expand(a) + expand(b),
    decreases a.len(),
{
    let both = a + b;
    if a.len() == 0 {
        assert(both =~= b);
        assert(expand(a) + expand(b) =~= expand(b));
    } else if a.len() >= 2 && a[0] == '\\' && shorthand_set(a[1]) is Some {
        assert(both.skip(2) =~= a.skip(2) + b);
        lemma_expand_concat(a.skip(2), b);
        let set = shorthand_set(a[1])->0;
        assert(set + (expand(a.skip(2)) + expand(b)) =~= (set + expand(a.skip(2))) + expand(b));
    } else {
        assert(both.skip(1) =~= a.skip(1) + b);
        lemma_expand_concat(a.skip(1), b);
        assert(seq![a[0]] + (expand(a.skip(1)) + expand(b)) =~= (seq![a[0]] + expand(a.skip(1)))
            + expand(b));
    }
}

/// A marker alone expands to its set.
pub proof fn lemma_expand_marker(letter: char)
    requires
        shorthand_set(letter) is Some,
    ensures
        expand(seq!['\\', letter]) == shorthand_set(letter)->0,
{
    let marker = seq!['\\', letter];
    assert(marker.skip(2) =~= Seq::<char>::empty());
    assert(expand(marker.skip(2)) == Seq::<char>::empty());
    assert(shorthand_set(letter)->0 + Seq::<char>::empty() =~= shorthand_set(letter)->0);
}

/// One of the four blanks: space, tab, line feed, carriage return.
pub open spec fn is_blank(c: char) -> bool {
    c == ' ' || c == '\t' || c == '\n' || c == '\r'
}

/// A letter of the Latin alphabet, a digit or the underscore.
pub open spec fn is_word_char(c: char) -> bool {
    'a' <= c <= 'z' || 'A' <= c <= 'Z' || '0' <= c <= '9' || c == '_'
}

/// What each of the three sets holds: `\d` the ten digits, `\s` the four
/// blanks, `\w` the letters, the digits and the underscore.
pub proof fn lemma_shorthand_sets(c: char)
    ensures
        shorthand_set('d')->0.contains(c) <==> '0' <= c <= '9',
        shorthand_set('s')->0.contains(c) <==> is_blank(c),
        shorthand_set('w')->0.contains(c) <==> is_word_char(c),
        shorthand_set('d')->0.len() == 10,
        shorthand_set('s')->0.len() == 4,
        shorthand_set('w')->0.len() == 63,
{
    reveal_strlit("0123456789");
    reveal_strlit(" \t\n\r");
    reveal_strlit("abcdefghijklmnopqrstuvwxyzABCDEFGHIJKLMNOPQRSTUVWXYZ0123456789_");
    let digits = "0123456789"@;
    let blanks = " \t\n\r"@;
    let word = "abcdefghijklmnopqrstuvwxyzABCDEFGHIJKLMNOPQRSTUVWXYZ0123456789_"@;
    if '0' <= c <= '9' {
        assert(digits[c as int - '0' as int] == c);
        assert(word[52 + c as int - '0' as int] == c);
    }
    if is_blank(c) {
        assert(blanks[0] == ' ' && blanks[1] == '\t' && blanks[2] == '\n' && blanks[3] == '\r');
    }
    if 'a' <= c <= 'z' {
        assert(word[c as int - 'a' as int] == c);
    }
    if 'A' <= c <= 'Z' {
        assert(word[26 + c as int - 'A' as int] == c);
    }
    if c == '_' {
        assert(word[62] == c);
    }
}

/// Expanding brings in no character but those of the three sets: a
/// character of the expanded text stands in the text itself, or is a blank, a
/// letter, a digit or the underscore.
pub proof fn lemma_expand_members(s: Seq<char>, c: char)
    requires
        expand(s).contains(c),
    ensures
        s.contains(c) || is_blank(c) || is_word_char(c),
    decreases s.len(),
{
    if s.len() >= 2 && s[0] == '\\' && shorthand_set(s[1]) is Some {
        let set = shorthand_set(s[1])->0;
        let rest = expand(s.skip(2));
        lemma_shorthand_sets(c);
        let i = choose|i: int| 0 <= i < (set + rest).len() && (set + rest)[i] == c;
        if i < set.len() {
            assert(set[i] == c);
        } else {
            assert(rest[i - set.len()] == c);
            lemma_expand_members(s.skip(2), c);
            if s.skip(2).contains(c) {
                let j = choose|j: int| 0 <= j < s.skip(2).len() && s.skip(2)[j] == c;
                assert(s[j + 2] == c);
            }
        }
    } else if s.len() > 0 {
        let rest = expand(s.skip(1));
        let all = seq![s[0]] + rest;
        let i = choose|i: int| 0 <= i < all.len() && all[i] == c;
        if i == 0 {
            assert(s[0] == c);
        } else {
            assert(rest[i - 1] == c);
            lemma_expand_members(s.skip(1), c);
            if s.skip(1).contains(c) {
                let j = choose|j: int| 0 <= j < s.skip(1).len() && s.skip(1)[j] == c;
                assert(s[j + 1] == c);
            }
        }
    }
}

/// The text with every marker of one letter replaced by `set`, read from
/// left to right: what replacing the two characters of the marker by the set
/// does, wherever they stand.
pub open spec fn replace_marker(s: Seq<char>, letter: char, set: Seq<char>) -> Seq<char>
    decreases s.len(),
{
    if s.len() == 0 {
        Seq::empty()
    } else if s.len() >= 2 && s[0] == '\\' && s[1] == letter {
        set + replace_marker(s.skip(2), letter, set)
    } else {
        seq![s[0]] + replace_marker(s.skip(1), letter, set)
    }
}

/// A stretch without a backslash holds no marker and starts none: what
/// follows it is replaced as if it stood alone.
proof fn lemma_replace_after_plain(plain: Seq<char>, rest: Seq<char>, letter: char, set: Seq<char>)
    requires
        forall|k: int| 0 <= k < plain.len() ==> plain[k] != '\\',
    ensures
        replace_marker(plain + rest, letter, set) == plain + replace_marker(rest, letter, set),
    decreases plain.len(),
{
    let both = plain + rest;
    if plain.len() == 0 {
        assert(both =~= rest);
        assert(plain + replace_marker(rest, letter, set) =~= replace_marker(rest, letter, set));
    } else {
        assert(both[0] == plain[0]);
        assert(both.skip(1) =~= plain.skip(1) + rest);
        lemma_replace_after_plain(plain.skip(1), rest, letter, set);
        assert(seq![plain[0]] + (plain.skip(1) + replace_marker(rest, letter, set)) =~= plain
            + replace_marker(rest, letter, set));
    }
}

/// A character after which a backslash forms no marker.
spec fn is_no_letter(c: char) -> bool {
    shorthand_set(c) is None
}

/// Replacing the markers of one letter in a text that starts with no marker
/// letter gives a text that starts with none.
proof fn lemma_replace_head(s: Seq<char>, letter: char)
    requires
        shorthand_set(letter) is Some,
        s.len() > 0 ==> is_no_letter(s[0]),
    ensures
        replace_marker(s, letter, shorthand_set(letter)->0).len() > 0 ==> is_no_letter(
            replace_marker(s, letter, shorthand_set(letter)->0)[0],
        ),
{
    lemma_shorthand_sets('d');
    lemma_shorthand_sets('s');
    lemma_shorthand_sets('w');
    reveal_strlit("0123456789");
    reveal_strlit(" \t\n\r");
    reveal_strlit("abcdefghijklmnopqrstuvwxyzABCDEFGHIJKLMNOPQRSTUVWXYZ0123456789_");
}

/// A character that starts no marker is kept by each replacement, and what
/// follows it is replaced as if it stood alone.
proof fn lemma_replace_keeps(c: char, rest: Seq<char>, letter: char, set: Seq<char>)
    requires
        c != '\\' || rest.len() == 0 || rest[0] != letter,
    ensures
        replace_marker(seq![c] + rest, letter, set) == seq![c] + replace_marker(
            rest,
            letter,
            set,
        ),
{
    assert((seq![c] + rest).skip(1) =~= rest);
}

/// A marker is replaced by its set, and what follows it is replaced as if
/// it stood alone.
proof fn lemma_replace_marker(rest: Seq<char>, letter: char, set: Seq<char>)
    ensures
        replace_marker(seq!['\\', letter] + rest, letter, set) == set + replace_marker(
            rest,
            letter,
            set,
        ),
{
    assert((seq!['\\', letter] + rest).skip(2) =~= rest);
}

/// Expanding is replacing the markers letter by letter, in whatever order
/// the three letters are taken: no set holds a backslash, and none starts
/// with the letter of a marker, so that no replacement makes or breaks a
/// marker of another letter.
pub proof fn law_expand_in_any_order(s: Seq<char>, first: char, second: char, third: char)
    requires
        shorthand_set(first) is Some,
        shorthand_set(second) is Some,
        shorthand_set(third) is Some,
        first != second,
        first != third,
        second != third,
    ensures
        replace_marker(
            replace_marker(
                replace_marker(s, first, shorthand_set(first)->0),
                second,
                shorthand_set(second)->0,
            ),
            third,
            shorthand_set(third)->0,
        ) == expand(s),
    decreases s.len(),
{
    let a = shorthand_set(first)->0;
    let b = shorthand_set(second)->0;
    let c = shorthand_set(third)->0;
    assert forall|set: Seq<char>, k: int|
        (set == a || set == b || set == c) && 0 <= k < set.len() implies set[k] != '\\' by {
        lemma_shorthand_sets('\\');
    }
    if s.len() >= 2 && s[0] == '\\' && shorthand_set(s[1]) is Some {
        let rest = s.skip(2);
        let once = replace_marker(rest, first, a);
        let twice = replace_marker(once, second, b);
        law_expand_in_any_order(rest, first, second, third);
        assert(s =~= seq!['\\', s[1]] + rest);
        if s[1] == first {
            lemma_replace_after_plain(a, once, second, b);
            lemma_replace_after_plain(a, twice, third, c);
        } else if s[1] == second {
            assert(s.skip(1) =~= seq![s[1]] + rest);
            lemma_replace_keeps(s[1], rest, first, a);
            assert(replace_marker(s, first, a) =~= seq!['\\', s[1]] + once);
            lemma_replace_marker(once, second, b);
            lemma_replace_after_plain(b, twice, third, c);
        } else {
            assert(s.skip(1) =~= seq![s[1]] + rest);
            lemma_replace_keeps(s[1], rest, first, a);
            assert(replace_marker(s, first, a) =~= seq!['\\', s[1]] + once);
            assert(seq!['\\', s[1]] + once =~= seq!['\\'] + (seq![s[1]] + once));
            lemma_replace_keeps(s[1], once, second, b);
            lemma_replace_keeps('\\', seq![s[1]] + once, second, b);
            assert(seq!['\\'] + (seq![s[1]] + twice) =~= seq!['\\', s[1]] + twice);
            lemma_replace_marker(twice, third, c);
        }
    } else if s.len() > 0 {
        let rest = s.skip(1);
        let once = replace_marker(rest, first, a);
        let twice = replace_marker(once, second, b);
        law_expand_in_any_order(rest, first, second, third);
        assert(s =~= seq![s[0]] + rest);
        if s[0] == '\\' {
            lemma_replace_head(rest, first);
            lemma_replace_head(once, second);
        }
        lemma_replace_keeps(s[0], rest, first, a);
        lemma_replace_keeps(s[0], once, second, b);
        lemma_replace_keeps(s[0], twice, third, c);
    }
}

/// The set of the marker with the given letter.
pub fn shorthand_chars(letter: char) -> (set: Option<Vec<char>>)
    ensures
        match set {
            Some(chars) => shorthand_set(letter) == Some(chars@),
            None => shorthand_set(letter) is None,
        },
{
    if letter == 'd' {
        Some(chars_of("0123456789"))
    } else if letter == 's' {
        Some(chars_of(" \t\n\r"))
    } else if letter == 'w' {
        Some(chars_of("abcdefghijklmnopqrstuvwxyzABCDEFGHIJKLMNOPQRSTUVWXYZ0123456789_"))
    } else {
        None
    }
}

/// The text with every shorthand marker replaced by its set.
pub fn expand_shorthand(text: &Vec<char>) -> (out: Vec<char>)
    ensures
        out@ == expand(text@),
{
    let mut out: Vec<char> = Vec::new();
    let mut i: usize = 0;
    assert(text@.skip(0) =~= text@);
    assert(out@ + expand(text@) =~= expand(text@));
    while i < text.len()
        invariant
            i <= text.len(),
            out@ + expand(text@.skip(i as int)) == expand(text@),
        decreases text.len() - i,
    {
        let ghost rest = text@.skip(i as int);
        let set = if text[i] == '\\' && i + 1 < text.len() {
            shorthand_chars(text[i + 1])
        } else {
            None
        };
        match set {
            Some(chars) => {
                proof {
                    assert(rest.skip(2) =~= text@.skip(i + 2));
                    assert(chars@.subrange(0, chars@.len() as int) =~= chars@);
                    assert((out@ + chars@) + expand(rest.skip(2)) =~= out@ + (chars@ + expand(
                        rest.skip(2),
                    )));
                }
                append_range(&mut out, &chars, 0, chars.len());
                i += 2;
            },
            None => {
                proof {
                    assert(rest.skip(1) =~= text@.skip(i + 1));
                    assert(out@.push(text@[i as int]) + expand(rest.skip(1)) =~= out@ + (
                    seq![rest[0]] + expand(rest.skip(1))));
                }
                out.push(text[i]);
                i += 1;
            },
        }
    }
    assert(text@.skip(text@.len() as int) =~= Seq::<char>::empty());
    out
}

} // verus!
