//! The pool of a character class: the characters that may be drawn for it.
//!
//! The body of a class is read from left to right. Three characters of which
//! the middle one is a dash stand for every character from the first to the
//! third; any other character stands for itself. The pool keeps duplicates.

use vstd::prelude::*;

verus! {

/// `char::from_u32` gives the character with the given code, where there is
/// one: codes of surrogates and codes above `0x10FFFF` have none.
pub assume_specification[ char::from_u32 ](code: u32) -> (c: Option<char>)
    ensures
        c is Some <==> has_char(code as int),
        c is Some ==> c->0 as int == code as int,
;

/// A character has this code.
pub open spec fn has_char(code: int) -> bool {
    0 <= code <= 0xD7FF || 0xE000 <= code <= 0x10FFFF
}

/// The characters with codes from `low` to `high`, in rising order.
pub open spec fn chars_between(low: int, high: int) -> Seq<char>
    decreases high - low + 1,
{
    if high < low {
        Seq::empty()
    } else if has_char(high) {
        chars_between(low, high - 1).push(high as char)
    } else {
        chars_between(low, high - 1)
    }
}

/// Every character from `low` to `high`, in rising order; none where `high`
/// comes before `low`.
pub open spec fn char_range(low: char, high: char) -> Seq<char> {
    chars_between(low as int, high as int)
}

/// The pool that the body of a class stands for.
pub open spec fn pool_of(body: Seq<char>) -> Seq<char>
    decreases body.len(),
{
    if body.len() == 0 {
        Seq::empty()
    } else if body.len() > 2 && body[1] == '-' {
        char_range(body[0], body[2]) + pool_of(body.skip(3))
    } else {
        seq![body[0]] + pool_of(body.skip(1))
    }
}

/// The characters with codes from `low` to `high` are those that lie between
/// the two.
pub proof fn lemma_chars_between(low: int, high: int, c: char)
    ensures
        chars_between(low, high).contains(c) <==> low <= c as int <= high,
    decreases high - low + 1,
{
    if high >= low {
        lemma_chars_between(low, high - 1, c);
        let shorter = chars_between(low, high - 1);
        if has_char(high) {
            let all = shorter.push(high as char);
            assert(all.last() == high as char);
            if shorter.contains(c) {
                let i = choose|i: int| 0 <= i < shorter.len() && shorter[i] == c;
                assert(all[i] == c);
            }
            if all.contains(c) {
                let i = choose|i: int| 0 <= i < all.len() && all[i] == c;
                if i < shorter.len() {
                    assert(shorter[i] == c);
                }
            }
        }
    }
}

/// A range holds the characters between its two ends.
pub proof fn lemma_char_range(low: char, high: char, c: char)
    ensures
        char_range(low, high).contains(c) <==> low <= c <= high,
{
    lemma_chars_between(low as int, high as int, c);
}

/// `c` is written in the body: it stands there itself, or between the two
/// ends of a range that stands there.
pub open spec fn written_in(body: Seq<char>, c: char) -> bool {
    exists|i: int|
        0 <= i < body.len() && (#[trigger] body[i] == c || (i + 2 < body.len() && body[i + 1]
            == '-' && body[i] <= c <= body[i + 2]))
}

/// Every character of the pool is written in the body.
pub proof fn lemma_pool_members(body: Seq<char>, c: char)
    requires
        pool_of(body).contains(c),
    ensures
        written_in(body, c),
    decreases body.len(),
{
    if body.len() > 2 && body[1] == '-' {
        let range = char_range(body[0], body[2]);
        let rest = pool_of(body.skip(3));
        lemma_contains_either(range, rest, c);
        if range.contains(c) {
            lemma_char_range(body[0], body[2], c);
            let i = 0int;
            assert(body[i] == c || (i + 2 < body.len() && body[i + 1] == '-' && body[i] <= c
                <= body[i + 2]));
        } else {
            lemma_pool_members(body.skip(3), c);
            lemma_written_in_suffix(body, 3, c);
        }
    } else if body.len() > 0 {
        let rest = pool_of(body.skip(1));
        lemma_contains_either(seq![body[0]], rest, c);
        if seq![body[0]].contains(c) {
            assert(body[0] == c);
        } else {
            lemma_pool_members(body.skip(1), c);
            lemma_written_in_suffix(body, 1, c);
        }
    }
}

/// What is written in the body from the index `n` on is written in the body.
pub proof fn lemma_written_in_suffix(body: Seq<char>, n: int, c: char)
    requires
        0 <= n <= body.len(),
        written_in(body.skip(n), c),
    ensures
        written_in(body, c),
{
    let tail = body.skip(n);
    let i = choose|i: int|
        0 <= i < tail.len() && (#[trigger] tail[i] == c || (i + 2 < tail.len() && tail[i + 1]
            == '-' && tail[i] <= c <= tail[i + 2]));
    assert(tail[i] == body[i + n]);
    if tail[i] != c {
        assert(tail[i + 1] == body[i + n + 1]);
        assert(tail[i + 2] == body[i + n + 2]);
    }
    assert(body[i + n] == c || (i + n + 2 < body.len() && body[i + n + 1] == '-' && body[i + n]
        <= c <= body[i + n + 2]));
}

/// What two sequences hold, one after the other, is what either holds.
pub proof fn lemma_contains_either(a: Seq<char>, b: Seq<char>, c: char)
    ensures
        (a + b).contains(c) <==> a.contains(c) || b.contains(c),
{
    let both = a + b;
    if both.contains(c) {
        let i = choose|i: int| 0 <= i < both.len() && both[i] == c;
        if i < a.len() {
            assert(a[i] == c);
        } else {
            assert(b[i - a.len()] == c);
        }
    }
    if a.contains(c) {
        let i = choose|i: int| 0 <= i < a.len() && a[i] == c;
        assert(both[i] == c);
    }
    if b.contains(c) {
        let i = choose|i: int| 0 <= i < b.len() && b[i] == c;
        assert(both[i + a.len()] == c);
    }
}

/// A body without a dash holds no range: it is its own pool.
pub proof fn lemma_pool_plain(body: Seq<char>)
    requires
        forall|k: int| 0 <= k < body.len() ==> body[k] != '-',
    ensures
        pool_of(body) == body,
    decreases body.len(),
{
    if body.len() > 0 {
        lemma_pool_plain(body.skip(1));
        assert(seq![body[0]] + body.skip(1) =~= body);
    }
}

/// Appends every character from `low` to `high`.
pub fn push_range(out: &mut Vec<char>, low: char, high: char)
    ensures
        final(out)@ == old(out)@ + char_range(low, high),
{
    let first: u32 = low as u32;
    let last: u32 = high as u32;
    if first > last {
        return ;
    }
    let mut code: u32 = first;
    while code <= last
        invariant
            first <= code <= last + 1,
            last <= 0x10FFFF,
            out@ == old(out)@ + chars_between(first as int, code - 1),
        decreases last + 1 - code,
    {
        match char::from_u32(code) {
            Some(c) => {
                assert(c as int == code as int);
                assert(c == (code as int) as char);
                out.push(c);
            },
            None => {},
        }
        code += 1;
    }
}

/// The pool of a class with the given body.
pub fn build_pool(body: &Vec<char>) -> (pool: Vec<char>)
    ensures
        pool@ == pool_of(body@),
{
    let mut pool: Vec<char> = Vec::new();
    let mut i: usize = 0;
    assert(body@.skip(0) =~= body@);
    while i < body.len()
        invariant
            i <= body.len(),
            pool@ + pool_of(body@.skip(i as int)) == pool_of(body@),
        decreases body.len() - i,
    {
        let ghost rest = body@.skip(i as int);
        if body.len() - i > 2 && body[i + 1] == '-' {
            proof {
                assert(rest.skip(3) =~= body@.skip(i + 3));
                assert((pool@ + char_range(rest[0], rest[2])) + pool_of(rest.skip(3)) =~= pool@ + (
                char_range(rest[0], rest[2]) + pool_of(rest.skip(3))));
            }
            push_range(&mut pool, body[i], body[i + 2]);
            i += 3;
        } else {
            proof {
                assert(rest.skip(1) =~= body@.skip(i + 1));
                assert(pool@.push(rest[0]) + pool_of(rest.skip(1)) =~= pool@ + (seq![rest[0]]
                    + pool_of(rest.skip(1))));
            }
            pool.push(body[i]);
            i += 1;
        }
    }
    assert(body@.skip(body@.len() as int) =~= Seq::<char>::empty());
    pool
}

} // verus!
