//! From a pattern to a string: the three passes, one after the other.

use crate::alternation::{resolve_alternations, resolves};
use crate::class::{materialize_classes, materializes, may_fail};
use crate::error::PatternError;
use crate::shorthand::{expand, expand_shorthand};
use crate::text::{chars_of, string_of};
use vstd::prelude::*;

verus! {

/// `out` is a string that the pattern stands for: the pattern with its
/// alternation groups resolved, its shorthand markers expanded and its
/// character classes materialized, in this order.
pub open spec fn generates(pattern: Seq<char>, out: Seq<char>) -> bool {
    exists|resolved: Seq<char>| #[trigger]
        resolves(pattern, resolved) && materializes(expand(resolved), out)
}

/// The pattern can be rejected with the given error: after some way of
/// resolving its alternation groups, one of its character classes can fail
/// with it.
pub open spec fn may_reject(pattern: Seq<char>, error: PatternError) -> bool {
    exists|resolved: Seq<char>| #[trigger]
        resolves(pattern, resolved) && may_fail(expand(resolved), error)
}

/// One random string that the pattern stands for.
///
/// The pattern is rejected where a character has to be drawn from an empty
/// pool, or where a quantifier asks for more characters at least than it
/// allows at most.
///
/// # Panics
///
/// The draws come from the thread-local generator of the `rand` crate. The
/// call panics where the operating system cannot seed that generator, at
/// first or anew; no pattern causes or prevents this.
pub fn process_pattern(pattern: &str) -> (result: Result<String, PatternError>)
    ensures
        match result {
            Ok(out) => generates(pattern@, out@),
            Err(error) => may_reject(pattern@, error),
        },
{
    let mut rng = rand::rng();
    let chars = chars_of(pattern);
    let resolved = resolve_alternations(&chars, &mut rng);
    let expanded = expand_shorthand(&resolved);
    match materialize_classes(&expanded, &mut rng) {
        Ok(out) => Ok(string_of(&out)),
        Err(error) => Err(error),
    }
}

} // verus!
