//! The source of randomness: the thread-local generator of the `rand` crate.
//!
//! Nothing here is proved. Each item states the little that holds of every
//! draw; which value is drawn is left open.
//!
//! The generator is seeded by the operating system, and seeded anew from time
//! to time. Where the operating system gives no seed, taking the handle and
//! drawing panic. No argument decides this, so no precondition can leave it
//! out: like running out of memory, it is outside what the contracts of this
//! library speak of.

use rand::rngs::ThreadRng;
use rand::seq::IteratorRandom;
use rand::Rng;
use vstd::prelude::*;

verus! {

/// `rand::rngs::ThreadRng`, a handle to the generator of the current thread.
/// Its state is not modelled.
#[verifier::external_type_specification]
#[verifier::external_body]
pub struct ExThreadRng(ThreadRng);

/// `rand::rng` hands out a handle to the generator of the current thread.
/// Nothing is claimed of the handle. The call panics where the operating
/// system cannot seed the generator.
pub assume_specification[ rand::rng ]() -> ThreadRng
;

/// `Rng::random_range` on the inclusive range from `low` to `high`: some
/// number of that range. The crate panics on an empty range, which the
/// precondition leaves out, and where the generator cannot be seeded anew.
#[verifier::external_body]
pub(crate) fn draw_between(rng: &mut ThreadRng, low: usize, high: usize) -> (n: usize)
    requires
        low <= high,
    ensures
        low <= n <= high,
{
    rng.random_range(low..=high)
}

/// `IteratorRandom::choose` on an iterator over the items of a vector:
/// `None` where there is no item, else one of the items. The crate panics
/// where the generator cannot be seeded anew.
#[verifier::external_body]
pub(crate) fn choose_from<'a, T>(rng: &mut ThreadRng, items: &'a Vec<T>) -> (pick: Option<&'a T>)
    ensures
        items@.len() == 0 ==> pick is None,
        items@.len() > 0 ==> pick is Some,
        pick matches Some(item) ==> items@.contains(*item),
{
    items.iter().choose(rng)
}

} // verus!
