//! Random choice among legal actions, for exploring policies.

use vstd::prelude::*;

verus! {

/// Relies on rand's `IndexedRandom::choose`, drawn from the thread-local
/// generator `rand::rng()`: `None` exactly for an empty slice, otherwise one
/// of the slice's elements.
#[verifier::external_body]
fn choose_in<T>(items: &[T]) -> (r: Option<&T>)
    ensures
        r is None <==> items@.len() == 0,
        r matches Some(x) ==> items@.contains(*x),
{
    rand::seq::IndexedRandom::choose(items, &mut rand::rng())
}

/// An element of `items` drawn uniformly at random; `None` when `items` is empty.
pub fn choose_random<T: Copy>(items: &[T]) -> (r: Option<T>)
    ensures
        r is None <==> items@.len() == 0,
        r matches Some(x) ==> items@.contains(x),
{
    match choose_in(items) {
        Some(x) => Some(*x),
        None => None,
    }
}

} // verus!
