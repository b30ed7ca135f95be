//! The calls into outside crates. Verus takes the contracts in this file on
//! trust: each says what the outside function's source shows.

use vstd::prelude::*;
use crate::vec2::Vec2;
use itertools::Itertools;
use rand::rngs::ThreadRng;
use rand::seq::IteratorRandom;
use smallvec::SmallVec;

verus! {

/// `Itertools::tuples` on the items of a slice, collected: the items grouped
/// three by three in the order in which they stand. Items left over at the
/// end, fewer than three, are dropped.
#[verifier::external_body]
pub(crate) fn triples(indices: &[usize]) -> (r: Vec<(usize, usize, usize)>)
    ensures
        r@.len() == indices@.len() / 3,
        forall|k: int|
            0 <= k < r@.len() ==> #[trigger] r@[k] == (
                indices@[3 * k],
                indices@[3 * k + 1],
                indices@[3 * k + 2],
            ),
{
    indices.iter().copied().tuples().collect()
}

/// `rand::rngs::ThreadRng`, the random number generator of the thread.
#[verifier::external_type_specification]
#[verifier::external_body]
pub struct ExThreadRng(ThreadRng);

/// `rand::thread_rng`: the generator of this thread, seeded by the system.
/// Nothing is promised of what it will give. Where the system's source of
/// entropy fails when the generator is first made, the call stops the
/// program; no argument decides that, so no `requires` can leave it out.
#[verifier::external_body]
pub(crate) fn thread_rng() -> ThreadRng {
    rand::thread_rng()
}

/// `IteratorRandom::choose_multiple` on the items of a vector: `amount` of
/// them, or all where there are fewer, each item of the vector taken at most
/// as often as it stands there. Which items they are, and in which order,
/// is left to chance. The call reserves room for `amount` items at once, so
/// the contract is stated for amounts of at most 65536. Where the generator
/// fails to take fresh entropy from the system while it draws, the call
/// stops the program; no argument decides that.
#[verifier::external_body]
pub(crate) fn choose_multiple(candidates: Vec<Vec2>, rng: &mut ThreadRng, amount: usize) -> (picks:
    Vec<Vec2>)
    requires
        amount <= 65536,
    ensures
        picks@.len() == if candidates@.len() < amount {
            candidates@.len()
        } else {
            amount as nat
        },
        picks@.to_multiset().subset_of(candidates@.to_multiset()),
{
    candidates.into_iter().choose_multiple(rng, amount)
}

/// Up to three indices in a `smallvec::SmallVec`, a vector that holds its
/// first items in place. Verus does not look inside.
#[verifier::external_body]
pub struct SmallIndices {
    items: SmallVec<[usize; 3]>,
}

/// The items that a small vector holds, in the order in which they were
/// pushed.
pub uninterp spec fn small_items(v: SmallIndices) -> Seq<usize>;

/// `SmallVec::new`: a vector without items.
#[verifier::external_body]
pub(crate) fn small_new() -> (v: SmallIndices)
    ensures
        small_items(v) == Seq::<usize>::empty(),
{
    SmallIndices { items: SmallVec::new() }
}

/// `SmallVec::push`: appends one item. The contract is stated for a vector
/// with room in place, where the call allocates nothing.
#[verifier::external_body]
pub(crate) fn small_push(v: &mut SmallIndices, value: usize)
    requires
        small_items(*old(v)).len() < 3,
    ensures
        small_items(*final(v)) == small_items(*old(v)).push(value),
{
    v.items.push(value)
}

/// `SmallVec::len`: the number of items.
#[verifier::external_body]
pub(crate) fn small_len(v: &SmallIndices) -> (n: usize)
    ensures
        n == small_items(*v).len(),
{
    v.items.len()
}

/// Indexing a `SmallVec` through its slice: the item at `i`.
#[verifier::external_body]
pub(crate) fn small_get(v: &SmallIndices, i: usize) -> (item: usize)
    requires
        i < small_items(*v).len(),
    ensures
        item == small_items(*v)[i as int],
{
    v.items[i]
}

} // verus!
