//! Choosing at random.
//!
//! The choice itself is made by the `rand` crate and is not verified: the one
//! function here states what holds of every outcome.

use rand::rngs::StdRng;
use rand::seq::IteratorRandom;
use rand::SeedableRng;
use vstd::prelude::*;

verus! {

/// `IteratorRandom::choose_multiple` on the positions `0..len`, with a
/// generator seeded by `StdRng::from_entropy`: `amount` positions chosen at
/// random, or all `len` of them if there are fewer. Each position handed out
/// is below `len`, and none comes twice. Nothing is said of which positions
/// come, nor in what order. The amount is bounded so that the result's
/// buffer can be reserved; seeding fails, and the call with it, on a machine
/// that has no source of entropy.
#[verifier::external_body]
pub(crate) fn choose_positions(len: usize, amount: usize) -> (picks: Vec<usize>)
    requires
        amount <= 0xffff,
    ensures
        picks@.len() == (if len < amount {
            len
        } else {
            amount
        }),
        forall|i: int| 0 <= i < picks@.len() ==> (#[trigger] picks@[i]) < len,
        picks@.no_duplicates(),
{
    let mut rng = StdRng::from_entropy();
    (0..len).choose_multiple(&mut rng, amount)
}

/// Whether `picks` can have come from a choice among `len` positions: each
/// is below `len`, and none comes twice.
pub open spec fn positions_of(picks: Seq<usize>, len: int) -> bool {
    &&& forall|i: int| 0 <= i < picks.len() ==> (#[trigger] picks[i]) < len
    &&& picks.no_duplicates()
}

/// The items at the chosen positions, in the order of the choice.
pub open spec fn items_at<T>(items: Seq<T>, picks: Seq<usize>) -> Seq<T> {
    Seq::new(picks.len(), |i: int| items[picks[i] as int])
}

} // verus!
