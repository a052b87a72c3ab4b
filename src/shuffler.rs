//! A seeded shuffler: the generator and the record of its use. Only the two
//! functions below, both backed by rand, can make one or change it, so the
//! record always matches the generator.

use rand::seq::SliceRandom;
use rand::SeedableRng;
use rand_chacha::ChaCha8Rng;
use vstd::prelude::*;

verus! {

/// rand_chacha's `ChaCha8Rng`, held opaquely by `Shuffler`.
#[verifier::external_type_specification]
#[verifier::external_body]
pub struct ExChaCha8Rng(ChaCha8Rng);

/// A seeded generator together with the record of what it has been used for:
/// its seed, and the lengths of the lists it has shuffled, in order.
pub(crate) struct Shuffler {
    rng: ChaCha8Rng,
    seed: Ghost<u64>,
    history: Ghost<Seq<nat>>,
}

/// The order in which a shuffle of a `len`-item list arranges it, for a
/// generator seeded with `seed` that has already shuffled lists of the
/// lengths in `history`: item `i` of the result is item `order[i]` of the input.
pub uninterp spec fn shuffle_order(seed: u64, history: Seq<nat>, len: nat) -> Seq<int>;

/// `s` rearranged by `order`.
pub open spec fn permuted<T>(s: Seq<T>, order: Seq<int>) -> Seq<T> {
    Seq::new(order.len(), |i: int| s[order[i]])
}

impl Shuffler {
    /// The seed the generator was made with.
    pub(crate) closed spec fn seed_value(&self) -> u64 {
        self.seed@
    }

    /// The lengths of the lists shuffled so far, in order.
    pub(crate) closed spec fn shuffled_lengths(&self) -> Seq<nat> {
        self.history@
    }

    /// Relies on rand_core's `SeedableRng::seed_from_u64` for `ChaCha8Rng`:
    /// a generator seeded with `seed`, whose whole stream the seed fixes; it
    /// has shuffled nothing yet.
    #[verifier::external_body]
    pub(crate) fn new(seed: u64) -> (s: Shuffler)
        ensures
            s.seed_value() == seed,
            s.shuffled_lengths() == Seq::<nat>::empty(),
    {
        Shuffler { rng: ChaCha8Rng::seed_from_u64(seed), seed: Ghost(seed), history: Ghost(Seq::empty()) }
    }
}

/// Relies on rand's `SliceRandom::shuffle` driven by `ChaCha8Rng`: it only
/// swaps items (the result is a permutation of the input), and the swaps it
/// draws depend on nothing but the generator's state, that is on its seed and
/// on the lengths of the lists it shuffled before.
#[verifier::external_body]
pub(crate) fn shuffle_in_place<T>(v: &mut Vec<T>, shuffler: &mut Shuffler)
    ensures
        final(v)@.len() == old(v)@.len(),
        final(v)@.to_multiset() == old(v)@.to_multiset(),
        final(v)@ == permuted(old(v)@, shuffle_order(old(shuffler).seed_value(), old(shuffler).shuffled_lengths(), old(v)@.len())),
        final(shuffler).seed_value() == old(shuffler).seed_value(),
        final(shuffler).shuffled_lengths() == old(shuffler).shuffled_lengths().push(old(v)@.len()),
{
    v.shuffle(&mut shuffler.rng);
}

} // verus!
