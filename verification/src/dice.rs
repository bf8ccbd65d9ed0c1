use rand::rngs::StdRng;
use rand::seq::IteratorRandom;
use rand::SeedableRng;
use vstd::prelude::*;

verus! {

/// `rand::rngs::StdRng`, the seedable generator of the `rand` crate. The
/// library carries it along without looking into it.
#[verifier::external_type_specification]
#[verifier::external_body]
pub struct ExStdRng(StdRng);

/// The internal state of a generator: all that its further output depends
/// on.
pub uninterp spec fn generator_state(rng: StdRng) -> Seq<u8>;

/// The state in which `StdRng::seed_from_u64` creates a generator from
/// `seed`.
pub uninterp spec fn seeded_state(seed: u64) -> Seq<u8>;

/// What `IteratorRandom::choose_multiple` does with the amount `amount` on
/// an iterator of `count` items, drawing from a generator in state `state`:
/// the positions, counted from zero, of the items that it returns, and the
/// state in which it leaves the generator.
pub uninterp spec fn reservoir_pick(state: Seq<u8>, count: nat, amount: nat) -> (Seq<usize>, Seq<u8>);

/// The position that a generator in state `state` picks among `count`
/// positions, if it picks one, and the state in which that leaves it.
pub open spec fn pick(state: Seq<u8>, count: nat) -> (Option<int>, Seq<u8>) {
    let (picked, after) = reservoir_pick(state, count, 1);
    if picked.len() > 0 && picked[0] < count {
        (Some(picked[0] as int), after)
    } else {
        (None, after)
    }
}

/// `StdRng::seed_from_u64`: the generator it creates depends on the seed
/// alone. The crate fills the generator's key from the seed by a fixed
/// rule, with nothing taken from the machine or the time.
#[verifier::external_body]
pub(crate) fn seeded(seed: u64) -> (rng: StdRng)
    ensures
        generator_state(rng) == seeded_state(seed),
{
    StdRng::seed_from_u64(seed)
}

/// `IteratorRandom::choose_multiple` on the positions `0..count`. What it
/// returns and how it leaves the generator depend on the generator's state,
/// on `count` and on `amount` alone: the crate keeps the first `amount`
/// positions and lets each further one take the place of one of them by a
/// draw from the generator. It returns `amount` of the positions, or all
/// of them where there are fewer.
#[verifier::external_body]
pub(crate) fn choose_positions(rng: &mut StdRng, count: usize, amount: u8) -> (picked: Vec<usize>)
    ensures
        picked@ == reservoir_pick(generator_state(*old(rng)), count as nat, amount as nat).0,
        generator_state(*final(rng)) == reservoir_pick(
            generator_state(*old(rng)),
            count as nat,
            amount as nat,
        ).1,
        picked@.len() == (if count < amount {
            count as int
        } else {
            amount as int
        }),
        forall|i: int| 0 <= i < picked@.len() ==> #[trigger] picked@[i] < count,
{
    (0..count).choose_multiple(rng, usize::from(amount))
}

/// Lets `rng` pick one of the positions `0..count`. There is a pick
/// whenever there is a position.
pub(crate) fn pick_position(rng: &mut StdRng, count: usize) -> (position: Option<usize>)
    ensures
        position is Some <==> count > 0,
        position matches Some(p) ==> p < count && pick(
            generator_state(*old(rng)),
            count as nat,
        ).0 == Some(p as int),
        position is None ==> pick(generator_state(*old(rng)), count as nat).0 is None,
        generator_state(*final(rng)) == pick(generator_state(*old(rng)), count as nat).1,
{
    let picked = choose_positions(rng, count, 1);
    if picked.len() > 0 {
        Some(picked[0])
    } else {
        None
    }
}

} // verus!
