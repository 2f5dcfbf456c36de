use crate::game::Move;
use rand::rngs::StdRng;
use rand::seq::IteratorRandom;
use rand::seq::SliceRandom;
use rand::Rng;
use vstd::prelude::*;

verus! {

/// The random number generator `rand::rngs::StdRng`, seeded by the caller.
/// The library hands it on to the draws below and knows nothing of its
/// state.
#[verifier::external_type_specification]
#[verifier::external_body]
pub struct ExStdRng(rand::rngs::StdRng);

/// One of `moves`, drawn by `rand::seq::SliceRandom::choose`.
///
/// Trusted: `choose` returns nothing exactly for an empty slice, and else a
/// reference to one of the slice's elements. Which one is left open.
#[verifier::external_body]
pub(crate) fn pick_move(moves: &Vec<Move>, rng: &mut StdRng) -> (picked: Option<Move>)
    ensures
        picked is None <==> moves@.len() == 0,
        picked matches Some(m) ==> moves@.contains(m),
{
    moves.choose(rng).copied()
}

/// One of `candidates`, drawn by `rand::seq::IteratorRandom::choose`.
///
/// Trusted: `choose` returns nothing exactly for an iterator without items,
/// and else one of the items. Which one is left open.
#[verifier::external_body]
pub(crate) fn pick_index(candidates: &Vec<usize>, rng: &mut StdRng) -> (picked: Option<usize>)
    ensures
        picked is None <==> candidates@.len() == 0,
        picked matches Some(c) ==> candidates@.contains(c),
{
    candidates.iter().copied().choose(rng)
}

/// A number from `low` up to, not including, `high`, drawn by
/// `rand::Rng::gen_range`.
///
/// Trusted: `gen_range` returns a value of the range it is given. It panics
/// on an empty range, which the precondition leaves out.
#[verifier::external_body]
pub(crate) fn pick_between(low: usize, high: usize, rng: &mut StdRng) -> (picked: usize)
    requires
        low < high,
    ensures
        low <= picked < high,
{
    rng.gen_range(low..high)
}

} // verus!
