//! The simulation's source of randomness: a PCG32 generator owned by the
//! world and threaded explicitly through every function that draws from it,
//! so that a fixed seed reproduces a run exactly.
//!
//! The generator itself comes from the `randomize` crate; the two calls into
//! it are trusted. Everything derived from a raw draw (range reduction, coin
//! flips) is verified code in this module.

use vstd::prelude::*;

verus! {

#[verifier::external_type_specification]
#[verifier::external_body]
pub struct ExPcg32(randomize::PCG32);

/// Relies on randomize::PCG32::seed: builds a generator from a seed pair.
/// Nothing is stated about the state it starts in.
#[verifier::external_body]
pub(crate) fn pcg_seed(seed: u64, inc: u64) -> randomize::PCG32 {
    randomize::PCG32::seed(seed, inc)
}

/// Relies on randomize::PCG32::next_u32: advances the generator and returns
/// its next output. Any `u32` may come back, so nothing is stated of the
/// result.
#[verifier::external_body]
pub(crate) fn pcg_next(rng: &mut randomize::PCG32) -> u32 {
    rng.next_u32()
}

/// A draw reduced to `[0, bound)` by remainder, as the simulation's
/// generation steps use it.
pub(crate) fn draw_below(rng: &mut randomize::PCG32, bound: u32) -> (r: u32)
    requires
        bound >= 1,
    ensures
        r < bound,
{
    pcg_next(rng) % bound
}

/// A draw reduced to `[lo, hi)`.
pub(crate) fn draw_range(rng: &mut randomize::PCG32, lo: u32, hi: u32) -> (r: u32)
    requires
        lo < hi,
    ensures
        lo <= r < hi,
{
    lo + draw_below(rng, hi - lo)
}

/// An even chance, used for the effect assigned to a fresh rule.
pub(crate) fn draw_coin(rng: &mut randomize::PCG32) -> bool {
    pcg_next(rng) % 2 == 0
}

} // verus!
