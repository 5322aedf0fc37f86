//! The random source of a level, drawn from rand's seedable generator.
use rand::seq::SliceRandom;
use rand::Rng;
use rand::SeedableRng;
use vstd::prelude::*;

use crate::map::HexCoord;

verus! {

#[verifier::external_type_specification]
#[verifier::external_body]
pub struct ExStdRng(rand::rngs::StdRng);

/// Relies on rand's `SeedableRng::seed_from_u64` for `StdRng`: a generator
/// whose draws are fixed by the seed.
#[verifier::external_body]
pub(crate) fn seeded(seed: u64) -> (g: rand::rngs::StdRng) {
    rand::rngs::StdRng::seed_from_u64(seed)
}

/// Relies on `rand::random::<u64>`: a seed taken from the thread's generator.
#[verifier::external_body]
pub(crate) fn fresh_seed() -> (seed: u64) {
    rand::random::<u64>()
}

/// Relies on rand's `Rng::gen::<u32>`: any `u32`, uniformly.
#[verifier::external_body]
pub(crate) fn draw_u32(g: &mut rand::rngs::StdRng) -> (x: u32) {
    g.gen::<u32>()
}

/// Relies on rand's `Rng::gen_range(0..n)`: an index below `n`, uniformly;
/// it panics on an empty range, which `requires` rules out.
#[verifier::external_body]
pub(crate) fn draw_index(g: &mut rand::rngs::StdRng, n: usize) -> (i: usize)
    requires
        n > 0,
    ensures
        i < n,
{
    g.gen_range(0..n)
}

/// Relies on rand's `Rng::gen_ratio`: `true` with chance `num / den`, always
/// when `num == den` and never when `num == 0`; it panics when `den == 0` or
/// `num > den`, which `requires` rules out.
#[verifier::external_body]
pub(crate) fn draw_ratio(g: &mut rand::rngs::StdRng, num: u32, den: u32) -> (hit: bool)
    requires
        0 < den,
        num <= den,
    ensures
        num == den ==> hit,
        num == 0 ==> !hit,
{
    g.gen_ratio(num, den)
}

/// Relies on rand's `SliceRandom::choose`: one element of the slice, drawn
/// uniformly; it gives `None` only for an empty slice, which `requires` rules out.
#[verifier::external_body]
pub(crate) fn pick(g: &mut rand::rngs::StdRng, v: &Vec<HexCoord>) -> (c: HexCoord)
    requires
        v@.len() > 0,
    ensures
        v@.contains(c),
{
    *v.choose(g).unwrap()
}

} // verus!
