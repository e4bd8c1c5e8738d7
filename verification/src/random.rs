//! A seedable source of uniform samples.

use crate::fixed::{Fixed, ONE_RAW};
use vstd::prelude::*;

verus! {

/// What the generator of `fastrand`, started in `state`, yields for a
/// draw below `bound`: the drawn number and the state it is left in.
pub uninterp spec fn generator_step(state: u64, bound: u64) -> (u64, u64);

/// Makes a generator with `fastrand::Rng::with_seed(state)`, draws once
/// with `fastrand::Rng::u64(..bound)` and reads the generator's state
/// back with `fastrand::Rng::get_seed`. Taken on trust: the generator
/// computes its draws from its state alone, so the outcome is the one
/// that `generator_step` names, and a draw from `..bound` is below
/// `bound`. An empty range is left out, since the generator rejects
/// it.
#[verifier::external_body]
fn step_generator(state: u64, bound: u64) -> (out: (u64, u64))
    requires
        bound > 0,
    ensures
        out == generator_step(state, bound),
        out.0 < bound,
{
    let mut generator = fastrand::Rng::with_seed(state);
    let drawn = generator.u64(..bound);
    (drawn, generator.get_seed())
}

/// A deterministic stream of samples, identified by its state.
#[derive(Clone, Copy, Debug, PartialEq, Eq, Structural)]
pub struct Sampler {
    pub state: u64,
}

/// The uniform scalar in `[0, 1)` that a stream in `state` yields, and
/// the state after the draw.
pub open spec fn unit_draw(state: u64) -> (Fixed, u64) {
    let out = generator_step(state, ONE_RAW as u64);
    (Fixed { raw: out.0 as i64 }, out.1)
}

/// The point between `min` and `max` that the fraction `u` selects.
pub open spec fn between(min: Fixed, max: Fixed, u: Fixed) -> Fixed {
    min.plus(max.minus(min).times(u))
}

/// The scalar in `[min, max)` that a stream in `state` yields, and the
/// state after the draw.
pub open spec fn range_draw(state: u64, min: Fixed, max: Fixed) -> (Fixed, u64) {
    let d = unit_draw(state);
    (between(min, max, d.0), d.1)
}

impl Sampler {
    /// A stream that starts from `seed`.
    pub fn new(seed: u64) -> (s: Sampler)
        ensures
            s.state == seed,
    {
        Sampler { state: seed }
    }

    /// Draws an integer below `bound`.
    pub fn below(&mut self, bound: u64) -> (r: u64)
        requires
            bound > 0,
        ensures
            (r, final(self).state) == generator_step(old(self).state, bound),
            r < bound,
    {
        let out: (u64, u64) = step_generator(self.state, bound);
        self.state = out.1;
        out.0
    }
}

/// The scalar that the fraction `u` of `[0, 1)` selects in `[min, max)`.
pub fn scale_into(min: Fixed, max: Fixed, u: Fixed) -> (r: Fixed)
    ensures
        r == between(min, max, u),
{
    min.plus(max.minus(min).times(u))
}

/// Draws a uniform scalar in `[0, 1)`.
pub fn random(rng: &mut Sampler) -> (r: Fixed)
    ensures
        (r, final(rng).state) == unit_draw(old(rng).state),
        0 <= r.raw < ONE_RAW,
{
    let drawn: u64 = rng.below(ONE_RAW as u64);
    Fixed { raw: drawn as i64 }
}

/// Draws a uniform scalar in `[min, max)`.
pub fn random_in(rng: &mut Sampler, min: Fixed, max: Fixed) -> (r: Fixed)
    ensures
        (r, final(rng).state) == range_draw(old(rng).state, min, max),
{
    let u: Fixed = random(rng);
    scale_into(min, max, u)
}

} // verus!
