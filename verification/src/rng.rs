//! The randomness source threaded through the scheduler and every rule
//! function. The simulation draws all of its rule decisions from one
//! `RandomSource`, so a fixed-sequence source substituted for the ambient one
//! makes a tick deterministic. Cosmetic draws (a fresh cell's grain, a
//! flower's color) always come from the ambient source: they never influence
//! a rule decision.

use vstd::prelude::*;
use rand::Rng;

verus! {

/// Relies on rand::Rng::gen_range on the range `0..n`: the range is non-empty
/// because `n >= 1`, so the call does not panic, and the sampled value lies in
/// the half-open range, hence below `n`.
#[verifier::external_body]
fn ambient_below(n: u32) -> (r: u32)
    requires
        n >= 1,
    ensures
        r < n,
{
    rand::thread_rng().gen_range(0..n)
}

/// Relies on rand::Rng::gen::<u8>: draws one byte from the thread-local
/// generator. Nothing is promised of the value.
#[verifier::external_body]
pub(crate) fn ambient_byte() -> u8 {
    rand::thread_rng().gen()
}

/// One draw among the five flower colors, from the ambient source.
pub(crate) fn ambient_color_pick() -> (r: u32)
    ensures
        r < 5,
{
    ambient_below(5)
}

/// A source of uniform random draws: either the ambient thread-local
/// generator, or a fixed sequence of values that is replayed in order
/// (wrapping around), for deterministic tests.
pub enum RandomSource {
    Ambient,
    Fixed { values: Vec<u64>, next: usize },
}

impl RandomSource {
    /// The ambient source: every draw comes from the thread-local generator.
    pub fn ambient() -> (r: RandomSource)
        ensures
            r is Ambient,
    {
        RandomSource::Ambient
    }

    /// A deterministic source that replays `values` in order, wrapping
    /// around; a draw below `n` takes the next value modulo `n`.
    pub fn fixed(values: Vec<u64>) -> (r: RandomSource)
        ensures
            r matches RandomSource::Fixed { values: v, next } && v == values && next == 0,
    {
        RandomSource::Fixed { values, next: 0 }
    }

    /// Draws a value below `n` (an empty fixed sequence always yields 0).
    pub fn below(&mut self, n: u32) -> (r: u32)
        requires
            n >= 1,
        ensures
            r < n,
    {
        match self {
            RandomSource::Ambient => ambient_below(n),
            RandomSource::Fixed { values, next } => {
                if values.len() == 0 {
                    0
                } else {
                    let i = *next % values.len();
                    let v = values[i];
                    *next = (i + 1) % values.len();
                    (v % (n as u64)) as u32
                }
            }
        }
    }

    /// One biased coin flip: true with probability `num / den` under a
    /// uniform source.
    pub fn chance(&mut self, num: u32, den: u32) -> bool
        requires
            den >= 1,
    {
        self.below(den) < num
    }
}

} // verus!
