//! A falling-sand cellular automaton: a fixed-size grid of material cells
//! updated once per tick by local, probabilistic rules (gravity, fluid flow,
//! heat diffusion, combustion, growth, corrosion, replication).

use vstd::prelude::*;

pub mod api;
pub mod cell;
pub mod map2d;
pub mod rng;
pub mod rules;
pub mod zone;

verus! {

/// Exit status reported by an interactive front end.
pub enum ExitCode {
    Success,
    Fail,
}

/// The one error kind of the simulation: an out-of-range access, which is
/// unreachable in steady-state operation (reads clamp, writes drop silently)
/// and can only arise synthetically during construction.
#[derive(Clone, Debug)]
pub enum Error {
    Error(String),
    RenderError(String),
}

impl From<String> for Error {
    fn from(message: String) -> (r: Error) {
        Error::Error(message)
    }
}

impl vstd::std_specs::convert::FromSpecImpl<String> for Error {
    open spec fn obeys_from_spec() -> bool {
        true
    }

    open spec fn from_spec(message: String) -> Error {
        Error::Error(message)
    }
}

} // verus!
