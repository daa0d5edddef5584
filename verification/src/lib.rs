use vstd::prelude::*;

pub mod arena;
pub mod args;
pub mod coverage;
pub mod mutators;
pub mod pool;
mod rng;
pub mod sums;

verus! {

} // verus!
