use vstd::prelude::*;

verus! {

#[verifier::external_type_specification]
#[verifier::external_body]
pub struct ExSmallRng(rand::rngs::SmallRng);

/// Relies on rand::make_rng, which seeds a fresh generator from the
/// operating system's entropy source. Nothing is promised of its state.
#[verifier::external_body]
pub(crate) fn fresh_rng() -> rand::rngs::SmallRng {
    rand::make_rng()
}

/// Relies on rand::SeedableRng::seed_from_u64: a generator seeded
/// deterministically from the given value. Nothing is promised of its state.
#[verifier::external_body]
pub(crate) fn seeded_rng(seed: u64) -> rand::rngs::SmallRng {
    <rand::rngs::SmallRng as rand::SeedableRng>::seed_from_u64(seed)
}

/// Relies on rand::RngExt::random_range over `0..n`: the result is drawn from
/// that range, so it is below `n`; the call panics only on an empty range,
/// which the precondition rules out.
#[verifier::external_body]
pub(crate) fn rng_below(rng: &mut rand::rngs::SmallRng, n: u64) -> (r: u64)
    requires
        n > 0,
    ensures
        r < n,
{
    rand::RngExt::random_range(rng, 0..n)
}

} // verus!
