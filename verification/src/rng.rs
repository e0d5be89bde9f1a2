//! Sources of randomness. Nothing is assumed of a drawn value beyond its
//! range; every algorithm of this crate is verified for every value a source
//! can hand back.

use vstd::prelude::*;

verus! {

/// Relies on `rand::Rng::gen_range` over a thread-local generator: the draw
/// lies in `[0, bound)`; the call panics only on an empty range, which the
/// precondition excludes.
#[verifier::external_body]
pub(crate) fn rand_below(bound: u128) -> (r: u128)
    requires
        bound >= 1,
    ensures
        r < bound,
{
    rand::Rng::gen_range(&mut rand::thread_rng(), 0..bound)
}

/// Declares `random::Xorshift128Plus`, the stateful source the engine draws
/// its damping decisions from; its two seed words stay opaque.
#[verifier::external_type_specification]
#[verifier::external_body]
pub struct ExXorshift(random::Xorshift128Plus);

/// Relies on `random::default`: builds a Xorshift128+ source from a seed.
#[verifier::external_body]
pub(crate) fn xorshift_from_seed(seed: u64) -> (r: random::Xorshift128Plus) {
    random::default(seed)
}

/// Relies on `random::Source::read_u64` of `Xorshift128Plus`: advances the
/// source and hands back its next word; nothing is assumed of the value.
#[verifier::external_body]
pub(crate) fn xorshift_read_u64(src: &mut random::Xorshift128Plus) -> (r: u64) {
    random::Source::read_u64(src)
}

} // verus!
