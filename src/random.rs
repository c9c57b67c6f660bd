use rand::seq::SliceRandom;
use rand::Rng;
use rand_chacha::ChaCha8Rng;
use vstd::prelude::*;

use crate::decision_tree::DatosCualitativos;

verus! {

/// The seedable generator that every random choice of a run is drawn from.
#[verifier::external_type_specification]
#[verifier::external_body]
pub struct ExChaCha8Rng(ChaCha8Rng);

/// Relies on rand's `Rng::gen_range` over `0..bound`: the value drawn lies in the
/// range, and the call panics only on an empty range.
#[verifier::external_body]
pub(crate) fn draw_below(rng: &mut ChaCha8Rng, bound: u128) -> (r: u128)
    requires
        bound > 0,
    ensures
        r < bound,
{
    rng.gen_range(0..bound)
}

/// Relies on rand's `SliceRandom::shuffle`, a Fisher-Yates pass of swaps: the records
/// come back in some order, each exactly as often as before.
#[verifier::external_body]
pub(crate) fn shuffle_records(v: &mut Vec<DatosCualitativos>, rng: &mut ChaCha8Rng)
    ensures
        final(v)@.to_multiset() == old(v)@.to_multiset(),
{
    v.shuffle(rng)
}

} // verus!
