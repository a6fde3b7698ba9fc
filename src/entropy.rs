use vstd::prelude::*;

use rand::rngs::StdRng;
use rand::{RngCore, SeedableRng};

verus! {

#[verifier::external_type_specification]
#[verifier::external_body]
pub struct ExStdRng(StdRng);

/// Relies on `rand::random::<u64>`: a word from the thread-local generator.
/// Nothing is promised of its value.
#[verifier::external_body]
pub(crate) fn random_word() -> (r: u64) {
    rand::random::<u64>()
}

/// Relies on `SeedableRng::seed_from_u64` for `StdRng`: a generator whose
/// output is fixed by `seed`.
#[verifier::external_body]
pub(crate) fn seeded(seed: u64) -> (r: StdRng) {
    StdRng::seed_from_u64(seed)
}

/// Relies on `RngCore::next_u64` for `StdRng`: the generator's next word.
/// Nothing is promised of its value.
#[verifier::external_body]
pub(crate) fn next_word(rng: &mut StdRng) -> (r: u64) {
    rng.next_u64()
}

} // verus!
