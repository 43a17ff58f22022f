//! The library's single source of randomness.

use vstd::prelude::*;

verus! {

/// Relies on `rand::random`: a machine word drawn from the thread-local
/// generator. Nothing is promised of its value; every caller must be
/// correct for every outcome.
#[verifier::external_body]
pub fn random_u64() -> u64 {
    rand::random::<u64>()
}

} // verus!
