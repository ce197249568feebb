//! The hashing capability: any `BuildHasher`, `wyhash2::WyHash` by default.
use core::hash::{BuildHasher, Hash};
use vstd::prelude::*;

verus! {

/// Default hasher of both queues.
pub type DefaultHashBuilder = wyhash2::WyHash;

#[verifier::external_type_specification]
#[verifier::external_body]
pub struct ExWyHash(wyhash2::WyHash);

/// Relies on `wyhash2::WyHash::with_seed`: builds the default hasher from a
/// seed; nothing about the hasher is assumed.
#[verifier::external_body]
pub(crate) fn default_hasher(seed: u64) -> DefaultHashBuilder {
    wyhash2::WyHash::with_seed(seed)
}

/// Relies on `BuildHasher::hash_one`: the hash of `x` under `builder`. What it
/// returns depends on the builder's impl, so nothing is assumed about it.
#[verifier::external_body]
pub(crate) fn hash_one_with<S: BuildHasher, T: Hash + ?Sized>(builder: &S, x: &T) -> u64 {
    builder.hash_one(x)
}

} // verus!
