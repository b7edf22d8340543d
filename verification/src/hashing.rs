//! Key equality and the hasher-provider interface the table consumes.
//!
//! The table needs two things of its callers: an executable equality on keys
//! that agrees with mathematical equality, and a hasher whose digest is a
//! function of the key alone. Both are stated as traits so that a caller can
//! plug any provider in; the crate ships a verified identity-style provider
//! for 64-bit keys and one backed by the `fnv` crate.
use vstd::prelude::*;

verus! {

/// An executable equality test that decides mathematical equality.
pub trait EqKey: Sized {
    fn eq_key(&self, other: &Self) -> (r: bool)
        ensures
            r == (self == other),
    ;
}

impl EqKey for u64 {
    fn eq_key(&self, other: &Self) -> (r: bool)
        ensures
            r == (self == other),
    {
        *self == *other
    }
}

impl EqKey for u32 {
    fn eq_key(&self, other: &Self) -> (r: bool)
        ensures
            r == (self == other),
    {
        *self == *other
    }
}

impl EqKey for usize {
    fn eq_key(&self, other: &Self) -> (r: bool)
        ensures
            r == (self == other),
    {
        *self == *other
    }
}

impl EqKey for i64 {
    fn eq_key(&self, other: &Self) -> (r: bool)
        ensures
            r == (self == other),
    {
        *self == *other
    }
}

/// A provider of 64-bit digests for keys. The digest must be a function of
/// the key value (and the provider value) alone: the whole correctness of the
/// table rests on a key hashing to the same coordinate on every operation.
pub trait KeyHasher<K> {
    spec fn hash_spec(&self, key: K) -> u64;

    fn hash_key(&self, key: &K) -> (h: u64)
        ensures
            h == self.hash_spec(*key),
    ;
}

/// A hasher that uses a 64-bit key directly as its own digest. Handy for
/// tests and for callers whose keys are already well distributed.
#[derive(Clone, Copy)]
pub struct DirectHasher;

impl KeyHasher<u64> for DirectHasher {
    open spec fn hash_spec(&self, key: u64) -> u64 {
        key
    }

    fn hash_key(&self, key: &u64) -> (h: u64) {
        *key
    }
}

/// The digest that `fnv`'s hasher yields for a 64-bit key, named so that
/// contracts can speak of it. For a fixed build it depends on the key alone.
pub uninterp spec fn fnv_hash_of(key: u64) -> u64;

/// Relies on fnv::FnvHasher: a fresh hasher fed one value always yields the
/// FNV-1a digest of that value's bytes, a function of the key alone.
#[verifier::external_body]
fn fnv_hash_u64(key: &u64) -> (h: u64)
    ensures
        h == fnv_hash_of(*key),
{
    let mut state = <fnv::FnvHasher as core::default::Default>::default();
    core::hash::Hash::hash(key, &mut state);
    core::hash::Hasher::finish(&state)
}

#[verifier::external_type_specification]
#[verifier::external_body]
pub struct ExFnvHasher(fnv::FnvHasher);

#[verifier::external_type_specification]
#[verifier::external_body]
#[verifier::reject_recursive_types(S)]
pub struct ExBuildHasherDefault<S>(core::hash::BuildHasherDefault<S>);

impl KeyHasher<u64> for core::hash::BuildHasherDefault<fnv::FnvHasher> {
    open spec fn hash_spec(&self, key: u64) -> u64 {
        fnv_hash_of(key)
    }

    fn hash_key(&self, key: &u64) -> (h: u64) {
        fnv_hash_u64(key)
    }
}

} // verus!
