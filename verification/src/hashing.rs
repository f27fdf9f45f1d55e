//! The hashes of keys, as the hashers of the standard library give them.
use crate::chain;
use std::collections::hash_map::RandomState;
use std::hash::{BuildHasher, Hash};
use vstd::prelude::*;

verus! {

/// Calls `BuildHasher::hash_one`. Nothing is claimed of the digest: which one comes back is up to
/// the implementations of `BuildHasher` and `Hash` that the caller brings. That such
/// implementations give one key one digest, and equal keys equal digests, is left unsaid here; it
/// stands as a condition, `consistent`, wherever it is needed.
#[verifier::external_body]
fn hash_one<K: Hash, H: BuildHasher>(hasher: &H, key: &K) -> (digest: u64) {
    hasher.hash_one(key)
}

/// Calls `RandomState::new`. Hashers that one `RandomState` builds are alike, so the digest of a
/// key whose `Hash` is deterministic is the same each time.
#[verifier::external_body]
fn new_random_state<K: Hash>() -> (state: RandomState)
    ensures
        (vstd::std_specs::hash::obeys_key_model::<K>() ==> deterministic::<K, RandomState>(state)),
{
    RandomState::new()
}

/// `digest` is one that `hasher` can give for `key`.
pub closed spec fn is_digest<K: Hash, H: BuildHasher>(hasher: H, key: K, digest: u64) -> bool {
    call_ensures(hash_one::<K, H>, (&hasher, &key), digest)
}

/// A digest that a hasher can give for a key is one that a call of `hash_one` can return.
proof fn law_digests_are_what_calls_return<K: Hash, H: BuildHasher>(
    hasher: H,
    key: K,
    digest: u64,
)
    ensures
        is_digest(hasher, key, digest) <==> call_ensures(
            hash_one::<K, H>,
            (&hasher, &key),
            digest,
        ),
{
}

/// No key has two digests.
pub open spec fn deterministic<K: Hash, H: BuildHasher>(hasher: H) -> bool {
    forall|key: K, a: u64, b: u64| #[trigger]
        is_digest(hasher, key, a) && #[trigger] is_digest(hasher, key, b) ==> a == b
}

/// `hash`, the low half of a digest, is one that `hasher` can give for `key`.
pub open spec fn hashes_to<K: Hash, H: BuildHasher>(hasher: H, key: K, hash: u32) -> bool {
    exists|digest: u64| #[trigger] is_digest(hasher, key, digest) && hash == digest as u32
}

/// Equal keys have equal hashes, as `Hash` asks of every type that has it beside `Eq`.
pub open spec fn consistent<K: Eq + Hash, H: BuildHasher>(hasher: H) -> bool {
    forall|j: K, k: K, g: u32, h: u32| #[trigger]
        hashes_to(hasher, j, g) && #[trigger] hashes_to(hasher, k, h) && chain::same_key(j, k)
            ==> g == h
}

/// Keys are the same only if they are identical.
pub open spec fn concrete_keys<K: Eq>() -> bool {
    forall|a: K, b: K| #[trigger] chain::same_key(a, b) ==> a == b
}

/// The hash of `key`.
pub fn hash_key<K: Hash, H: BuildHasher>(hasher: &H, key: &K) -> (hash: u32)
    ensures
        hashes_to(*hasher, *key, hash),
{
    let digest: u64 = hash_one(hasher, key);
    assert(is_digest(*hasher, *key, digest));
    #[verifier::truncate]
    let hash: u32 = digest as u32;
    hash
}

/// A hasher with random keys. It gives equal keys equal hashes, where `Hash` is deterministic and
/// only identical keys are equal.
pub fn random_state<K: Eq + Hash>() -> (state: RandomState)
    ensures
        vstd::std_specs::hash::obeys_key_model::<K>() && concrete_keys::<K>() ==> consistent::<
            K,
            RandomState,
        >(state),
{
    new_random_state::<K>()
}

} // verus!
