//! The map.
use crate::arith;
use crate::chain;
use crate::hashing;
use crate::inner::CHMInner;
use crate::load_factor;
use crate::load_factor::{LoadFactor, DEFAULT_LOAD_FACTOR};
use crate::map_state;
use crate::map_state::MapState;
use crate::sizing_laws;
use std::collections::hash_map::RandomState;
use std::hash::{BuildHasher, Hash};
use vstd::arithmetic::power2::*;
use vstd::prelude::*;

verus! {

/// The number of segments of a map made without options.
pub const DEFAULT_SEGMENT_COUNT: u32 = 8;

/// The capacity of a map made without options.
pub const DEFAULT_CAPACITY: u32 = 16;

/// No map starts with more buckets than this, unless its capacity is larger.
pub const MAX_CAPACITY: u32 = 0x4000_0000;

/// The largest power of two that fits 32 bits: no map starts with more buckets.
pub const LARGEST_CAPACITY: u32 = 0x8000_0000;

/// The number of buckets that the capacity asked for is held to.
pub open spec fn capacity_bound(capacity: nat) -> nat {
    if capacity <= MAX_CAPACITY {
        MAX_CAPACITY as nat
    } else {
        LARGEST_CAPACITY as nat
    }
}

/// The number of buckets for the capacity asked for: the capacity divided by the load factor,
/// within its bound, raised to the next power of two and to one per segment.
pub open spec fn checked_capacity(capacity: nat, segments: nat, load_factor: LoadFactor) -> nat {
    let wanted = load_factor.spec_quotient(capacity);
    let bounded = if wanted <= capacity_bound(capacity) {
        wanted
    } else {
        capacity_bound(capacity)
    };
    if arith::ceil_pow2(bounded) >= segments {
        arith::ceil_pow2(bounded)
    } else {
        segments
    }
}

/// A hash map that is divided into segments, each of which is a hash table that receives a part
/// of the hash space.
pub struct ConcurrentHashMap<K: Eq + Hash + Sync + Clone, V: Sync + Clone, H: BuildHasher> {
    inner: CHMInner<K, V>,
    hasher: H,
}

impl<K: Eq + Hash + Sync + Clone, V: Sync + Clone, H: BuildHasher> View for ConcurrentHashMap<
    K,
    V,
    H,
> {
    type V = MapState<K, V>;

    closed spec fn view(&self) -> MapState<K, V> {
        self.inner@
    }
}

impl<K: Eq + Hash + Sync + Clone, V: Sync + Clone> ConcurrentHashMap<K, V, RandomState> {
    /// A map with default options (segment count = 8, capacity = 16, load factor = 0.8): each
    /// segment has four buckets and grows at three entries.
    pub fn new() -> (map: ConcurrentHashMap<K, V, RandomState>)
        ensures
            map.wf(),
            map@ == MapState::<K, V>::empty(8, 4, (LoadFactor { bits: DEFAULT_LOAD_FACTOR })),
            map@.count() == 8,
            forall|s: int|
                #![trigger map@.segments[s]]
                0 <= s < 8 ==> map@.segments[s].cap() == 4 && map@.segments[s].max == 3
                    && map@.segments[s].factor.bits == 0x3f4c_cccd,
            map@.len() == 0,
            forall|key: K| #[trigger] map@.find(key) is None,
            forall|hash: u32, key: K| #[trigger] map@.has_room(hash, key),
            vstd::std_specs::hash::obeys_key_model::<K>() && hashing::concrete_keys::<K>()
                ==> hashing::consistent::<K, RandomState>(map.hasher()),
    {
        let hasher = hashing::random_state::<K>();
        let load_factor = LoadFactor::from_bits(DEFAULT_LOAD_FACTOR);
        proof {
            lemma_default_options();
        }
        ConcurrentHashMap::new_with_options(
            DEFAULT_CAPACITY,
            DEFAULT_SEGMENT_COUNT,
            load_factor,
            hasher,
        )
    }
}

impl<K: Eq + Hash + Sync + Clone, V: Sync + Clone, H: BuildHasher> ConcurrentHashMap<K, V, H> {
    /// The hasher of the map.
    pub closed spec fn hasher(&self) -> H {
        self.hasher
    }

    /// The parts of the map are in order.
    pub closed spec fn intact(&self) -> bool {
        self.inner.intact()
    }

    /// The map is in a good state.
    pub open spec fn wf(&self) -> bool {
        self@.wf() && self@.hashed_by(self.hasher()) && self.intact()
    }

    /// Keys and hasher are such that the map is a dictionary: `==` is an equivalence relation, and
    /// equal keys have equal hashes.
    pub open spec fn is_dictionary(&self) -> bool {
        chain::lawful_eq::<K>() && hashing::consistent::<K, H>(self.hasher())
    }

    /// A map without entries. There are three tuning options: capacity, segment count, and load
    /// factor. The load factor describes how full a table gets before it grows to avoid excess
    /// collisions. The segment count is the number of segments that the map is divided into; it is
    /// raised to the next power of two. The capacity is divided by the load factor and raised to
    /// the next power of two, and at least to the segment count: that is the number of buckets
    /// that the segments share evenly.
    pub fn new_with_options(
        capacity: u32,
        segments: u32,
        load_factor: LoadFactor,
        hasher: H,
    ) -> (map: ConcurrentHashMap<K, V, H>)
        requires
            segments <= 0x8000_0000,
            !load_factor.is_nan(),
        ensures
            map.wf(),
            map.hasher() == hasher,
            map@.len() == 0,
            forall|key: K| #[trigger] map@.find(key) is None,
            forall|hash: u32, key: K| #[trigger] map@.has_room(hash, key),
            ({
                let factor = load_factor.spec_clamped();
                let n = arith::ceil_pow2(segments as nat);
                let cap = checked_capacity(capacity as nat, n, factor) / n;
                map@ == MapState::<K, V>::empty(n, cap, factor)
            }),
    {
        let (capacity, segments, load_factor) = Self::check_params(
            capacity,
            segments,
            load_factor,
        );
        proof {
            reveal(is_pow2);
        }
        ConcurrentHashMap { inner: CHMInner::new(capacity, segments, load_factor), hasher }
    }

    /// Puts the options of a map in order: the capacity and the segment count become powers of
    /// two, of which the second divides the first, and the load factor is brought within its
    /// bounds.
    pub fn check_params(capacity: u32, segments: u32, load_factor: LoadFactor) -> (r: (
        u32,
        u32,
        LoadFactor,
    ))
        requires
            segments <= 0x8000_0000,
            !load_factor.is_nan(),
        ensures
            r.2 == load_factor.spec_clamped(),
            r.1 == arith::ceil_pow2(segments as nat),
            r.1 >= segments,
            forall|p: int| #[trigger] is_pow2(p) && p >= segments ==> r.1 <= p,
            r.0 == checked_capacity(capacity as nat, r.1 as nat, r.2),
            r.2.in_range(),
            is_pow2(r.1 as int),
            is_pow2(r.0 as int),
            r.1 <= r.0,
            r.0 % r.1 == 0,
            r.0 <= 0x8000_0000,
            r.1 <= 0x8000_0000,
            load_factor.value() >= pow2(149) ==> r.2.bits == 0x3f80_0000,
            load_factor.value() <= load_factor::magnitude(0x3e4c_cccd) ==> r.2.bits
                == 0x3e4c_cccd,
            load_factor::magnitude(0x3e4c_cccd) <= load_factor.value() <= pow2(149) ==> r.2
                == load_factor,
            capacity * pow2(149) < 0x4000_0001 * load_factor::magnitude(r.2.bits) ==> (r.0 + 1)
                * load_factor::magnitude(r.2.bits) > capacity * pow2(149),
            r.0 > r.1 ==> (r.0 / 2 + 1) * load_factor::magnitude(r.2.bits) <= capacity * pow2(149),
    {
        proof {
            arith::law_ceil_pow2_is_least(segments as nat);
        }
        let segments: u32 = arith::next_power_of_two(segments);
        let load_factor = load_factor.clamped();
        let wanted: u64 = load_factor.quotient(capacity);
        let bound: u32 = if capacity <= MAX_CAPACITY {
            MAX_CAPACITY
        } else {
            LARGEST_CAPACITY
        };
        let bounded: u32 = if wanted > bound as u64 {
            bound
        } else {
            wanted as u32
        };
        let mut buckets: u32 = arith::next_power_of_two(bounded);
        if buckets < segments {
            buckets = segments;
        }
        proof {
            arith::lemma_u32_limit(segments);
            arith::lemma_u32_limit(buckets);
            arith::lemma_pow2_divides(segments as int, buckets as int);
            sizing_laws::law_buckets_are_just_enough(
                capacity as nat,
                segments as nat,
                load_factor,
                wanted as int,
                segments as int,
            );
            let m = load_factor::magnitude(load_factor.bits) as int;
            let w = capacity * pow2(149) as int;
            if w < 0x4000_0001 * m {
                assert(wanted <= 0x4000_0000) by (nonlinear_arith)
                    requires
                        wanted * m <= w < 0x4000_0001 * m,
                        m >= 0,
                ;
            }
        }
        (buckets, segments, load_factor)
    }

    /// Inserts a key-value pair into the map. If the key was already present, the previous value
    /// is returned. Otherwise, None is returned.
    ///
    /// The table of the segment that a new key goes to must be able to double where it is due to
    /// grow. It always can while the map has fewer than `2^28 - 1` entries; beyond that,
    /// `has_room` tells.
    pub fn insert(&mut self, key: K, value: V) -> (r: Option<V>)
        requires
            old(self).wf(),
            forall|hash: u32| #[trigger]
                hashing::hashes_to(old(self).hasher(), key, hash) ==> old(self)@.has_room(
                    hash,
                    key,
                ),
        ensures
            final(self).wf(),
            final(self).hasher() == old(self).hasher(),
            chain::lawful_eq::<K>() ==> old(self)@.inserted(
                old(self).hasher(),
                key,
                value,
                final(self)@,
                r,
            ),
            final(self)@.len() == old(self)@.len() + if r is Some {
                0nat
            } else {
                1nat
            },
            final(self)@.uncrowded() ==> forall|h: u32, k: K| #[trigger]
                final(self)@.has_room(h, k),
            old(self).is_dictionary() ==> r == old(self)@.find(key) && forall|k: K| #[trigger]
                final(self)@.find(k) == if chain::same_key(key, k) {
                    Some(value)
                } else {
                    old(self)@.find(k)
                },
    {
        let ghost before = self@;
        let ghost hasher = self.hasher;
        let r = self.inner.insert(key, value, &self.hasher);
        proof {
            if chain::lawful_eq::<K>() {
                let hash = choose|hash: u32| #[trigger]
                    hashing::hashes_to(hasher, key, hash) && self@ == before.insert(
                        hash,
                        key,
                        value,
                    ) && r == before.lookup(hash, key);
                before.lemma_insert_hashed(hasher, hash, key, value);
                if hashing::consistent::<K, H>(hasher) {
                    before.lemma_find(hasher, key, hash);
                }
            }
        }
        r
    }

    /// Whether `key` can be inserted: the table of the segment that it goes to need not grow, or
    /// can.
    pub fn has_room(&self, key: &K) -> (r: bool)
        requires
            self.wf(),
        ensures
            chain::lawful_eq::<K>() ==> exists|hash: u32| #[trigger]
                hashing::hashes_to(self.hasher(), *key, hash) && r == self@.has_room(hash, *key),
            self.is_dictionary() ==> r == (forall|hash: u32| #[trigger]
                hashing::hashes_to(self.hasher(), *key, hash) ==> self@.has_room(hash, *key)),
    {
        let hash: u32 = hashing::hash_key(&self.hasher, key);
        let r = self.inner.has_room(key, hash);
        proof {
            if self.is_dictionary() {
                assert(chain::same_key(*key, *key));
                assert forall|h: u32| #[trigger]
                    hashing::hashes_to(self.hasher, *key, h) implies h == hash by {}
            }
        }
        r
    }

    /// Gets a value from the map. If it's not present, None is returned.
    pub fn get(&self, key: K) -> (r: Option<V>)
        requires
            self.wf(),
        ensures
            chain::lawful_eq::<K>() ==> self@.got(self.hasher(), key, r),
            self.is_dictionary() ==> chain::clone_of(r, self@.find(key)),
            chain::lawful_eq::<K>() && hashing::consistent::<K, H>(self.hasher())
                ==> match self@.find(key) {
                Some(v) => r matches Some(w) && cloned(v, w),
                None => r is None,
            },
    {
        let r = self.inner.get(key, &self.hasher);
        proof {
            if self.is_dictionary() {
                let hash = choose|hash: u32| #[trigger]
                    hashing::hashes_to(self.hasher, key, hash) && chain::clone_of(
                        r,
                        self@.lookup(hash, key),
                    );
                self@.lemma_find(self.hasher, key, hash);
            }
        }
        r
    }

    /// Removes a key-value pair from the map. If the key was found, the value associated with it
    /// is returned. Otherwise, None is returned.
    pub fn remove(&mut self, key: K) -> (r: Option<V>)
        requires
            old(self).wf(),
        ensures
            final(self).wf(),
            final(self).hasher() == old(self).hasher(),
            chain::lawful_eq::<K>() ==> old(self)@.removed(
                old(self).hasher(),
                key,
                final(self)@,
                r,
            ),
            final(self)@.len() == old(self)@.len() - if r is Some {
                1int
            } else {
                0int
            },
            final(self)@.uncrowded() ==> forall|h: u32, k: K| #[trigger]
                final(self)@.has_room(h, k),
            old(self).is_dictionary() ==> r == old(self)@.find(key) && forall|k: K| #[trigger]
                final(self)@.find(k) == if chain::same_key(key, k) {
                    None
                } else {
                    old(self)@.find(k)
                },
    {
        let ghost before = self@;
        let ghost hasher = self.hasher;
        let r = self.inner.remove(key, &self.hasher);
        proof {
            if chain::lawful_eq::<K>() {
                let hash = choose|hash: u32| #[trigger]
                    hashing::hashes_to(hasher, key, hash) && self@ == before.remove(hash, key) && r
                        == before.lookup(hash, key);
                before.lemma_remove_hashed(hasher, hash, key);
                if hashing::consistent::<K, H>(hasher) {
                    before.lemma_find(hasher, key, hash);
                }
            }
        }
        r
    }

    /// Returns the size of the map.
    pub fn len(&self) -> (n: u32)
        requires
            self.wf(),
            self@.len() <= u32::MAX,
        ensures
            n == self@.len(),
    {
        self.inner.len()
    }

    /// Copies of all keys and values in the map.
    pub fn entries(&self) -> (xs: Vec<(K, V)>)
        ensures
            chain::pairs_of(xs@, self@.entries()),
            xs.len() == self@.len(),
            forall|i: int|
                #![trigger xs@[i]]
                0 <= i < xs.len() ==> cloned(self@.entries()[i].key, xs@[i].0) && cloned(
                    self@.entries()[i].value,
                    xs@[i].1,
                ),
            self.wf() && chain::lawful_eq::<K>() && hashing::consistent::<K, H>(self.hasher())
                ==> forall|k: K| #[trigger]
                self@.find(k) is Some ==> exists|i: int|
                    0 <= i < xs.len() && chain::same_key(self@.entries()[i].key, k) && cloned(
                        self@.entries()[i].key,
                        (#[trigger] xs@[i]).0,
                    ) && cloned(self@.find(k)->0, xs@[i].1),
    {
        let xs = self.inner.entries();
        proof {
            if self.wf() && chain::lawful_eq::<K>() && hashing::consistent::<K, H>(self.hasher) {
                assert forall|k: K| #[trigger] self@.find(k) is Some implies exists|i: int|
                    0 <= i < xs.len() && chain::same_key(self@.entries()[i].key, k) && cloned(
                        self@.entries()[i].key,
                        (#[trigger] xs@[i]).0,
                    ) && cloned(self@.find(k)->0, xs@[i].1) by {
                    let i = choose|i: int| map_state::key_at(self@.entries(), k, i);
                    self@.lemma_find_entry(self.hasher, k, i);
                    assert(cloned(self@.entries()[i].key, xs@[i].0));
                }
            }
        }
        xs
    }
}

/// What the default options come to.
proof fn lemma_default_options()
    ensures
        ({
            let factor = LoadFactor { bits: DEFAULT_LOAD_FACTOR };
            let n = arith::ceil_pow2(DEFAULT_SEGMENT_COUNT as nat);
            &&& !factor.is_nan()
            &&& factor.spec_clamped() == factor
            &&& n == 8
            &&& checked_capacity(DEFAULT_CAPACITY as nat, n, factor) == 32
            &&& factor.spec_limit(4) == 3
        }),
{
    crate::load_factor::lemma_default_load_factor();
    reveal_with_fuel(arith::ceil_pow2, 7);
}

} // verus!
