//! What a map holds, as a mathematical value, and what each operation makes of it.
use crate::chain;
use crate::chain::CHMEntry;
use crate::hashing;
use crate::load_factor::LoadFactor;
use crate::partition;
use crate::segment_state::SegmentState;
use crate::seqs;
use std::hash::{BuildHasher, Hash};
use vstd::arithmetic::power2::*;
use vstd::prelude::*;

verus! {

/// The state of a map: the states of its segments.
#[verifier::ext_equal]
pub struct MapState<K, V> {
    pub segments: Seq<SegmentState<K, V>>,
}

/// The segment for a hash among `n` segments: each receives an equal share of the hashes, in
/// order.
pub open spec fn segment_of(hash: u32, n: nat) -> int {
    hash as int * n as int / 0x1_0000_0000
}

/// The entry at position `i` is one for `key`, whatever its hash.
pub open spec fn key_at<K: PartialEq, V>(entries: Seq<CHMEntry<K, V>>, key: K, i: int) -> bool {
    0 <= i < entries.len() && chain::same_key(entries[i].key, key)
}

impl<K: PartialEq, V> MapState<K, V> {
    /// A map without entries: `n` segments, each with `cap` buckets.
    pub open spec fn empty(n: nat, cap: nat, factor: LoadFactor) -> Self {
        MapState { segments: Seq::new(n, |s: int| SegmentState::empty(cap, factor)) }
    }

    /// The number of segments.
    pub open spec fn count(self) -> nat {
        self.segments.len()
    }

    /// The entries of each segment.
    pub open spec fn parts(self) -> Seq<Seq<CHMEntry<K, V>>> {
        Seq::new(self.count(), |s: int| self.segments[s].entries())
    }

    /// All entries: those of the first segment, then those of the second, and so on.
    pub open spec fn entries(self) -> Seq<CHMEntry<K, V>> {
        self.parts().flatten()
    }

    /// The number of entries.
    pub open spec fn len(self) -> nat {
        self.entries().len()
    }

    /// The segment for a hash.
    pub open spec fn segment(self, hash: u32) -> SegmentState<K, V> {
        self.segments[segment_of(hash, self.count())]
    }

    /// The map holds a value for `key` under `hash`.
    pub open spec fn contains(self, hash: u32, key: K) -> bool {
        self.segment(hash).contains(hash, key)
    }

    /// The value held for `key` under `hash`.
    pub open spec fn lookup(self, hash: u32, key: K) -> Option<V> {
        self.segment(hash).lookup(hash, key)
    }

    /// The value held for `key`, whatever its hash.
    pub open spec fn find(self, key: K) -> Option<V> {
        if exists|i: int| key_at(self.entries(), key, i) {
            Some(self.entries()[choose|i: int| key_at(self.entries(), key, i)].value)
        } else {
            None
        }
    }

    /// The state is one that a map can be in: its segments are in good states, every entry is in
    /// the segment that its hash names, and no key has two entries under one hash.
    pub open spec fn wf(self) -> bool {
        &&& is_pow2(self.count() as int)
        &&& forall|s: int| 0 <= s < self.count() ==> (#[trigger] self.segments[s]).wf()
        &&& partition::partitioned(self.parts(), |hash: u32| segment_of(hash, self.count()))
    }

    /// The map after `value` was inserted for `key` under `hash`.
    pub open spec fn insert(self, hash: u32, key: K, value: V) -> Self {
        MapState {
            segments: self.segments.update(
                segment_of(hash, self.count()),
                self.segment(hash).insert(hash, key, value),
            ),
        }
    }

    /// The map after `key` was removed from under `hash`.
    pub open spec fn remove(self, hash: u32, key: K) -> Self {
        MapState {
            segments: self.segments.update(
                segment_of(hash, self.count()),
                self.segment(hash).remove(hash, key),
            ),
        }
    }

    /// Inserting `key` under `hash` needs no table larger than the largest one there is.
    pub open spec fn has_room(self, hash: u32, key: K) -> bool {
        self.segment(hash).has_room(hash, key)
    }

    /// The map has fewer than `2^28 - 1` entries, so few that there is room for any key.
    pub open spec fn uncrowded(self) -> bool {
        self.len() + 1 < 0x1000_0000
    }

    /// A map with few entries has room for any key: a table is as large as it can be only where
    /// its limit is far from reached.
    pub proof fn lemma_uncrowded(self)
        requires
            self.wf(),
            self.uncrowded(),
        ensures
            forall|hash: u32, key: K| #[trigger] self.has_room(hash, key),
    {
        assert forall|hash: u32, key: K| #[trigger] self.has_room(hash, key) by {
            self.lemma_segment_of(hash);
            let s = segment_of(hash, self.count());
            assert(self.segments[s].wf());
            seqs::lemma_flatten_split(self.parts(), s);
        }
    }

    /// Any hash names a segment.
    pub proof fn lemma_segment_of(self, hash: u32)
        requires
            is_pow2(self.count() as int),
        ensures
            0 <= segment_of(hash, self.count()) < self.count(),
    {
        reveal(is_pow2);
        let h = hash as int;
        let n = self.count() as int;
        assert(0 <= h * n / 0x1_0000_0000 < n) by (nonlinear_arith)
            requires
                0 <= h < 0x1_0000_0000,
                n > 0,
        ;
    }

    /// A new map is in a good state.
    pub proof fn lemma_empty(n: nat, cap: nat, factor: LoadFactor)
        requires
            is_pow2(n as int),
            is_pow2(cap as int),
            cap <= 0x8000_0000,
            factor.in_range(),
        ensures
            Self::empty(n, cap, factor).wf(),
            Self::empty(n, cap, factor).entries() == Seq::<CHMEntry<K, V>>::empty(),
    {
        SegmentState::<K, V>::lemma_empty(cap, factor);
        seqs::lemma_flatten_empty(Self::empty(n, cap, factor).parts());
    }

    /// No key has two entries under one hash, and what the segment for a hash holds for a key is
    /// what all the entries hold for it.
    pub proof fn lemma_entries(self)
        requires
            self.wf(),
        ensures
            chain::distinct(self.entries()),
            chain::lawful_eq::<K>() ==> forall|h: u32, k: K| #[trigger]
                self.lookup(h, k) == chain::lookup(self.entries(), h, k),
            chain::lawful_eq::<K>() ==> forall|h: u32, k: K| #[trigger]
                self.contains(h, k) == chain::has_match(self.entries(), h, k),
    {
        let part_of = |hash: u32| segment_of(hash, self.count());
        partition::lemma_distinct(self.parts(), part_of);
        if chain::lawful_eq::<K>() {
            assert forall|h: u32, k: K| #[trigger]
                self.lookup(h, k) == chain::lookup(self.entries(), h, k) by {
                self.lemma_segment_of(h);
                self.segment(h).lemma_entries();
                partition::lemma_lookup(self.parts(), part_of, h, k);
            }
            assert forall|h: u32, k: K| #[trigger]
                self.contains(h, k) == chain::has_match(self.entries(), h, k) by {
                self.lemma_segment_of(h);
                self.segment(h).lemma_entries();
                partition::lemma_lookup(self.parts(), part_of, h, k);
            }
        }
    }

    /// Replacing one segment keeps the state good, where every entry of the new segment is a
    /// given one for it or was there.
    pub proof fn lemma_replace_drawn(
        self,
        s: int,
        segment: SegmentState<K, V>,
        entry: CHMEntry<K, V>,
    )
        requires
            self.wf(),
            0 <= s < self.count(),
            segment.wf(),
            segment_of(entry.hash, self.count()) == s,
            chain::drawn_from(segment.entries(), self.segments[s].entries(), entry),
        ensures
            ({
                let after = MapState { segments: self.segments.update(s, segment) };
                &&& after.wf()
                &&& after.len() == self.len() - self.segments[s].len() + segment.len()
                &&& chain::drawn_from(after.entries(), self.entries(), entry)
            }),
    {
        let after = MapState { segments: self.segments.update(s, segment) };
        let part_of = |hash: u32| segment_of(hash, self.count());
        let part = segment.entries();
        segment.lemma_entries();
        assert forall|i: int| 0 <= i < part.len() implies part_of((#[trigger] part[i]).hash)
            == s by {
            if part[i] != entry {
                let j = choose|j: int|
                    0 <= j < self.parts()[s].len() && self.parts()[s][j] == part[i];
                assert(self.parts()[s][j] == part[i]);
            }
        }
        partition::lemma_replace(self.parts(), part_of, s, part);
        partition::lemma_replace_drawn(self.parts(), s, part, entry);
        assert(after.parts() =~= self.parts().update(s, part));
    }

    /// Replacing one segment keeps the state good, where every entry of the new segment was
    /// there.
    pub proof fn lemma_replace_within(self, s: int, segment: SegmentState<K, V>)
        requires
            self.wf(),
            0 <= s < self.count(),
            segment.wf(),
            chain::within(segment.entries(), self.segments[s].entries()),
        ensures
            ({
                let after = MapState { segments: self.segments.update(s, segment) };
                &&& after.wf()
                &&& after.len() == self.len() - self.segments[s].len() + segment.len()
                &&& chain::within(after.entries(), self.entries())
            }),
    {
        let after = MapState { segments: self.segments.update(s, segment) };
        let part_of = |hash: u32| segment_of(hash, self.count());
        let part = segment.entries();
        segment.lemma_entries();
        assert forall|i: int| 0 <= i < part.len() implies part_of((#[trigger] part[i]).hash)
            == s by {
            let j = choose|j: int| 0 <= j < self.parts()[s].len() && self.parts()[s][j] == part[i];
            assert(self.parts()[s][j] == part[i]);
        }
        partition::lemma_replace(self.parts(), part_of, s, part);
        partition::lemma_replace_within(self.parts(), s, part);
        assert(after.parts() =~= self.parts().update(s, part));
    }

    /// Inserting keeps the state good, changes what the map holds for the key and nothing else,
    /// and counts a new key.
    pub proof fn lemma_insert(self, hash: u32, key: K, value: V)
        requires
            chain::lawful_eq::<K>(),
            self.wf(),
            self.has_room(hash, key),
        ensures
            self.insert(hash, key, value).wf(),
            self.insert(hash, key, value).len() == self.len() + if self.contains(hash, key) {
                0nat
            } else {
                1nat
            },
            forall|h: u32, k: K| #[trigger]
                self.insert(hash, key, value).lookup(h, k) == if h == hash && chain::same_key(
                    key,
                    k,
                ) {
                    Some(value)
                } else {
                    self.lookup(h, k)
                },
            chain::drawn_from(
                self.insert(hash, key, value).entries(),
                self.entries(),
                CHMEntry { hash, key, value },
            ),
    {
        let s = segment_of(hash, self.count());
        self.lemma_segment_of(hash);
        let before = self.segments[s];
        before.lemma_insert(hash, key, value);
        let segment = before.insert(hash, key, value);
        self.lemma_replace_drawn(s, segment, CHMEntry { hash, key, value });
        let after = self.insert(hash, key, value);
        assert forall|h: u32, k: K| #[trigger]
            after.lookup(h, k) == if h == hash && chain::same_key(key, k) {
                Some(value)
            } else {
                self.lookup(h, k)
            } by {
            self.lemma_segment_of(h);
        }
    }

    /// Removing keeps the state good, changes what the map holds for the key and nothing else,
    /// and uncounts a key that was there.
    pub proof fn lemma_remove(self, hash: u32, key: K)
        requires
            chain::lawful_eq::<K>(),
            self.wf(),
        ensures
            self.remove(hash, key).wf(),
            self.remove(hash, key).len() == self.len() - if self.contains(hash, key) {
                1int
            } else {
                0int
            },
            forall|h: u32, k: K| #[trigger]
                self.remove(hash, key).lookup(h, k) == if h == hash && chain::same_key(key, k) {
                    None
                } else {
                    self.lookup(h, k)
                },
            chain::within(self.remove(hash, key).entries(), self.entries()),
    {
        let s = segment_of(hash, self.count());
        self.lemma_segment_of(hash);
        let before = self.segments[s];
        before.lemma_remove(hash, key);
        let segment = before.remove(hash, key);
        self.lemma_replace_within(s, segment);
        let after = self.remove(hash, key);
        assert forall|h: u32, k: K| #[trigger]
            after.lookup(h, k) == if h == hash && chain::same_key(key, k) {
                None
            } else {
                self.lookup(h, k)
            } by {
            self.lemma_segment_of(h);
        }
    }
}

impl<K: Eq + Hash, V> MapState<K, V> {
    /// Every key is held under a hash that `hasher` gives for it.
    pub open spec fn hashed_by<H: BuildHasher>(self, hasher: H) -> bool {
        forall|i: int|
            0 <= i < self.len() ==> hashing::hashes_to(
                hasher,
                (#[trigger] self.entries()[i]).key,
                self.entries()[i].hash,
            )
    }

    /// `after` is the map after an insertion under the hash that `hasher` gave for `key`, and `r`
    /// the value that was held before.
    pub open spec fn inserted<H: BuildHasher>(
        self,
        hasher: H,
        key: K,
        value: V,
        after: Self,
        r: Option<V>,
    ) -> bool {
        exists|hash: u32| #[trigger]
            hashing::hashes_to(hasher, key, hash) && after == self.insert(hash, key, value) && r
                == self.lookup(hash, key)
    }

    /// `after` is the map after a removal under the hash that `hasher` gave for `key`, and `r`
    /// the value that was held before.
    pub open spec fn removed<H: BuildHasher>(
        self,
        hasher: H,
        key: K,
        after: Self,
        r: Option<V>,
    ) -> bool {
        exists|hash: u32| #[trigger]
            hashing::hashes_to(hasher, key, hash) && after == self.remove(hash, key) && r
                == self.lookup(hash, key)
    }

    /// Where every entry is one under a hash of its key or was there, every key is held under a
    /// hash of its own.
    pub proof fn lemma_hashed_drawn<H: BuildHasher>(
        self,
        before: Self,
        hasher: H,
        entry: CHMEntry<K, V>,
    )
        requires
            before.hashed_by(hasher),
            hashing::hashes_to(hasher, entry.key, entry.hash),
            chain::drawn_from(self.entries(), before.entries(), entry),
        ensures
            self.hashed_by(hasher),
    {
        assert forall|i: int| 0 <= i < self.len() implies hashing::hashes_to(
            hasher,
            (#[trigger] self.entries()[i]).key,
            self.entries()[i].hash,
        ) by {
            let e = self.entries()[i];
            if e != entry {
                let j = choose|j: int| 0 <= j < before.len() && before.entries()[j] == e;
                assert(before.entries()[j] == e);
            }
        }
    }

    /// Where every entry was there, every key is held under a hash of its own.
    pub proof fn lemma_hashed_within<H: BuildHasher>(self, before: Self, hasher: H)
        requires
            before.hashed_by(hasher),
            chain::within(self.entries(), before.entries()),
        ensures
            self.hashed_by(hasher),
    {
        assert forall|i: int| 0 <= i < self.len() implies hashing::hashes_to(
            hasher,
            (#[trigger] self.entries()[i]).key,
            self.entries()[i].hash,
        ) by {
            let e = self.entries()[i];
            let j = choose|j: int| 0 <= j < before.len() && before.entries()[j] == e;
            assert(before.entries()[j] == e);
        }
    }

    /// The value held for a key is the one held for it under the hash of any equal key.
    pub proof fn lemma_find_entry<H: BuildHasher>(self, hasher: H, key: K, i: int)
        requires
            chain::lawful_eq::<K>(),
            self.wf(),
            self.hashed_by(hasher),
            hashing::consistent::<K, H>(hasher),
            key_at(self.entries(), key, i),
        ensures
            self.find(key) == Some(self.entries()[i].value),
            self.lookup(self.entries()[i].hash, key) == self.find(key),
    {
        self.lemma_entries();
        let all = self.entries();
        let j = choose|j: int| key_at(all, key, j);
        let hash = all[i].hash;
        assert(key_at(all, key, j));
        assert(chain::same_key(key, all[j].key));
        assert(chain::same_key(all[i].key, all[j].key));
        assert(hashing::hashes_to(hasher, all[i].key, hash));
        assert(hashing::hashes_to(hasher, all[j].key, all[j].hash));
        assert(chain::match_at(all, hash, key, i));
        assert(chain::match_at(all, hash, key, j));
        chain::lemma_match_unique(all, hash, key, i);
        chain::lemma_match_unique(all, hash, key, j);
    }

    /// What the map holds for a key is what it holds for it under its hash.
    pub proof fn lemma_find<H: BuildHasher>(self, hasher: H, key: K, hash: u32)
        requires
            chain::lawful_eq::<K>(),
            self.wf(),
            self.hashed_by(hasher),
            hashing::consistent::<K, H>(hasher),
            hashing::hashes_to(hasher, key, hash),
        ensures
            self.find(key) == self.lookup(hash, key),
    {
        self.lemma_entries();
        let all = self.entries();
        if exists|i: int| key_at(all, key, i) {
            let i = choose|i: int| key_at(all, key, i);
            self.lemma_find_entry(hasher, key, i);
            assert(hashing::hashes_to(hasher, all[i].key, all[i].hash));
        } else if chain::has_match(all, hash, key) {
            let i = chain::match_index(all, hash, key);
            assert(chain::match_at(all, hash, key, i));
            assert(key_at(all, key, i));
        }
    }

    /// Two maps that hold the same under every hash hold the same for a key.
    proof fn lemma_find_same<H: BuildHasher>(self, other: Self, hasher: H, key: K)
        requires
            chain::lawful_eq::<K>(),
            self.wf(),
            self.hashed_by(hasher),
            other.wf(),
            other.hashed_by(hasher),
            hashing::consistent::<K, H>(hasher),
            forall|h: u32| #[trigger] self.lookup(h, key) == other.lookup(h, key),
        ensures
            self.find(key) == other.find(key),
    {
        self.lemma_entries();
        other.lemma_entries();
        if exists|i: int| key_at(self.entries(), key, i) {
            let i = choose|i: int| key_at(self.entries(), key, i);
            self.lemma_find_entry(hasher, key, i);
            let h = self.entries()[i].hash;
            let j = chain::match_index(other.entries(), h, key);
            assert(chain::match_at(other.entries(), h, key, j));
            assert(key_at(other.entries(), key, j));
            other.lemma_find_entry(hasher, key, j);
        } else if exists|i: int| key_at(other.entries(), key, i) {
            let i = choose|i: int| key_at(other.entries(), key, i);
            other.lemma_find_entry(hasher, key, i);
            let h = other.entries()[i].hash;
            assert(self.lookup(h, key) == other.lookup(h, key));
            let j = chain::match_index(self.entries(), h, key);
            assert(chain::match_at(self.entries(), h, key, j));
            assert(key_at(self.entries(), key, j));
        }
    }

    /// Inserting under a hash of the key keeps every key under a hash of its own. Where equal
    /// keys have equal hashes, it changes what the map holds for the key and nothing else.
    pub proof fn lemma_insert_hashed<H: BuildHasher>(self, hasher: H, hash: u32, key: K, value: V)
        requires
            chain::lawful_eq::<K>(),
            self.wf(),
            self.hashed_by(hasher),
            self.has_room(hash, key),
            hashing::hashes_to(hasher, key, hash),
        ensures
            self.insert(hash, key, value).hashed_by(hasher),
            hashing::consistent::<K, H>(hasher) ==> forall|k: K| #[trigger]
                self.insert(hash, key, value).find(k) == if chain::same_key(key, k) {
                    Some(value)
                } else {
                    self.find(k)
                },
    {
        self.lemma_insert(hash, key, value);
        let after = self.insert(hash, key, value);
        after.lemma_hashed_drawn(self, hasher, CHMEntry { hash, key, value });
        if hashing::consistent::<K, H>(hasher) {
            assert forall|k: K| #[trigger]
                after.find(k) == if chain::same_key(key, k) {
                    Some(value)
                } else {
                    self.find(k)
                } by {
                if chain::same_key(key, k) {
                    after.lemma_entries();
                    assert(after.lookup(hash, k) == Some(value));
                    let i = chain::match_index(after.entries(), hash, k);
                    assert(chain::match_at(after.entries(), hash, k, i));
                    assert(key_at(after.entries(), k, i));
                    after.lemma_find_entry(hasher, k, i);
                } else {
                    after.lemma_find_same(self, hasher, k);
                }
            }
        }
    }

    /// Removing keeps every key under a hash of its own. Where equal keys have equal hashes, it
    /// changes what the map holds for the key and nothing else.
    pub proof fn lemma_remove_hashed<H: BuildHasher>(self, hasher: H, hash: u32, key: K)
        requires
            chain::lawful_eq::<K>(),
            self.wf(),
            self.hashed_by(hasher),
            hashing::hashes_to(hasher, key, hash),
        ensures
            self.remove(hash, key).hashed_by(hasher),
            hashing::consistent::<K, H>(hasher) ==> forall|k: K| #[trigger]
                self.remove(hash, key).find(k) == if chain::same_key(key, k) {
                    None
                } else {
                    self.find(k)
                },
    {
        self.lemma_remove(hash, key);
        let after = self.remove(hash, key);
        after.lemma_hashed_within(self, hasher);
        if hashing::consistent::<K, H>(hasher) {
            assert forall|k: K| #[trigger]
                after.find(k) == if chain::same_key(key, k) {
                    None
                } else {
                    self.find(k)
                } by {
                if chain::same_key(key, k) {
                    if exists|i: int| key_at(after.entries(), k, i) {
                        let i = choose|i: int| key_at(after.entries(), k, i);
                        let e = after.entries()[i];
                        after.lemma_find_entry(hasher, k, i);
                        assert(hashing::hashes_to(hasher, e.key, e.hash));
                        assert(chain::same_key(k, e.key));
                        assert(chain::same_key(key, e.key));
                        assert(e.hash == hash);
                    }
                } else {
                    after.lemma_find_same(self, hasher, k);
                }
            }
        }
    }
}

impl<K: Eq + Hash, V: Clone> MapState<K, V> {
    /// `r` is a clone of the value held under the hash that `hasher` gave for `key`.
    pub open spec fn got<H: BuildHasher>(self, hasher: H, key: K, r: Option<V>) -> bool {
        exists|hash: u32| #[trigger]
            hashing::hashes_to(hasher, key, hash) && chain::clone_of(r, self.lookup(hash, key))
    }
}

} // verus!
