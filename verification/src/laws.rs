//! What holds of maps and segments across operations.
use crate::arith;
use crate::chain;
use crate::chain::CHMEntry;
use crate::hash_map;
use crate::hash_map::ConcurrentHashMap;
use crate::hashing;
use crate::load_factor;
use crate::load_factor::LoadFactor;
use crate::map_state;
use crate::map_state::MapState;
use crate::segment_state;
use crate::segment_state::SegmentState;
use crate::seqs;
use std::hash::{BuildHasher, Hash};
use vstd::arithmetic::power2::*;
use vstd::prelude::*;
use vstd::std_specs::cmp::*;

verus! {

/// A new map holds nothing, and has room for any key.
pub proof fn law_new_map_is_empty<K: PartialEq, V>(
    n: nat,
    cap: nat,
    factor: LoadFactor,
    hash: u32,
    key: K,
)
    requires
        is_pow2(n as int),
        is_pow2(cap as int),
        cap <= 0x8000_0000,
        factor.in_range(),
    ensures
        MapState::<K, V>::empty(n, cap, factor).wf(),
        MapState::<K, V>::empty(n, cap, factor).len() == 0,
        MapState::<K, V>::empty(n, cap, factor).lookup(hash, key) is None,
        MapState::<K, V>::empty(n, cap, factor).find(key) is None,
        MapState::<K, V>::empty(n, cap, factor).has_room(hash, key),
{
    let s = MapState::<K, V>::empty(n, cap, factor);
    MapState::<K, V>::lemma_empty(n, cap, factor);
    s.lemma_uncrowded();
    s.lemma_segment_of(hash);
    s.segment(hash).lemma_bucket_of(hash);
    assert(s.segment(hash).chain_of(hash) == Seq::<CHMEntry<K, V>>::empty());
}

/// A map with fewer than `2^28 - 1` entries has room for any key. An insertion adds at most one
/// entry and a removal none, and both leave a map for which the same holds: any number of
/// insertions and removals go through as long as the entries stay that few.
pub proof fn law_few_entries_leave_room<K: PartialEq, V>(
    s: MapState<K, V>,
    hash: u32,
    key: K,
    value: V,
    next_hash: u32,
    next_key: K,
)
    requires
        chain::lawful_eq::<K>(),
        s.wf(),
        s.len() + 1 < 0x1000_0000,
    ensures
        s.has_room(hash, key),
        s.insert(hash, key, value).wf(),
        s.insert(hash, key, value).len() <= s.len() + 1,
        s.insert(hash, key, value).len() + 1 < 0x1000_0000 ==> s.insert(hash, key, value).has_room(
            next_hash,
            next_key,
        ),
        s.remove(hash, key).wf(),
        s.remove(hash, key).len() <= s.len(),
        s.remove(hash, key).has_room(next_hash, next_key),
{
    s.lemma_uncrowded();
    s.lemma_insert(hash, key, value);
    if s.insert(hash, key, value).uncrowded() {
        s.insert(hash, key, value).lemma_uncrowded();
    }
    s.lemma_remove(hash, key);
    s.remove(hash, key).lemma_uncrowded();
}

/// What was written is read: after an insertion, every equal key has the value, under whatever
/// hash the next call draws.
pub proof fn law_read_your_write<K: Eq + Hash, V, H: BuildHasher>(
    before: MapState<K, V>,
    hasher: H,
    key: K,
    value: V,
    hash: u32,
    other: K,
    other_hash: u32,
)
    requires
        chain::lawful_eq::<K>(),
        before.wf(),
        before.has_room(hash, key),
        hashing::consistent::<K, H>(hasher),
        hashing::hashes_to(hasher, key, hash),
        hashing::hashes_to(hasher, other, other_hash),
        chain::same_key(key, other),
    ensures
        before.insert(hash, key, value).lookup(other_hash, other) == Some(value),
{
    before.lemma_insert(hash, key, value);
}

/// What was removed is gone: after a removal no equal key has a value, under whatever hash the
/// next call draws.
pub proof fn law_removed_is_gone<K: Eq + Hash, V, H: BuildHasher>(
    before: MapState<K, V>,
    hasher: H,
    key: K,
    hash: u32,
    other: K,
    other_hash: u32,
)
    requires
        chain::lawful_eq::<K>(),
        before.wf(),
        hashing::consistent::<K, H>(hasher),
        hashing::hashes_to(hasher, key, hash),
        hashing::hashes_to(hasher, other, other_hash),
        chain::same_key(key, other),
    ensures
        before.remove(hash, key).lookup(other_hash, other) is None,
{
    before.lemma_remove(hash, key);
}

/// Insertions and removals leave every other key alone.
pub proof fn law_other_keys_are_left_alone<K: PartialEq, V>(
    before: MapState<K, V>,
    hash: u32,
    key: K,
    value: V,
    other_hash: u32,
    other: K,
)
    requires
        chain::lawful_eq::<K>(),
        before.wf(),
        hash != other_hash || !chain::same_key(key, other),
    ensures
        before.has_room(hash, key) ==> before.insert(hash, key, value).lookup(other_hash, other)
            == before.lookup(other_hash, other),
        before.remove(hash, key).lookup(other_hash, other) == before.lookup(other_hash, other),
{
    if before.has_room(hash, key) {
        before.lemma_insert(hash, key, value);
    }
    before.lemma_remove(hash, key);
}

/// The last value inserted for a key is the one held, and the key counts once.
pub proof fn law_last_value_wins<K: PartialEq, V>(
    before: MapState<K, V>,
    hash: u32,
    key: K,
    first: V,
    second: V,
)
    requires
        chain::lawful_eq::<K>(),
        before.wf(),
        before.has_room(hash, key),
    ensures
        ({
            let once = before.insert(hash, key, first);
            let twice = once.insert(hash, key, second);
            &&& once.has_room(hash, key)
            &&& once.lookup(hash, key) == Some(first)
            &&& twice.lookup(hash, key) == Some(second)
            &&& twice.len() == once.len()
            &&& forall|h: u32, k: K|
                h != hash || !chain::same_key(key, k) ==> #[trigger] twice.lookup(h, k)
                    == before.lookup(h, k)
        }),
{
    before.lemma_insert(hash, key, first);
    let once = before.insert(hash, key, first);
    assert(once.lookup(hash, key) == Some(first));
    once.lemma_entries();
    assert(once.contains(hash, key));
    once.lemma_insert(hash, key, second);
    assert forall|h: u32, k: K| h != hash || !chain::same_key(key, k) implies #[trigger] once
        .insert(hash, key, second).lookup(h, k) == before.lookup(h, k) by {
        assert(once.lookup(h, k) == before.lookup(h, k));
    }
}

/// Removing a key undoes the insertion of it into a map that had none: every lookup, and the
/// number of entries, are what they were.
pub proof fn law_remove_undoes_insert<K: PartialEq, V>(
    before: MapState<K, V>,
    hash: u32,
    key: K,
    value: V,
)
    requires
        chain::lawful_eq::<K>(),
        before.wf(),
        before.has_room(hash, key),
        before.lookup(hash, key) is None,
    ensures
        ({
            let after = before.insert(hash, key, value).remove(hash, key);
            &&& after.wf()
            &&& after.len() == before.len()
            &&& forall|h: u32, k: K| #[trigger] after.lookup(h, k) == before.lookup(h, k)
        }),
{
    before.lemma_insert(hash, key, value);
    let filled = before.insert(hash, key, value);
    filled.lemma_remove(hash, key);
    before.lemma_entries();
    filled.lemma_entries();
    assert(filled.lookup(hash, key) == Some(value));
    assert(filled.contains(hash, key));
    let after = filled.remove(hash, key);
    assert forall|h: u32, k: K| #[trigger] after.lookup(h, k) == before.lookup(h, k) by {
        if h == hash && chain::same_key(key, k) {
            assert(before.lookup(h, k) == chain::lookup(before.entries(), h, k));
            assert(before.lookup(hash, key) == chain::lookup(before.entries(), hash, key));
            if chain::has_match(before.entries(), h, k) {
                let i = chain::match_index(before.entries(), h, k);
                assert(chain::match_at(before.entries(), h, k, i));
                assert(chain::same_key(k, key));
                assert(chain::match_at(before.entries(), hash, key, i));
            }
        }
    }
}

/// Removing a key that is not there changes nothing.
pub proof fn law_removing_nothing_changes_nothing<K: PartialEq, V>(
    before: MapState<K, V>,
    hash: u32,
    key: K,
)
    requires
        before.wf(),
        before.lookup(hash, key) is None,
    ensures
        before.remove(hash, key) == before,
{
    before.lemma_segment_of(hash);
    let segment = before.segment(hash);
    segment.lemma_bucket_of(hash);
    assert(segment.remove(hash, key).buckets =~= segment.buckets);
    assert(before.remove(hash, key).segments =~= before.segments);
}

/// Different keys with one hash are held side by side.
pub proof fn law_colliding_keys_coexist<K: PartialEq, V>(
    before: MapState<K, V>,
    hash: u32,
    key: K,
    value: V,
    other: K,
    other_value: V,
)
    requires
        chain::lawful_eq::<K>(),
        before.wf(),
        before.has_room(hash, key),
        before.insert(hash, key, value).has_room(hash, other),
        !chain::same_key(other, key),
    ensures
        ({
            let after = before.insert(hash, key, value).insert(hash, other, other_value);
            &&& after.lookup(hash, key) == Some(value)
            &&& after.lookup(hash, other) == Some(other_value)
        }),
{
    before.lemma_insert(hash, key, value);
    let once = before.insert(hash, key, value);
    once.lemma_insert(hash, other, other_value);
    assert(once.lookup(hash, key) == Some(value));
}

/// The list of entries has exactly one entry for each key that has a value under a hash, with
/// that value, and no others.
pub proof fn law_entries_list_each_key_once<K: PartialEq, V>(
    s: MapState<K, V>,
    hash: u32,
    key: K,
)
    requires
        chain::lawful_eq::<K>(),
        s.wf(),
    ensures
        s.lookup(hash, key) is None <==> !chain::has_match(s.entries(), hash, key),
        forall|i: int|
            chain::match_at(s.entries(), hash, key, i) ==> s.lookup(hash, key) == Some(
                s.entries()[i].value,
            ),
        forall|i: int, j: int|
            chain::match_at(s.entries(), hash, key, i) && chain::match_at(
                s.entries(),
                hash,
                key,
                j,
            ) ==> i == j,
{
    s.lemma_entries();
    assert(s.lookup(hash, key) == chain::lookup(s.entries(), hash, key));
    assert forall|i: int| chain::match_at(s.entries(), hash, key, i) implies s.lookup(hash, key)
        == Some(s.entries()[i].value) && i == chain::match_index(s.entries(), hash, key) by {
        chain::lemma_match_unique(s.entries(), hash, key, i);
    }
}

/// Where equal keys are identical and have equal hashes, the number of entries is the number of
/// keys that have a value.
pub proof fn law_len_counts_keys<K: Eq + Hash, V, H: BuildHasher>(s: MapState<K, V>, hasher: H)
    requires
        chain::lawful_eq::<K>(),
        s.wf(),
        s.hashed_by(hasher),
        hashing::consistent::<K, H>(hasher),
        hashing::concrete_keys::<K>(),
    ensures
        Set::new(|k: K| s.find(k) is Some).finite(),
        Set::new(|k: K| s.find(k) is Some).len() == s.len(),
{
    s.lemma_entries();
    let all = s.entries();
    let keys = Seq::new(all.len(), |i: int| all[i].key);
    assert forall|i: int, j: int| 0 <= i < keys.len() && 0 <= j < keys.len() && i != j implies
        keys[i] != keys[j] by {
        if keys[i] == keys[j] {
            let k = keys[i];
            assert(hashing::hashes_to(hasher, all[i].key, all[i].hash));
            assert(hashing::hashes_to(hasher, all[j].key, all[j].hash));
            assert(chain::same_key(k, k));
            assert(chain::match_at(all, all[i].hash, k, i));
            assert(chain::match_at(all, all[i].hash, k, j));
            chain::lemma_match_unique(all, all[i].hash, k, i);
            chain::lemma_match_unique(all, all[i].hash, k, j);
        }
    }
    keys.unique_seq_to_set();
    let found = Set::new(|k: K| s.find(k) is Some);
    assert forall|k: K| found.contains(k) == keys.to_set().contains(k) by {
        if found.contains(k) {
            let i = choose|i: int| map_state::key_at(all, k, i);
            assert(map_state::key_at(all, k, i));
            assert(keys[i] == k);
        }
        if keys.contains(k) {
            let i = choose|i: int| 0 <= i < keys.len() && keys[i] == k;
            assert(chain::same_key(k, k));
            assert(map_state::key_at(all, k, i));
        }
    }
    assert(found =~= keys.to_set());
}

/// Growth keeps every entry, each as often as it was there, and every lookup. It doubles the
/// number of buckets.
pub proof fn law_growth_keeps_contents<K: PartialEq, V>(s: SegmentState<K, V>)
    requires
        s.structured(),
    ensures
        s.grown().cap() == 2 * s.cap(),
        s.grown().entries().to_multiset() == s.entries().to_multiset(),
        chain::lawful_eq::<K>() ==> forall|h: u32, k: K| #[trigger]
            s.grown().lookup(h, k) == s.lookup(h, k),
{
    s.lemma_grown();
    reveal(is_pow2);
    lemma_distribute_multiset(s.entries(), 2 * s.cap());
}

proof fn lemma_distribute_multiset<K, V>(entries: Seq<CHMEntry<K, V>>, n: nat)
    requires
        n > 0,
    ensures
        segment_state::distribute(entries, n).flatten().to_multiset() == entries.to_multiset(),
    decreases entries.len(),
{
    broadcast use vstd::seq_lib::group_to_multiset_ensures;

    let all = segment_state::distribute(entries, n);
    if entries.len() == 0 {
        reveal(Seq::filter);
        seqs::lemma_flatten_empty(all);
        assert(all.flatten() =~= entries);
    } else {
        let front = entries.drop_last();
        let last = entries.last();
        assert(entries =~= front.push(last));
        lemma_distribute_multiset(front, n);
        segment_state::lemma_distribute_push(front, last, n);
        let before = segment_state::distribute(front, n);
        let b = segment_state::bucket_of(last.hash, n);
        seqs::lemma_flatten_update(before, b, before[b].push(last));
        let head = before.take(b).flatten() + before[b];
        let tail = before.skip(b + 1).flatten();
        assert(before.flatten() == head + tail);
        assert(all.flatten() =~= head.push(last) + tail);
        vstd::seq_lib::lemma_multiset_commutative(head, tail);
        vstd::seq_lib::lemma_multiset_commutative(head.push(last), tail);
        assert(all.flatten().to_multiset() =~= before.flatten().to_multiset().insert(last));
    }
}

/// On growth, the entries of a bucket stay or move up by the old number of buckets.
pub proof fn law_growth_splits_buckets(hash: u32, n: nat)
    requires
        n > 0,
    ensures
        ({
            let b = segment_state::bucket_of(hash, n);
            let c = segment_state::bucket_of(hash, 2 * n);
            c == b || c == b + n
        }),
{
    let h = hash as int;
    let m = n as int;
    let q = h / m;
    let b = h % m;
    vstd::arithmetic::div_mod::lemma_fundamental_div_mod(h, m);
    assert(0 <= b < m);
    let half = q / 2;
    if q % 2 == 0 {
        assert(h == (2 * m) * half + b) by (nonlinear_arith)
            requires
                h == m * q + b,
                q == 2 * half,
        ;
        vstd::arithmetic::div_mod::lemma_fundamental_div_mod_converse(h, 2 * m, half, b);
    } else {
        assert(h == (2 * m) * half + (b + m)) by (nonlinear_arith)
            requires
                h == m * q + b,
                q == 2 * half + 1,
        ;
        vstd::arithmetic::div_mod::lemma_fundamental_div_mod_converse(h, 2 * m, half, b + m);
    }
}

/// A segment holds fewer entries than its limit says, after any insertion and any removal, unless
/// it has no more than four entries in no more than sixteen buckets.
pub proof fn law_segments_stay_below_their_limit<K: PartialEq, V>(
    s: SegmentState<K, V>,
    hash: u32,
    key: K,
    value: V,
)
    requires
        chain::lawful_eq::<K>(),
        s.wf(),
    ensures
        s.len() < s.max || s.len() <= 4 && s.cap() <= 16,
        s.has_room(hash, key) ==> ({
            let after = s.insert(hash, key, value);
            after.len() < after.max || after.len() <= 4 && after.cap() <= 16
        }),
        ({
            let after = s.remove(hash, key);
            after.len() < after.max || after.len() <= 4 && after.cap() <= 16
        }),
{
    s.lemma_len();
    if s.has_room(hash, key) {
        s.lemma_insert(hash, key, value);
        s.insert(hash, key, value).lemma_len();
    }
    s.lemma_remove(hash, key);
    s.remove(hash, key).lemma_len();
}

/// A segment grows only on the insertion of a new key that brings it to its limit. Removals, and
/// insertions for keys that are there, keep its size.
pub proof fn law_when_segments_grow<K: PartialEq, V>(
    s: SegmentState<K, V>,
    hash: u32,
    key: K,
    value: V,
)
    requires
        chain::lawful_eq::<K>(),
        s.wf(),
    ensures
        ({
            let after = s.insert(hash, key, value);
            if !s.contains(hash, key) && s.len() + 1 >= s.max {
                after.cap() == 2 * s.cap() && after.max == s.factor.spec_raised(
                    s.max,
                    2 * s.cap(),
                )
            } else {
                after.cap() == s.cap() && after.max == s.max
            }
        }),
        s.insert(hash, key, value).factor == s.factor,
        s.remove(hash, key).cap() == s.cap(),
        s.remove(hash, key).max == s.max,
        s.remove(hash, key).factor == s.factor,
{
    s.lemma_bucket_of(hash);
    s.lemma_placed(CHMEntry { hash, key, value });
    s.placed(CHMEntry { hash, key, value }).lemma_grown();
}

/// A new key that brings a table to its load factor makes it grow.
pub proof fn law_tables_grow_at_their_load_factor<K: PartialEq, V>(
    s: SegmentState<K, V>,
    hash: u32,
    key: K,
    value: V,
)
    requires
        chain::lawful_eq::<K>(),
        s.wf(),
        !s.contains(hash, key),
        (s.len() + 1) * pow2(149) >= s.cap() * load_factor::magnitude(s.factor.bits),
    ensures
        s.insert(hash, key, value).cap() == 2 * s.cap(),
{
    law_when_segments_grow(s, hash, key, value);
    s.factor.lemma_ceiling_least(s.cap(), s.len() + 1);
}

/// Tables grow in proportion to their limits where the limit was rounded down from the load
/// factor. Where it was rounded up, it stays what the load factor makes of the table, rounded up.
/// A limit that was raised is at most twice the number of entries that raised it.
pub proof fn law_tables_grow_in_proportion<K: PartialEq, V>(
    s: SegmentState<K, V>,
    hash: u32,
    key: K,
    value: V,
)
    requires
        chain::lawful_eq::<K>(),
        s.wf(),
    ensures
        ({
            let after = s.insert(hash, key, value);
            let factor = s.factor;
            &&& s.max <= factor.spec_product(s.cap()) || s.max == factor.spec_ceiling(s.cap())
            &&& s.max <= factor.spec_product(s.cap()) ==> after.cap() * s.max == s.cap() * after.max
                && after.max <= factor.spec_product(after.cap())
            &&& s.max == factor.spec_ceiling(s.cap()) ==> after.max == factor.spec_ceiling(
                after.cap(),
            )
            &&& after.max == s.max || after.max <= 2 * (s.len() + 1)
        }),
{
    law_when_segments_grow(s, hash, key, value);
    reveal(is_pow2);
    s.factor.lemma_raised(s.max, s.cap());
    let (c, m) = (s.cap(), s.max);
    assert((2 * c) * m == c * (2 * m)) by (nonlinear_arith);
}

/// A copy of a segment holds for every key a clone of the value that the segment holds for it.
pub proof fn law_copies_hold_the_same<K: PartialEq + Clone, V: Clone>(
    copy: SegmentState<K, V>,
    original: SegmentState<K, V>,
    hash: u32,
    key: K,
)
    requires
        chain::lawful_eq::<K>(),
        original.wf(),
        copy.copies(original),
        chain::clones_keep_keys::<K>(),
    ensures
        copy.wf(),
        copy.len() == original.len(),
        chain::clone_of(copy.lookup(hash, key), original.lookup(hash, key)),
        match original.lookup(hash, key) {
            Some(v) => copy.lookup(hash, key) matches Some(w) && cloned(v, w),
            None => copy.lookup(hash, key) is None,
        },
{
    copy.lemma_copies(original);
    original.lemma_bucket_of(hash);
    let a = original.chain_of(hash);
    let b = copy.chain_of(hash);
    assert(chain::copies(b, a));
    if chain::has_match(a, hash, key) {
        let i = chain::match_index(a, hash, key);
        assert(chain::match_at(a, hash, key, i));
        assert(chain::same_key(a[i].key, b[i].key));
        assert(chain::same_key(b[i].key, a[i].key));
        assert(chain::same_key(b[i].key, key));
        assert(chain::match_at(b, hash, key, i));
        chain::lemma_match_unique(b, hash, key, i);
    } else if chain::has_match(b, hash, key) {
        let i = chain::match_index(b, hash, key);
        assert(chain::match_at(b, hash, key, i));
        assert(chain::same_key(a[i].key, b[i].key));
        assert(chain::same_key(a[i].key, key));
        assert(chain::match_at(a, hash, key, i));
    }
}

/// The segments share the hashes evenly: each of `n` receives a run of `2^32 / n` of them.
pub proof fn law_segments_share_hashes_evenly(hash: u32, n: nat, s: int)
    requires
        is_pow2(n as int),
        n <= 0x8000_0000,
        0 <= s < n,
    ensures
        map_state::segment_of(hash, n) == s <==> s * (0x1_0000_0000int / n as int) <= hash < (s
            + 1) * (0x1_0000_0000int / n as int),
{
    lemma2_to64();
    arith::lemma_is_pow2(32);
    arith::lemma_pow2_divides(n as int, 0x1_0000_0000);
    reveal(is_pow2);
    let h = hash as int;
    let m = n as int;
    let share = 0x1_0000_0000int / m;
    assert(share > 0);
    let t = map_state::segment_of(hash, n);
    assert(t * 0x1_0000_0000 <= h * m < (t + 1) * 0x1_0000_0000);
    assert(t * share <= h < (t + 1) * share) by (nonlinear_arith)
        requires
            m > 0,
            share * m == 0x1_0000_0000,
            t * 0x1_0000_0000 <= h * m < (t + 1) * 0x1_0000_0000,
    ;
    if s < t {
        assert((s + 1) * share <= t * share) by (nonlinear_arith)
            requires
                s + 1 <= t,
                share > 0,
        ;
    } else if s > t {
        assert((t + 1) * share <= s * share) by (nonlinear_arith)
            requires
                t + 1 <= s,
                share > 0,
        ;
    }
}

/// Options are put in order so that the segment count and the capacity are powers of two, of which
/// the first divides the second. Neither is lowered where a power of two that is as large fits 32
/// bits.
pub proof fn law_options_are_in_order(capacity: nat, segments: nat, load_factor: LoadFactor)
    requires
        segments <= 0x8000_0000,
    ensures
        ({
            let n = arith::ceil_pow2(segments);
            let cap = hash_map::checked_capacity(capacity, n, load_factor);
            &&& is_pow2(n as int)
            &&& is_pow2(cap as int)
            &&& segments <= n <= cap <= 0x8000_0000
            &&& cap % n == 0
            &&& load_factor.in_range() && capacity <= 0x8000_0000 ==> capacity <= cap
        }),
{
    lemma2_to64();
    arith::lemma_is_pow2(30);
    arith::lemma_is_pow2(31);
    arith::law_ceil_pow2_is_least(segments);
    let n = arith::ceil_pow2(segments);
    let wanted = load_factor.spec_quotient(capacity);
    let bound = hash_map::capacity_bound(capacity);
    let bounded = if wanted <= bound {
        wanted
    } else {
        bound
    };
    if load_factor.in_range() {
        load_factor.lemma_quotient_bound(capacity);
    }
    arith::law_ceil_pow2_is_least(bounded);
    let cap = hash_map::checked_capacity(capacity, n, load_factor);
    arith::lemma_pow2_divides(n as int, cap as int);
}

/// A segment count or a load factor that is in order already is kept.
pub proof fn law_options_in_order_are_kept(segments: nat, load_factor: LoadFactor)
    ensures
        is_pow2(segments as int) ==> arith::ceil_pow2(segments) == segments,
        load_factor.in_range() ==> load_factor.spec_clamped() == load_factor,
{
    if is_pow2(segments as int) {
        reveal(is_pow2);
        arith::law_ceil_pow2_is_least(segments);
    }
}

/// Any `==` that is known to be an equivalence relation is lawful, and clones keep keys if and
/// only if `==` finds every clone equal.
pub proof fn law_equivalences_are_lawful<K: Eq + Clone>()
    requires
        K::obeys_eq_spec(),
        forall|a: K| #[trigger] a.eq_spec(&a),
        forall|a: K, b: K| #[trigger] a.eq_spec(&b) ==> b.eq_spec(&a),
        forall|a: K, b: K, c: K|
            #[trigger] a.eq_spec(&b) && #[trigger] b.eq_spec(&c) ==> a.eq_spec(&c),
    ensures
        chain::lawful_eq::<K>(),
        chain::clones_keep_keys::<K>() <==> forall|a: K, b: K| #[trigger]
            cloned(a, b) ==> a.eq_spec(&b),
        hashing::concrete_keys::<K>() <==> forall|a: K, b: K| #[trigger] a.eq_spec(&b) ==> a == b,
{
    if forall|a: K, b: K| #[trigger] a.eq_spec(&b) ==> a == b {
        assert forall|a: K, b: K| #[trigger] chain::same_key(a, b) implies a == b by {
            assert(a.eq_spec(&b));
        }
    }
    if hashing::concrete_keys::<K>() {
        assert forall|a: K, b: K| #[trigger] a.eq_spec(&b) implies a == b by {
            assert(chain::same_key(a, b));
        }
    }
    if chain::clones_keep_keys::<K>() {
        assert forall|a: K, b: K| #[trigger] cloned(a, b) implies a.eq_spec(&b) by {
            assert(chain::same_key(a, b));
        }
    }
}

/// Numbers are lawful keys, and no two of them are the same.
pub proof fn law_numbers_are_lawful_keys()
    ensures
        chain::lawful_eq::<u32>() && hashing::concrete_keys::<u32>()
            && chain::clones_keep_keys::<u32>(),
        chain::lawful_eq::<u64>() && hashing::concrete_keys::<u64>()
            && chain::clones_keep_keys::<u64>(),
        chain::lawful_eq::<usize>() && hashing::concrete_keys::<usize>()
            && chain::clones_keep_keys::<usize>(),
        chain::lawful_eq::<i32>() && hashing::concrete_keys::<i32>()
            && chain::clones_keep_keys::<i32>(),
{
}

/// `==` on keys that are lawful is an equivalence relation, and is what makes keys the same.
pub proof fn law_sameness_of_keys_is_an_equivalence<K: PartialEq>(a: K, b: K, c: K)
    requires
        chain::lawful_eq::<K>(),
    ensures
        chain::same_key(a, b) <==> a.eq_spec(&b),
        chain::same_key(a, a),
        chain::same_key(a, b) ==> chain::same_key(b, a),
        chain::same_key(a, b) && chain::same_key(b, c) ==> chain::same_key(a, c),
{
}

/// The hash of a key is the low half of a digest that the hasher gives for it, and any digest
/// gives one.
pub proof fn law_hashes_are_low_halves_of_digests<K: Hash, H: BuildHasher>(
    hasher: H,
    key: K,
    hash: u32,
)
    ensures
        hashing::hashes_to(hasher, key, hash) <==> exists|digest: u64| #[trigger]
            hashing::is_digest(hasher, key, digest) && digest % 0x1_0000_0000 == hash,
{
    assert forall|digest: u64| #[trigger]
        hashing::is_digest(hasher, key, digest) implies digest as u32 == digest % 0x1_0000_0000 by {
        assert(digest as u32 == digest % 0x1_0000_0000) by (bit_vector);
    }
}

/// A hasher is consistent if and only if it gives equal keys equal hashes. It is where no key has
/// two digests and only identical keys are equal. Under a consistent hasher a key has one hash.
pub proof fn law_one_hash_for_one_key<K: Eq + Hash, H: BuildHasher>(hasher: H)
    ensures
        hashing::consistent::<K, H>(hasher) <==> forall|j: K, k: K, g: u32, h: u32| #[trigger]
            hashing::hashes_to(hasher, j, g) && #[trigger] hashing::hashes_to(hasher, k, h)
                && j.eq_spec(&k) ==> g == h,
        (forall|key: K, a: u64, b: u64| #[trigger]
            hashing::is_digest(hasher, key, a) && #[trigger] hashing::is_digest(hasher, key, b)
                ==> a == b) && (forall|a: K, b: K| #[trigger] a.eq_spec(&b) ==> a == b)
            ==> hashing::consistent::<K, H>(hasher),
        chain::lawful_eq::<K>() && hashing::consistent::<K, H>(hasher) ==> forall|
            k: K,
            g: u32,
            h: u32,
        | #[trigger]
            hashing::hashes_to(hasher, k, g) && #[trigger] hashing::hashes_to(hasher, k, h) ==> g
                == h,
{
    if forall|a: K, b: K| #[trigger] a.eq_spec(&b) ==> a == b {
        assert forall|j: K, k: K| chain::same_key(j, k) implies j == k by {
            assert(j.eq_spec(&k) ==> j == k);
        }
    }
    if chain::lawful_eq::<K>() && hashing::consistent::<K, H>(hasher) {
        assert forall|k: K, g: u32, h: u32| #[trigger]
            hashing::hashes_to(hasher, k, g) && #[trigger] hashing::hashes_to(
                hasher,
                k,
                h,
            ) implies g == h by {
            assert(chain::same_key(k, k));
        }
    }
}

/// A map is a dictionary, whatever it holds, where `==` on its keys is lawful and its hasher gives
/// equal keys equal hashes.
pub proof fn law_what_makes_a_dictionary<
    K: Eq + Hash + Sync + Clone,
    V: Sync + Clone,
    H: BuildHasher,
>(map: &ConcurrentHashMap<K, V, H>)
    ensures
        map.is_dictionary() <==> chain::lawful_eq::<K>() && hashing::consistent::<K, H>(
            map.hasher(),
        ),
{
}

/// A new map has as many segments as asked for, each with as many empty buckets as asked for, and
/// with the limit that the load factor gives for that many.
pub proof fn law_new_maps_have_the_shape_asked_for<K: PartialEq, V>(
    n: nat,
    cap: nat,
    factor: LoadFactor,
    s: int,
)
    requires
        is_pow2(cap as int),
        factor.in_range(),
        0 <= s < n,
    ensures
        ({
            let map = MapState::<K, V>::empty(n, cap, factor);
            let segment = map.segments[s];
            let w = cap * load_factor::magnitude(factor.bits);
            &&& map.segments.len() == n
            &&& segment.buckets.len() == cap
            &&& forall|b: int| 0 <= b < cap ==> (#[trigger] segment.buckets[b]).len() == 0
            &&& segment.factor == factor
            &&& segment.max >= 1
            &&& (segment.max + 1) * pow2(149) > w
            &&& segment.max * pow2(149) <= w || segment.max == 1
        }),
{
    crate::sizing_laws::law_new_tables_grow_at_their_load_factor(factor, cap);
}

/// There is no room for a key only where the table of its segment is as large as it can be, the
/// key is not there, and one more entry would make the table grow.
pub proof fn law_room_is_lacking_only_at_the_largest_size<K: PartialEq, V>(
    s: MapState<K, V>,
    hash: u32,
    key: K,
)
    requires
        chain::lawful_eq::<K>(),
        s.wf(),
    ensures
        ({
            let segment = s.segments[map_state::segment_of(hash, s.segments.len())];
            !s.has_room(hash, key) <==> segment.buckets.len() == 0x8000_0000
                && segment.entries().len() + 1 >= segment.max && s.lookup(hash, key) is None
        }),
{
    s.lemma_segment_of(hash);
    s.lemma_entries();
    assert(s.segment(hash).wf());
}

/// A segment holds a value for a key under a hash if and only if one of its entries is for them,
/// and then it is the value of that entry, of which there is only one.
pub proof fn law_segments_hold_what_their_entries_say<K: PartialEq, V>(
    s: SegmentState<K, V>,
    hash: u32,
    key: K,
)
    requires
        chain::lawful_eq::<K>(),
        s.wf(),
    ensures
        s.contains(hash, key) <==> s.lookup(hash, key) is Some,
        s.lookup(hash, key) is None ==> forall|i: int|
            0 <= i < s.entries().len() ==> !((#[trigger] s.entries()[i]).hash == hash
                && s.entries()[i].key.eq_spec(&key)),
        s.lookup(hash, key) is Some ==> exists|i: int|
            0 <= i < s.entries().len() && (#[trigger] s.entries()[i]).hash == hash
                && s.entries()[i].key.eq_spec(&key),
        forall|i: int|
            0 <= i < s.entries().len() && (#[trigger] s.entries()[i]).hash == hash
                && s.entries()[i].key.eq_spec(&key) ==> s.lookup(hash, key) == Some(
                s.entries()[i].value,
            ),
        forall|i: int, j: int|
            0 <= i < j < s.entries().len() && (#[trigger] s.entries()[i]).hash == (
            #[trigger] s.entries()[j]).hash ==> !s.entries()[i].key.eq_spec(&s.entries()[j].key),
{
    s.lemma_entries();
    s.lemma_bucket_of(hash);
    let all = s.entries();
    assert(s.lookup(hash, key) == chain::lookup(all, hash, key));
    assert(s.contains(hash, key) == chain::has_match(all, hash, key));
    assert forall|i: int|
        0 <= i < all.len() && (#[trigger] all[i]).hash == hash && all[i].key.eq_spec(
            &key,
        ) implies s.lookup(hash, key) == Some(all[i].value) by {
        assert(chain::match_at(all, hash, key, i));
        chain::lemma_match_unique(all, hash, key, i);
    }
    if chain::has_match(all, hash, key) {
        let i = chain::match_index(all, hash, key);
        assert(chain::match_at(all, hash, key, i));
    }
    assert forall|i: int, j: int|
        0 <= i < j < all.len() && (#[trigger] all[i]).hash == (
        #[trigger] all[j]).hash implies !all[i].key.eq_spec(&all[j].key) by {
        assert(!all[i].matches(all[j].hash, all[j].key));
    }
}

/// The entries of a segment are what its buckets hold, and those of a map are what its segments
/// hold.
pub proof fn law_entries_are_all_that_is_held<K: PartialEq, V>(
    s: MapState<K, V>,
    e: CHMEntry<K, V>,
)
    ensures
        s.entries().contains(e) <==> exists|t: int, b: int|
            0 <= t < s.segments.len() && 0 <= b < s.segments[t].buckets.len()
                && #[trigger] s.segments[t].buckets[b].contains(e),
        s.len() == s.entries().len(),
{
    seqs::lemma_flatten_has(s.parts(), e);
    assert forall|t: int| 0 <= t < s.segments.len() implies (#[trigger] s.parts()[t]).contains(e)
        == exists|b: int|
        0 <= b < s.segments[t].buckets.len() && #[trigger] s.segments[t].buckets[b].contains(e) by {
        seqs::lemma_flatten_has(s.segments[t].buckets, e);
    }
    if s.entries().contains(e) {
        let t = choose|t: int| 0 <= t < s.parts().len() && (#[trigger] s.parts()[t]).contains(e);
        let b = choose|b: int|
            0 <= b < s.segments[t].buckets.len() && #[trigger] s.segments[t].buckets[b].contains(e);
        assert(s.segments[t].buckets[b].contains(e));
    }
    if exists|t: int, b: int|
        0 <= t < s.segments.len() && 0 <= b < s.segments[t].buckets.len()
            && #[trigger] s.segments[t].buckets[b].contains(e) {
        let (t, b) = choose|t: int, b: int|
            0 <= t < s.segments.len() && 0 <= b < s.segments[t].buckets.len()
                && #[trigger] s.segments[t].buckets[b].contains(e);
        assert(s.parts()[t].contains(e));
    }
}

/// The entries of a segment are those of its buckets, one after another, and those of a map are
/// those of its segments, one after another. Both are counted in full, and so are buckets and
/// segments.
pub proof fn law_entries_come_in_order<K: PartialEq, V>(
    s: MapState<K, V>,
    segment: SegmentState<K, V>,
)
    ensures
        segment.entries() == segment.buckets.flatten(),
        segment.len() == segment.buckets.flatten().len(),
        segment.cap() == segment.buckets.len(),
        s.count() == s.segments.len(),
        s.len() == s.entries().len(),
        s.entries() == Seq::new(
            s.segments.len(),
            |t: int| s.segments[t].buckets.flatten(),
        ).flatten(),
{
    assert(s.parts() =~= Seq::new(s.segments.len(), |t: int| s.segments[t].buckets.flatten()));
}

/// Every entry stands in the segment that the top bits of its hash name and in the bucket that
/// the low bits name.
pub proof fn law_entries_stand_where_their_hashes_say<K: PartialEq, V>(
    s: MapState<K, V>,
    t: int,
    b: int,
    i: int,
)
    requires
        s.wf(),
        0 <= t < s.segments.len(),
        0 <= b < s.segments[t].buckets.len(),
        0 <= i < s.segments[t].buckets[b].len(),
    ensures
        ({
            let hash = s.segments[t].buckets[b][i].hash as int;
            &&& t * 0x1_0000_0000 <= hash * s.segments.len() < (t + 1) * 0x1_0000_0000
            &&& hash % (s.segments[t].buckets.len() as int) == b
        }),
{
    let segment = s.segments[t];
    assert(segment.wf());
    let e = segment.buckets[b][i];
    seqs::lemma_flatten_contains(segment.buckets, b, i);
    let j = segment.buckets.take(b).flatten().len() + i;
    assert(s.parts()[t][j] == e);
    assert(map_state::segment_of(e.hash, s.count()) == t);
}

/// Within its bucket, a new entry goes last and one for a key that is there takes the place of the
/// old one. A removal keeps the order of the others. Other buckets are left alone, unless the
/// segment grows.
pub proof fn law_buckets_keep_their_order<K: PartialEq, V>(
    s: SegmentState<K, V>,
    hash: u32,
    key: K,
    value: V,
    b: int,
)
    requires
        chain::lawful_eq::<K>(),
        s.wf(),
        0 <= b < s.buckets.len(),
    ensures
        hash as int % s.buckets.len() as int != b && s.insert(hash, key, value).buckets.len()
            == s.buckets.len() ==> s.insert(hash, key, value).buckets[b] == s.buckets[b],
        hash as int % s.buckets.len() as int == b && s.lookup(hash, key) is None && s.insert(
            hash,
            key,
            value,
        ).buckets.len() == s.buckets.len() ==> s.insert(hash, key, value).buckets[b]
            == s.buckets[b].push(CHMEntry { hash, key, value }),
        hash as int % s.buckets.len() as int == b && s.lookup(hash, key) is Some ==> exists|i: int|
            0 <= i < s.buckets[b].len() && s.insert(hash, key, value).buckets[b]
                == #[trigger] s.buckets[b].update(i, CHMEntry { hash, key, value }),
        hash as int % s.buckets.len() as int != b || s.lookup(hash, key) is None ==> s.remove(
            hash,
            key,
        ).buckets[b] == s.buckets[b],
        hash as int % s.buckets.len() as int == b && s.lookup(hash, key) is Some ==> exists|i: int|
            0 <= i < s.buckets[b].len() && s.remove(hash, key).buckets[b]
                == #[trigger] s.buckets[b].remove(i),
{
    let entry = CHMEntry { hash, key, value };
    s.lemma_bucket_of(hash);
    s.lemma_placed(entry);
    s.placed(entry).lemma_grown();
    law_segments_hold_what_their_entries_say(s, hash, key);
    let links = s.chain_of(hash);
    if chain::has_match(links, hash, key) {
        let at = chain::match_index(links, hash, key);
        assert(chain::match_at(links, hash, key, at));
        if b == segment_state::bucket_of(hash, s.cap()) {
            assert(s.buckets[b] == links);
            assert(s.placed(entry).buckets[b] == s.buckets[b].update(at, entry));
            assert(s.remove(hash, key).buckets[b] == s.buckets[b].remove(at));
        }
    }
}

/// On growth, every bucket gets its entries in the order in which they stood.
pub proof fn law_growth_keeps_the_order<K: PartialEq, V>(s: SegmentState<K, V>, b: int)
    requires
        0 <= b < 2 * s.buckets.len(),
    ensures
        s.grown().buckets[b] == s.entries().filter(
            |e: CHMEntry<K, V>| e.hash as int % (2 * s.buckets.len()) as int == b,
        ),
{
    let n = 2 * s.buckets.len();
    assert((|e: CHMEntry<K, V>| segment_state::bucket_of(e.hash, n) == b) =~= (|
        e: CHMEntry<K, V>,
    | e.hash as int % n as int == b));
}

/// An insertion or removal touches the segment that the hash names, and no other.
pub proof fn law_other_segments_are_left_alone<K: PartialEq, V>(
    s: MapState<K, V>,
    hash: u32,
    key: K,
    value: V,
    t: int,
)
    requires
        s.wf(),
        0 <= t < s.segments.len(),
    ensures
        s.insert(hash, key, value).segments.len() == s.segments.len(),
        s.remove(hash, key).segments.len() == s.segments.len(),
        t * 0x1_0000_0000 <= hash * s.segments.len() < (t + 1) * 0x1_0000_0000 ==> s.insert(
            hash,
            key,
            value,
        ).segments[t] == s.segments[t].insert(hash, key, value) && s.remove(hash, key).segments[t]
            == s.segments[t].remove(hash, key),
        !(t * 0x1_0000_0000 <= hash * s.segments.len() < (t + 1) * 0x1_0000_0000) ==> s.insert(
            hash,
            key,
            value,
        ).segments[t] == s.segments[t] && s.remove(hash, key).segments[t] == s.segments[t],
{
    s.lemma_segment_of(hash);
}

/// After an insertion into a segment, its entries are the new one and those that were there for
/// other keys. After a removal, they are those that were there for other keys.
pub proof fn law_segments_change_one_entry<K: PartialEq, V>(
    s: SegmentState<K, V>,
    hash: u32,
    key: K,
    value: V,
    e: CHMEntry<K, V>,
)
    requires
        chain::lawful_eq::<K>(),
        s.wf(),
    ensures
        s.insert(hash, key, value).entries().contains(e) <==> e == (CHMEntry { hash, key, value })
            || (s.entries().contains(e) && !(e.hash == hash && e.key.eq_spec(&key))),
        s.remove(hash, key).entries().contains(e) <==> s.entries().contains(e) && !(e.hash == hash
            && e.key.eq_spec(&key)),
{
    let entry = CHMEntry { hash, key, value };
    let b = segment_state::bucket_of(hash, s.cap());
    let links = s.buckets[b];
    s.lemma_bucket_of(hash);
    s.lemma_placed(entry);
    chain::lemma_put_contains(links, entry, e);
    chain::lemma_without_contains(links, hash, key, e);
    let placed = s.placed(entry);
    let removed = s.remove(hash, key);
    lemma_bucket_replaced(s, b, chain::put(links, entry), hash, key, e);
    lemma_bucket_replaced(s, b, chain::without(links, hash, key), hash, key, e);
    law_growth_keeps_contents(placed);
    vstd::seq_lib::to_multiset_contains(placed.entries(), e);
    vstd::seq_lib::to_multiset_contains(placed.grown().entries(), e);
}

/// What the entries are after the chain of one bucket was replaced by one that differs only in
/// entries for a key of that bucket.
proof fn lemma_bucket_replaced<K: PartialEq, V>(
    s: SegmentState<K, V>,
    b: int,
    c: Seq<CHMEntry<K, V>>,
    hash: u32,
    key: K,
    e: CHMEntry<K, V>,
)
    requires
        s.structured(),
        0 <= b < s.cap(),
        b == segment_state::bucket_of(hash, s.cap()),
        c.contains(e) ==> s.buckets[b].contains(e) || (e.hash == hash && e.key.eq_spec(&key)),
        !(e.hash == hash && e.key.eq_spec(&key)) ==> (s.buckets[b].contains(e) ==> c.contains(e)),
    ensures
        e.hash == hash && e.key.eq_spec(&key) ==> (s.buckets.update(b, c).flatten().contains(e)
            <==> c.contains(e)),
        !(e.hash == hash && e.key.eq_spec(&key)) ==> (s.buckets.update(b, c).flatten().contains(e)
            <==> s.entries().contains(e)),
{
    let after = s.buckets.update(b, c);
    seqs::lemma_flatten_has(s.buckets, e);
    seqs::lemma_flatten_has(after, e);
    assert(after[b] == c);
    if e.hash == hash && e.key.eq_spec(&key) {
        assert forall|d: int| 0 <= d < after.len() && d != b implies !(
        #[trigger] after[d]).contains(e) by {
            if after[d].contains(e) {
                let i = choose|i: int| 0 <= i < after[d].len() && after[d][i] == e;
                assert(s.buckets[d][i] == e);
            }
        }
    } else {
        if s.entries().contains(e) {
            let d = choose|d: int| 0 <= d < s.buckets.len() && (#[trigger] s.buckets[d]).contains(e);
            assert(after[d].contains(e));
        }
        if after.flatten().contains(e) {
            let d = choose|d: int| 0 <= d < after.len() && (#[trigger] after[d]).contains(e);
            assert(s.buckets[d].contains(e));
        }
    }
}

/// After an insertion into a map, its entries are the new one and those that were there for other
/// keys. After a removal, they are those that were there for other keys.
pub proof fn law_maps_change_one_entry<K: PartialEq, V>(
    s: MapState<K, V>,
    hash: u32,
    key: K,
    value: V,
    e: CHMEntry<K, V>,
)
    requires
        chain::lawful_eq::<K>(),
        s.wf(),
    ensures
        s.insert(hash, key, value).entries().contains(e) <==> e == (CHMEntry { hash, key, value })
            || (s.entries().contains(e) && !(e.hash == hash && e.key.eq_spec(&key))),
        s.remove(hash, key).entries().contains(e) <==> s.entries().contains(e) && !(e.hash == hash
            && e.key.eq_spec(&key)),
{
    s.lemma_segment_of(hash);
    let t = map_state::segment_of(hash, s.count());
    let segment = s.segments[t];
    assert(segment.wf());
    assert(chain::same_key(key, key));
    law_segments_change_one_entry(segment, hash, key, value, e);
    lemma_segment_replaced(s, t, segment.insert(hash, key, value), hash, key, e);
    lemma_segment_replaced(s, t, segment.remove(hash, key), hash, key, e);
}

/// What the entries are after one segment was replaced by one that differs only in entries for a
/// key of that segment.
proof fn lemma_segment_replaced<K: PartialEq, V>(
    s: MapState<K, V>,
    t: int,
    segment: SegmentState<K, V>,
    hash: u32,
    key: K,
    e: CHMEntry<K, V>,
)
    requires
        s.wf(),
        0 <= t < s.count(),
        t == map_state::segment_of(hash, s.count()),
        segment.entries().contains(e) ==> s.segments[t].entries().contains(e) || (e.hash == hash
            && e.key.eq_spec(&key)),
        !(e.hash == hash && e.key.eq_spec(&key)) ==> (s.segments[t].entries().contains(e)
            ==> segment.entries().contains(e)),
    ensures
        ({
            let after = MapState { segments: s.segments.update(t, segment) };
            &&& e.hash == hash && e.key.eq_spec(&key) ==> (after.entries().contains(e)
                <==> segment.entries().contains(e))
            &&& !(e.hash == hash && e.key.eq_spec(&key)) ==> (after.entries().contains(e)
                <==> s.entries().contains(e))
        }),
{
    let after = MapState { segments: s.segments.update(t, segment) };
    let (old_parts, parts) = (s.parts(), after.parts());
    seqs::lemma_flatten_has(old_parts, e);
    seqs::lemma_flatten_has(parts, e);
    assert(parts[t] == segment.entries());
    assert(forall|d: int| 0 <= d < parts.len() && d != t ==> parts[d] == old_parts[d]);
    if e.hash == hash && e.key.eq_spec(&key) {
        assert forall|d: int| 0 <= d < parts.len() && d != t implies !(
        #[trigger] parts[d]).contains(e) by {
            if parts[d].contains(e) {
                let i = choose|i: int| 0 <= i < parts[d].len() && parts[d][i] == e;
                assert(old_parts[d][i] == e);
            }
        }
    } else {
        if s.entries().contains(e) {
            let d = choose|d: int| 0 <= d < old_parts.len() && (#[trigger] old_parts[d]).contains(e);
            assert(parts[d].contains(e));
        }
        if after.entries().contains(e) {
            let d = choose|d: int| 0 <= d < parts.len() && (#[trigger] parts[d]).contains(e);
            assert(old_parts[d].contains(e));
        }
    }
}

/// A dictionary holds a value for a key if and only if one of its entries is for it, and then it
/// is the value of that entry, of which there is only one.
pub proof fn law_dictionaries_hold_what_their_entries_say<K: Eq + Hash, V, H: BuildHasher>(
    s: MapState<K, V>,
    hasher: H,
    key: K,
)
    requires
        chain::lawful_eq::<K>(),
        s.wf(),
        s.hashed_by(hasher),
        hashing::consistent::<K, H>(hasher),
    ensures
        s.find(key) is None ==> forall|i: int|
            0 <= i < s.entries().len() ==> !(#[trigger] s.entries()[i]).key.eq_spec(&key),
        s.find(key) is Some ==> exists|i: int|
            0 <= i < s.entries().len() && (#[trigger] s.entries()[i]).key.eq_spec(&key),
        forall|i: int|
            0 <= i < s.entries().len() && (#[trigger] s.entries()[i]).key.eq_spec(&key) ==> s.find(
                key,
            ) == Some(s.entries()[i].value),
        forall|i: int, j: int|
            0 <= i < j < s.entries().len() ==> !(#[trigger] s.entries()[i]).key.eq_spec(
                &(#[trigger] s.entries()[j]).key,
            ),
{
    let all = s.entries();
    s.lemma_entries();
    assert forall|i: int| 0 <= i < all.len() && (#[trigger] all[i]).key.eq_spec(&key) implies s.find(
        key,
    ) == Some(all[i].value) by {
        assert(map_state::key_at(all, key, i));
        s.lemma_find_entry(hasher, key, i);
    }
    if s.find(key) is Some {
        let i = choose|i: int| map_state::key_at(all, key, i);
        assert(map_state::key_at(all, key, i));
    }
    assert forall|i: int, j: int| 0 <= i < j < all.len() implies !(#[trigger] all[i]).key.eq_spec(
        &(#[trigger] all[j]).key,
    ) by {
        assert(hashing::hashes_to(hasher, all[i].key, all[i].hash));
        assert(hashing::hashes_to(hasher, all[j].key, all[j].hash));
        if all[i].key.eq_spec(&all[j].key) {
            assert(chain::same_key(all[i].key, all[j].key));
            assert(all[i].matches(all[j].hash, all[j].key));
        }
    }
}

/// The list that a map gives of its entries has one pair for each entry, and so one for each key
/// that has a value: a clone of a key that is the same, and a clone of the value.
pub proof fn law_the_list_of_entries_is_complete<K: Eq + Hash + Clone, V: Clone, H: BuildHasher>(
    s: MapState<K, V>,
    hasher: H,
    pairs: Seq<(K, V)>,
    key: K,
)
    requires
        chain::lawful_eq::<K>(),
        s.wf(),
        s.hashed_by(hasher),
        hashing::consistent::<K, H>(hasher),
        chain::pairs_of(pairs, s.entries()),
    ensures
        pairs.len() == s.len(),
        s.find(key) is Some ==> exists|i: int, held: K|
            0 <= i < pairs.len() && held.eq_spec(&key) && #[trigger] cloned(held, pairs[i].0)
                && cloned(s.find(key)->0, pairs[i].1),
        chain::clones_keep_keys::<K>() && s.find(key) is Some ==> exists|i: int|
            0 <= i < pairs.len() && (#[trigger] pairs[i]).0.eq_spec(&key) && cloned(
                s.find(key)->0,
                pairs[i].1,
            ),
        chain::clones_keep_keys::<K>() && s.find(key) is None ==> forall|i: int|
            0 <= i < pairs.len() ==> !(#[trigger] pairs[i]).0.eq_spec(&key),
        chain::clones_keep_keys::<K>() ==> forall|i: int, j: int|
            0 <= i < j < pairs.len() ==> !(#[trigger] pairs[i]).0.eq_spec(
                &(#[trigger] pairs[j]).0,
            ),
{
    law_dictionaries_hold_what_their_entries_say(s, hasher, key);
    let all = s.entries();
    if s.find(key) is Some {
        let i = choose|i: int| 0 <= i < all.len() && (#[trigger] all[i]).key.eq_spec(&key);
        assert(cloned(all[i].key, pairs[i].0));
        if chain::clones_keep_keys::<K>() {
            assert(chain::same_key(all[i].key, pairs[i].0));
            assert(chain::same_key(pairs[i].0, all[i].key));
            assert(chain::same_key(pairs[i].0, key));
        }
    } else if chain::clones_keep_keys::<K>() {
        assert forall|i: int| 0 <= i < pairs.len() implies !(#[trigger] pairs[i]).0.eq_spec(&key) by {
            assert(cloned(all[i].key, pairs[i].0));
            assert(chain::same_key(all[i].key, pairs[i].0));
            if pairs[i].0.eq_spec(&key) {
                assert(chain::same_key(all[i].key, key));
            }
        }
    }
    if chain::clones_keep_keys::<K>() {
        assert forall|i: int, j: int| 0 <= i < j < pairs.len() implies !(
        #[trigger] pairs[i]).0.eq_spec(&(#[trigger] pairs[j]).0) by {
            let (a, b) = (all[i].key, all[j].key);
            let (c, d) = (pairs[i].0, pairs[j].0);
            assert(cloned(a, c) && cloned(b, d));
            assert(chain::same_key(a, c) && chain::same_key(b, d));
            assert(chain::same_key(d, b));
            if c.eq_spec(&d) {
                assert(chain::same_key(a, d));
                assert(chain::same_key(a, b));
            }
        }
    }
}

/// An insertion and a removal each go under one hash of the key. They return what was held under
/// it, leave the value or nothing there, and leave every other key alone.
pub proof fn law_operations_go_under_a_hash_of_the_key<K: Eq + Hash, V, H: BuildHasher>(
    before: MapState<K, V>,
    hasher: H,
    key: K,
    value: V,
    after: MapState<K, V>,
    r: Option<V>,
)
    requires
        chain::lawful_eq::<K>(),
        before.wf(),
        forall|hash: u32| #[trigger]
            hashing::hashes_to(hasher, key, hash) ==> before.has_room(hash, key),
    ensures
        before.inserted(hasher, key, value, after, r) ==> exists|hash: u32| #[trigger]
            hashing::hashes_to(hasher, key, hash) && r == before.lookup(hash, key) && forall|
                h: u32,
                k: K,
            | #[trigger]
                after.lookup(h, k) == if h == hash && key.eq_spec(&k) {
                    Some(value)
                } else {
                    before.lookup(h, k)
                },
        before.removed(hasher, key, after, r) ==> exists|hash: u32| #[trigger]
            hashing::hashes_to(hasher, key, hash) && r == before.lookup(hash, key) && forall|
                h: u32,
                k: K,
            | #[trigger]
                after.lookup(h, k) == if h == hash && key.eq_spec(&k) {
                    None
                } else {
                    before.lookup(h, k)
                },
{
    if before.inserted(hasher, key, value, after, r) {
        let hash = choose|hash: u32| #[trigger]
            hashing::hashes_to(hasher, key, hash) && after == before.insert(hash, key, value) && r
                == before.lookup(hash, key);
        before.lemma_insert(hash, key, value);
    }
    if before.removed(hasher, key, after, r) {
        let hash = choose|hash: u32| #[trigger]
            hashing::hashes_to(hasher, key, hash) && after == before.remove(hash, key) && r
                == before.lookup(hash, key);
        before.lemma_remove(hash, key);
    }
}

/// A read gives a clone of what is held under a hash of the key, and nothing if and only if
/// nothing is held.
pub proof fn law_reads_give_clones_of_what_is_held<K: Eq + Hash, V: Clone, H: BuildHasher>(
    s: MapState<K, V>,
    hasher: H,
    key: K,
    r: Option<V>,
)
    requires
        s.got(hasher, key, r),
    ensures
        exists|hash: u32| #[trigger]
            hashing::hashes_to(hasher, key, hash) && match s.lookup(hash, key) {
                Some(v) => r matches Some(w) && cloned(v, w),
                None => r is None,
            },
{
}

/// A new key makes a table with the limit of a new one grow only if one more entry would bring it
/// above its load factor.
pub proof fn law_tables_grow_no_earlier_than_their_load_factor<K: PartialEq, V>(
    s: SegmentState<K, V>,
    hash: u32,
    key: K,
    value: V,
)
    requires
        chain::lawful_eq::<K>(),
        s.wf(),
        s.max == SegmentState::<K, V>::empty(s.cap(), s.factor).max,
        s.insert(hash, key, value).cap() != s.cap(),
    ensures
        s.lookup(hash, key) is None,
        (s.len() + 2) * pow2(149) > s.cap() * load_factor::magnitude(s.factor.bits),
{
    law_when_segments_grow(s, hash, key, value);
    law_segments_hold_what_their_entries_say(s, hash, key);
    crate::sizing_laws::law_new_tables_grow_at_their_load_factor(s.factor, s.cap());
    let p = pow2(149) as int;
    let (l, n) = (s.max as int, s.len() as int);
    lemma_pow2_pos(149);
    assert((n + 2) * p >= (l + 1) * p) by (nonlinear_arith)
        requires
            n + 1 >= l,
            p > 0,
    ;
}

/// A copy of a segment has the same buckets, limit and load factor, and in the same places entries
/// under the same hashes, with clones of the keys and of the values.
pub proof fn law_copies_are_entry_by_entry<K: PartialEq + Clone, V: Clone>(
    copy: SegmentState<K, V>,
    original: SegmentState<K, V>,
    b: int,
    i: int,
)
    requires
        copy.copies(original),
        0 <= b < original.buckets.len(),
    ensures
        copy.buckets.len() == original.buckets.len(),
        copy.max == original.max,
        copy.factor == original.factor,
        copy.entries().len() == original.entries().len(),
        copy.buckets[b].len() == original.buckets[b].len(),
        0 <= i < original.buckets[b].len() ==> {
            &&& copy.buckets[b][i].hash == original.buckets[b][i].hash
            &&& cloned(original.buckets[b][i].key, copy.buckets[b][i].key)
            &&& cloned(original.buckets[b][i].value, copy.buckets[b][i].value)
        },
{
    assert(chain::copies(copy.buckets[b], original.buckets[b]));
    assert forall|d: int| 0 <= d < copy.buckets.len() implies (#[trigger] copy.buckets[d]).len()
        == original.buckets[d].len() by {
        assert(chain::copies(copy.buckets[d], original.buckets[d]));
    }
    seqs::lemma_flatten_same_len(copy.buckets, original.buckets);
}

} // verus!
