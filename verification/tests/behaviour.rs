#![allow(deprecated)]
use concurrent_hash_map::arith::next_power_of_two;
use concurrent_hash_map::chain::{copy, find, CHMEntry};
use concurrent_hash_map::hashing::{hash_key, random_state};
use concurrent_hash_map::{CHMInner, CHMSegment, ConcurrentHashMap, LoadFactor, SegmentMask};
use std::collections::hash_map::RandomState;
use std::hash::{BuildHasher, BuildHasherDefault, Hash, Hasher, SipHasher};

type Sip = BuildHasherDefault<SipHasher>;

fn factor(value: f32) -> LoadFactor {
    LoadFactor::from_bits(value.to_bits())
}

fn sip_map(capacity: u32, segments: u32, load_factor: f32) -> ConcurrentHashMap<u32, u32, Sip> {
    ConcurrentHashMap::new_with_options(capacity, segments, factor(load_factor), Sip::default())
}

#[test]
fn powers_of_two_are_rounded_up() {
    let cases: [(u32, u32); 9] = [
        (0, 1),
        (1, 1),
        (2, 2),
        (3, 4),
        (17, 32),
        (19, 32),
        (0x4000_0000, 0x4000_0000),
        (0x4000_0001, 0x8000_0000),
        (0x8000_0000, 0x8000_0000),
    ];
    for (n, expected) in cases {
        assert_eq!(next_power_of_two(n), expected);
        assert_eq!(n.checked_next_power_of_two(), Some(expected));
    }
}

#[test]
fn load_factors_are_clamped() {
    let cases: [(f32, f32); 10] = [
        (0.2, 0.2),
        (0.5, 0.5),
        (1.0, 1.0),
        (0.0, 0.2),
        (-0.0, 0.2),
        (-3.5, 0.2),
        (1e-40, 0.2),
        (f32::NEG_INFINITY, 0.2),
        (f32::INFINITY, 1.0),
        (7e20, 1.0),
    ];
    for (value, expected) in cases {
        assert_eq!(factor(value).clamped(), factor(expected));
    }
}

#[test]
fn load_factor_arithmetic_agrees_with_floats() {
    let factors: [f32; 8] = [0.2, 0.25, 0.3, 0.5, 0.7, 0.75, 0.8, 1.0];
    for value in factors {
        for power in 0..31u32 {
            let cap = 1u32 << power;
            assert_eq!(factor(value).product(cap), (cap as f32 * value) as u32);
        }
        for n in 0..5000u32 {
            assert_eq!(factor(value).quotient(n) as u32, (n as f64 / value as f64) as u32);
        }
        for n in [65_537u32, 1_000_003, 99_999_989, 200_000_033] {
            assert_eq!(factor(value).quotient(n) as u32, (n as f64 / value as f64) as u32);
        }
    }
    assert_eq!(factor(0.8).quotient(16), 19);
    assert_eq!(factor(0.8).product(4), 3);
    assert_eq!(factor(0.2).quotient(32), 159);
    assert_eq!(factor(0.8).product(1), 0);
}

#[test]
fn options_are_brought_within_bounds() {
    let check = ConcurrentHashMap::<u32, u32, Sip>::check_params;
    assert_eq!(check(0, 0, factor(1.0)), (1, 1, factor(1.0)));
    assert_eq!(check(8192, 5000, factor(1.0)), (8192, 8192, factor(1.0)));
    assert_eq!(check(16, 4097, factor(1.0)), (8192, 8192, factor(1.0)));
    assert_eq!(check(u32::MAX, 5000, factor(0.5)), (0x8000_0000, 8192, factor(0.5)));
    assert_eq!(check(0x4000_0000, 1, factor(0.5)), (0x4000_0000, 1, factor(0.5)));
    assert_eq!(check(1_000_000_000, 1, factor(0.8)), (0x4000_0000, 1, factor(0.8)));
    assert_eq!(check(0x4000_0001, 1, factor(1.0)), (0x8000_0000, 1, factor(1.0)));
    assert_eq!(check(0x5000_0000, 1, factor(1.0)), (0x8000_0000, 1, factor(1.0)));
    assert_eq!(check(16, 0x8000_0000, factor(0.8)), (0x8000_0000, 0x8000_0000, factor(0.8)));
    assert_eq!(check(16, 8, factor(7.0)), (16, 8, factor(1.0)));
    assert_eq!(check(16, 8, factor(0.8)), (32, 8, factor(0.8)));
}

#[test]
fn segments_go_by_the_top_bits() {
    let mask = SegmentMask::new(8);
    assert_eq!(mask.get_segment_from_hash(0), 0);
    assert_eq!(mask.get_segment_from_hash(0x1fff_ffff), 0);
    assert_eq!(mask.get_segment_from_hash(0x2000_0000), 1);
    assert_eq!(mask.get_segment_from_hash(0xffff_ffff), 7);
    assert_eq!(SegmentMask::new(1).get_segment_from_hash(0xffff_ffff), 0);
    let inner = CHMInner::<u32, u32>::new(16, 4, factor(1.0));
    assert_eq!(inner.get_segment_from_hash(0xbfff_ffff), 2);
    assert_eq!(inner.get_segment_from_hash(0xc000_0000), 3);
}

#[test]
fn buckets_go_by_the_low_bits() {
    assert_eq!(CHMSegment::<u32, u32>::get_bucket(77, 16), 13);
    assert_eq!(CHMSegment::<u32, u32>::get_bucket(0xffff_ffff, 1), 0);
    assert_eq!(CHMSegment::<u32, u32>::get_bucket(7, 6), 5);
}

#[test]
fn hashes_are_those_of_the_hasher() {
    let sip = Sip::default();
    let inner = CHMInner::<u32, u32>::new(64, 16, factor(1.0));
    for key in 0..50u32 {
        let mut state = sip.build_hasher();
        key.hash(&mut state);
        let expected = state.finish() as u32;
        assert_eq!(hash_key(&sip, &key), expected);
        let (segment, hash) = inner.get_hash_and_segment(&key, &sip);
        assert_eq!(hash, expected);
        assert_eq!(segment, (expected >> 28) as usize);
    }
}

#[test]
fn a_random_state_hashes_alike_each_time() {
    let state = random_state::<u32>();
    for key in 0..50u32 {
        assert_eq!(hash_key(&state, &key), state.hash_one(key) as u32);
        assert_eq!(hash_key(&state, &key), hash_key(&state, &key));
    }
}

#[test]
fn default_maps_work() {
    let mut map = ConcurrentHashMap::<String, u32, RandomState>::new();
    assert_eq!(map.len(), 0);
    for i in 0..1000u32 {
        assert_eq!(map.insert(format!("key {}", i), i), None);
    }
    assert_eq!(map.len(), 1000);
    for i in 0..1000u32 {
        assert_eq!(map.get(format!("key {}", i)), Some(i));
    }
    assert_eq!(map.get(format!("key {}", 1000)), None);
}

#[test]
fn read_your_write() {
    let mut map = sip_map(16, 4, 0.8);
    assert_eq!(map.insert(7, 1), None);
    assert_eq!(map.insert(7, 2), Some(1));
    assert_eq!(map.get(7), Some(2));
    assert_eq!(map.len(), 1);
}

#[test]
fn removed_is_gone() {
    let mut map = sip_map(16, 4, 0.8);
    map.insert(7, 1);
    map.insert(8, 2);
    assert_eq!(map.remove(7), Some(1));
    assert_eq!(map.remove(7), None);
    assert_eq!(map.get(7), None);
    assert_eq!(map.get(8), Some(2));
    assert_eq!(map.len(), 1);
}

#[test]
fn entries_list_each_key_once() {
    let mut map = sip_map(16, 4, 0.8);
    for i in 0..200u32 {
        map.insert(i, i + 1000);
    }
    for i in 0..200u32 {
        map.insert(i, i + 2000);
    }
    let mut entries = map.entries();
    assert_eq!(entries.len() as u32, map.len());
    entries.sort();
    let expected: Vec<(u32, u32)> = (0..200u32).map(|i| (i, i + 2000)).collect();
    assert_eq!(entries, expected);
}

#[test]
fn entries_come_bucket_by_bucket() {
    let mut segment = CHMSegment::<u32, u32>::new(4, factor(1.0));
    segment.insert(10, 1, 6);
    segment.insert(11, 2, 1);
    segment.insert(12, 3, 2);
    assert_eq!(segment.entries(), vec![(11, 2), (10, 1), (12, 3)]);
    segment.insert(10, 9, 6);
    assert_eq!(segment.entries(), vec![(11, 2), (10, 9), (12, 3)]);
    segment.insert(13, 4, 5);
    assert_eq!(segment.table_cap(), 8);
    assert_eq!(segment.entries(), vec![(11, 2), (12, 3), (13, 4), (10, 9)]);
}

#[test]
fn entries_come_segment_by_segment() {
    let mut inner = CHMInner::<u32, u32>::new(8, 2, factor(1.0));
    inner.insert_hashed(1, 10, 0x8000_0000);
    inner.insert_hashed(2, 20, 0);
    assert_eq!(inner.entries(), vec![(2, 20), (1, 10)]);
    assert_eq!(inner.len(), 2);
    assert_eq!(inner.get_hashed(1, 0x8000_0000), Some(10));
    assert_eq!(inner.get_hashed(1, 0), None);
    assert_eq!(inner.remove_hashed(1, 0x8000_0000), Some(10));
    assert_eq!(inner.entries(), vec![(2, 20)]);
}

#[test]
fn a_segment_grows_at_its_limit() {
    let mut segment = CHMSegment::<u32, u32>::new(4, factor(0.8));
    assert_eq!(segment.max_cap(), 3);
    segment.insert(0, 0, 0);
    segment.insert(1, 1, 1);
    assert_eq!(segment.table_cap(), 4);
    segment.insert(1, 2, 1);
    assert_eq!(segment.table_cap(), 4);
    segment.insert(2, 2, 2);
    assert_eq!(segment.table_cap(), 8);
    assert_eq!(segment.max_cap(), 6);
    for key in 0..3u32 {
        assert_eq!(segment.get(key, key), Some(if key == 1 { 2 } else { key }));
    }
}

#[test]
fn the_least_limit_is_one() {
    assert_eq!(factor(0.8).limit(1), 1);
    assert_eq!(factor(0.2).limit(4), 1);
    assert_eq!(factor(0.2).limit(8), 1);
    assert_eq!(factor(0.2).limit(16), 3);
    assert_eq!(factor(0.8).limit(4), 3);
    assert_eq!(factor(1.0).limit(0x8000_0000), 0x8000_0000);
}

#[test]
fn shares_are_rounded_up() {
    assert_eq!(factor(0.5).ceiling(5), 3);
    assert_eq!(factor(0.5).ceiling(4), 2);
    assert_eq!(factor(1.0).ceiling(7), 7);
    assert_eq!(factor(0.2).ceiling(0), 0);
    assert_eq!(factor(0.2).ceiling(16), 4);
    assert_eq!(factor(1.0).ceiling(u32::MAX), u32::MAX);
    for value in [0.2f32, 0.3, 0.5, 0.75, 0.8, 0.9, 1.0] {
        for n in 0..2000u32 {
            assert_eq!(factor(value).ceiling(n), (n as f64 * value as f64).ceil() as u32);
        }
    }
    assert_eq!(factor(0.8).raised(3, 8), 6);
    assert_eq!(factor(0.2).raised(1, 2), 1);
    assert_eq!(factor(0.9).raised(8, 16), 15);
}

#[test]
fn a_small_segment_follows_its_load_factor() {
    let mut segment = CHMSegment::<u32, u32>::new(1, factor(0.9));
    assert_eq!(segment.max_cap(), 1);
    let sizes: [(usize, usize); 9] =
        [(2, 2), (4, 4), (4, 4), (8, 8), (8, 8), (8, 8), (8, 8), (16, 15), (16, 15)];
    for key in 0..9u32 {
        assert!(segment.has_room(&key, key));
        segment.insert(key, key, key);
        assert_eq!((segment.table_cap(), segment.max_cap()), sizes[key as usize]);
    }
    let mut key: u32 = 9;
    while segment.table_cap() < 1024 {
        segment.insert(key, key, key);
        key += 1;
    }
    assert_eq!(segment.len(), 461);
    assert_eq!(segment.max_cap(), 922);
    for seen in 0..key {
        assert_eq!(segment.get(seen, seen), Some(seen));
    }
}

#[test]
fn a_small_segment_catches_up_with_its_load_factor() {
    let mut segment = CHMSegment::<u32, u32>::new(1, factor(0.2));
    let sizes: [(usize, usize); 7] = [(2, 1), (4, 1), (8, 2), (16, 4), (32, 7), (32, 7), (64, 13)];
    for key in 0..7u32 {
        segment.insert(key, key, key);
        assert_eq!((segment.table_cap(), segment.max_cap()), sizes[key as usize]);
        segment.insert(key, key + 1, key);
        assert_eq!(segment.table_cap(), sizes[key as usize].0);
    }
    for key in 0..7u32 {
        assert_eq!(segment.remove(key, key), Some(key + 1));
        assert_eq!((segment.table_cap(), segment.max_cap()), (64, 13));
    }
}

#[test]
fn a_limit_that_was_rounded_down_doubles() {
    let mut segment = CHMSegment::<u32, u32>::new(4, factor(0.8));
    for key in 0..12u32 {
        segment.insert(key, key, key);
    }
    assert_eq!((segment.table_cap(), segment.max_cap()), (32, 24));
}

#[test]
fn one_bucket_per_segment_will_do() {
    let mut map = sip_map(16, 32, 0.8);
    for key in 0..1000u32 {
        assert_eq!(map.insert(key, key), None);
    }
    for key in 0..1000u32 {
        assert_eq!(map.get(key), Some(key));
    }
    assert_eq!(map.len(), 1000);
}

#[test]
fn many_segments_share_the_entries() {
    let mut map = sip_map(8192, 5000, 1.0);
    for key in 0..2000u32 {
        assert!(map.has_room(&key));
        assert_eq!(map.insert(key, key + 1), None);
    }
    assert_eq!(map.len(), 2000);
    for key in 0..2000u32 {
        assert_eq!(map.get(key), Some(key + 1));
    }
}

#[test]
fn few_entries_leave_room() {
    let mut inner = CHMInner::<u32, u32>::new(2, 2, factor(0.2));
    for key in 0..500u32 {
        assert!(inner.has_room(&key, 7));
        assert!(inner.has_room(&key, 0xffff_fff0));
        inner.insert_hashed(key, key, 7);
    }
    assert_eq!(inner.len(), 500);
    for key in 0..500u32 {
        assert_eq!(inner.remove_hashed(key, 7), Some(key));
        assert!(inner.has_room(&key, 7));
    }
    let mut map = sip_map(0, 0, 0.0);
    for key in 0..500u32 {
        assert!(map.has_room(&key));
        map.insert(key, key);
        assert!(map.has_room(&key));
    }
}

#[test]
fn removal_undoes_insertion() {
    let mut segment = CHMSegment::<u32, u32>::new(8, factor(1.0));
    for key in 0..5u32 {
        segment.insert(key, key, key);
    }
    segment.insert(50, 1, 3);
    assert_eq!(segment.remove(50, 3), Some(1));
    assert_eq!(segment.len(), 5);
    for key in 0..5u32 {
        assert_eq!(segment.get(key, key), Some(key));
    }
    assert_eq!(segment.get(50, 3), None);
}

#[test]
fn colliding_keys_coexist() {
    let mut segment = CHMSegment::<u32, u32>::new(8, factor(1.0));
    segment.insert(1, 10, 42);
    segment.insert(2, 20, 42);
    assert_eq!(segment.get(1, 42), Some(10));
    assert_eq!(segment.get(2, 42), Some(20));
    assert_eq!(segment.get(1, 50), None);
    assert_eq!(segment.remove(1, 42), Some(10));
    assert_eq!(segment.get(2, 42), Some(20));
}

#[test]
fn copies_are_independent() {
    let mut segment = CHMSegment::<u32, u32>::new(8, factor(1.0));
    segment.insert(1, 10, 1);
    let copied = segment.clone();
    segment.insert(1, 11, 1);
    segment.insert(2, 20, 2);
    assert_eq!(copied.get(1, 1), Some(10));
    assert_eq!(copied.get(2, 2), None);
    assert_eq!(copied.len(), 1);
    assert_eq!(segment.get(1, 1), Some(11));
    assert_eq!(copied.table_cap(), 8);
    assert_eq!(copied.max_cap(), 8);
}

#[test]
fn chains_are_searched_by_hash_and_key() {
    let chain = vec![
        CHMEntry { hash: 1, key: 5u32, value: 50u32 },
        CHMEntry { hash: 2, key: 5, value: 51 },
        CHMEntry { hash: 2, key: 6, value: 60 },
    ];
    assert_eq!(find(&chain, 2, &5), Some(1));
    assert_eq!(find(&chain, 2, &6), Some(2));
    assert_eq!(find(&chain, 1, &6), None);
    let twice = vec![
        CHMEntry { hash: 1, key: 4u32, value: 40u32 },
        CHMEntry { hash: 2, key: 5, value: 50 },
        CHMEntry { hash: 2, key: 5, value: 51 },
    ];
    assert_eq!(find(&twice, 2, &5), Some(1));
    let copied = copy(&chain);
    assert_eq!(copied.len(), 3);
    assert_eq!((copied[2].hash, copied[2].key, copied[2].value), (2, 6, 60));
}

#[derive(Clone)]
struct Tagged {
    id: u32,
    tag: u8,
}

impl PartialEq for Tagged {
    fn eq(&self, other: &Tagged) -> bool {
        self.id == other.id
    }
}

impl Eq for Tagged {}

impl Hash for Tagged {
    fn hash<S: Hasher>(&self, state: &mut S) {
        self.id.hash(state);
    }
}

#[test]
fn equal_keys_replace_each_other() {
    let mut map: ConcurrentHashMap<Tagged, u32, Sip> =
        ConcurrentHashMap::new_with_options(16, 2, factor(0.8), Sip::default());
    assert_eq!(map.insert(Tagged { id: 1, tag: 1 }, 10), None);
    assert_eq!(map.insert(Tagged { id: 1, tag: 2 }, 20), Some(10));
    assert_eq!(map.get(Tagged { id: 1, tag: 3 }), Some(20));
    let entries = map.entries();
    assert_eq!(entries.len(), 1);
    assert_eq!(entries[0].0.tag, 2);
    assert_eq!(map.remove(Tagged { id: 1, tag: 4 }), Some(20));
    assert_eq!(map.len(), 0);
}

#[test]
fn growth_keeps_contents() {
    let mut segment = CHMSegment::<u32, u32>::new(2, factor(0.5));
    for key in 0..40u32 {
        let hash = key.wrapping_mul(0x9e37_79b9);
        assert_eq!(segment.insert(key, key + 1, hash), None);
        assert!(segment.len() < segment.max_cap());
        assert_eq!(segment.table_cap(), 2 * segment.max_cap());
        for seen in 0..=key {
            assert_eq!(segment.get(seen, seen.wrapping_mul(0x9e37_79b9)), Some(seen + 1));
        }
    }
}
