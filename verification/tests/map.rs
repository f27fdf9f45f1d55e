#![allow(deprecated)]
use concurrent_hash_map::{CHMInner, CHMSegment, ConcurrentHashMap, LoadFactor};
use std::hash::{BuildHasherDefault, SipHasher};

fn factor(value: f32) -> LoadFactor {
    LoadFactor::from_bits(value.to_bits())
}

type SipMap = ConcurrentHashMap<u32, u32, BuildHasherDefault<SipHasher>>;

fn sip_map(capacity: u32, segments: u32, load_factor: f32) -> SipMap {
    ConcurrentHashMap::<u32, u32, BuildHasherDefault<SipHasher>>::new_with_options(
        capacity,
        segments,
        factor(load_factor),
        BuildHasherDefault::<SipHasher>::default(),
    )
}

fn validate_chm_settings(
    seg_count: u32,
    expected_seg_count: u32,
    capacity: u32,
    expected_capacity: u32,
    load_factor: f32,
    expected_load_factor: f32,
) {
    let (capacity_chk, seg_count_chk, load_factor_chk) =
        SipMap::check_params(capacity, seg_count, factor(load_factor));
    assert_eq!(seg_count_chk, expected_seg_count);
    assert_eq!(capacity_chk, expected_capacity);
    assert_eq!(f32::from_bits(load_factor_chk.to_bits()), expected_load_factor);
}

#[test]
fn seg_bit_mask() {
    assert_eq!(
        CHMInner::<u32, u32>::make_segment_bit_mask(16u32),
        (0b11110000000000000000000000000000u32, 28)
    );
    assert_eq!(CHMInner::<u32, u32>::make_segment_bit_mask(1u32), (0u32, 0u32));
    assert_eq!(
        CHMInner::<u32, u32>::make_segment_bit_mask(2u32),
        (0b10000000000000000000000000000000u32, 31)
    );
    assert_eq!(
        CHMInner::<u32, u32>::make_segment_bit_mask(1024u32),
        (0b11111111110000000000000000000000u32, 22)
    );
}

#[test]
fn settings_weird_load_factors() {
    validate_chm_settings(16, 16, 32, 32, 1.0, 1.0);
    validate_chm_settings(16, 16, 32, 256, 0.1, 0.2);
    validate_chm_settings(16, 16, 32, 32, 1.1, 1.0);
}

#[test]
fn settings_weird_capacities() {
    validate_chm_settings(12, 16, 30, 32, 1.0, 1.0);
    validate_chm_settings(17, 32, 30, 32, 1.0, 1.0);
    validate_chm_settings(17, 32, 10, 32, 1.0, 1.0);
}

#[test]
fn settings_weird_segments() {}

#[test]
fn simple_insert_and_get() {
    let mut chm = sip_map(100, 1, 0.8);
    chm.insert(1, 100);
    assert_eq!(chm.get(1), Some(100));
}

#[test]
fn simple_insert_and_get_other() {
    let mut chm = sip_map(100, 1, 0.8);
    chm.insert(1, 100);
    assert_eq!(chm.get(2), None);
}

#[test]
fn simple_insert_and_remove() {
    let mut chm = sip_map(100, 1, 0.8);
    chm.insert(1, 100);
    assert_eq!(chm.remove(1), Some(100));
    assert_eq!(chm.get(1), None);
}

#[test]
fn many_insert_and_remove() {
    let mut chm = sip_map(16, 1, 1.0);
    for i in 0..100 {
        assert_eq!(chm.insert(i, i), None);
    }

    assert_eq!(chm.remove(101), None);

    for i in 0..100 {
        assert_eq!(chm.remove(i), Some(i));
    }

    for i in 0..100 {
        assert_eq!(chm.get(i), None);
    }
}

#[test]
fn many_insert_and_get() {
    let mut chm = sip_map(16, 1, 1.0);
    for i in 0..100 {
        chm.insert(i, i);
    }
    for i in 0..100 {
        assert_eq!(chm.get(i), Some(i));
    }
}

#[test]
fn many_insert_and_get_none() {
    let mut chm = sip_map(16, 1, 1.0);
    for i in 0..100 {
        chm.insert(i, i);
    }
    for i in 100..200 {
        assert_eq!(chm.get(i), None);
    }
}

#[test]
fn check_hash_collisions() {
    let mut chm = CHMSegment::<u32, u32>::new(16, factor(1.0));
    for i in 0..100 {
        assert_eq!(chm.insert(i, i, 0), None);
    }
    for i in 0..100 {
        assert_eq!(chm.insert(i, i + 1, 0), Some(i));
    }
}

#[test]
fn check_len() {
    let mut chm = CHMSegment::<u32, u32>::new(16, factor(1.0));
    assert_eq!(chm.max_cap(), 16);
    assert_eq!(chm.table_cap(), 16);
    assert_eq!(chm.len(), 0);
    for i in 0..100 {
        assert_eq!(chm.insert(i, i, i), None);
    }
    assert_eq!(chm.len(), 100);
    assert_eq!(chm.max_cap(), 128);
    assert_eq!(chm.table_cap(), 128);

    for i in 0..100 {
        assert_eq!(chm.insert(i, i + 1, i), Some(i));
    }
    assert_eq!(chm.len(), 100);
    assert_eq!(chm.max_cap(), 128);
    assert_eq!(chm.table_cap(), 128);

    for i in 0..100 {
        assert_eq!(chm.remove(i, i), Some(i + 1));
    }
    assert_eq!(chm.len(), 0);
    assert_eq!(chm.max_cap(), 128);
    assert_eq!(chm.table_cap(), 128);
}
