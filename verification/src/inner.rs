//! The segments of a map, and how hashes are divided among them.
use crate::arith;
use crate::chain;
use crate::chain::CHMEntry;
use crate::hashing;
use crate::load_factor::LoadFactor;
use crate::map_state;
use crate::map_state::MapState;
use crate::segment::CHMSegment;
use crate::segment_state::SegmentState;
use crate::seqs;
use std::hash::{BuildHasher, Hash};
use vstd::arithmetic::power2::*;
use vstd::prelude::*;

verus! {

/// Finds the segment for a hash. The top bits of the hash name the segment, so as not to bias the
/// distribution within each segment, which goes by the low bits.
#[derive(Clone, Copy, Debug, PartialEq, Eq, Structural)]
pub struct SegmentMask {
    pub bit_mask: u32,
    pub mask_shift_count: u32,
}

impl SegmentMask {
    /// The mask is `seg_count - 1`, shifted left until its top bit is set; nothing is shifted
    /// where it is zero.
    pub open spec fn masks(self, seg_count: int) -> bool {
        &&& self.bit_mask == (seg_count - 1) * pow2(self.mask_shift_count as nat)
        &&& self.mask_shift_count < 32
        &&& if seg_count == 1 {
            self.mask_shift_count == 0
        } else {
            self.bit_mask >= 0x8000_0000
        }
    }

    /// The mask for `seg_count` segments.
    pub fn new(seg_count: u32) -> (mask: SegmentMask)
        requires
            seg_count > 0,
        ensures
            mask.masks(seg_count as int),
    {
        let mut bit_mask: u32 = seg_count - 1;
        let mut shift_count: u32 = 0;
        proof {
            lemma2_to64();
        }
        while bit_mask & 0b10000000000000000000000000000000 == 0 && bit_mask != 0
            invariant
                seg_count > 0,
                bit_mask == (seg_count - 1) * pow2(shift_count as nat),
                seg_count == 1 ==> shift_count == 0 && bit_mask == 0,
                shift_count < 32,
                seg_count > 1 ==> bit_mask > 0,
            decreases 32 - shift_count,
        {
            proof {
                let s = shift_count as nat;
                let n = seg_count - 1;
                assert(bit_mask & 0b10000000000000000000000000000000 == 0 ==> bit_mask
                    < 0x8000_0000 && bit_mask << 1 == 2 * bit_mask) by (bit_vector);
                lemma2_to64();
                assert(pow2(s) <= bit_mask) by (nonlinear_arith)
                    requires
                        bit_mask == n * pow2(s),
                        n >= 1,
                ;
                arith::lemma_exponent_bound(s, 31);
                lemma_pow2_unfold(s + 1);
                assert(n * (2 * pow2(s)) == 2 * (n * pow2(s))) by (nonlinear_arith);
            }
            bit_mask <<= 1;
            shift_count += 1;
        }
        proof {
            assert(bit_mask & 0b10000000000000000000000000000000 != 0 ==> bit_mask >= 0x8000_0000)
                by (bit_vector);
        }
        SegmentMask { bit_mask, mask_shift_count: shift_count }
    }

    /// For a power of two, the shift leaves as many bits as it takes to name a segment.
    pub proof fn lemma_masks_pow2(self, seg_count: int)
        requires
            self.masks(seg_count),
            is_pow2(seg_count),
            1 < seg_count <= 0x8000_0000,
        ensures
            1 <= self.mask_shift_count <= 31,
            seg_count == pow2((32 - self.mask_shift_count) as nat),
    {
        let p = arith::lemma_pow2_exponent(seg_count);
        let s = self.mask_shift_count as nat;
        let n = seg_count;
        let a = pow2(p) as int;
        let b = pow2(s) as int;
        lemma2_to64();
        lemma_pow2_pos(s);
        if p == 0 {
            assert(false);
        }
        let half = pow2((p - 1) as nat) as int;
        lemma_pow2_unfold(p);
        lemma_pow2_pos((p - 1) as nat);
        lemma_pow2_adds(p, s);
        lemma_pow2_adds((p - 1) as nat, s);
        assert(half * b <= (n - 1) * b < n * b) by (nonlinear_arith)
            requires
                n == 2 * half,
                half >= 1,
                b >= 1,
        ;
        assert(pow2((p - 1 + s) as nat) <= self.bit_mask < pow2(p + s));
        arith::lemma_exponent_bound((p - 1 + s) as nat, 32);
        if p + s <= 31 {
            if p + s < 31 {
                lemma_pow2_strictly_increases(p + s, 31);
            }
            assert(false);
        }
        if p == 32 {
            assert(false);
        }
    }

    /// The segment for a hash, given that the mask was made for `seg_count` segments.
    pub proof fn lemma_segment_of(self, hash: u32, seg_count: int)
        requires
            self.masks(seg_count),
            is_pow2(seg_count),
            seg_count <= 0x8000_0000,
        ensures
            (hash & self.bit_mask) >> self.mask_shift_count == map_state::segment_of(
                hash,
                seg_count as nat,
            ),
    {
        reveal(is_pow2);
        let mask = self.bit_mask;
        let shift = self.mask_shift_count;
        if seg_count == 1 {
            assert(0 * pow2(shift as nat) == 0);
            assert((hash & 0) >> 0u32 == 0) by (bit_vector);
        } else {
            self.lemma_masks_pow2(seg_count);
            let n = seg_count as u32;
            let m = (seg_count - 1) as u32;
            let bits = (32 - shift) as u32;
            vstd::bits::lemma_u32_shl_is_mul(m, shift);
            lemma2_to64();
            if bits < 31 {
                lemma_pow2_strictly_increases(bits as nat, 31);
            }
            vstd::bits::lemma_u32_shl_is_mul(1, bits);
            assert((hash & mask) >> shift == hash >> shift) by (bit_vector)
                requires
                    1 <= shift <= 31,
                    bits == 32 - shift,
                    n == 1u32 << bits,
                    m == n - 1,
                    mask == m << shift,
            ;
            vstd::bits::lemma_u32_shr_is_div(hash, shift);
            lemma_pow2_adds(bits as nat, shift as nat);
            lemma_pow2_pos(bits as nat);
            lemma_pow2_pos(shift as nat);
            let a = pow2(bits as nat) as int;
            let h = hash as int;
            assert(h * a == a * h) by (nonlinear_arith);
            vstd::arithmetic::div_mod::lemma_div_multiples_vanish_quotient(
                a,
                h,
                pow2(shift as nat) as int,
            );
        }
    }

    /// The segment for a hash.
    pub fn get_segment_from_hash(&self, hash: u32) -> (segment: u32)
        requires
            self.mask_shift_count < 32,
        ensures
            segment == (hash & self.bit_mask) >> self.mask_shift_count,
            forall|n: int| #[trigger]
                self.masks(n) && is_pow2(n) && n <= 0x8000_0000 ==> segment
                    == map_state::segment_of(hash, n as nat),
    {
        proof {
            assert forall|n: int| #[trigger]
                self.masks(n) && is_pow2(n) && n <= 0x8000_0000 implies (hash & self.bit_mask)
                >> self.mask_shift_count == map_state::segment_of(hash, n as nat) by {
                self.lemma_segment_of(hash, n);
            }
        }
        (hash & self.bit_mask) >> self.mask_shift_count
    }
}

/// The segments of a map.
pub struct CHMInner<K: Eq + Hash + Sync + Clone, V: Sync + Clone> {
    segments: Vec<CHMSegment<K, V>>,
    mask: SegmentMask,
}

impl<K: Eq + Hash + Sync + Clone, V: Sync + Clone> View for CHMInner<K, V> {
    type V = MapState<K, V>;

    closed spec fn view(&self) -> MapState<K, V> {
        MapState { segments: Seq::new(self.segments@.len(), |s: int| self.segments@[s]@) }
    }
}

impl<K: Eq + Hash + Sync + Clone, V: Sync + Clone> CHMInner<K, V> {
    /// The mask is that for the number of segments, and the segments have counted right.
    pub closed spec fn intact(&self) -> bool {
        &&& self.mask.masks(self.segments@.len() as int)
        &&& self.segments@.len() <= 0x8000_0000
        &&& forall|s: int| 0 <= s < self.segments@.len() ==> (#[trigger] self.segments@[s]).counted()
    }

    /// The segments are in a good state.
    pub open spec fn wf(&self) -> bool {
        self@.wf() && self.intact()
    }

    /// `seg_count` segments without entries, which share `capacity` buckets.
    pub fn new(capacity: u32, seg_count: u32, load_factor: LoadFactor) -> (inner: CHMInner<K, V>)
        requires
            is_pow2(capacity as int),
            is_pow2(seg_count as int),
            seg_count <= capacity,
            load_factor.in_range(),
        ensures
            inner.wf(),
            inner@ == MapState::<K, V>::empty(
                seg_count as nat,
                capacity as nat / seg_count as nat,
                load_factor,
            ),
            inner@.len() == 0,
            inner@.count() == seg_count,
            forall|s: int|
                #![trigger inner@.segments[s]]
                0 <= s < seg_count ==> inner@.segments[s].cap() * seg_count == capacity
                    && inner@.segments[s].factor == load_factor,
            forall|hash: u32, key: K| #[trigger] inner@.has_room(hash, key),
    {
        proof {
            reveal(is_pow2);
            arith::lemma_pow2_divides(seg_count as int, capacity as int);
            arith::lemma_u32_limit(capacity);
            arith::lemma_u32_limit(seg_count);
            arith::lemma_u32_limit((capacity / seg_count) as u32);
            assert((capacity / seg_count) * seg_count == capacity);
        }
        let per_seg_capacity: u32 = capacity / seg_count;
        let ghost part = SegmentState::<K, V>::empty(per_seg_capacity as nat, load_factor);
        let mask = SegmentMask::new(seg_count);
        let mut segments: Vec<CHMSegment<K, V>> = Vec::with_capacity(seg_count as usize);
        for i in 0..seg_count
            invariant
                is_pow2(per_seg_capacity as int),
                load_factor.in_range(),
                part == SegmentState::<K, V>::empty(per_seg_capacity as nat, load_factor),
                segments.len() == i,
                forall|s: int|
                    0 <= s < i ==> (#[trigger] segments@[s]).wf() && segments@[s]@ == part,
        {
            segments.push(CHMSegment::new(per_seg_capacity, load_factor));
        }
        let inner = CHMInner { segments, mask };
        proof {
            MapState::<K, V>::lemma_empty(seg_count as nat, per_seg_capacity as nat, load_factor);
            assert(inner@ =~= MapState::<K, V>::empty(
                seg_count as nat,
                per_seg_capacity as nat,
                load_factor,
            ));
            inner@.lemma_uncrowded();
        }
        inner
    }

    /// The mask for `seg_count` segments, and the shift that aligns what it leaves of a hash.
    pub fn make_segment_bit_mask(seg_count: u32) -> (r: (u32, u32))
        requires
            seg_count > 0,
        ensures
            (SegmentMask { bit_mask: r.0, mask_shift_count: r.1 }).masks(seg_count as int),
    {
        let mask = SegmentMask::new(seg_count);
        (mask.bit_mask, mask.mask_shift_count)
    }

    /// The segment for a hash.
    pub fn get_segment_from_hash(&self, hash: u32) -> (segment: u32)
        requires
            self.wf(),
        ensures
            segment == map_state::segment_of(hash, self@.count()),
            segment < self@.count(),
    {
        proof {
            self@.lemma_segment_of(hash);
            assert(self.mask.masks(self@.count() as int));
        }
        self.mask.get_segment_from_hash(hash)
    }

    /// The hash of a key, and the segment for it.
    pub fn get_hash_and_segment<H: BuildHasher>(&self, key: &K, hasher: &H) -> (r: (usize, u32))
        requires
            self.wf(),
        ensures
            hashing::hashes_to(*hasher, *key, r.1),
            r.0 == map_state::segment_of(r.1, self@.count()),
            r.0 < self@.count(),
    {
        let hash: u32 = hashing::hash_key(hasher, key);
        let segment: u32 = self.get_segment_from_hash(hash);
        (segment as usize, hash)
    }

    /// Inserts a value for `key`, which hashes to `hash`, and returns the previous one.
    pub fn insert_hashed(&mut self, key: K, value: V, hash: u32) -> (r: Option<V>)
        requires
            old(self).wf(),
            old(self)@.has_room(hash, key),
        ensures
            final(self).wf(),
            chain::lawful_eq::<K>() ==> final(self)@ == old(self)@.insert(hash, key, value),
            chain::lawful_eq::<K>() ==> r == old(self)@.lookup(hash, key),
            final(self)@.len() == old(self)@.len() + if r is Some {
                0nat
            } else {
                1nat
            },
            final(self)@.uncrowded() ==> forall|h: u32, k: K| #[trigger]
                final(self)@.has_room(h, k),
            chain::drawn_from(
                final(self)@.entries(),
                old(self)@.entries(),
                (CHMEntry { hash, key, value }),
            ),
    {
        let ghost before = self@;
        let segment: u32 = self.get_segment_from_hash(hash);
        let r = self.segments[segment as usize].insert(key, value, hash);
        proof {
            let after = self.segments@[segment as int]@;
            before.lemma_replace_drawn(segment as int, after, CHMEntry { hash, key, value });
            assert(self@.segments =~= before.segments.update(segment as int, after));
            if self@.uncrowded() {
                self@.lemma_uncrowded();
            }
        }
        r
    }

    /// Whether `key`, which hashes to `hash`, can be inserted without a table larger than the
    /// largest one there is.
    pub fn has_room(&self, key: &K, hash: u32) -> (r: bool)
        requires
            self.wf(),
        ensures
            chain::lawful_eq::<K>() ==> r == self@.has_room(hash, *key),
    {
        let segment: u32 = self.get_segment_from_hash(hash);
        assert(self@.segments[segment as int] == self.segments@[segment as int]@);
        self.segments[segment as usize].has_room(key, hash)
    }

    /// The value for `key`, which hashes to `hash`, if there is one.
    pub fn get_hashed(&self, key: K, hash: u32) -> (r: Option<V>)
        requires
            self.wf(),
        ensures
            chain::lawful_eq::<K>() ==> chain::clone_of(r, self@.lookup(hash, key)),
            chain::lawful_eq::<K>() ==> match self@.lookup(hash, key) {
                Some(v) => r matches Some(w) && cloned(v, w),
                None => r is None,
            },
    {
        let segment: u32 = self.get_segment_from_hash(hash);
        assert(self@.segments[segment as int] == self.segments@[segment as int]@);
        self.segments[segment as usize].get(key, hash)
    }

    /// Removes `key`, which hashes to `hash`, and returns its value.
    pub fn remove_hashed(&mut self, key: K, hash: u32) -> (r: Option<V>)
        requires
            old(self).wf(),
        ensures
            final(self).wf(),
            chain::lawful_eq::<K>() ==> final(self)@ == old(self)@.remove(hash, key),
            chain::lawful_eq::<K>() ==> r == old(self)@.lookup(hash, key),
            final(self)@.len() == old(self)@.len() - if r is Some {
                1int
            } else {
                0int
            },
            final(self)@.uncrowded() ==> forall|h: u32, k: K| #[trigger]
                final(self)@.has_room(h, k),
            chain::within(final(self)@.entries(), old(self)@.entries()),
    {
        let ghost before = self@;
        let segment: u32 = self.get_segment_from_hash(hash);
        let r = self.segments[segment as usize].remove(key, hash);
        proof {
            let after = self.segments@[segment as int]@;
            before.lemma_replace_within(segment as int, after);
            assert(self@.segments =~= before.segments.update(segment as int, after));
            if self@.uncrowded() {
                self@.lemma_uncrowded();
            }
        }
        r
    }

    /// Inserts a value for `key`, and returns the previous one.
    pub fn insert<H: BuildHasher>(&mut self, key: K, value: V, hasher: &H) -> (r: Option<V>)
        requires
            old(self).wf(),
            forall|hash: u32| #[trigger]
                hashing::hashes_to(*hasher, key, hash) ==> old(self)@.has_room(hash, key),
        ensures
            final(self).wf(),
            old(self)@.hashed_by(*hasher) ==> final(self)@.hashed_by(*hasher),
            chain::lawful_eq::<K>() ==> old(self)@.inserted(*hasher, key, value, final(self)@, r),
            final(self)@.len() == old(self)@.len() + if r is Some {
                0nat
            } else {
                1nat
            },
            final(self)@.uncrowded() ==> forall|h: u32, k: K| #[trigger]
                final(self)@.has_room(h, k),
    {
        let ghost before = self@;
        let hash: u32 = hashing::hash_key(hasher, &key);
        let r = self.insert_hashed(key, value, hash);
        proof {
            if before.hashed_by(*hasher) {
                self@.lemma_hashed_drawn(before, *hasher, CHMEntry { hash, key, value });
            }
        }
        r
    }

    /// The value for `key`, if there is one.
    pub fn get<H: BuildHasher>(&self, key: K, hasher: &H) -> (r: Option<V>)
        requires
            self.wf(),
        ensures
            chain::lawful_eq::<K>() ==> self@.got(*hasher, key, r),
            chain::lawful_eq::<K>() ==> exists|hash: u32| #[trigger]
                hashing::hashes_to(*hasher, key, hash) && match self@.lookup(hash, key) {
                    Some(v) => r matches Some(w) && cloned(v, w),
                    None => r is None,
                },
    {
        let hash: u32 = hashing::hash_key(hasher, &key);
        self.get_hashed(key, hash)
    }

    /// Removes `key`, and returns its value.
    pub fn remove<H: BuildHasher>(&mut self, key: K, hasher: &H) -> (r: Option<V>)
        requires
            old(self).wf(),
        ensures
            final(self).wf(),
            old(self)@.hashed_by(*hasher) ==> final(self)@.hashed_by(*hasher),
            chain::lawful_eq::<K>() ==> old(self)@.removed(*hasher, key, final(self)@, r),
            final(self)@.len() == old(self)@.len() - if r is Some {
                1int
            } else {
                0int
            },
            final(self)@.uncrowded() ==> forall|h: u32, k: K| #[trigger]
                final(self)@.has_room(h, k),
    {
        let ghost before = self@;
        let hash: u32 = hashing::hash_key(hasher, &key);
        let r = self.remove_hashed(key, hash);
        proof {
            if before.hashed_by(*hasher) {
                self@.lemma_hashed_within(before, *hasher);
            }
        }
        r
    }

    /// The number of entries.
    pub fn len(&self) -> (n: u32)
        requires
            self.wf(),
            self@.len() <= u32::MAX,
        ensures
            n == self@.len(),
    {
        let ghost parts = self@.parts();
        let mut n: u32 = 0;
        assert(parts.take(0).flatten() =~= Seq::empty());
        let mut s: usize = 0;
        while s < self.segments.len()
            invariant
                self.wf(),
                self@.len() <= u32::MAX,
                parts == self@.parts(),
                s <= self.segments.len(),
                n == parts.take(s as int).flatten().len(),
            decreases self.segments.len() - s,
        {
            proof {
                assert(self@.segments[s as int].wf());
                seqs::lemma_flatten_take_next(parts, s as int);
                seqs::lemma_flatten_split(parts, s as int);
            }
            n += self.segments[s].len() as u32;
            s += 1;
        }
        assert(parts.take(parts.len() as int) =~= parts);
        n
    }

    /// Copies of all keys and values, segment by segment.
    pub fn entries(&self) -> (xs: Vec<(K, V)>)
        ensures
            chain::pairs_of(xs@, self@.entries()),
            xs.len() == self@.len(),
            forall|i: int|
                #![trigger xs@[i]]
                0 <= i < xs.len() ==> cloned(self@.entries()[i].key, xs@[i].0) && cloned(
                    self@.entries()[i].value,
                    xs@[i].1,
                ),
    {
        let ghost parts = self@.parts();
        let mut xs: Vec<(K, V)> = Vec::new();
        assert(parts.take(0).flatten() =~= Seq::empty());
        let mut s: usize = 0;
        while s < self.segments.len()
            invariant
                parts == self@.parts(),
                s <= self.segments.len(),
                chain::pairs_of(xs@, parts.take(s as int).flatten()),
            decreases self.segments.len() - s,
        {
            let mut part: Vec<(K, V)> = self.segments[s].entries();
            proof {
                seqs::lemma_flatten_take_next(parts, s as int);
            }
            xs.append(&mut part);
            s += 1;
        }
        assert(parts.take(parts.len() as int) =~= parts);
        xs
    }
}

} // verus!
