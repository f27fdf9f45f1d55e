//! A segment: an autonomous hash table that receives a part of the hash space.
use crate::arith;
use crate::chain;
use crate::chain::CHMEntry;
use crate::load_factor::LoadFactor;
use crate::segment_state;
use crate::segment_state::SegmentState;
use crate::seqs;
use std::hash::Hash;
use vstd::arithmetic::power2::*;
use vstd::prelude::*;

verus! {

/// A hash table with chained buckets. It grows when it has as many entries as its limit says.
pub struct CHMSegment<K: Eq + Hash + Sync + Clone, V: Sync + Clone> {
    table: Vec<Vec<CHMEntry<K, V>>>,
    max_capacity: usize,
    load_factor: LoadFactor,
    len: usize,
}

/// The chains that a table holds.
pub open spec fn chains<K, V>(table: Seq<Vec<CHMEntry<K, V>>>) -> Seq<Seq<CHMEntry<K, V>>> {
    Seq::new(table.len(), |b: int| table[b]@)
}

impl<K: Eq + Hash + Sync + Clone, V: Sync + Clone> View for CHMSegment<K, V> {
    type V = SegmentState<K, V>;

    closed spec fn view(&self) -> SegmentState<K, V> {
        SegmentState {
            buckets: chains(self.table@),
            max: self.max_capacity as nat,
            factor: self.load_factor,
        }
    }
}

impl<K: Eq + Hash + Sync + Clone, V: Sync + Clone> Clone for CHMSegment<K, V> {
    /// A copy with the same buckets, which hold clones of the keys and of the values.
    fn clone(&self) -> (copy: Self)
        ensures
            copy@.copies(self@),
            copy@.cap() == self@.cap(),
            copy@.max == self@.max,
            copy@.factor == self@.factor,
            copy@.len() == self@.len(),
            forall|b: int, i: int|
                #![trigger copy@.buckets[b][i]]
                0 <= b < self@.cap() && 0 <= i < self@.buckets[b].len() ==> {
                    &&& copy@.buckets[b][i].hash == self@.buckets[b][i].hash
                    &&& cloned(self@.buckets[b][i].key, copy@.buckets[b][i].key)
                    &&& cloned(self@.buckets[b][i].value, copy@.buckets[b][i].value)
                },
            self.wf() && chain::clones_keep_keys::<K>() ==> copy.wf(),
    {
        let mut table: Vec<Vec<CHMEntry<K, V>>> = Vec::with_capacity(self.table.len());
        let mut b: usize = 0;
        while b < self.table.len()
            invariant
                b <= self.table.len(),
                table.len() == b,
                forall|c: int|
                    0 <= c < b ==> chain::copies((#[trigger] table@[c])@, self.table@[c]@),
            decreases self.table.len() - b,
        {
            let links: Vec<CHMEntry<K, V>> = chain::copy(&self.table[b]);
            table.push(links);
            b += 1;
        }
        let copy = CHMSegment {
            table,
            max_capacity: self.max_capacity,
            load_factor: self.load_factor,
            len: self.len,
        };
        proof {
            assert forall|c: int| 0 <= c < copy@.cap() implies (#[trigger] copy@.buckets[c]).len()
                == self@.buckets[c].len() by {
                assert(chain::copies(copy@.buckets[c], self@.buckets[c]));
            }
            seqs::lemma_flatten_same_len(copy@.buckets, self@.buckets);
            if self.wf() && chain::clones_keep_keys::<K>() {
                copy@.lemma_copies(self@);
            }
        }
        copy
    }
}

impl<K: Eq + Hash + Sync + Clone, V: Sync + Clone> CHMSegment<K, V> {
    /// The counter of entries is right.
    pub closed spec fn counted(&self) -> bool {
        self.len == self@.len()
    }

    /// The segment is in a good state.
    pub open spec fn wf(&self) -> bool {
        self@.wf() && self.counted()
    }

    /// A segment without entries. It grows once it has `load_factor` times `capacity` of them,
    /// rounded down, and this limit doubles with the table. Where it would be nothing, it is
    /// rounded up at every size instead.
    pub fn new(capacity: u32, load_factor: LoadFactor) -> (segment: CHMSegment<K, V>)
        requires
            is_pow2(capacity as int),
            load_factor.in_range(),
        ensures
            segment.wf(),
            segment@ == SegmentState::<K, V>::empty(capacity as nat, load_factor),
            segment@.cap() == capacity,
            segment@.len() == 0,
            segment@.factor == load_factor,
            segment@.max >= 1,
            (segment@.max + 1) * pow2(149) > capacity * crate::load_factor::magnitude(load_factor.bits),
            segment@.max * pow2(149) <= capacity * crate::load_factor::magnitude(load_factor.bits) || segment@.max
                == 1,
    {
        proof {
            arith::lemma_u32_limit(capacity);
        }
        let max_cap: usize = load_factor.limit(capacity) as usize;
        let segment = CHMSegment {
            table: Self::new_table(capacity),
            max_capacity: max_cap,
            load_factor,
            len: 0,
        };
        proof {
            SegmentState::<K, V>::lemma_empty(capacity as nat, load_factor);
            assert(segment@ =~= SegmentState::<K, V>::empty(capacity as nat, load_factor));
        }
        segment
    }

    /// A table of empty buckets.
    fn new_table(capacity: u32) -> (table: Vec<Vec<CHMEntry<K, V>>>)
        ensures
            chains(table@) == Seq::new(
                capacity as nat,
                |b: int| Seq::<CHMEntry<K, V>>::empty(),
            ),
    {
        let mut v: Vec<Vec<CHMEntry<K, V>>> = Vec::with_capacity(capacity as usize);
        for i in 0..capacity
            invariant
                v.len() == i,
                forall|b: int| 0 <= b < i ==> (#[trigger] v@[b])@ == Seq::<
                    CHMEntry<K, V>,
                >::empty(),
        {
            v.push(Vec::new());
        }
        assert(chains(v@) =~= Seq::new(
            capacity as nat,
            |b: int| Seq::<CHMEntry<K, V>>::empty(),
        ));
        v
    }

    /// The bucket for a hash in a table of `cap` buckets.
    pub fn get_bucket(hash: u32, cap: u32) -> (b: u32)
        requires
            cap > 0,
        ensures
            b == hash & (cap - 1) as u32,
            b < cap,
            is_pow2(cap as int) ==> b == hash % cap,
    {
        proof {
            let m = (cap - 1) as u32;
            assert(hash & m <= m) by (bit_vector);
            if is_pow2(cap as int) {
                let e = arith::lemma_pow2_exponent(cap as int);
                lemma2_to64();
                arith::lemma_exponent_bound(e, 32);
                vstd::bits::lemma_u32_low_bits_mask_is_mod(hash, e);
            }
        }
        hash & (cap - 1)
    }

    /// The number of entries.
    pub fn len(&self) -> (n: usize)
        requires
            self.wf(),
        ensures
            n == self@.len(),
    {
        self.len
    }

    /// The number of buckets.
    pub fn table_cap(&self) -> (n: usize)
        ensures
            n == self@.cap(),
    {
        self.table.len()
    }

    /// The number of entries at which the segment grows.
    pub fn max_cap(&self) -> (n: usize)
        ensures
            n == self@.max,
    {
        self.max_capacity
    }

    /// Whether `key` can be inserted without a table larger than the largest one there is.
    pub fn has_room(&self, key: &K, hash: u32) -> (r: bool)
        requires
            self.wf(),
        ensures
            chain::lawful_eq::<K>() ==> r == self@.has_room(hash, *key),
    {
        proof {
            self@.lemma_bucket_of(hash);
            self@.lemma_len();
        }
        if self.table.len() < 0x8000_0000 || self.len + 1 < self.max_capacity {
            return true;
        }
        let b: u32 = Self::get_bucket(hash, self.table.len() as u32);
        assert(self@.buckets[b as int] == self.table@[b as int]@);
        chain::find(&self.table[b as usize], hash, key).is_some()
    }

    /// The value for `key`, if there is one.
    pub fn get(&self, key: K, hash: u32) -> (r: Option<V>)
        requires
            self.wf(),
        ensures
            chain::lawful_eq::<K>() ==> chain::clone_of(r, self@.lookup(hash, key)),
            chain::lawful_eq::<K>() ==> match self@.lookup(hash, key) {
                Some(v) => r matches Some(w) && cloned(v, w),
                None => r is None,
            },
    {
        proof {
            self@.lemma_bucket_of(hash);
        }
        let b: u32 = Self::get_bucket(hash, self.table.len() as u32);
        let chain: &Vec<CHMEntry<K, V>> = &self.table[b as usize];
        assert(self@.buckets[b as int] == chain@);
        match chain::find(chain, hash, &key) {
            Some(i) => Some(chain[i].value.clone()),
            None => None,
        }
    }

    /// Inserts a value for `key`, and returns the previous one.
    pub fn insert(&mut self, key: K, value: V, hash: u32) -> (r: Option<V>)
        requires
            old(self).wf(),
            old(self)@.has_room(hash, key),
        ensures
            final(self).wf(),
            chain::lawful_eq::<K>() ==> final(self)@ == old(self)@.insert(hash, key, value),
            chain::lawful_eq::<K>() ==> r == old(self)@.lookup(hash, key),
            final(self)@.len() == old(self)@.len() + if r is Some {
                0nat
            } else {
                1nat
            },
            final(self)@.cap() == old(self)@.cap() || final(self)@.cap() == 2 * old(self)@.cap(),
            chain::drawn_from(
                final(self)@.entries(),
                old(self)@.entries(),
                (CHMEntry { hash, key, value }),
            ),
    {
        let ghost before = self@;
        let ghost entry = CHMEntry { hash, key, value };
        proof {
            before.lemma_bucket_of(hash);
            before.lemma_len();
            if chain::lawful_eq::<K>() {
                before.lemma_insert(hash, key, value);
            }
        }
        let b: u32 = Self::get_bucket(hash, self.table.len() as u32);
        let ghost links = before.buckets[b as int];
        assert(links == self.table@[b as int]@);
        match chain::find(&self.table[b as usize], hash, &key) {
            Some(i) => {
                // The key is there already: the new entry takes the place of the old one.
                let mut node: CHMEntry<K, V> = CHMEntry { hash, key, value };
                std::mem::swap(&mut self.table[b as usize][i], &mut node);
                proof {
                    let c = links.update(i as int, entry);
                    if chain::lawful_eq::<K>() {
                        chain::lemma_put(links, entry);
                    }
                    chain::lemma_update_drawn(links, i as int, entry);
                    before.lemma_replace_drawn(b as int, c, entry);
                    assert(self@.buckets =~= before.buckets.update(b as int, c));
                }
                Some(node.value)
            },
            None => {
                self.table[b as usize].push(CHMEntry { hash, key, value });
                proof {
                    let c = links.push(entry);
                    if chain::lawful_eq::<K>() {
                        chain::lemma_put(links, entry);
                    }
                    chain::lemma_push_drawn(links, entry);
                    before.lemma_replace_drawn(b as int, c, entry);
                    assert(self@.buckets =~= before.buckets.update(b as int, c));
                    self@.lemma_counted_in(before);
                    self@.lemma_grown();
                }
                self.len = self.len + 1;
                let ghost filled = self@;
                if self.len >= self.max_capacity {
                    self.grow();
                    proof {
                        chain::lemma_within_drawn(
                            self@.entries(),
                            filled.entries(),
                            before.entries(),
                            entry,
                        );
                    }
                }
                None
            },
        }
    }

    /// Doubles the number of buckets, raises the limit, and moves every entry to its new bucket.
    fn grow(&mut self)
        requires
            old(self)@.structured(),
            old(self).counted(),
            old(self)@.factor.in_range(),
            old(self)@.max <= old(self)@.cap() < 0x8000_0000,
        ensures
            final(self)@ == old(self)@.grown(),
            final(self).counted(),
    {
        let ghost before = self@;
        proof {
            reveal(is_pow2);
            before.lemma_grown();
            arith::lemma_half_limit(before.cap() as u32);
        }
        let n: u32 = self.table.len() as u32 * 2;
        self.max_capacity = self.load_factor.raised(self.max_capacity as u32, n) as usize;
        let mut new_table: Vec<Vec<CHMEntry<K, V>>> = Self::new_table(n);
        let mut old_table: Vec<Vec<CHMEntry<K, V>>> = Vec::new();
        std::mem::swap(&mut self.table, &mut old_table);
        let ghost buckets = chains(old_table@);
        proof {
            reveal(Seq::filter);
            assert(buckets == before.buckets);
            assert(buckets.take(0).flatten() =~= Seq::empty());
            assert(chains(new_table@) =~= segment_state::distribute(
                buckets.take(0).flatten(),
                n as nat,
            ));
        }
        for old_chain in it: old_table
            invariant
                is_pow2(n as int),
                n > 0,
                it.seq().len() == buckets.len(),
                forall|b: int| 0 <= b < buckets.len() ==> (#[trigger] it.seq()[b])@ == buckets[b],
                chains(new_table@) == segment_state::distribute(
                    buckets.take(it.index() as int).flatten(),
                    n as nat,
                ),
        {
            let ghost done = buckets.take(it.index() as int).flatten();
            let ghost links = old_chain@;
            assert(links.take(0) =~= Seq::empty());
            assert(done + links.take(0) =~= done);
            for entry in jt: old_chain
                invariant
                    is_pow2(n as int),
                    n > 0,
                    jt.seq() == links,
                    chains(new_table@) == segment_state::distribute(
                        done + links.take(jt.index() as int),
                        n as nat,
                    ),
            {
                let b: u32 = Self::get_bucket(entry.hash, n);
                proof {
                    segment_state::lemma_distribute_push(
                        done + links.take(jt.index() as int),
                        entry,
                        n as nat,
                    );
                    assert(done + links.take(jt.index() + 1) =~= (done + links.take(
                        jt.index() as int,
                    )).push(entry));
                }
                let ghost table_before = chains(new_table@);
                assert(table_before.len() == n);
                new_table[b as usize].push(entry);
                assert(chains(new_table@) =~= table_before.update(
                    b as int,
                    table_before[b as int].push(entry),
                ));
            }
            proof {
                assert(links.take(links.len() as int) =~= links);
                seqs::lemma_flatten_take_next(buckets, it.index() as int);
            }
        }
        proof {
            assert(buckets.take(buckets.len() as int) =~= buckets);
        }
        self.table = new_table;
        assert(self@ =~= before.grown());
    }

    /// Removes `key`, and returns its value.
    pub fn remove(&mut self, key: K, hash: u32) -> (r: Option<V>)
        requires
            old(self).wf(),
        ensures
            final(self).wf(),
            chain::lawful_eq::<K>() ==> final(self)@ == old(self)@.remove(hash, key),
            chain::lawful_eq::<K>() ==> r == old(self)@.lookup(hash, key),
            final(self)@.len() == old(self)@.len() - if r is Some {
                1int
            } else {
                0int
            },
            final(self)@.cap() == old(self)@.cap(),
            chain::within(final(self)@.entries(), old(self)@.entries()),
    {
        let ghost before = self@;
        proof {
            before.lemma_bucket_of(hash);
        }
        let b: u32 = Self::get_bucket(hash, self.table.len() as u32);
        let ghost links = before.buckets[b as int];
        assert(links == self.table@[b as int]@);
        match chain::find(&self.table[b as usize], hash, &key) {
            Some(i) => {
                let node: CHMEntry<K, V> = self.table[b as usize].remove(i);
                proof {
                    let c = links.remove(i as int);
                    if chain::lawful_eq::<K>() {
                        chain::lemma_without(links, hash, key);
                    }
                    chain::lemma_remove_within(links, i as int);
                    before.lemma_replace_within(b as int, c);
                    assert(self@.buckets =~= before.buckets.update(b as int, c));
                    self@.lemma_counted_out(before);
                }
                self.len = self.len - 1;
                Some(node.value)
            },
            None => {
                proof {
                    if chain::lawful_eq::<K>() {
                        assert(before.remove(hash, key).buckets =~= before.buckets);
                    }
                }
                None
            },
        }
    }

    /// Copies of all keys and values, bucket by bucket.
    pub fn entries(&self) -> (xs: Vec<(K, V)>)
        ensures
            chain::pairs_of(xs@, self@.entries()),
            xs.len() == self@.len(),
            forall|i: int|
                #![trigger xs@[i]]
                0 <= i < xs.len() ==> cloned(self@.entries()[i].key, xs@[i].0) && cloned(
                    self@.entries()[i].value,
                    xs@[i].1,
                ),
    {
        let mut xs: Vec<(K, V)> = Vec::new();
        let ghost buckets = self@.buckets;
        assert(buckets.take(0).flatten() =~= Seq::empty());
        let mut b: usize = 0;
        while b < self.table.len()
            invariant
                buckets == chains(self.table@),
                b <= self.table.len(),
                chain::pairs_of(xs@, buckets.take(b as int).flatten()),
            decreases self.table.len() - b,
        {
            let links: &Vec<CHMEntry<K, V>> = &self.table[b];
            let ghost done = buckets.take(b as int).flatten();
            proof {
                seqs::lemma_flatten_take_next(buckets, b as int);
                assert(done + links@.take(0) =~= done);
            }
            let mut i: usize = 0;
            while i < links.len()
                invariant
                    i <= links.len(),
                    chain::pairs_of(xs@, done + links@.take(i as int)),
                decreases links.len() - i,
            {
                xs.push((links[i].key.clone(), links[i].value.clone()));
                assert(done + links@.take(i + 1) =~= (done + links@.take(i as int)).push(
                    links@[i as int],
                ));
                i += 1;
            }
            assert(links@.take(links.len() as int) =~= links@);
            b += 1;
        }
        assert(buckets.take(buckets.len() as int) =~= buckets);
        xs
    }
}

} // verus!
