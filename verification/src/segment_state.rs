//! What a segment holds, as a mathematical value, and what each operation makes of it.
use crate::arith;
use crate::chain;
use crate::chain::CHMEntry;
use crate::load_factor::LoadFactor;
use crate::partition;
use crate::seqs;
use vstd::arithmetic::power2::*;
use vstd::prelude::*;

verus! {

/// The state of a segment: its buckets, each a chain of entries, the number of entries at which it
/// grows, and the load factor that this number follows.
#[verifier::ext_equal]
pub struct SegmentState<K, V> {
    pub buckets: Seq<Seq<CHMEntry<K, V>>>,
    pub max: nat,
    pub factor: LoadFactor,
}

/// The bucket for a hash among `n` buckets.
pub open spec fn bucket_of(hash: u32, n: nat) -> int {
    hash as int % n as int
}

/// The entries in `n` buckets, each in the bucket that its hash names, in the order given.
pub open spec fn distribute<K, V>(entries: Seq<CHMEntry<K, V>>, n: nat) -> Seq<
    Seq<CHMEntry<K, V>>,
> {
    Seq::new(n, |b: int| entries.filter(|e: CHMEntry<K, V>| bucket_of(e.hash, n) == b))
}

impl<K: PartialEq, V> SegmentState<K, V> {
    /// A segment without entries, with `cap` buckets.
    pub open spec fn empty(cap: nat, factor: LoadFactor) -> Self {
        SegmentState {
            buckets: Seq::new(cap, |b: int| Seq::empty()),
            max: factor.spec_limit(cap),
            factor,
        }
    }

    /// The number of buckets.
    pub open spec fn cap(self) -> nat {
        self.buckets.len()
    }

    /// All entries: those of the first bucket, then those of the second, and so on.
    pub open spec fn entries(self) -> Seq<CHMEntry<K, V>> {
        self.buckets.flatten()
    }

    /// The number of entries.
    pub open spec fn len(self) -> nat {
        self.entries().len()
    }

    /// The chain of the bucket for a hash.
    pub open spec fn chain_of(self, hash: u32) -> Seq<CHMEntry<K, V>> {
        self.buckets[bucket_of(hash, self.cap())]
    }

    /// The segment holds a value for `key`.
    pub open spec fn contains(self, hash: u32, key: K) -> bool {
        chain::has_match(self.chain_of(hash), hash, key)
    }

    /// The value held for `key`.
    pub open spec fn lookup(self, hash: u32, key: K) -> Option<V> {
        chain::lookup(self.chain_of(hash), hash, key)
    }

    /// Every entry is in the bucket that its hash names, and no key has two entries.
    pub open spec fn structured(self) -> bool {
        &&& is_pow2(self.cap() as int)
        &&& partition::partitioned(self.buckets, |hash: u32| bucket_of(hash, self.cap()))
    }

    /// The table is so small that its load factor asks for more buckets than there are, even for
    /// the few entries that it has: it doubles with each new key until it is large enough.
    pub open spec fn catching_up(self) -> bool {
        pow2(self.len()) <= self.cap() <= 5 * self.max
    }

    /// The state is one that a segment can be in: besides its structure, its limit is no more than
    /// the load factor asks for, and it has fewer entries than that, or it is catching up.
    pub open spec fn wf(self) -> bool {
        &&& self.structured()
        &&& self.factor.in_range()
        &&& self.cap() <= 0x8000_0000
        &&& 0 < self.max <= self.factor.spec_ceiling(self.cap())
        &&& self.cap() <= 8 * self.max
        &&& self.len() < self.max || self.catching_up()
    }

    /// The segment with twice the buckets, the limit raised for that many, and the same entries.
    pub open spec fn grown(self) -> Self {
        SegmentState {
            buckets: distribute(self.entries(), 2 * self.cap()),
            max: self.factor.spec_raised(self.max, 2 * self.cap()),
            ..self
        }
    }

    /// The segment with `entry` put in its bucket.
    pub open spec fn placed(self, entry: CHMEntry<K, V>) -> Self {
        SegmentState {
            buckets: self.buckets.update(
                bucket_of(entry.hash, self.cap()),
                chain::put(self.chain_of(entry.hash), entry),
            ),
            ..self
        }
    }

    /// The segment after `value` was inserted for `key`: it grows when a new key brings it to
    /// its limit.
    pub open spec fn insert(self, hash: u32, key: K, value: V) -> Self {
        let placed = self.placed(CHMEntry { hash, key, value });
        if !self.contains(hash, key) && placed.len() >= self.max {
            placed.grown()
        } else {
            placed
        }
    }

    /// The segment after `key` was removed.
    pub open spec fn remove(self, hash: u32, key: K) -> Self {
        SegmentState {
            buckets: self.buckets.update(
                bucket_of(hash, self.cap()),
                chain::without(self.chain_of(hash), hash, key),
            ),
            ..self
        }
    }

    /// Inserting `key` needs no table larger than the largest one there is.
    pub open spec fn has_room(self, hash: u32, key: K) -> bool {
        ||| chain::lawful_eq::<K>() && self.contains(hash, key)
        ||| self.len() + 1 < self.max
        ||| self.cap() < 0x8000_0000
    }

    /// Any hash names a bucket.
    pub proof fn lemma_bucket_of(self, hash: u32)
        requires
            is_pow2(self.cap() as int),
        ensures
            0 <= bucket_of(hash, self.cap()) < self.cap(),
    {
        reveal(is_pow2);
    }

    /// A new segment is in a good state.
    pub proof fn lemma_empty(cap: nat, factor: LoadFactor)
        requires
            is_pow2(cap as int),
            cap <= 0x8000_0000,
            factor.in_range(),
        ensures
            Self::empty(cap, factor).wf(),
            Self::empty(cap, factor).entries() == Seq::<CHMEntry<K, V>>::empty(),
    {
        factor.lemma_limit_bound(cap);
        factor.lemma_ceiling_bound(cap);
        seqs::lemma_flatten_empty(Self::empty(cap, factor).buckets);
    }

    /// A segment has fewer entries than buckets. Only a small one has as many entries as its limit
    /// says.
    pub proof fn lemma_len(self)
        requires
            self.wf(),
        ensures
            self.len() < self.cap(),
            self.max <= self.cap(),
            self.len() >= self.max ==> self.len() <= 4 && self.cap() <= 16,
    {
        reveal(is_pow2);
        self.factor.lemma_ceiling_bound(self.cap());
        if self.len() >= self.max {
            lemma2_to64();
            if self.len() > 4 {
                arith::lemma_pow2_outgrows(self.len());
            }
            let e = arith::lemma_pow2_exponent(self.cap() as int);
            if e > 5 {
                lemma_pow2_strictly_increases(5, e);
            }
        }
    }

    /// No key has two entries, and what the bucket for a hash holds for a key is what all the
    /// entries hold for it.
    pub proof fn lemma_entries(self)
        requires
            self.structured(),
        ensures
            chain::distinct(self.entries()),
            chain::lawful_eq::<K>() ==> forall|h: u32, k: K| #[trigger]
                self.lookup(h, k) == chain::lookup(self.entries(), h, k),
            chain::lawful_eq::<K>() ==> forall|h: u32, k: K| #[trigger]
                self.contains(h, k) == chain::has_match(self.entries(), h, k),
    {
        let part_of = |hash: u32| bucket_of(hash, self.cap());
        partition::lemma_distinct(self.buckets, part_of);
        if chain::lawful_eq::<K>() {
            assert forall|h: u32, k: K| #[trigger]
                self.lookup(h, k) == chain::lookup(self.entries(), h, k) by {
                self.lemma_bucket_of(h);
                partition::lemma_lookup(self.buckets, part_of, h, k);
            }
            assert forall|h: u32, k: K| #[trigger]
                self.contains(h, k) == chain::has_match(self.entries(), h, k) by {
                self.lemma_bucket_of(h);
                partition::lemma_lookup(self.buckets, part_of, h, k);
            }
        }
    }

    /// Replacing the chain of one bucket keeps the structure, where every entry of the new chain
    /// is a given one for the bucket or was there.
    pub proof fn lemma_replace_drawn(
        self,
        b: int,
        c: Seq<CHMEntry<K, V>>,
        entry: CHMEntry<K, V>,
    )
        requires
            self.structured(),
            0 <= b < self.cap(),
            bucket_of(entry.hash, self.cap()) == b,
            chain::distinct(c),
            chain::drawn_from(c, self.buckets[b], entry),
        ensures
            ({
                let after = SegmentState { buckets: self.buckets.update(b, c), ..self };
                &&& after.structured()
                &&& after.len() == self.len() - self.buckets[b].len() + c.len()
                &&& chain::drawn_from(after.entries(), self.entries(), entry)
            }),
    {
        let part_of = |hash: u32| bucket_of(hash, self.cap());
        assert forall|i: int| 0 <= i < c.len() implies part_of((#[trigger] c[i]).hash) == b by {
            if c[i] != entry {
                let j = choose|j: int| 0 <= j < self.buckets[b].len() && self.buckets[b][j] == c[i];
                assert(self.buckets[b][j] == c[i]);
            }
        }
        partition::lemma_replace(self.buckets, part_of, b, c);
        partition::lemma_replace_drawn(self.buckets, b, c, entry);
    }

    /// Replacing the chain of one bucket keeps the structure, where every entry of the new chain
    /// was there.
    pub proof fn lemma_replace_within(self, b: int, c: Seq<CHMEntry<K, V>>)
        requires
            self.structured(),
            0 <= b < self.cap(),
            chain::distinct(c),
            chain::within(c, self.buckets[b]),
        ensures
            ({
                let after = SegmentState { buckets: self.buckets.update(b, c), ..self };
                &&& after.structured()
                &&& after.len() == self.len() - self.buckets[b].len() + c.len()
                &&& chain::within(after.entries(), self.entries())
            }),
    {
        let part_of = |hash: u32| bucket_of(hash, self.cap());
        assert forall|i: int| 0 <= i < c.len() implies part_of((#[trigger] c[i]).hash) == b by {
            let j = choose|j: int| 0 <= j < self.buckets[b].len() && self.buckets[b][j] == c[i];
            assert(self.buckets[b][j] == c[i]);
        }
        partition::lemma_replace(self.buckets, part_of, b, c);
        partition::lemma_replace_within(self.buckets, b, c);
    }

    /// Placing an entry changes what the segment holds for its key and nothing else.
    pub proof fn lemma_placed(self, entry: CHMEntry<K, V>)
        requires
            chain::lawful_eq::<K>(),
            self.structured(),
        ensures
            self.placed(entry).structured(),
            self.placed(entry).cap() == self.cap(),
            self.placed(entry).len() == self.len() + if self.contains(entry.hash, entry.key) {
                0nat
            } else {
                1nat
            },
            forall|h: u32, k: K| #[trigger]
                self.placed(entry).lookup(h, k) == if entry.matches(h, k) {
                    Some(entry.value)
                } else {
                    self.lookup(h, k)
                },
            chain::drawn_from(self.placed(entry).entries(), self.entries(), entry),
    {
        let after = self.placed(entry);
        let b = bucket_of(entry.hash, self.cap());
        self.lemma_bucket_of(entry.hash);
        let links = self.buckets[b];
        let c = chain::put(links, entry);
        chain::lemma_put(links, entry);
        chain::lemma_put_drawn(links, entry);
        self.lemma_replace_drawn(b, c, entry);
        assert forall|h: u32, k: K| #[trigger]
            after.lookup(h, k) == if entry.matches(h, k) {
                Some(entry.value)
            } else {
                self.lookup(h, k)
            } by {
            self.lemma_bucket_of(h);
            if bucket_of(h, self.cap()) == b {
                assert(after.lookup(h, k) == chain::lookup(c, h, k));
            }
        }
    }

    /// Growing keeps the entries, and with them every lookup.
    pub proof fn lemma_grown(self)
        requires
            self.structured(),
        ensures
            self.grown().structured(),
            self.grown().cap() == 2 * self.cap(),
            self.grown().len() == self.len(),
            chain::lawful_eq::<K>() ==> forall|h: u32, k: K| #[trigger]
                self.grown().lookup(h, k) == self.lookup(h, k),
            chain::within(self.grown().entries(), self.entries()),
    {
        let after = self.grown();
        let all = self.entries();
        let n = 2 * self.cap();
        arith::lemma_pow2_double(self.cap() as int);
        self.lemma_entries();
        lemma_distribute_len(all, n);
        assert forall|b: int| 0 <= b < after.cap() implies chain::distinct(
            #[trigger] after.buckets[b],
        ) by {
            if chain::lawful_eq::<K>() {
                lemma_filter_distinct(all, |e: CHMEntry<K, V>| bucket_of(e.hash, n) == b);
            }
        }
        assert forall|b: int, i: int|
            0 <= b < after.cap() && 0 <= i < after.buckets[b].len() implies bucket_of(
            (#[trigger] after.buckets[b][i]).hash,
            n,
        ) == b by {
            let j = seqs::lemma_filter_element(
                all,
                |e: CHMEntry<K, V>| bucket_of(e.hash, n) == b,
                i,
            );
        }
        if chain::lawful_eq::<K>() {
            assert forall|h: u32, k: K| #[trigger] after.lookup(h, k) == self.lookup(h, k) by {
                after.lemma_bucket_of(h);
                let b = bucket_of(h, n);
                lemma_filter_lookup(all, |e: CHMEntry<K, V>| bucket_of(e.hash, n) == b, h, k);
            }
        }
        assert forall|i: int| 0 <= i < after.len() implies self.entries().contains(
            #[trigger] after.entries()[i],
        ) by {
            let at = seqs::lemma_flatten_element(after.buckets, i);
            let b = at.0;
            let j = seqs::lemma_filter_element(
                all,
                |e: CHMEntry<K, V>| bucket_of(e.hash, n) == b,
                at.1,
            );
        }
    }

    /// A segment that has taken one more entry is in a good state once it has grown where that
    /// is due.
    pub proof fn lemma_counted_in(self, before: Self)
        requires
            before.wf(),
            self.structured(),
            self.cap() == before.cap(),
            self.max == before.max,
            self.factor == before.factor,
            self.len() == before.len() + 1,
            self.len() < self.max || self.cap() < 0x8000_0000,
        ensures
            self.len() < self.max ==> self.wf(),
            self.len() >= self.max ==> self.grown().wf(),
    {
        if self.len() >= self.max {
            self.lemma_grown();
            arith::lemma_half_limit(self.cap() as u32);
            reveal(is_pow2);
            self.factor.lemma_raised(self.max, self.cap());
            lemma2_to64();
            lemma_pow2_unfold(self.len());
        }
    }

    /// A segment that has lost an entry is in a good state.
    pub proof fn lemma_counted_out(self, before: Self)
        requires
            before.wf(),
            self.structured(),
            self.cap() == before.cap(),
            self.max == before.max,
            self.factor == before.factor,
            self.len() < before.len(),
        ensures
            self.wf(),
    {
        lemma_pow2_strictly_increases(self.len(), before.len());
    }

    /// Inserting keeps the state good, changes what the segment holds for the key and nothing
    /// else, and counts a new key.
    pub proof fn lemma_insert(self, hash: u32, key: K, value: V)
        requires
            chain::lawful_eq::<K>(),
            self.wf(),
            self.has_room(hash, key),
        ensures
            self.insert(hash, key, value).wf(),
            self.insert(hash, key, value).len() == self.len() + if self.contains(hash, key) {
                0nat
            } else {
                1nat
            },
            forall|h: u32, k: K| #[trigger]
                self.insert(hash, key, value).lookup(h, k) == if h == hash && chain::same_key(
                    key,
                    k,
                ) {
                    Some(value)
                } else {
                    self.lookup(h, k)
                },
            chain::drawn_from(
                self.insert(hash, key, value).entries(),
                self.entries(),
                CHMEntry { hash, key, value },
            ),
    {
        let entry = CHMEntry { hash, key, value };
        self.lemma_placed(entry);
        let placed = self.placed(entry);
        if !self.contains(hash, key) {
            placed.lemma_counted_in(self);
            placed.lemma_grown();
            chain::lemma_within_drawn(
                placed.grown().entries(),
                placed.entries(),
                self.entries(),
                entry,
            );
        }
    }

    /// Removing keeps the state good, changes what the segment holds for the key and nothing
    /// else, and uncounts a key that was there.
    pub proof fn lemma_remove(self, hash: u32, key: K)
        requires
            chain::lawful_eq::<K>(),
            self.wf(),
        ensures
            self.remove(hash, key).wf(),
            self.remove(hash, key).len() == self.len() - if self.contains(hash, key) {
                1int
            } else {
                0int
            },
            forall|h: u32, k: K| #[trigger]
                self.remove(hash, key).lookup(h, k) == if h == hash && chain::same_key(key, k) {
                    None
                } else {
                    self.lookup(h, k)
                },
            chain::within(self.remove(hash, key).entries(), self.entries()),
    {
        let after = self.remove(hash, key);
        let b = bucket_of(hash, self.cap());
        let links = self.chain_of(hash);
        let c = chain::without(links, hash, key);
        self.lemma_bucket_of(hash);
        assert(chain::distinct(c)) by {
            chain::lemma_without(links, hash, key);
        }
        if chain::has_match(links, hash, key) {
            let at = chain::match_index(links, hash, key);
            assert(chain::match_at(links, hash, key, at));
            chain::lemma_remove_within(links, at);
            self.lemma_replace_within(b, c);
            after.lemma_counted_out(self);
        } else {
            assert(after.buckets =~= self.buckets);
        }
        assert forall|h: u32, k: K| #[trigger]
            after.lookup(h, k) == if h == hash && chain::same_key(key, k) {
                None
            } else {
                self.lookup(h, k)
            } by {
            self.lemma_bucket_of(h);
            chain::lemma_without(links, hash, key);
            if bucket_of(h, self.cap()) == b {
                assert(after.lookup(h, k) == chain::lookup(c, h, k));
            }
        }
    }
}

impl<K: PartialEq + Clone, V: Clone> SegmentState<K, V> {
    /// The segment has the buckets of `original`, and in them clones of its keys and values.
    pub open spec fn copies(self, original: Self) -> bool {
        &&& self.max == original.max
        &&& self.factor == original.factor
        &&& self.cap() == original.cap()
        &&& forall|b: int|
            0 <= b < self.cap() ==> chain::copies(#[trigger] self.buckets[b], original.buckets[b])
    }

    /// A copy of a segment in a good state is in a good state, and has as many entries.
    pub proof fn lemma_copies(self, original: Self)
        requires
            original.wf(),
            self.copies(original),
            chain::clones_keep_keys::<K>(),
        ensures
            self.wf(),
            self.len() == original.len(),
    {
        assert forall|b: int| 0 <= b < self.cap() implies chain::distinct(
            #[trigger] self.buckets[b],
        ) by {
            if chain::lawful_eq::<K>() {
                chain::lemma_copies_distinct(self.buckets[b], original.buckets[b]);
            }
        }
        assert forall|b: int, i: int|
            0 <= b < self.cap() && 0 <= i < self.buckets[b].len() implies bucket_of(
            (#[trigger] self.buckets[b][i]).hash,
            self.cap(),
        ) == b by {
            assert(bucket_of(original.buckets[b][i].hash, original.cap()) == b);
        }
        seqs::lemma_flatten_same_len(self.buckets, original.buckets);
    }
}

/// A part of distinct entries is distinct.
proof fn lemma_filter_distinct<K: PartialEq, V>(
    s: Seq<CHMEntry<K, V>>,
    pred: spec_fn(CHMEntry<K, V>) -> bool,
)
    requires
        chain::lawful_eq::<K>(),
        chain::distinct(s),
    ensures
        chain::distinct(s.filter(pred)),
    decreases s.len(),
{
    reveal(Seq::filter);
    if s.len() > 0 {
        let front = s.drop_last();
        assert(chain::distinct(front)) by {
            assert forall|i: int, j: int|
                #![trigger front[i], front[j]]
                0 <= i < j < front.len() implies !front[i].matches(front[j].hash, front[j].key) by {
                assert(front[i] == s[i] && front[j] == s[j]);
            }
        }
        lemma_filter_distinct(front, pred);
        let f = s.filter(pred);
        let g = front.filter(pred);
        assert forall|i: int, j: int|
            #![trigger f[i], f[j]]
            0 <= i < j < f.len() implies !f[i].matches(f[j].hash, f[j].key) by {
            assert(f[i] == g[i]);
            if j < g.len() {
                assert(f[j] == g[j]);
            } else {
                let at = seqs::lemma_filter_element(front, pred, i);
                assert(f[i] == s[at] && f[j] == s[s.len() - 1]);
            }
        }
    }
}

/// A filter that lets every entry with a hash pass keeps what the entries hold under that hash.
proof fn lemma_filter_lookup<K: PartialEq, V>(
    s: Seq<CHMEntry<K, V>>,
    pred: spec_fn(CHMEntry<K, V>) -> bool,
    hash: u32,
    key: K,
)
    requires
        chain::lawful_eq::<K>(),
        chain::distinct(s),
        forall|e: CHMEntry<K, V>| e.hash == hash ==> #[trigger] pred(e),
    ensures
        chain::lookup(s.filter(pred), hash, key) == chain::lookup(s, hash, key),
{
    lemma_filter_distinct(s, pred);
    let f = s.filter(pred);
    if chain::has_match(s, hash, key) {
        let j = chain::match_index(s, hash, key);
        assert(chain::match_at(s, hash, key, j));
        assert(pred(s[j]));
        s.lemma_filter_contains(pred, j);
        let i = choose|i: int| 0 <= i < f.len() && f[i] == s[j];
        assert(chain::match_at(f, hash, key, i));
        chain::lemma_match_unique(f, hash, key, i);
    } else if chain::has_match(f, hash, key) {
        let i = chain::match_index(f, hash, key);
        assert(chain::match_at(f, hash, key, i));
        let j = seqs::lemma_filter_element(s, pred, i);
        assert(chain::match_at(s, hash, key, j));
    }
}

/// One more entry goes to the end of one bucket.
pub proof fn lemma_distribute_push<K, V>(
    entries: Seq<CHMEntry<K, V>>,
    entry: CHMEntry<K, V>,
    n: nat,
)
    requires
        n > 0,
    ensures
        ({
            let b = bucket_of(entry.hash, n);
            let before = distribute(entries, n);
            &&& 0 <= b < n
            &&& distribute(entries.push(entry), n) == before.update(b, before[b].push(entry))
        }),
{
    let b = bucket_of(entry.hash, n);
    let before = distribute(entries, n);
    let after = distribute(entries.push(entry), n);
    assert forall|c: int| 0 <= c < n implies after[c] == before.update(
        b,
        before[b].push(entry),
    )[c] by {
        entries.lemma_filter_push(entry, |e: CHMEntry<K, V>| bucket_of(e.hash, n) == c);
    }
    assert(after =~= before.update(b, before[b].push(entry)));
}

/// Distributing entries over buckets keeps their number.
proof fn lemma_distribute_len<K, V>(entries: Seq<CHMEntry<K, V>>, n: nat)
    requires
        n > 0,
    ensures
        distribute(entries, n).flatten().len() == entries.len(),
    decreases entries.len(),
{
    let all = distribute(entries, n);
    if entries.len() == 0 {
        reveal(Seq::filter);
        seqs::lemma_flatten_empty(all);
    } else {
        let front = entries.drop_last();
        let last = entries.last();
        assert(entries =~= front.push(last));
        lemma_distribute_len(front, n);
        lemma_distribute_push(front, last, n);
        let before = distribute(front, n);
        let b = bucket_of(last.hash, n);
        seqs::lemma_flatten_update(before, b, before[b].push(last));
    }
}

} // verus!
