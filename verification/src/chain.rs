//! Entries, and the chains of entries that share a bucket.
use vstd::prelude::*;
use vstd::std_specs::cmp::*;

verus! {

/// `==` on keys is an equivalence relation, as `Eq` asks of every type that has it.
pub open spec fn lawful_eq<K: PartialEq>() -> bool {
    &&& K::obeys_eq_spec()
    &&& forall|a: K| #[trigger] a.eq_spec(&a)
    &&& forall|a: K, b: K| #[trigger] a.eq_spec(&b) ==> b.eq_spec(&a)
    &&& forall|a: K, b: K, c: K|
        #[trigger] a.eq_spec(&b) && #[trigger] b.eq_spec(&c) ==> a.eq_spec(&c)
}

/// A key with its hash and its value.
pub struct CHMEntry<K, V> {
    pub hash: u32,
    pub key: K,
    pub value: V,
}

/// `a` and `b` are the same key.
pub open spec fn same_key<K: PartialEq>(a: K, b: K) -> bool {
    a.eq_spec(&b)
}

impl<K: PartialEq, V> CHMEntry<K, V> {
    /// The entry is the one for `key`, which hashes to `hash`.
    pub open spec fn matches(self, hash: u32, key: K) -> bool {
        self.hash == hash && same_key(self.key, key)
    }
}

/// The entry at position `i` of the chain is one for `key`.
pub open spec fn match_at<K: PartialEq, V>(
    chain: Seq<CHMEntry<K, V>>,
    hash: u32,
    key: K,
    i: int,
) -> bool {
    0 <= i < chain.len() && chain[i].matches(hash, key)
}

/// The chain has an entry for `key`.
pub open spec fn has_match<K: PartialEq, V>(
    chain: Seq<CHMEntry<K, V>>,
    hash: u32,
    key: K,
) -> bool {
    exists|i: int| match_at(chain, hash, key, i)
}

/// The position of the entry for `key` in a chain that has one.
pub open spec fn match_index<K: PartialEq, V>(
    chain: Seq<CHMEntry<K, V>>,
    hash: u32,
    key: K,
) -> int {
    choose|i: int| match_at(chain, hash, key, i)
}

/// No two entries of the chain are for the same key, provided that `==` on keys is lawful.
pub open spec fn distinct<K: PartialEq, V>(chain: Seq<CHMEntry<K, V>>) -> bool {
    lawful_eq::<K>() ==> forall|i: int, j: int|
        #![trigger chain[i], chain[j]]
        0 <= i < j < chain.len() ==> !chain[i].matches(chain[j].hash, chain[j].key)
}

/// Every entry is `entry` or one of `entries`.
pub open spec fn drawn_from<K, V>(
    chain: Seq<CHMEntry<K, V>>,
    entries: Seq<CHMEntry<K, V>>,
    entry: CHMEntry<K, V>,
) -> bool {
    forall|i: int|
        0 <= i < chain.len() ==> #[trigger] chain[i] == entry || entries.contains(chain[i])
}

/// Every entry is one of `entries`.
pub open spec fn within<K, V>(
    chain: Seq<CHMEntry<K, V>>,
    entries: Seq<CHMEntry<K, V>>,
) -> bool {
    forall|i: int| 0 <= i < chain.len() ==> entries.contains(#[trigger] chain[i])
}

/// The value that the chain holds for `key`.
pub open spec fn lookup<K: PartialEq, V>(
    chain: Seq<CHMEntry<K, V>>,
    hash: u32,
    key: K,
) -> Option<V> {
    if has_match(chain, hash, key) {
        Some(chain[match_index(chain, hash, key)].value)
    } else {
        None
    }
}

/// The chain with `entry` in the place of the entry for the same key, or at its end where there
/// is none.
pub open spec fn put<K: PartialEq, V>(chain: Seq<CHMEntry<K, V>>, entry: CHMEntry<K, V>) -> Seq<
    CHMEntry<K, V>,
> {
    if has_match(chain, entry.hash, entry.key) {
        chain.update(match_index(chain, entry.hash, entry.key), entry)
    } else {
        chain.push(entry)
    }
}

/// The chain without the entry for `key`.
pub open spec fn without<K: PartialEq, V>(
    chain: Seq<CHMEntry<K, V>>,
    hash: u32,
    key: K,
) -> Seq<CHMEntry<K, V>> {
    if has_match(chain, hash, key) {
        chain.remove(match_index(chain, hash, key))
    } else {
        chain
    }
}

/// A clone of a key is the same key.
pub open spec fn clones_keep_keys<K: PartialEq + Clone>() -> bool {
    forall|a: K, b: K| #[trigger] cloned(a, b) ==> same_key(a, b)
}

/// `given` is a clone of the value held, or nothing where none is held.
pub open spec fn clone_of<V: Clone>(given: Option<V>, held: Option<V>) -> bool {
    match held {
        Some(v) => given matches Some(w) && cloned(v, w),
        None => given is None,
    }
}

/// `pairs` are, in order, clones of the keys and of the values of `entries`.
pub open spec fn pairs_of<K: Clone, V: Clone>(
    pairs: Seq<(K, V)>,
    entries: Seq<CHMEntry<K, V>>,
) -> bool {
    &&& pairs.len() == entries.len()
    &&& forall|i: int|
        #![trigger pairs[i]]
        0 <= i < pairs.len() ==> cloned(entries[i].key, pairs[i].0) && cloned(
            entries[i].value,
            pairs[i].1,
        )
}

/// The chain holds, entry by entry, clones of the keys and of the values of `original`, under
/// the same hashes.
pub open spec fn copies<K: Clone, V: Clone>(
    chain: Seq<CHMEntry<K, V>>,
    original: Seq<CHMEntry<K, V>>,
) -> bool {
    &&& chain.len() == original.len()
    &&& forall|i: int|
        #![trigger chain[i]]
        #![trigger original[i]]
        0 <= i < chain.len() ==> {
            &&& chain[i].hash == original[i].hash
            &&& cloned(original[i].key, chain[i].key)
            &&& cloned(original[i].value, chain[i].value)
        }
}

/// A copy of a chain.
pub fn copy<K: Clone, V: Clone>(chain: &Vec<CHMEntry<K, V>>) -> (r: Vec<CHMEntry<K, V>>)
    ensures
        copies(r@, chain@),
        r.len() == chain.len(),
        forall|i: int|
            #![trigger r@[i]]
            0 <= i < chain.len() ==> r@[i].hash == chain@[i].hash && cloned(
                chain@[i].key,
                r@[i].key,
            ) && cloned(chain@[i].value, r@[i].value),
{
    let mut r: Vec<CHMEntry<K, V>> = Vec::with_capacity(chain.len());
    let mut i: usize = 0;
    while i < chain.len()
        invariant
            i <= chain.len(),
            r.len() == i,
            copies(r@, chain@.take(i as int)),
        decreases chain.len() - i,
    {
        let entry = CHMEntry {
            hash: chain[i].hash,
            key: chain[i].key.clone(),
            value: chain[i].value.clone(),
        };
        r.push(entry);
        i += 1;
    }
    assert(chain@.take(chain.len() as int) =~= chain@);
    r
}

/// A copy of a chain of distinct entries has distinct entries.
pub proof fn lemma_copies_distinct<K: PartialEq + Clone, V: Clone>(
    chain: Seq<CHMEntry<K, V>>,
    original: Seq<CHMEntry<K, V>>,
)
    requires
        lawful_eq::<K>(),
        clones_keep_keys::<K>(),
        distinct(original),
        copies(chain, original),
    ensures
        distinct(chain),
{
    assert forall|i: int, j: int|
        #![trigger chain[i], chain[j]]
        0 <= i < j < chain.len() implies !chain[i].matches(chain[j].hash, chain[j].key) by {
        let (a, b) = (original[i].key, original[j].key);
        let (c, d) = (chain[i].key, chain[j].key);
        assert(same_key(a, c) && same_key(b, d));
        if chain[i].matches(chain[j].hash, chain[j].key) {
            assert(same_key(a, d));
            assert(same_key(d, b));
            assert(same_key(a, b));
        }
    }
}

/// A chain of distinct entries has at most one for a key.
pub proof fn lemma_match_unique<K: PartialEq, V>(
    chain: Seq<CHMEntry<K, V>>,
    hash: u32,
    key: K,
    i: int,
)
    requires
        lawful_eq::<K>(),
        distinct(chain),
        match_at(chain, hash, key, i),
    ensures
        match_index(chain, hash, key) == i,
        lookup(chain, hash, key) == Some(chain[i].value),
{
    let j = match_index(chain, hash, key);
    assert(match_at(chain, hash, key, j));
    let a = chain[i].key;
    let b = chain[j].key;
    assert(key.eq_spec(&a) && key.eq_spec(&b));
    if i < j {
        assert(a.eq_spec(&b));
    } else if j < i {
        assert(b.eq_spec(&a));
    }
}

/// Putting an entry changes what the chain holds for its key and nothing else.
pub proof fn lemma_put<K: PartialEq, V>(chain: Seq<CHMEntry<K, V>>, entry: CHMEntry<K, V>)
    requires
        lawful_eq::<K>(),
        distinct(chain),
    ensures
        distinct(put(chain, entry)),
        forall|h: u32, k: K| #[trigger]
            lookup(put(chain, entry), h, k) == if entry.matches(h, k) {
                Some(entry.value)
            } else {
                lookup(chain, h, k)
            },
{
    let after = put(chain, entry);
    let present = has_match(chain, entry.hash, entry.key);
    let at = if present {
        match_index(chain, entry.hash, entry.key)
    } else {
        chain.len() as int
    };
    assert(present ==> match_at(chain, entry.hash, entry.key, at));
    assert(after[at] == entry);
    assert(forall|i: int| 0 <= i < chain.len() && i != at ==> after[i] == chain[i]);
    assert forall|i: int|
        0 <= i < chain.len() && i != at implies !(#[trigger] chain[i]).matches(
        entry.hash,
        entry.key,
    ) by {
        if match_at(chain, entry.hash, entry.key, i) {
            lemma_match_unique(chain, entry.hash, entry.key, i);
        }
    }
    assert forall|i: int, j: int|
        #![trigger after[i], after[j]]
        0 <= i < j < after.len() implies !after[i].matches(after[j].hash, after[j].key) by {
        if i == at {
            assert(after[j] == chain[j]);
            assert(entry.key.eq_spec(&chain[j].key) ==> chain[j].key.eq_spec(&entry.key));
        } else if j == at {
            assert(after[i] == chain[i]);
        } else {
            assert(after[i] == chain[i] && after[j] == chain[j]);
        }
    }
    assert forall|h: u32, k: K| #[trigger]
        lookup(after, h, k) == if entry.matches(h, k) {
            Some(entry.value)
        } else {
            lookup(chain, h, k)
        } by {
        if entry.matches(h, k) {
            assert(match_at(after, h, k, at));
            lemma_match_unique(after, h, k, at);
        } else {
            if has_match(chain, h, k) {
                let i = match_index(chain, h, k);
                assert(match_at(chain, h, k, i));
                if i == at {
                    assert(chain[at].key.eq_spec(&entry.key));
                    assert(entry.key.eq_spec(&chain[at].key));
                    assert(entry.key.eq_spec(&k));
                }
                assert(match_at(after, h, k, i));
                lemma_match_unique(after, h, k, i);
            } else if has_match(after, h, k) {
                let i = match_index(after, h, k);
                assert(match_at(after, h, k, i));
                assert(match_at(chain, h, k, i));
            }
        }
    }
}

/// Putting an entry adds it, and takes away what was there for its key and nothing else.
pub proof fn lemma_put_contains<K: PartialEq, V>(
    chain: Seq<CHMEntry<K, V>>,
    entry: CHMEntry<K, V>,
    e: CHMEntry<K, V>,
)
    requires
        lawful_eq::<K>(),
        distinct(chain),
    ensures
        put(chain, entry).contains(e) <==> e == entry || (chain.contains(e) && !e.matches(
            entry.hash,
            entry.key,
        )),
{
    let after = put(chain, entry);
    let present = has_match(chain, entry.hash, entry.key);
    let at = if present {
        match_index(chain, entry.hash, entry.key)
    } else {
        chain.len() as int
    };
    assert(present ==> match_at(chain, entry.hash, entry.key, at));
    assert(after[at] == entry);
    if after.contains(e) && e != entry {
        let i = choose|i: int| 0 <= i < after.len() && after[i] == e;
        assert(chain[i] == e);
        if match_at(chain, entry.hash, entry.key, i) {
            lemma_match_unique(chain, entry.hash, entry.key, i);
        }
    }
    if chain.contains(e) && !e.matches(entry.hash, entry.key) {
        let i = choose|i: int| 0 <= i < chain.len() && chain[i] == e;
        assert(after[i] == e);
    }
}

/// Removing a key takes away what was there for it and nothing else.
pub proof fn lemma_without_contains<K: PartialEq, V>(
    chain: Seq<CHMEntry<K, V>>,
    hash: u32,
    key: K,
    e: CHMEntry<K, V>,
)
    requires
        lawful_eq::<K>(),
        distinct(chain),
    ensures
        without(chain, hash, key).contains(e) <==> chain.contains(e) && !e.matches(hash, key),
{
    let after = without(chain, hash, key);
    let present = has_match(chain, hash, key);
    let at = match_index(chain, hash, key);
    assert(present ==> match_at(chain, hash, key, at));
    if after.contains(e) {
        let i = choose|i: int| 0 <= i < after.len() && after[i] == e;
        let j = if present && i >= at {
            i + 1
        } else {
            i
        };
        assert(chain[j] == e);
        if match_at(chain, hash, key, j) {
            lemma_match_unique(chain, hash, key, j);
        }
    }
    if chain.contains(e) && !e.matches(hash, key) {
        let i = choose|i: int| 0 <= i < chain.len() && chain[i] == e;
        let j = if present && i > at {
            i - 1
        } else {
            i
        };
        assert(after[j] == e);
    }
}

/// Removing the entry for a key changes what the chain holds for that key and nothing else.
pub proof fn lemma_without<K: PartialEq, V>(chain: Seq<CHMEntry<K, V>>, hash: u32, key: K)
    requires
        lawful_eq::<K>(),
        distinct(chain),
    ensures
        distinct(without(chain, hash, key)),
        forall|h: u32, k: K| #[trigger]
            lookup(without(chain, hash, key), h, k) == if h == hash && key.eq_spec(&k) {
                None
            } else {
                lookup(chain, h, k)
            },
{
    let after = without(chain, hash, key);
    if has_match(chain, hash, key) {
        let at = match_index(chain, hash, key);
        assert(match_at(chain, hash, key, at));
        assert(forall|i: int| 0 <= i < at ==> after[i] == chain[i]);
        assert(forall|i: int| at <= i < after.len() ==> after[i] == chain[i + 1]);
        assert forall|h: u32, k: K| #[trigger]
            lookup(after, h, k) == if h == hash && key.eq_spec(&k) {
                None
            } else {
                lookup(chain, h, k)
            } by {
            if has_match(after, h, k) {
                let i = match_index(after, h, k);
                assert(match_at(after, h, k, i));
                let old_i = if i < at {
                    i
                } else {
                    i + 1
                };
                assert(match_at(chain, h, k, old_i));
                lemma_match_unique(chain, h, k, old_i);
                if h == hash && key.eq_spec(&k) {
                    assert(chain[at].key.eq_spec(&k));
                    assert(match_at(chain, h, k, at));
                    lemma_match_unique(chain, h, k, at);
                }
            } else if has_match(chain, h, k) {
                let i = match_index(chain, h, k);
                assert(match_at(chain, h, k, i));
                if i < at {
                    assert(match_at(after, h, k, i));
                } else if i > at {
                    assert(after[i - 1] == chain[i]);
                    assert(match_at(after, h, k, i - 1));
                } else {
                    assert(key.eq_spec(&chain[at].key));
                    assert(key.eq_spec(&k));
                }
            }
        }
    } else {
        assert forall|h: u32, k: K| #[trigger]
            lookup(after, h, k) == if h == hash && key.eq_spec(&k) {
                None
            } else {
                lookup(chain, h, k)
            } by {
            if h == hash && key.eq_spec(&k) && has_match(chain, h, k) {
                let i = match_index(chain, h, k);
                assert(match_at(chain, h, k, i));
                assert(k.eq_spec(&key));
                assert(match_at(chain, hash, key, i));
            }
        }
    }
}

/// Overwriting an entry takes no entry from elsewhere.
pub proof fn lemma_update_drawn<K, V>(
    chain: Seq<CHMEntry<K, V>>,
    at: int,
    entry: CHMEntry<K, V>,
)
    requires
        0 <= at < chain.len(),
    ensures
        drawn_from(chain.update(at, entry), chain, entry),
{
    let after = chain.update(at, entry);
    assert forall|i: int| 0 <= i < after.len() implies #[trigger] after[i] == entry
        || chain.contains(after[i]) by {
        if i != at {
            assert(after[i] == chain[i]);
        }
    }
}

/// Appending an entry takes no entry from elsewhere.
pub proof fn lemma_push_drawn<K, V>(chain: Seq<CHMEntry<K, V>>, entry: CHMEntry<K, V>)
    ensures
        drawn_from(chain.push(entry), chain, entry),
{
    let after = chain.push(entry);
    assert forall|i: int| 0 <= i < after.len() implies #[trigger] after[i] == entry
        || chain.contains(after[i]) by {
        if i < chain.len() {
            assert(after[i] == chain[i]);
        }
    }
}

/// Putting an entry takes no entry from elsewhere, and makes the chain longer where its key is
/// new.
pub proof fn lemma_put_drawn<K: PartialEq, V>(chain: Seq<CHMEntry<K, V>>, entry: CHMEntry<K, V>)
    ensures
        drawn_from(put(chain, entry), chain, entry),
        put(chain, entry).len() == chain.len() + if has_match(chain, entry.hash, entry.key) {
            0nat
        } else {
            1nat
        },
{
    if has_match(chain, entry.hash, entry.key) {
        let at = match_index(chain, entry.hash, entry.key);
        assert(match_at(chain, entry.hash, entry.key, at));
        lemma_update_drawn(chain, at, entry);
    } else {
        lemma_push_drawn(chain, entry);
    }
}

/// What is within entries that are drawn from others is drawn from them too.
pub proof fn lemma_within_drawn<K, V>(
    chain: Seq<CHMEntry<K, V>>,
    middle: Seq<CHMEntry<K, V>>,
    entries: Seq<CHMEntry<K, V>>,
    entry: CHMEntry<K, V>,
)
    requires
        within(chain, middle),
        drawn_from(middle, entries, entry),
    ensures
        drawn_from(chain, entries, entry),
{
    assert forall|i: int| 0 <= i < chain.len() implies #[trigger] chain[i] == entry
        || entries.contains(chain[i]) by {
        assert(middle.contains(chain[i]));
    }
}

/// Removing an entry takes no entry from elsewhere.
pub proof fn lemma_remove_within<K, V>(chain: Seq<CHMEntry<K, V>>, at: int)
    requires
        0 <= at < chain.len(),
    ensures
        within(chain.remove(at), chain),
{
    let after = chain.remove(at);
    assert forall|i: int| 0 <= i < after.len() implies chain.contains(#[trigger] after[i]) by {
        let old_i = if i < at {
            i
        } else {
            i + 1
        };
        assert(after[i] == chain[old_i]);
    }
}

/// The position of the first entry for `key`, if the chain has one.
pub fn find<K: Eq, V>(chain: &Vec<CHMEntry<K, V>>, hash: u32, key: &K) -> (r: Option<usize>)
    ensures
        r matches Some(i) ==> i < chain.len() && chain@[i as int].hash == hash,
        lawful_eq::<K>() ==> match r {
            Some(i) => match_at(chain@, hash, *key, i as int) && forall|j: int|
                0 <= j < i ==> !match_at(chain@, hash, *key, j),
            None => !has_match(chain@, hash, *key),
        },
        lawful_eq::<K>() ==> match r {
            Some(i) => chain@[i as int].key.eq_spec(key) && forall|j: int|
                0 <= j < i ==> !((#[trigger] chain@[j]).hash == hash && chain@[j].key.eq_spec(key)),
            None => forall|j: int|
                0 <= j < chain.len() ==> !((#[trigger] chain@[j]).hash == hash
                    && chain@[j].key.eq_spec(key)),
        },
        lawful_eq::<K>() && distinct(chain@) ==> (r matches Some(i) ==> i == match_index(
            chain@,
            hash,
            *key,
        )),
{
    let mut i: usize = 0;
    while i < chain.len()
        invariant
            i <= chain.len(),
            lawful_eq::<K>() ==> forall|j: int| 0 <= j < i ==> !match_at(chain@, hash, *key, j),
            lawful_eq::<K>() ==> forall|j: int|
                0 <= j < i ==> !((#[trigger] chain@[j]).hash == hash && chain@[j].key.eq_spec(key)),
        decreases chain.len() - i,
    {
        if chain[i].hash == hash && chain[i].key == *key {
            proof {
                if lawful_eq::<K>() && distinct(chain@) {
                    assert(match_at(chain@, hash, *key, i as int));
                    lemma_match_unique(chain@, hash, *key, i as int);
                }
            }
            return Some(i);
        }
        i += 1;
    }
    None
}

} // verus!
