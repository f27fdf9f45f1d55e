//! Entries divided into parts by their hashes, as a segment divides them into buckets and a map
//! into segments.
use crate::chain;
use crate::chain::CHMEntry;
use crate::seqs;
use vstd::prelude::*;

verus! {

/// Every entry is in the part that its hash names, and no key has two entries in a part.
pub open spec fn partitioned<K: PartialEq, V>(
    parts: Seq<Seq<CHMEntry<K, V>>>,
    part_of: spec_fn(u32) -> int,
) -> bool {
    &&& forall|p: int| 0 <= p < parts.len() ==> chain::distinct(#[trigger] parts[p])
    &&& forall|p: int, i: int|
        0 <= p < parts.len() && 0 <= i < parts[p].len() ==> part_of(
            (#[trigger] parts[p][i]).hash,
        ) == p
}

/// No key has two entries, over all parts.
pub proof fn lemma_distinct<K: PartialEq, V>(
    parts: Seq<Seq<CHMEntry<K, V>>>,
    part_of: spec_fn(u32) -> int,
)
    requires
        partitioned(parts, part_of),
    ensures
        chain::distinct(parts.flatten()),
{
    if chain::lawful_eq::<K>() {
        lemma_prefix_distinct(parts, part_of, parts.len() as int);
    }
    assert(parts.take(parts.len() as int) =~= parts);
}

proof fn lemma_prefix_distinct<K: PartialEq, V>(
    parts: Seq<Seq<CHMEntry<K, V>>>,
    part_of: spec_fn(u32) -> int,
    n: int,
)
    requires
        chain::lawful_eq::<K>(),
        partitioned(parts, part_of),
        0 <= n <= parts.len(),
    ensures
        chain::distinct(parts.take(n).flatten()),
    decreases n,
{
    if n > 0 {
        lemma_prefix_distinct(parts, part_of, n - 1);
        seqs::lemma_flatten_take_next(parts, n - 1);
        let front = parts.take(n - 1);
        let flat = front.flatten();
        let last = parts[n - 1];
        let all = parts.take(n).flatten();
        assert(all == flat + last);
        assert forall|i: int, j: int|
            #![trigger all[i], all[j]]
            0 <= i < j < all.len() implies !all[i].matches(all[j].hash, all[j].key) by {
            if j < flat.len() {
                assert(all[i] == flat[i] && all[j] == flat[j]);
            } else if i >= flat.len() {
                assert(all[i] == last[i - flat.len()] && all[j] == last[j - flat.len()]);
            } else {
                let at = seqs::lemma_flatten_element(front, i);
                assert(parts[at.0][at.1] == all[i]);
                assert(parts[n - 1][j - flat.len()] == all[j]);
            }
        }
    }
}

/// What the part for a hash holds for a key is what all the entries hold for it.
pub proof fn lemma_lookup<K: PartialEq, V>(
    parts: Seq<Seq<CHMEntry<K, V>>>,
    part_of: spec_fn(u32) -> int,
    hash: u32,
    key: K,
)
    requires
        chain::lawful_eq::<K>(),
        partitioned(parts, part_of),
        0 <= part_of(hash) < parts.len(),
    ensures
        chain::lookup(parts[part_of(hash)], hash, key) == chain::lookup(
            parts.flatten(),
            hash,
            key,
        ),
        chain::has_match(parts[part_of(hash)], hash, key) == chain::has_match(
            parts.flatten(),
            hash,
            key,
        ),
{
    lemma_distinct(parts, part_of);
    let p = part_of(hash);
    let part = parts[p];
    let all = parts.flatten();
    if chain::has_match(part, hash, key) {
        let i = chain::match_index(part, hash, key);
        assert(chain::match_at(part, hash, key, i));
        seqs::lemma_flatten_contains(parts, p, i);
        let j = parts.take(p).flatten().len() + i;
        assert(chain::match_at(all, hash, key, j));
        chain::lemma_match_unique(all, hash, key, j);
    } else if chain::has_match(all, hash, key) {
        let j = chain::match_index(all, hash, key);
        assert(chain::match_at(all, hash, key, j));
        let at = seqs::lemma_flatten_element(parts, j);
        assert(part_of(parts[at.0][at.1].hash) == at.0);
        assert(chain::match_at(part, hash, key, at.1));
    }
}

/// Replacing one part by another that fits keeps the division.
pub proof fn lemma_replace<K: PartialEq, V>(
    parts: Seq<Seq<CHMEntry<K, V>>>,
    part_of: spec_fn(u32) -> int,
    p: int,
    part: Seq<CHMEntry<K, V>>,
)
    requires
        partitioned(parts, part_of),
        0 <= p < parts.len(),
        chain::distinct(part),
        forall|i: int| 0 <= i < part.len() ==> part_of((#[trigger] part[i]).hash) == p,
    ensures
        partitioned(parts.update(p, part), part_of),
        parts.update(p, part).flatten().len() == parts.flatten().len() - parts[p].len()
            + part.len(),
{
    let after = parts.update(p, part);
    seqs::lemma_flatten_update(parts, p, part);
    assert forall|q: int| 0 <= q < after.len() implies chain::distinct(#[trigger] after[q]) by {
        if q != p {
            assert(after[q] == parts[q]);
        }
    }
    assert forall|q: int, i: int|
        0 <= q < after.len() && 0 <= i < after[q].len() implies part_of(
        (#[trigger] after[q][i]).hash,
    ) == q by {
        if q != p {
            assert(after[q][i] == parts[q][i]);
        } else {
            assert(after[q][i] == part[i]);
        }
    }
}

/// Where every entry of the new part is a given one or was there, the same holds of all entries.
pub proof fn lemma_replace_drawn<K, V>(
    parts: Seq<Seq<CHMEntry<K, V>>>,
    p: int,
    part: Seq<CHMEntry<K, V>>,
    new: CHMEntry<K, V>,
)
    requires
        0 <= p < parts.len(),
        chain::drawn_from(part, parts[p], new),
    ensures
        chain::drawn_from(parts.update(p, part).flatten(), parts.flatten(), new),
{
    let after = parts.update(p, part);
    assert forall|i: int| 0 <= i < after.flatten().len() implies #[trigger] after.flatten()[i]
        == new || parts.flatten().contains(after.flatten()[i]) by {
        let at = seqs::lemma_flatten_element(after, i);
        let x = after[at.0][at.1];
        if at.0 == p {
            assert(x == part[at.1]);
            if x != new {
                let j = choose|j: int| 0 <= j < parts[p].len() && parts[p][j] == x;
                seqs::lemma_flatten_contains(parts, p, j);
            }
        } else {
            assert(x == parts[at.0][at.1]);
            seqs::lemma_flatten_contains(parts, at.0, at.1);
        }
    }
}

/// Where every entry of the new part was there, the same holds of all entries.
pub proof fn lemma_replace_within<K, V>(
    parts: Seq<Seq<CHMEntry<K, V>>>,
    p: int,
    part: Seq<CHMEntry<K, V>>,
)
    requires
        0 <= p < parts.len(),
        chain::within(part, parts[p]),
    ensures
        chain::within(parts.update(p, part).flatten(), parts.flatten()),
{
    let after = parts.update(p, part);
    assert forall|i: int| 0 <= i < after.flatten().len() implies parts.flatten().contains(
        #[trigger] after.flatten()[i],
    ) by {
        let at = seqs::lemma_flatten_element(after, i);
        let x = after[at.0][at.1];
        if at.0 == p {
            assert(x == part[at.1]);
            let j = choose|j: int| 0 <= j < parts[p].len() && parts[p][j] == x;
            seqs::lemma_flatten_contains(parts, p, j);
        } else {
            assert(x == parts[at.0][at.1]);
            seqs::lemma_flatten_contains(parts, at.0, at.1);
        }
    }
}

} // verus!
