//! Facts about sequences of sequences and their concatenation.
use vstd::prelude::*;

verus! {

/// Replacing one part leaves what stands before and after it.
pub proof fn lemma_flatten_update<A>(s: Seq<Seq<A>>, i: int, c: Seq<A>)
    requires
        0 <= i < s.len(),
    ensures
        s.flatten() == s.take(i).flatten() + s[i] + s.skip(i + 1).flatten(),
        s.update(i, c).flatten() == s.take(i).flatten() + c + s.skip(i + 1).flatten(),
        s.update(i, c).flatten().len() == s.flatten().len() - s[i].len() + c.len(),
{
    lemma_flatten_split(s, i);
    let t = s.update(i, c);
    lemma_flatten_split(t, i);
    assert(t.take(i) =~= s.take(i));
    assert(t.skip(i + 1) =~= s.skip(i + 1));
}

/// The concatenation splits around any of the parts.
pub proof fn lemma_flatten_split<A>(s: Seq<Seq<A>>, i: int)
    requires
        0 <= i < s.len(),
    ensures
        s.flatten() == s.take(i).flatten() + s[i] + s.skip(i + 1).flatten(),
{
    assert(s =~= s.take(i).push(s[i]) + s.skip(i + 1));
    vstd::seq_lib::lemma_flatten_concat(s.take(i).push(s[i]), s.skip(i + 1));
    s.take(i).lemma_flatten_push(s[i]);
}

/// An element of the concatenation stands in one of the parts.
pub proof fn lemma_flatten_element<A>(s: Seq<Seq<A>>, j: int) -> (at: (int, int))
    requires
        0 <= j < s.flatten().len(),
    ensures
        0 <= at.0 < s.len(),
        0 <= at.1 < s[at.0].len(),
        s[at.0][at.1] == s.flatten()[j],
    decreases s.len(),
{
    if j < s.first().len() {
        (0, j)
    } else {
        let rest = lemma_flatten_element(s.drop_first(), j - s.first().len());
        (rest.0 + 1, rest.1)
    }
}

/// An element of a part stands in the concatenation, after all of the parts before it.
pub proof fn lemma_flatten_contains<A>(s: Seq<Seq<A>>, b: int, i: int)
    requires
        0 <= b < s.len(),
        0 <= i < s[b].len(),
    ensures
        s.take(b).flatten().len() + i < s.flatten().len(),
        s.flatten()[s.take(b).flatten().len() + i] == s[b][i],
{
    lemma_flatten_split(s, b);
}

/// The concatenation has an element if and only if one of the parts has it.
pub proof fn lemma_flatten_has<A>(s: Seq<Seq<A>>, e: A)
    ensures
        s.flatten().contains(e) <==> exists|b: int|
            0 <= b < s.len() && (#[trigger] s[b]).contains(e),
{
    if s.flatten().contains(e) {
        let j = choose|j: int| 0 <= j < s.flatten().len() && s.flatten()[j] == e;
        let at = lemma_flatten_element(s, j);
        assert(s[at.0].contains(s[at.0][at.1]));
    }
    if exists|b: int| 0 <= b < s.len() && (#[trigger] s[b]).contains(e) {
        let b = choose|b: int| 0 <= b < s.len() && (#[trigger] s[b]).contains(e);
        let i = choose|i: int| 0 <= i < s[b].len() && s[b][i] == e;
        lemma_flatten_contains(s, b, i);
    }
}

/// One more part makes the concatenation of the parts before longer by that part.
pub proof fn lemma_flatten_take_next<A>(s: Seq<Seq<A>>, i: int)
    requires
        0 <= i < s.len(),
    ensures
        s.take(i + 1).flatten() == s.take(i).flatten() + s[i],
{
    assert(s.take(i + 1) =~= s.take(i).push(s[i]));
    s.take(i).lemma_flatten_push(s[i]);
}

/// Parts of the same lengths concatenate to sequences of the same length.
pub proof fn lemma_flatten_same_len<A>(s: Seq<Seq<A>>, t: Seq<Seq<A>>)
    requires
        s.len() == t.len(),
        forall|i: int| 0 <= i < s.len() ==> (#[trigger] s[i]).len() == t[i].len(),
    ensures
        s.flatten().len() == t.flatten().len(),
    decreases s.len(),
{
    if s.len() > 0 {
        lemma_flatten_same_len(s.drop_first(), t.drop_first());
    }
}

/// Empty parts concatenate to the empty sequence.
pub proof fn lemma_flatten_empty<A>(s: Seq<Seq<A>>)
    requires
        forall|i: int| 0 <= i < s.len() ==> (#[trigger] s[i]).len() == 0,
    ensures
        s.flatten() == Seq::<A>::empty(),
    decreases s.len(),
{
    if s.len() > 0 {
        lemma_flatten_empty(s.drop_first());
    }
}

/// What passes a filter stood in the sequence, and passes.
pub proof fn lemma_filter_element<A>(s: Seq<A>, pred: spec_fn(A) -> bool, i: int) -> (j: int)
    requires
        0 <= i < s.filter(pred).len(),
    ensures
        0 <= j < s.len(),
        s[j] == s.filter(pred)[i],
        pred(s[j]),
    decreases s.len(),
{
    reveal(Seq::filter);
    if i < s.drop_last().filter(pred).len() {
        lemma_filter_element(s.drop_last(), pred, i)
    } else {
        s.len() - 1
    }
}

} // verus!
