//! The orders in which the pairs of a bucket array are walked: bucket by
//! bucket, each chain front to back or back to front.

use crate::key::Key;
use crate::layout::chain_distinct;
use crate::layout::contents;
use crate::layout::distinct;
use crate::layout::home_of;
use crate::layout::lemma_found;
use crate::layout::lemma_one_place;
use crate::layout::lemma_present;
use crate::layout::lists;
use crate::layout::placed;
use vstd::prelude::*;
use vstd::seq_lib::lemma_flatten_concat;

verus! {

/// The number of pairs that precede bucket `b`.
pub open spec fn offset<T>(buckets: Seq<Seq<T>>, b: int) -> int {
    buckets.take(b).flatten().len() as int
}

/// The buckets with every chain turned back to front.
pub open spec fn reversed<T>(buckets: Seq<Seq<T>>) -> Seq<Seq<T>> {
    buckets.map_values(|chain: Seq<T>| chain.reverse())
}

/// Chains without pairs flatten to nothing.
pub proof fn lemma_flatten_empty<T>(buckets: Seq<Seq<T>>)
    requires
        forall|b: int| 0 <= b < buckets.len() ==> (#[trigger] buckets[b]).len() == 0,
    ensures
        buckets.flatten().len() == 0,
    decreases buckets.len(),
{
    if buckets.len() > 0 {
        lemma_flatten_empty(buckets.drop_first());
    }
}

/// The flattened buckets are the pairs before bucket `b`, then the chain at
/// `b`, then the pairs of the buckets after it.
pub proof fn lemma_flatten_split<T>(buckets: Seq<Seq<T>>, b: int)
    requires
        0 <= b < buckets.len(),
    ensures
        buckets.flatten() =~= buckets.take(b).flatten() + buckets[b] + buckets.skip(
            b + 1,
        ).flatten(),
        buckets.take(b + 1).flatten() =~= buckets.take(b).flatten() + buckets[b],
        offset(buckets, b + 1) == offset(buckets, b) + buckets[b].len(),
{
    let one = seq![buckets[b]];
    assert(buckets =~= buckets.take(b) + one + buckets.skip(b + 1));
    lemma_flatten_concat(buckets.take(b) + one, buckets.skip(b + 1));
    lemma_flatten_concat(buckets.take(b), one);
    one.lemma_flatten_singleton();
    assert(buckets.take(b + 1) =~= buckets.take(b) + one);
}

/// The pair at position `t` of bucket `b` is the pair at `offset(b) + t` of
/// the flattened buckets.
pub proof fn lemma_flatten_index<T>(buckets: Seq<Seq<T>>, b: int, t: int)
    requires
        0 <= b < buckets.len(),
        0 <= t < buckets[b].len(),
    ensures
        0 <= offset(buckets, b) + t < buckets.flatten().len(),
        buckets.flatten()[offset(buckets, b) + t] == buckets[b][t],
{
    lemma_flatten_split(buckets, b);
}

/// Every position of the flattened buckets is a position of one chain.
pub proof fn lemma_flatten_locate<T>(buckets: Seq<Seq<T>>, p: int) -> (at: (int, int))
    requires
        0 <= p < buckets.flatten().len(),
    ensures
        0 <= at.0 < buckets.len(),
        0 <= at.1 < buckets[at.0].len(),
        p == offset(buckets, at.0) + at.1,
        buckets.flatten()[p] == buckets[at.0][at.1],
    decreases buckets.len(),
{
    buckets.lemma_flatten_and_flatten_alt_are_equivalent();
    assert(buckets.len() > 0);
    let front = buckets.drop_last();
    let n = buckets.len() as int;
    front.lemma_flatten_and_flatten_alt_are_equivalent();
    assert(buckets.take(n - 1) =~= front);
    if p < front.flatten().len() {
        let at = lemma_flatten_locate(front, p);
        assert(front.take(at.0) =~= buckets.take(at.0));
        lemma_flatten_index(buckets, at.0, at.1);
        at
    } else {
        let at = (n - 1, p - front.flatten().len());
        lemma_flatten_index(buckets, at.0, at.1);
        at
    }
}

/// Replacing one chain changes the number of pairs by the difference of the
/// two chains' lengths.
pub proof fn lemma_flatten_update_len<T>(buckets: Seq<Seq<T>>, b: int, chain: Seq<T>)
    requires
        0 <= b < buckets.len(),
    ensures
        buckets.update(b, chain).flatten().len() == buckets.flatten().len() - buckets[b].len()
            + chain.len(),
{
    let after = buckets.update(b, chain);
    lemma_flatten_split(buckets, b);
    lemma_flatten_split(after, b);
    assert(after.take(b) =~= buckets.take(b));
    assert(after.skip(b + 1) =~= buckets.skip(b + 1));
}

/// Bucket arrays whose chains have the same lengths hold the same number of
/// pairs.
pub proof fn lemma_flatten_same_lens<T>(a: Seq<Seq<T>>, b: Seq<Seq<T>>)
    requires
        a.len() == b.len(),
        forall|i: int| 0 <= i < a.len() ==> (#[trigger] a[i]).len() == b[i].len(),
    ensures
        a.flatten().len() == b.flatten().len(),
    decreases a.len(),
{
    if a.len() > 0 {
        assert(a.first().len() == b.first().len());
        assert forall|i: int| 0 <= i < a.drop_first().len() implies (
        #[trigger] a.drop_first()[i]).len() == b.drop_first()[i].len() by {
            assert(a.drop_first()[i] == a[i + 1]);
            assert(b.drop_first()[i] == b[i + 1]);
        }
        lemma_flatten_same_lens(a.drop_first(), b.drop_first());
    }
}

/// The flattened buckets list the map that the buckets stand for.
pub proof fn lemma_flatten_lists<K: Key, V>(buckets: Seq<Seq<(K, V)>>)
    requires
        placed(buckets),
        distinct(buckets),
    ensures
        lists(buckets.flatten(), contents(buckets)),
{
    let pairs = buckets.flatten();
    let m = contents(buckets);
    assert forall|p: int| 0 <= p < pairs.len() implies m.contains_key((#[trigger] pairs[p]).0@)
        && m[pairs[p].0@] == pairs[p].1 by {
        let at = lemma_flatten_locate(buckets, p);
        lemma_found(buckets, at.0, at.1);
    }
    assert forall|p: int, q: int|
        0 <= p < pairs.len() && 0 <= q < pairs.len() && p != q implies (#[trigger] pairs[p]).0@ != (
    #[trigger] pairs[q]).0@ by {
        let at = lemma_flatten_locate(buckets, p);
        let bt = lemma_flatten_locate(buckets, q);
        if pairs[p].0@ == pairs[q].0@ {
            lemma_one_place(buckets, at.0, at.1, bt.0, bt.1);
        }
    }
    assert forall|id: K::V| #[trigger] m.contains_key(id) implies exists|p: int|
        0 <= p < pairs.len() && (#[trigger] pairs[p]).0@ == id by {
        let at = lemma_present(buckets, id);
        lemma_flatten_index(buckets, at.0, at.1);
        let p = offset(buckets, at.0) + at.1;
        assert(0 <= p < pairs.len() && pairs[p].0@ == id);
    }
}

/// Turning every chain back to front changes neither the map nor the number
/// of pairs.
pub proof fn lemma_reversed<K: Key, V>(buckets: Seq<Seq<(K, V)>>)
    requires
        placed(buckets),
        distinct(buckets),
    ensures
        placed(reversed(buckets)),
        distinct(reversed(buckets)),
        contents(reversed(buckets)) =~= contents(buckets),
        reversed(buckets).flatten().len() == buckets.flatten().len(),
{
    let turned = reversed(buckets);
    assert forall|b: int, t: int|
        0 <= b < turned.len() && 0 <= t < turned[b].len() implies #[trigger] turned[b][t]
        == buckets[b][buckets[b].len() - 1 - t] by {}
    assert forall|b: int, t: int|
        0 <= b < turned.len() && 0 <= t < turned[b].len() implies home_of::<K>(
        (#[trigger] turned[b][t]).0@,
        turned.len(),
    ) == b by {
        assert(turned[b][t] == buckets[b][buckets[b].len() - 1 - t]);
    }
    assert forall|b: int| 0 <= b < turned.len() implies chain_distinct(#[trigger] turned[b]) by {
        assert(chain_distinct(buckets[b]));
        let chain = turned[b];
        assert forall|s: int, t: int|
            0 <= s < chain.len() && 0 <= t < chain.len() && s != t implies (#[trigger] chain[s]).0@
            != (#[trigger] chain[t]).0@ by {
            assert(chain[s] == buckets[b][buckets[b].len() - 1 - s]);
            assert(chain[t] == buckets[b][buckets[b].len() - 1 - t]);
        }
    }
    assert forall|id: K::V|
        contents(turned).contains_key(id) == contents(buckets).contains_key(id) by {
        if contents(turned).contains_key(id) {
            let at = lemma_present(turned, id);
            let t = buckets[at.0].len() - 1 - at.1;
            assert(turned[at.0][at.1] == buckets[at.0][t]);
            lemma_found(buckets, at.0, t);
        }
        if contents(buckets).contains_key(id) {
            let at = lemma_present(buckets, id);
            let t = buckets[at.0].len() - 1 - at.1;
            assert(turned[at.0][t] == buckets[at.0][at.1]);
            lemma_found(turned, at.0, t);
        }
    }
    assert forall|id: K::V| contents(turned).contains_key(id) implies contents(turned)[id]
        == contents(buckets)[id] by {
        let at = lemma_present(turned, id);
        let t = buckets[at.0].len() - 1 - at.1;
        assert(turned[at.0][at.1] == buckets[at.0][t]);
        lemma_found(buckets, at.0, t);
    }
    lemma_flatten_same_lens(turned, buckets);
}

/// The pairs that a walk meets from position `at` of bucket `bucket` on:
/// the rest of that bucket, then the buckets after it.
pub open spec fn walk_from<T>(chains: Seq<Seq<T>>, bucket: int, at: int) -> Seq<T> {
    if 0 <= bucket < chains.len() {
        let rest = if 0 <= at < chains[bucket].len() {
            chains[bucket].skip(at)
        } else {
            Seq::empty()
        };
        rest + chains.skip(bucket + 1).flatten()
    } else {
        Seq::empty()
    }
}

/// The pairs of the buckets from `bucket` on are the chain at `bucket`, then
/// the pairs of the buckets after it.
pub proof fn lemma_flatten_from<T>(chains: Seq<Seq<T>>, bucket: int)
    requires
        0 <= bucket < chains.len(),
    ensures
        chains.skip(bucket).flatten() =~= chains[bucket] + chains.skip(bucket + 1).flatten(),
{
    let tail = chains.skip(bucket);
    assert(tail.first() == chains[bucket]);
    assert(tail.drop_first() =~= chains.skip(bucket + 1));
}

/// A walk from the start of bucket `bucket` meets the pairs of the buckets
/// from there on.
pub proof fn lemma_walk_bucket<T>(chains: Seq<Seq<T>>, bucket: int)
    requires
        0 <= bucket <= chains.len(),
    ensures
        walk_from(chains, bucket, 0) =~= chains.skip(bucket).flatten(),
{
    if bucket < chains.len() {
        lemma_flatten_from(chains, bucket);
        if chains[bucket].len() == 0 {
            assert(chains[bucket] =~= Seq::<T>::empty());
        } else {
            assert(chains[bucket].skip(0) =~= chains[bucket]);
        }
    } else {
        assert(chains.skip(bucket) =~= Seq::<Seq<T>>::empty());
    }
}

} // verus!
