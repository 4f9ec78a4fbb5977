//! The model of a bucket array: which bucket a key belongs to, when an
//! array of chains is a sound table, and what map it stands for.

use crate::key::Key;
use crate::order::lemma_flatten_empty;
use vstd::prelude::*;

verus! {

/// The bucket that `digest` selects among `count` buckets.
pub open spec fn home(digest: u64, count: nat) -> int {
    digest as int % count as int
}

/// The bucket, among `count`, of every key whose identity is `id`.
pub open spec fn home_of<K: Key>(id: K::V, count: nat) -> int {
    home(K::digest_of(id), count)
}

/// Every pair sits in the bucket that its key's digest selects.
pub open spec fn placed<K: Key, V>(buckets: Seq<Seq<(K, V)>>) -> bool {
    forall|b: int, t: int|
        0 <= b < buckets.len() && 0 <= t < buckets[b].len() ==> home_of::<K>(
            (#[trigger] buckets[b][t]).0@,
            buckets.len(),
        ) == b
}

/// No two pairs of the chain have the same key.
pub open spec fn chain_distinct<K: Key, V>(chain: Seq<(K, V)>) -> bool {
    forall|s: int, t: int|
        0 <= s < chain.len() && 0 <= t < chain.len() && s != t ==> (#[trigger] chain[s]).0@ != (
        #[trigger] chain[t]).0@
}

/// No chain holds a key twice.
pub open spec fn distinct<K: Key, V>(buckets: Seq<Seq<(K, V)>>) -> bool {
    forall|b: int| 0 <= b < buckets.len() ==> chain_distinct(#[trigger] buckets[b])
}

/// The chain holds a pair whose key has the identity `id`.
pub open spec fn chain_has<K: Key, V>(chain: Seq<(K, V)>, id: K::V) -> bool {
    exists|t: int| 0 <= t < chain.len() && (#[trigger] chain[t]).0@ == id
}

/// A position of the chain at which the key has the identity `id`.
pub open spec fn chain_find<K: Key, V>(chain: Seq<(K, V)>, id: K::V) -> int {
    choose|t: int| 0 <= t < chain.len() && (#[trigger] chain[t]).0@ == id
}

/// The map that the buckets stand for: a key is present when its home bucket
/// holds it, and maps to the value stored beside it.
pub open spec fn contents<K: Key, V>(buckets: Seq<Seq<(K, V)>>) -> Map<K::V, V> {
    Map::new(
        |id: K::V|
            buckets.len() > 0 && chain_has(buckets[home_of::<K>(id, buckets.len())], id),
        |id: K::V|
            {
                let chain = buckets[home_of::<K>(id, buckets.len())];
                chain[chain_find(chain, id)].1
            },
    )
}

/// The chains that a vector of buckets holds.
pub open spec fn chains_of<K: Key, V>(buckets: Vec<Vec<(K, V)>>) -> Seq<Seq<(K, V)>> {
    buckets@.map_values(|chain: Vec<(K, V)>| chain@)
}

/// Whether `count` is a power of two.
pub open spec fn doubling(count: nat) -> bool
    decreases count,
{
    count == 1 || (count > 1 && count % 2 == 0 && doubling(count / 2))
}

/// The buckets are a sound table of `pairs` pairs: every pair sits in the
/// bucket of its key, no key occurs twice, the count of pairs is right, and
/// the number of buckets is zero or a power of two.
pub open spec fn well_formed<K: Key, V>(buckets: Seq<Seq<(K, V)>>, pairs: nat) -> bool {
    &&& placed(buckets)
    &&& distinct(buckets)
    &&& pairs == buckets.flatten().len()
    &&& contents(buckets).dom().finite()
    &&& contents(buckets).dom().len() == pairs
    &&& (buckets.len() == 0 || doubling(buckets.len()))
}

/// `pairs` lists the map `m`: every pair is a key of `m` with its value, no
/// key comes twice, and every key of `m` comes.
pub open spec fn lists<K: Key, V>(pairs: Seq<(K, V)>, m: Map<K::V, V>) -> bool {
    &&& forall|p: int|
        0 <= p < pairs.len() ==> m.contains_key((#[trigger] pairs[p]).0@) && m[pairs[p].0@]
            == pairs[p].1
    &&& forall|p: int, q: int|
        0 <= p < pairs.len() && 0 <= q < pairs.len() && p != q ==> (#[trigger] pairs[p]).0@ != (
        #[trigger] pairs[q]).0@
    &&& forall|id: K::V| #[trigger]
        m.contains_key(id) ==> exists|p: int| 0 <= p < pairs.len() && (#[trigger] pairs[p]).0@ == id
}

/// A digest selects one of the buckets.
pub proof fn lemma_home_in_range(digest: u64, count: nat)
    requires
        count > 0,
    ensures
        0 <= home(digest, count) < count,
{
}

/// A key found in its home bucket is present, with the value beside it.
pub proof fn lemma_found<K: Key, V>(buckets: Seq<Seq<(K, V)>>, b: int, t: int)
    requires
        placed(buckets),
        distinct(buckets),
        0 <= b < buckets.len(),
        0 <= t < buckets[b].len(),
    ensures
        home_of::<K>(buckets[b][t].0@, buckets.len()) == b,
        contents(buckets).contains_key(buckets[b][t].0@),
        contents(buckets)[buckets[b][t].0@] == buckets[b][t].1,
{
    let chain = buckets[b];
    let id = chain[t].0@;
    assert(chain_has(chain, id));
    assert(chain_distinct(chain));
    assert(chain_find(chain, id) == t);
}

/// A key that its home bucket does not hold is absent.
pub proof fn lemma_absent<K: Key, V>(buckets: Seq<Seq<(K, V)>>, id: K::V)
    requires
        buckets.len() > 0 ==> !chain_has(buckets[home_of::<K>(id, buckets.len())], id),
    ensures
        !contents(buckets).contains_key(id),
{
}

/// A key that is not in the map is not in its home bucket.
pub proof fn lemma_absent_here<K: Key, V>(buckets: Seq<Seq<(K, V)>>, b: int, id: K::V)
    requires
        buckets.len() > 0,
        b == home_of::<K>(id, buckets.len()),
        !contents(buckets).contains_key(id),
    ensures
        !chain_has(buckets[b], id),
{
}

/// A present key sits at some position of its home bucket.
pub proof fn lemma_present<K: Key, V>(buckets: Seq<Seq<(K, V)>>, id: K::V) -> (at: (int, int))
    requires
        contents(buckets).contains_key(id),
    ensures
        at.0 == home_of::<K>(id, buckets.len()),
        0 <= at.0 < buckets.len(),
        0 <= at.1 < buckets[at.0].len(),
        buckets[at.0][at.1].0@ == id,
        contents(buckets)[id] == buckets[at.0][at.1].1,
{
    lemma_home_in_range(K::digest_of(id), buckets.len());
    let b = home_of::<K>(id, buckets.len());
    (b, chain_find(buckets[b], id))
}

/// Two pairs with the same key are the same pair.
pub proof fn lemma_one_place<K: Key, V>(buckets: Seq<Seq<(K, V)>>, b: int, t: int, c: int, u: int)
    requires
        placed(buckets),
        distinct(buckets),
        0 <= b < buckets.len(),
        0 <= t < buckets[b].len(),
        0 <= c < buckets.len(),
        0 <= u < buckets[c].len(),
        buckets[b][t].0@ == buckets[c][u].0@,
    ensures
        b == c,
        t == u,
{
    assert(home_of::<K>(buckets[b][t].0@, buckets.len()) == b);
    assert(home_of::<K>(buckets[c][u].0@, buckets.len()) == c);
    assert(chain_distinct(buckets[b]));
}

/// Buckets that hold no pair stand for the empty map.
pub proof fn lemma_contents_empty<K: Key, V>(buckets: Seq<Seq<(K, V)>>)
    requires
        forall|b: int| 0 <= b < buckets.len() ==> (#[trigger] buckets[b]).len() == 0,
    ensures
        contents(buckets) =~= Map::<K::V, V>::empty(),
        placed(buckets),
        distinct(buckets),
        buckets.flatten().len() == 0,
{
    assert forall|id: K::V| !contents(buckets).contains_key(id) by {
        if buckets.len() > 0 {
            lemma_home_in_range(K::digest_of(id), buckets.len());
        }
    }
    lemma_flatten_empty(buckets);
}

} // verus!
