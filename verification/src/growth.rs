//! Growth: when a table grows, by how much, why moving the pairs to new
//! buckets keeps the map, and what a table holds that was built by
//! insertions alone.

use crate::key::Key;
use crate::layout::contents;
use crate::layout::distinct;
use crate::layout::doubling;
use crate::layout::home_of;
use crate::layout::lemma_absent_here;
use crate::layout::lemma_contents_empty;
use crate::layout::lemma_home_in_range;
use crate::layout::lists;
use crate::layout::placed;
use crate::layout::well_formed;
use crate::order::lemma_flatten_lists;
use crate::order::lemma_flatten_update_len;
use crate::update::lemma_push;
use crate::update::put;
use vstd::prelude::*;

verus! {

/// The number of buckets that the first growth step gives a table.
pub const INITIAL_NBUCKETS: usize = 1;

/// The number of buckets after a growth step: the initial number for a table
/// that had none, twice as many otherwise.
pub open spec fn grown(count: nat) -> nat {
    if count == 0 {
        INITIAL_NBUCKETS as nat
    } else {
        2 * count
    }
}

/// The growth policy: a table grows before an insertion when it has no
/// bucket, or holds more pairs than a quarter of its bucket count.
pub open spec fn crowded(count: nat, pairs: nat) -> bool {
    count == 0 || pairs > count / 4
}

/// The number of buckets with which an insertion into a table of `count`
/// buckets and `pairs` pairs goes on.
pub open spec fn settled(count: nat, pairs: nat) -> nat {
    if crowded(count, pairs) {
        grown(count)
    } else {
        count
    }
}

/// The pairs spread over `count` empty buckets, one after the other, each
/// appended to the bucket that its key selects.
pub open spec fn spread<K: Key, V>(pairs: Seq<(K, V)>, count: nat) -> Seq<Seq<(K, V)>>
    decreases pairs.len(),
{
    if pairs.len() == 0 {
        Seq::new(count, |b: int| Seq::<(K, V)>::empty())
    } else {
        let rest = spread(pairs.drop_last(), count);
        let b = home_of::<K>(pairs.last().0@, count);
        rest.update(b, rest[b].push(pairs.last()))
    }
}

/// The buckets with which an insertion goes on: those of a crowded table
/// are replaced by a grown array over which its pairs are spread in the
/// order of a walk.
pub open spec fn regrown<K: Key, V>(buckets: Seq<Seq<(K, V)>>) -> Seq<Seq<(K, V)>> {
    if crowded(buckets.len(), buckets.flatten().len()) {
        spread(buckets.flatten(), grown(buckets.len()))
    } else {
        buckets
    }
}

/// The buckets of a table into which the pairs have been inserted one after
/// the other, starting without any bucket.
pub open spec fn built<K: Key, V>(pairs: Seq<(K, V)>) -> Seq<Seq<(K, V)>>
    decreases pairs.len(),
{
    if pairs.len() == 0 {
        Seq::empty()
    } else {
        put(regrown(built(pairs.drop_last())), pairs.last())
    }
}

/// Pairs are spread over as many buckets as asked for.
pub proof fn lemma_spread_len<K: Key, V>(pairs: Seq<(K, V)>, count: nat)
    requires
        count > 0,
    ensures
        spread(pairs, count).len() == count,
    decreases pairs.len(),
{
    if pairs.len() > 0 {
        lemma_spread_len(pairs.drop_last(), count);
        lemma_home_in_range(K::digest_of(pairs.last().0@), count);
    }
}

/// Spreading one pair more appends it to the bucket that its key selects.
pub proof fn lemma_spread_push<K: Key, V>(pairs: Seq<(K, V)>, pair: (K, V), count: nat)
    ensures
        spread(pairs.push(pair), count) == spread(pairs, count).update(
            home_of::<K>(pair.0@, count),
            spread(pairs, count)[home_of::<K>(pair.0@, count)].push(pair),
        ),
{
    assert(pairs.push(pair).drop_last() =~= pairs);
    assert(pairs.push(pair).last() == pair);
}

/// Pairs with keys of their own, spread over buckets, make a sound bucket
/// array that holds each of them and nothing else.
pub proof fn lemma_spread_sound<K: Key, V>(pairs: Seq<(K, V)>, count: nat)
    requires
        count > 0,
        forall|p: int, q: int|
            0 <= p < pairs.len() && 0 <= q < pairs.len() && p != q ==> (#[trigger] pairs[p]).0@ != (
            #[trigger] pairs[q]).0@,
    ensures
        spread(pairs, count).len() == count,
        placed(spread(pairs, count)),
        distinct(spread(pairs, count)),
        spread(pairs, count).flatten().len() == pairs.len(),
        lists(pairs, contents(spread(pairs, count))),
    decreases pairs.len(),
{
    let now = spread(pairs, count);
    if pairs.len() == 0 {
        lemma_contents_empty(now);
    } else {
        let front = pairs.drop_last();
        let last = pairs.last();
        let rest = spread(front, count);
        let b = home_of::<K>(last.0@, count);
        assert forall|p: int, q: int|
            0 <= p < front.len() && 0 <= q < front.len() && p != q implies (#[trigger] front[p]).0@
            != (#[trigger] front[q]).0@ by {
            assert(front[p] == pairs[p] && front[q] == pairs[q]);
        }
        lemma_spread_sound(front, count);
        lemma_home_in_range(K::digest_of(last.0@), count);
        if contents(rest).contains_key(last.0@) {
            let p = choose|p: int| 0 <= p < front.len() && (#[trigger] front[p]).0@ == last.0@;
            assert(front[p] == pairs[p]);
            assert(pairs[pairs.len() - 1] == last);
        }
        lemma_absent_here(rest, b, last.0@);
        lemma_push(rest, b, last);
        lemma_flatten_update_len(rest, b, rest[b].push(last));
        let m = contents(now);
        assert forall|p: int| 0 <= p < pairs.len() implies m.contains_key((#[trigger] pairs[p]).0@)
            && m[pairs[p].0@] == pairs[p].1 by {
            if p < front.len() {
                assert(front[p] == pairs[p]);
                assert(pairs[pairs.len() - 1] == last);
            }
        }
        assert forall|id: K::V| #[trigger] m.contains_key(id) implies exists|p: int|
            0 <= p < pairs.len() && (#[trigger] pairs[p]).0@ == id by {
            if id == last.0@ {
                assert(pairs[pairs.len() - 1].0@ == id);
            } else {
                let p = choose|p: int| 0 <= p < front.len() && (#[trigger] front[p]).0@ == id;
                assert(pairs[p].0@ == id);
            }
        }
    }
}

/// Two maps that the same pairs list are one map.
pub proof fn lemma_lists_one_map<K: Key, V>(pairs: Seq<(K, V)>, m: Map<K::V, V>, n: Map<K::V, V>)
    requires
        lists(pairs, m),
        lists(pairs, n),
    ensures
        m =~= n,
{
    assert forall|id: K::V| m.contains_key(id) == n.contains_key(id) by {
        if m.contains_key(id) {
            let p = choose|p: int| 0 <= p < pairs.len() && (#[trigger] pairs[p]).0@ == id;
            assert(n.contains_key(pairs[p].0@));
        }
        if n.contains_key(id) {
            let p = choose|p: int| 0 <= p < pairs.len() && (#[trigger] pairs[p]).0@ == id;
            assert(m.contains_key(pairs[p].0@));
        }
    }
    assert forall|id: K::V| m.contains_key(id) implies m[id] == n[id] by {
        let p = choose|p: int| 0 <= p < pairs.len() && (#[trigger] pairs[p]).0@ == id;
        assert(m[pairs[p].0@] == pairs[p].1);
        assert(n[pairs[p].0@] == pairs[p].1);
    }
}

/// The pairs of a sound table, spread over buckets anew, make a sound table
/// for the same map.
pub proof fn lemma_spread_table<K: Key, V>(buckets: Seq<Seq<(K, V)>>, pairs: nat, count: nat)
    requires
        well_formed(buckets, pairs),
        count > 0,
        doubling(count),
    ensures
        well_formed(spread(buckets.flatten(), count), pairs),
        contents(spread(buckets.flatten(), count)) == contents(buckets),
        spread(buckets.flatten(), count).len() == count,
{
    lemma_flatten_lists(buckets);
    lemma_spread_sound(buckets.flatten(), count);
    lemma_lists_one_map(
        buckets.flatten(),
        contents(buckets),
        contents(spread(buckets.flatten(), count)),
    );
}

/// The number of buckets after a growth step is a power of two.
pub proof fn lemma_grown_doubling(count: nat)
    requires
        count == 0 || doubling(count),
    ensures
        doubling(grown(count)),
        grown(count) > 0,
{
    if count > 0 {
        assert((2 * count) / 2 == count);
    }
}

/// The map that inserting the pairs one after the other into an empty map
/// gives: a later pair overwrites an earlier one with the same key.
pub open spec fn gathered<K: Key, V>(pairs: Seq<(K, V)>) -> Map<K::V, V>
    decreases pairs.len(),
{
    if pairs.len() == 0 {
        Map::empty()
    } else {
        gathered(pairs.drop_last()).insert(pairs.last().0@, pairs.last().1)
    }
}

/// The most pairs that can be gathered into a table while the bucket count is
/// sure to stay within `usize`.
pub open spec fn gather_limit() -> nat {
    ((usize::MAX - 6) / 8) as nat
}

/// A table that has only grown by insertions has at most eight buckets for
/// each pair, and six more; an insertion keeps it so.
pub proof fn lemma_settled_bound(count: nat, pairs: nat, after: nat)
    requires
        count <= 8 * pairs + 6,
        pairs <= after,
    ensures
        settled(count, pairs) <= 8 * pairs + 6,
        settled(count, pairs) <= 8 * after + 6,
{
}

/// Gathered pairs with a key of their own keep their value.
pub proof fn lemma_gathered_value<K: Key, V>(pairs: Seq<(K, V)>, p: int)
    requires
        0 <= p < pairs.len(),
        forall|q: int| p < q < pairs.len() ==> (#[trigger] pairs[q]).0@ != pairs[p].0@,
    ensures
        gathered(pairs).contains_key(pairs[p].0@),
        gathered(pairs)[pairs[p].0@] == pairs[p].1,
    decreases pairs.len(),
{
    if p < pairs.len() - 1 {
        let front = pairs.drop_last();
        assert forall|q: int| p < q < front.len() implies (#[trigger] front[q]).0@
            != front[p].0@ by {
            assert(front[q] == pairs[q]);
        }
        lemma_gathered_value(front, p);
        assert(pairs.last() == pairs[pairs.len() - 1]);
    }
}

} // verus!
