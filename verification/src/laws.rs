//! Laws of the table, over the map that a table stands for and the orders in
//! which its pairs are walked.

use crate::growth::crowded;
use crate::growth::gathered;
use crate::growth::grown;
use crate::growth::lemma_gathered_value;
use crate::growth::lemma_grown_doubling;
use crate::growth::lemma_spread_table;
use crate::growth::regrown;
use crate::growth::settled;
use crate::key::Key;
use crate::layout::chain_find;
use crate::layout::chain_has;
use crate::layout::contents;
use crate::layout::doubling;
use crate::layout::home_of;
use crate::layout::lemma_home_in_range;
use crate::layout::lists;
use crate::layout::well_formed;
use crate::map::HashMap;
use crate::order::lemma_flatten_lists;
use crate::order::lemma_reversed;
use crate::order::reversed;
use crate::update::lemma_table_push;
use crate::update::lemma_table_set;
use crate::update::lemma_table_swap_remove;
use crate::update::put;
use crate::update::taken;
use vstd::prelude::*;

verus! {

/// Round trip: once `key` has been inserted with `value`, the table holds the
/// key and maps it to `value`.
pub proof fn law_round_trip<K: Key, V>(map: HashMap<K, V>, key: K, value: V)
    ensures
        map@.insert(key@, value).contains_key(key@),
        map@.insert(key@, value)[key@] == value,
{
}

/// Overwrite: when `key` is inserted with `first` and then with `second`, the
/// second insertion finds `first` as the previous value, leaves `second` as the
/// key's value and does not change the number of pairs.
pub proof fn law_overwrite<K: Key, V>(map: HashMap<K, V>, key: K, first: V, second: V)
    requires
        map.wf(),
    ensures
        map@.insert(key@, first).get(key@) == Some(first),
        map@.insert(key@, first).insert(key@, second)[key@] == second,
        map@.insert(key@, first).insert(key@, second).len() == map@.insert(key@, first).len(),
{
    let once = map@.insert(key@, first);
    assert(once.insert(key@, second).dom() =~= once.dom());
}

/// Removal of an absent key: nothing is found, and the table stays as it was.
pub proof fn law_remove_absent<K: Key, V>(map: HashMap<K, V>, id: K::V)
    requires
        map.wf(),
        !map@.contains_key(id),
    ensures
        map@.get(id) is None,
        map@.remove(id) == map@,
        map@.remove(id).len() == map@.len(),
{
    assert(map@.remove(id) =~= map@);
}

/// Removal of a present key: its value is found, the table has one pair less
/// and no longer holds the key.
pub proof fn law_remove_present<K: Key, V>(map: HashMap<K, V>, id: K::V)
    requires
        map.wf(),
        map@.contains_key(id),
    ensures
        map@.get(id) == Some(map@[id]),
        map@.remove(id).len() == map@.len() - 1,
        !map@.remove(id).contains_key(id),
        map@.remove(id).get(id) is None,
{
}

/// Size: a walk over a table meets as many pairs as the table has keys, each
/// key once, with its value.
pub proof fn law_entries_list_the_map<K: Key, V>(map: HashMap<K, V>)
    requires
        map.wf(),
    ensures
        map.entries().len() == map@.len(),
        lists(map.entries(), map@),
{
    lemma_flatten_lists(map.chains());
}

/// Emptying a table yields as many pairs as the table has keys, each key
/// once, with its value.
pub proof fn law_drained_list_the_map<K: Key, V>(map: HashMap<K, V>)
    requires
        map.wf(),
    ensures
        map.drained().len() == map@.len(),
        lists(map.drained(), map@),
{
    lemma_reversed(map.chains());
    lemma_flatten_lists(reversed(map.chains()));
}

/// The number of buckets and the number of pairs of a table are within
/// `usize`.
pub proof fn law_counts_fit<K: Key, V>(map: HashMap<K, V>)
    requires
        map.wf(),
    ensures
        map.bucket_count() <= usize::MAX,
        map@.len() <= usize::MAX,
{
    assert(map.chains().len() == map.buckets.len());
}

/// A table has no bucket, or a number of buckets that is a power of two.
pub proof fn law_bucket_count_doubles<K: Key, V>(map: HashMap<K, V>)
    requires
        map.wf(),
    ensures
        map.bucket_count() == 0 || doubling(map.bucket_count()),
{
}

/// Storing a pair in the buckets of a table inserts it into the map, and
/// adds a pair to the count where the key is new.
pub proof fn law_put_inserts<K: Key, V>(buckets: Seq<Seq<(K, V)>>, pairs: nat, pair: (K, V))
    requires
        well_formed(buckets, pairs),
        buckets.len() > 0,
    ensures
        contents(put(buckets, pair)) == contents(buckets).insert(pair.0@, pair.1),
        well_formed(
            put(buckets, pair),
            if contents(buckets).contains_key(pair.0@) {
                pairs
            } else {
                pairs + 1
            },
        ),
{
    let b = home_of::<K>(pair.0@, buckets.len());
    lemma_home_in_range(K::digest_of(pair.0@), buckets.len());
    if chain_has(buckets[b], pair.0@) {
        let t = chain_find(buckets[b], pair.0@);
        lemma_table_set(buckets, pairs, b, t, (buckets[b][t].0, pair.1));
    } else {
        lemma_table_push(buckets, pairs, b, pair);
    }
}

/// Taking a key out of the buckets of a table removes it from the map, and
/// takes a pair off the count where the key was held.
pub proof fn law_taken_removes<K: Key, V>(buckets: Seq<Seq<(K, V)>>, pairs: nat, id: K::V)
    requires
        well_formed(buckets, pairs),
    ensures
        contents(taken(buckets, id)) == contents(buckets).remove(id),
        well_formed(
            taken(buckets, id),
            if contents(buckets).contains_key(id) {
                (pairs - 1) as nat
            } else {
                pairs
            },
        ),
{
    let b = home_of::<K>(id, buckets.len());
    if buckets.len() > 0 && chain_has(buckets[b], id) {
        lemma_home_in_range(K::digest_of(id), buckets.len());
        let t = chain_find(buckets[b], id);
        lemma_table_swap_remove(buckets, pairs, b, t);
    } else {
        assert(contents(buckets).remove(id) =~= contents(buckets));
    }
}

/// Growth keeps the map: the buckets with which an insertion goes on, grown
/// or not, are a sound table for the map that the table stood for.
pub proof fn law_growth_keeps_the_map<K: Key, V>(map: HashMap<K, V>)
    requires
        map.wf(),
    ensures
        well_formed(regrown(map.chains()), map@.len()),
        contents(regrown(map.chains())) == map@,
        regrown(map.chains()).len() == settled(map.bucket_count(), map@.len()),
{
    if crowded(map.bucket_count(), map@.len()) {
        lemma_grown_doubling(map.bucket_count());
        lemma_spread_table(map.chains(), map@.len(), grown(map.bucket_count()));
    }
}

/// Gathering loses nothing: of pairs gathered into a table, whatever their
/// number, each whose key no later pair has is found with its value.
pub proof fn law_gathered_pairs_are_kept<K: Key, V>(pairs: Seq<(K, V)>, p: int)
    requires
        0 <= p < pairs.len(),
        forall|q: int| p < q < pairs.len() ==> (#[trigger] pairs[q]).0@ != pairs[p].0@,
    ensures
        gathered(pairs).get(pairs[p].0@) == Some(pairs[p].1),
{
    lemma_gathered_value(pairs, p);
}

} // verus!
