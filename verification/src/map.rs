//! The table: a vector of buckets, each a chain of pairs, and a count of
//! the pairs.

use crate::growth::built;
use crate::growth::crowded;
use crate::growth::gather_limit;
use crate::growth::gathered;
use crate::growth::grown;
use crate::growth::INITIAL_NBUCKETS;
use crate::growth::lemma_grown_doubling;
use crate::growth::lemma_settled_bound;
use crate::growth::lemma_spread_push;
use crate::growth::lemma_spread_table;
use crate::growth::regrown;
use crate::growth::settled;
use crate::growth::spread;
use crate::key::Key;
use crate::key::Lookup;
use crate::layout::chain_has;
use crate::layout::chains_of;
use crate::layout::contents;
use crate::layout::home_of;
use crate::layout::lemma_absent;
use crate::layout::lemma_contents_empty;
use crate::layout::lemma_found;
use crate::layout::well_formed;
use crate::order::lemma_flatten_split;
use crate::order::reversed;
use crate::update::lemma_table_push;
use crate::update::lemma_table_set;
use crate::update::lemma_table_swap_remove;
use crate::update::put;
use crate::update::taken;
use vstd::prelude::*;

verus! {

/// A map from keys to values, kept as a hash table with chaining.
pub struct HashMap<K: Key, V> {
    pub(crate) buckets: Vec<Vec<(K, V)>>,
    pub(crate) items: usize,
}

impl<K: Key, V> View for HashMap<K, V> {
    type V = Map<K::V, V>;

    /// The map that the table stands for, from the identities of its keys
    /// to its values.
    open(crate) spec fn view(&self) -> Map<K::V, V> {
        contents(self.chains())
    }
}

/// The position of the first pair of `chain` whose key is the one that `key`
/// stands for.
pub(crate) fn position<K: Key, V, Q: Lookup<K> + ?Sized>(chain: &Vec<(K, V)>, key: &Q) -> (found:
    Option<usize>)
    ensures
        match found {
            Some(t) => {
                &&& t < chain.len()
                &&& chain@[t as int].0@ == key.id()
                &&& forall|s: int| 0 <= s < t ==> (#[trigger] chain@[s]).0@ != key.id()
            },
            None => !chain_has(chain@, key.id()),
        },
{
    let mut t: usize = 0;
    while t < chain.len()
        invariant
            t <= chain.len(),
            forall|s: int| 0 <= s < t ==> (#[trigger] chain@[s]).0@ != key.id(),
        decreases chain.len() - t,
    {
        if key.is_key(&chain[t].0) {
            return Some(t);
        }
        t += 1;
    }
    None
}

impl<K: Key, V> HashMap<K, V> {
    /// The chains of the buckets, in the order of the buckets.
    pub open(crate) spec fn chains(&self) -> Seq<Seq<(K, V)>> {
        chains_of(self.buckets)
    }

    /// The pairs of the table in the order in which a walk over the buckets
    /// meets them.
    pub open spec fn entries(&self) -> Seq<(K, V)> {
        self.chains().flatten()
    }

    /// The pairs of the table in the order in which they come out when the
    /// buckets are emptied one after the other, each from its back.
    pub open spec fn drained(&self) -> Seq<(K, V)> {
        reversed(self.chains()).flatten()
    }

    /// The number of buckets.
    pub open spec fn bucket_count(&self) -> nat {
        self.chains().len()
    }

    /// The table is well formed: every pair sits in the bucket of its key, no
    /// key occurs twice, the count of pairs is right, and the number of
    /// buckets is zero or a power of two.
    pub open(crate) spec fn wf(&self) -> bool {
        well_formed(self.chains(), self.items as nat)
    }

    /// An empty table, without any bucket.
    pub fn new() -> (map: Self)
        ensures
            map.wf(),
            map@ == Map::<K::V, V>::empty(),
            map.chains() == Seq::<Seq<(K, V)>>::empty(),
    {
        let map = HashMap { buckets: Vec::new(), items: 0 };
        proof {
            lemma_contents_empty(map.chains());
            assert(map.chains() =~= Seq::<Seq<(K, V)>>::empty());
        }
        map
    }

    /// The number of pairs.
    pub fn len(&self) -> (n: usize)
        requires
            self.wf(),
        ensures
            n == self@.len(),
            n == self.entries().len(),
    {
        self.items
    }

    /// Whether the table holds no pair.
    pub fn is_empty(&self) -> (b: bool)
        requires
            self.wf(),
        ensures
            b == (self@.len() == 0),
            b == (self@ == Map::<K::V, V>::empty()),
    {
        proof {
            if self@.len() == 0 {
                assert(self@.dom() =~= Set::<K::V>::empty());
                assert(self@ =~= Map::<K::V, V>::empty());
            }
        }
        self.items == 0
    }

    /// The bucket of the key that `key` stands for.
    pub(crate) fn bucket<Q: Lookup<K> + ?Sized>(&self, key: &Q) -> (b: usize)
        requires
            self.bucket_count() > 0,
        ensures
            b == home_of::<K>(key.id(), self.bucket_count()),
            b < self.bucket_count(),
    {
        let count = self.buckets.len() as u64;
        (key.lookup_digest() % count) as usize
    }

    /// The value stored for the key that `key` stands for, if the table holds
    /// that key. A table without buckets holds no key.
    pub fn get<Q: Lookup<K> + ?Sized>(&self, key: &Q) -> (value: Option<&V>)
        requires
            self.wf(),
        ensures
            self@.contains_key(key.id()) ==> value == Some(&self@[key.id()]),
            !self@.contains_key(key.id()) ==> value is None,
    {
        if self.buckets.len() == 0 {
            return None;
        }
        let b = self.bucket(key);
        let chain = &self.buckets[b];
        assert(chain@ == self.chains()[b as int]);
        match position(chain, key) {
            Some(t) => {
                proof {
                    lemma_found(self.chains(), b as int, t as int);
                }
                Some(&chain[t].1)
            },
            None => {
                proof {
                    lemma_absent(self.chains(), key.id());
                }
                None
            },
        }
    }

    /// Whether the table holds the key that `key` stands for.
    pub fn contains_key<Q: Lookup<K> + ?Sized>(&self, key: &Q) -> (b: bool)
        requires
            self.wf(),
        ensures
            b == self@.contains_key(key.id()),
    {
        self.get(key).is_some()
    }

    /// Replaces the buckets by a larger array of them, one bucket for a table
    /// that had none and twice as many otherwise, and moves every pair to the
    /// bucket that its key selects there.
    pub(crate) fn resize(&mut self)
        requires
            old(self).wf(),
            grown(old(self).bucket_count()) <= usize::MAX,
        ensures
            final(self).wf(),
            final(self)@ == old(self)@,
            final(self).chains() == spread(old(self).entries(), grown(old(self).bucket_count())),
            final(self).bucket_count() == grown(old(self).bucket_count()),
    {
        let target_size: usize = match self.buckets.len() {
            0 => INITIAL_NBUCKETS,
            n => 2 * n,
        };
        let mut new_buckets: Vec<Vec<(K, V)>> = Vec::with_capacity(target_size);
        let mut filled: usize = 0;
        while filled < target_size
            invariant
                filled <= target_size,
                new_buckets.len() == filled,
                forall|b: int| 0 <= b < filled ==> (#[trigger] new_buckets@[b]).len() == 0,
            decreases target_size - filled,
        {
            new_buckets.push(Vec::new());
            filled += 1;
        }
        let mut old_buckets: Vec<Vec<(K, V)>> = Vec::new();
        core::mem::swap(&mut self.buckets, &mut old_buckets);
        let ghost from = chains_of(old_buckets);
        proof {
            assert(from.take(0) =~= Seq::<Seq<(K, V)>>::empty());
            assert(from.take(0).flatten() =~= Seq::<(K, V)>::empty());
            assert forall|b: int| 0 <= b < target_size implies #[trigger] chains_of(new_buckets)[b]
                == Seq::<(K, V)>::empty() by {
                assert(chains_of(new_buckets)[b] =~= Seq::<(K, V)>::empty());
            }
            assert(chains_of(new_buckets) =~= spread(from.take(0).flatten(), target_size as nat));
        }
        for chain in outer: old_buckets
            invariant
                from == chains_of(old_buckets),
                new_buckets.len() == target_size,
                target_size > 0,
                chains_of(new_buckets) == spread(
                    from.take(outer.index() as int).flatten(),
                    target_size as nat,
                ),
        {
            let ghost j = outer.index() as int;
            assert(chain@ == from[j]);
            assert(from[j].take(0) =~= Seq::<(K, V)>::empty());
            assert(from.take(j).flatten() + from[j].take(0) =~= from.take(j).flatten());
            for pair in inner: chain
                invariant
                    0 <= j < from.len(),
                    chain@ == from[j],
                    new_buckets.len() == target_size,
                    target_size > 0,
                    chains_of(new_buckets) == spread(
                        from.take(j).flatten() + from[j].take(inner.index() as int),
                        target_size as nat,
                    ),
            {
                let ghost i = inner.index() as int;
                let ghost before = chains_of(new_buckets);
                let ghost spread_so_far = from.take(j).flatten() + from[j].take(i);
                assert(pair == from[j][i]);
                let bucket = (pair.0.digest() % new_buckets.len() as u64) as usize;
                proof {
                    lemma_spread_push(spread_so_far, pair, target_size as nat);
                    assert(spread_so_far.push(pair) =~= from.take(j).flatten() + from[j].take(
                        i + 1,
                    ));
                }
                new_buckets[bucket].push(pair);
                assert(chains_of(new_buckets) =~= before.update(
                    bucket as int,
                    before[bucket as int].push(pair),
                ));
            }
            proof {
                lemma_flatten_split(from, j);
                assert(from[j].take(from[j].len() as int) =~= from[j]);
            }
        }
        proof {
            assert(from.take(from.len() as int) =~= from);
            lemma_grown_doubling(from.len());
            lemma_spread_table(from, self.items as nat, target_size as nat);
        }
        self.buckets = new_buckets;
    }

    /// Whether the growth step that an insertion takes in a crowded table
    /// keeps the number of buckets within `usize`.
    pub open spec fn growth_fits(&self) -> bool {
        crowded(self.bucket_count(), self@.len()) ==> grown(self.bucket_count()) <= usize::MAX
    }

    /// Whether the count of pairs stays within `usize` when the key with the
    /// identity `id` is inserted.
    pub open spec fn count_fits(&self, id: K::V) -> bool {
        self@.contains_key(id) || self@.len() < usize::MAX
    }

    /// Grows the table if it has no bucket or holds more pairs than a quarter
    /// of its bucket count.
    pub(crate) fn maybe_grow(&mut self)
        requires
            old(self).wf(),
            old(self).growth_fits(),
        ensures
            final(self).wf(),
            final(self)@ == old(self)@,
            final(self).chains() == regrown(old(self).chains()),
            final(self).bucket_count() == settled(old(self).bucket_count(), old(self)@.len()),
            final(self).bucket_count() > 0,
    {
        if self.buckets.is_empty() || self.items > self.buckets.len() / 4 {
            self.resize();
        }
    }

    /// Maps `key` to `value`. Returns the value that the key had before, if it
    /// had one. The table grows first if it is crowded.
    pub fn insert(&mut self, key: K, value: V) -> (previous: Option<V>)
        requires
            old(self).wf(),
            old(self).growth_fits(),
            old(self).count_fits(key@),
        ensures
            final(self).wf(),
            final(self)@ == old(self)@.insert(key@, value),
            previous == old(self)@.get(key@),
            final(self).chains() == put(regrown(old(self).chains()), (key, value)),
            final(self).bucket_count() == settled(old(self).bucket_count(), old(self)@.len()),
    {
        self.maybe_grow();
        let bucket = self.bucket(&key);
        let ghost before = self.chains();
        assert(self.buckets[bucket as int]@ == before[bucket as int]);
        match position(&self.buckets[bucket], &key) {
            Some(t) => {
                let ghost pair = (before[bucket as int][t as int].0, value);
                proof {
                    lemma_table_set(before, self.items as nat, bucket as int, t as int, pair);
                }
                let mut value = value;
                core::mem::swap(&mut self.buckets[bucket][t].1, &mut value);
                proof {
                    assert(self.chains() =~= before.update(
                        bucket as int,
                        before[bucket as int].update(t as int, pair),
                    ));
                }
                Some(value)
            },
            None => {
                proof {
                    lemma_table_push(before, self.items as nat, bucket as int, (key, value));
                }
                self.items += 1;
                self.buckets[bucket].push((key, value));
                proof {
                    assert(self.chains() =~= before.update(
                        bucket as int,
                        before[bucket as int].push((key, value)),
                    ));
                }
                None
            },
        }
    }

    /// Removes the key that `key` stands for. Returns the value that it had,
    /// if the table held it. The last pair of the key's bucket takes the place
    /// of the removed pair.
    pub fn remove<Q: Lookup<K> + ?Sized>(&mut self, key: &Q) -> (removed: Option<V>)
        requires
            old(self).wf(),
        ensures
            final(self).wf(),
            final(self)@ == old(self)@.remove(key.id()),
            removed == old(self)@.get(key.id()),
            final(self).chains() == taken(old(self).chains(), key.id()),
            final(self).bucket_count() == old(self).bucket_count(),
    {
        if self.buckets.len() == 0 {
            proof {
                lemma_absent(self.chains(), key.id());
                assert(self@.remove(key.id()) =~= self@);
            }
            return None;
        }
        let bucket = self.bucket(key);
        let ghost before = self.chains();
        assert(self.buckets[bucket as int]@ == before[bucket as int]);
        match position(&self.buckets[bucket], key) {
            Some(i) => {
                let ghost chain = before[bucket as int];
                proof {
                    lemma_table_swap_remove(before, self.items as nat, bucket as int, i as int);
                }
                self.items -= 1;
                let pair = self.buckets[bucket].swap_remove(i);
                proof {
                    assert(self.chains() =~= before.update(
                        bucket as int,
                        chain.update(i as int, chain.last()).drop_last(),
                    ));
                }
                Some(pair.1)
            },
            None => {
                proof {
                    lemma_absent(before, key.id());
                    assert(self@.remove(key.id()) =~= self@);
                }
                None
            },
        }
    }

    /// A table built from a sequence of pairs, by inserting one after the
    /// other: of two pairs with the same key the later one stays.
    pub fn from_iter(pairs: Vec<(K, V)>) -> (map: Self)
        requires
            pairs.len() <= gather_limit(),
        ensures
            map.wf(),
            map@ == gathered(pairs@),
            map.chains() == built(pairs@),
    {
        let mut map = HashMap::new();
        let ghost all = pairs@;
        for pair in iter: pairs
            invariant
                all == pairs@,
                all.len() <= gather_limit(),
                map.wf(),
                map@ == gathered(all.take(iter.index() as int)),
                map.chains() == built(all.take(iter.index() as int)),
                map@.len() <= iter.index(),
                map.bucket_count() <= 8 * map@.len() + 6,
        {
            let ghost done = iter.index() as int;
            let ghost before = map@.len();
            let ghost count = map.bucket_count();
            proof {
                assert(pair == all[done]);
                assert(all.take(done + 1).drop_last() =~= all.take(done));
                assert(all.take(done + 1).last() == pair);
                lemma_settled_bound(map.bucket_count(), before, before);
            }
            map.insert(pair.0, pair.1);
            proof {
                lemma_settled_bound(count, before, map@.len());
            }
        }
        proof {
            assert(all.take(all.len() as int) =~= all);
        }
        map
    }
}

} // verus!
