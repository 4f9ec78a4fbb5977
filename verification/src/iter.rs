//! Iteration over the pairs of a table: by reference, bucket by bucket and
//! front to back, and by value, bucket by bucket and back to front.

use crate::key::Key;
use crate::map::HashMap;
use crate::order::lemma_flatten_from;
use crate::order::lemma_walk_bucket;
use crate::order::reversed;
use crate::order::walk_from;
use vstd::prelude::*;
use vstd::std_specs::iter::IteratorSpecImpl;

verus! {

/// An iterator over the pairs of a table, by reference.
pub struct Iter<'a, K: Key, V> {
    map: &'a HashMap<K, V>,
    bucket: usize,
    at: usize,
}

impl<'a, K: Key, V> Iter<'a, K, V> {
    /// The pairs that the iterator has yet to yield, in order.
    pub closed spec fn pending(&self) -> Seq<(K, V)> {
        walk_from(self.map.chains(), self.bucket as int, self.at as int)
    }
}

impl<'a, K: Key, V> Iterator for Iter<'a, K, V> {
    type Item = (&'a K, &'a V);

    /// Yields the next pair of the walk, or nothing when the walk is over.
    fn next(&mut self) -> (item: Option<(&'a K, &'a V)>)
        ensures
            old(self).pending().len() == 0 ==> item is None
                && final(self).pending() == old(self).pending(),
            old(self).pending().len() > 0 ==> item == Some(
                (&old(self).pending()[0].0, &old(self).pending()[0].1),
            ) && final(self).pending() == old(self).pending().drop_first(),
    {
        let ghost chains = self.map.chains();
        loop
            invariant
                self.map == old(self).map,
                chains == self.map.chains(),
                self.pending() == old(self).pending(),
            decreases self.map.buckets.len() - self.bucket,
        {
            match self.map.buckets.get(self.bucket) {
                Some(chain) => {
                    assert(chain@ == chains[self.bucket as int]);
                    match chain.get(self.at) {
                        Some(pair) => {
                            let ghost before = self.pending();
                            self.at += 1;
                            proof {
                                assert(before[0] == *pair);
                                assert(self.pending() =~= before.drop_first());
                                assert(before.drop_first().map_values(|p: (K, V)| (&p.0, &p.1))
                                    =~= before.map_values(|p: (K, V)| (&p.0, &p.1)).drop_first());
                            }
                            return Some((&pair.0, &pair.1));
                        },
                        None => {
                            proof {
                                lemma_walk_bucket(chains, self.bucket + 1);
                            }
                            self.bucket += 1;
                            self.at = 0;
                        },
                    }
                },
                None => {
                    assert(self.pending() =~= Seq::<(K, V)>::empty());
                    return None;
                },
            }
        }
    }
}

impl<'a, K: Key, V> IteratorSpecImpl for Iter<'a, K, V> {
    open spec fn obeys_prophetic_iter_laws(&self) -> bool {
        true
    }

    open spec fn remaining(&self) -> Seq<(&'a K, &'a V)> {
        self.pending().map_values(|p: (K, V)| (&p.0, &p.1))
    }

    open spec fn will_return_none(&self) -> bool {
        true
    }

    open spec fn decrease(&self) -> Option<nat> {
        Some(self.pending().len())
    }

    open spec fn initial_value_relation(&self, init: &Self) -> bool {
        self.pending() == init.pending()
    }

    open spec fn peek(&self, index: int) -> Option<(&'a K, &'a V)> {
        if 0 <= index < self.pending().len() {
            Some((&self.pending()[index].0, &self.pending()[index].1))
        } else {
            None
        }
    }
}

impl<'a, K: Key, V> IntoIterator for &'a HashMap<K, V> {
    type Item = (&'a K, &'a V);

    type IntoIter = Iter<'a, K, V>;

    /// An iterator that yields the pairs of the table in the order of
    /// `entries`.
    fn into_iter(self) -> (iter: Iter<'a, K, V>)
        ensures
            iter.pending() == self.entries(),
    {
        proof {
            lemma_walk_bucket(self.chains(), 0);
            assert(self.chains().skip(0) =~= self.chains());
        }
        Iter { map: self, bucket: 0, at: 0 }
    }
}

/// An iterator over the pairs of a table, by value. It owns the table and
/// empties its buckets one after the other, each from its back.
pub struct IntoIter<K: Key, V> {
    map: HashMap<K, V>,
    bucket: usize,
}

impl<K: Key, V> IntoIter<K, V> {
    /// The pairs that the iterator has yet to yield, in order.
    pub closed spec fn pending(&self) -> Seq<(K, V)> {
        if self.bucket <= self.map.chains().len() {
            reversed(self.map.chains()).skip(self.bucket as int).flatten()
        } else {
            Seq::empty()
        }
    }
}

impl<K: Key, V> Iterator for IntoIter<K, V> {
    type Item = (K, V);

    /// Takes the last pair out of the first bucket that is not empty and
    /// yields it, or yields nothing when every bucket is empty.
    fn next(&mut self) -> (item: Option<(K, V)>)
        ensures
            old(self).pending().len() == 0 ==> item is None
                && final(self).pending() == old(self).pending(),
            old(self).pending().len() > 0 ==> item == Some(old(self).pending()[0])
                && final(self).pending() == old(self).pending().drop_first(),
    {
        loop
            invariant
                self.pending() == old(self).pending(),
            decreases self.map.buckets.len() - self.bucket,
        {
            if self.bucket < self.map.buckets.len() {
                let ghost before = self.map.chains();
                let ghost chain = before[self.bucket as int];
                assert(self.map.buckets[self.bucket as int]@ == chain);
                proof {
                    lemma_flatten_from(reversed(before), self.bucket as int);
                }
                match self.map.buckets[self.bucket].pop() {
                    Some(pair) => {
                        proof {
                            let after = self.map.chains();
                            assert(after =~= before.update(self.bucket as int, chain.drop_last()));
                            lemma_flatten_from(reversed(after), self.bucket as int);
                            assert(reversed(after).skip(self.bucket + 1) =~= reversed(before).skip(
                                self.bucket + 1,
                            ));
                            assert(chain.drop_last().reverse() =~= chain.reverse().drop_first());
                            assert(self.pending() =~= old(self).pending().drop_first());
                        }
                        return Some(pair);
                    },
                    None => {
                        proof {
                            assert(self.map.chains() =~= before);
                            assert(chain.reverse() =~= Seq::<(K, V)>::empty());
                        }
                        self.bucket += 1;
                    },
                }
            } else {
                proof {
                    if self.bucket == self.map.chains().len() {
                        assert(reversed(self.map.chains()).skip(self.bucket as int) =~= Seq::<
                            Seq<(K, V)>,
                        >::empty());
                    }
                }
                return None;
            }
        }
    }
}

impl<K: Key, V> IteratorSpecImpl for IntoIter<K, V> {
    open spec fn obeys_prophetic_iter_laws(&self) -> bool {
        true
    }

    open spec fn remaining(&self) -> Seq<(K, V)> {
        self.pending()
    }

    open spec fn will_return_none(&self) -> bool {
        true
    }

    open spec fn decrease(&self) -> Option<nat> {
        Some(self.pending().len())
    }

    open spec fn initial_value_relation(&self, init: &Self) -> bool {
        self.pending() == init.pending()
    }

    open spec fn peek(&self, index: int) -> Option<(K, V)> {
        if 0 <= index < self.pending().len() {
            Some(self.pending()[index])
        } else {
            None
        }
    }
}

impl<K: Key, V> IntoIterator for HashMap<K, V> {
    type Item = (K, V);

    type IntoIter = IntoIter<K, V>;

    /// An iterator that takes the table and yields its pairs in the order of
    /// `drained`.
    fn into_iter(self) -> (iter: IntoIter<K, V>)
        ensures
            iter.pending() == self.drained(),
    {
        proof {
            assert(reversed(self.chains()).skip(0) =~= reversed(self.chains()));
        }
        IntoIter { map: self, bucket: 0 }
    }
}

} // verus!
