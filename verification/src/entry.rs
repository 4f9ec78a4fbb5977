//! The entry of a key in a table: a handle on the slot that the key has, or
//! on the place where it would go, obtained with one lookup.

use crate::growth::regrown;
use crate::growth::settled;
use crate::key::Key;
use crate::layout::contents;
use crate::layout::home_of;
use crate::layout::lemma_absent;
use crate::layout::lemma_absent_here;
use crate::layout::well_formed;
use crate::map::HashMap;
use crate::map::position;
use crate::update::lemma_table_push;
use crate::update::holder;
use crate::update::lemma_table_set;
use crate::update::put;
use crate::update::replaced;
use vstd::prelude::*;

verus! {

/// The entry of a key that the table holds: it borrows the key's pair.
pub struct OccupiedEntry<'a, K: 'a, V: 'a> {
    entry: &'a mut (K, V),
}

impl<'a, K: 'a, V: 'a> OccupiedEntry<'a, K, V> {
    /// The borrowed pair.
    pub closed spec fn slot(self) -> &'a mut (K, V) {
        self.entry
    }

    /// Whether `after` is the borrowed pair with the same key and the value
    /// `last`.
    pub open spec fn kept(self, after: (K, V), last: V) -> bool {
        after == (self.slot().0, last)
    }

    /// An entry that is given up leaves its pair as it is.
    pub proof fn lemma_given_up(self)
        requires
            has_resolved(self),
        ensures
            *final(self.slot()) == *self.slot(),
    {
    }
}

/// The entry of a key that the table does not hold: it keeps the key, the
/// key's bucket and the borrowed table.
pub struct VacantEntry<'a, K: Key, V> {
    key: K,
    map: &'a mut HashMap<K, V>,
    bucket: usize,
}

impl<'a, K: Key, V> VacantEntry<'a, K, V> {
    #[verifier::type_invariant]
    spec fn ready(self) -> bool {
        &&& self.map.wf()
        &&& self.map.bucket_count() > 0
        &&& self.bucket == home_of::<K>(self.key@, self.map.bucket_count())
        &&& !self.map@.contains_key(self.key@)
        &&& self.map@.len() < usize::MAX
    }

    /// The key that the entry keeps.
    pub closed spec fn key(self) -> K {
        self.key
    }

    /// The borrowed table.
    pub closed spec fn table(self) -> &'a mut HashMap<K, V> {
        self.map
    }

    /// Whether `after` is the borrowed table with the entry's key put in, with
    /// the value `last`: the pair stands at the end of the key's bucket.
    pub open spec fn filled(self, after: HashMap<K, V>, last: V) -> bool {
        &&& !self.table()@.contains_key(self.key()@)
        &&& after.wf()
        &&& after@ == self.table()@.insert(self.key()@, last)
        &&& after.chains() == put(self.table().chains(), (self.key(), last))
        &&& after.bucket_count() == self.table().bucket_count()
    }

    /// An entry that is given up leaves the table as it is.
    pub proof fn lemma_given_up(self)
        requires
            has_resolved(self),
        ensures
            *final(self.table()) == *self.table(),
    {
    }

    /// Appends the key with `value` to the key's bucket and returns a
    /// reference to the stored value.
    pub fn insert(self, value: V) -> (stored: &'a mut V)
        ensures
            *stored == value,
            self.filled(*final(self.table()), *final(stored)),
    {
        proof {
            use_type_invariant(&self);
        }
        let ghost table = self.map;
        let VacantEntry { key, map, bucket } = self;
        let ghost before = map.chains();
        let ghost count = map.items as nat;
        let ghost pushed = before.update(bucket as int, before[bucket as int].push((key, value)));
        let ghost last = before[bucket as int].len() as int;
        proof {
            lemma_absent_here(before, bucket as int, key@);
            lemma_table_push(before, count, bucket as int, (key, value));
            assert forall|v: V|
                well_formed(
                    #[trigger] pushed.update(
                        bucket as int,
                        pushed[bucket as int].update(last, (key, v)),
                    ),
                    count + 1,
                ) && contents(
                    pushed.update(bucket as int, pushed[bucket as int].update(last, (key, v))),
                ) == map@.insert(key@, v) by {
                lemma_table_set(pushed, count + 1, bucket as int, last, (key, v));
                assert(map@.insert(key@, value).insert(key@, v) =~= map@.insert(key@, v));
            }
        }
        map.buckets[bucket].push((key, value));
        map.items += 1;
        assert(map.chains() =~= pushed);
        let stored = &mut map.buckets[bucket].last_mut().unwrap().1;
        proof {
            let after = pushed.update(
                bucket as int,
                pushed[bucket as int].update(last, (key, *final(stored))),
            );
            assert(final(table).chains() =~= after);
            assert(after[bucket as int] =~= before[bucket as int].push((key, *final(stored))));
            assert(after =~= put(before, (key, *final(stored))));
        }
        stored
    }
}

/// The entry of a key in a table.
pub enum Entry<'a, K: Key, V> {
    Occupied(OccupiedEntry<'a, K, V>),
    Vacant(VacantEntry<'a, K, V>),
}

impl<'a, K: Key, V> Entry<'a, K, V> {
    /// The value that the key has, or `value` after putting it in for a key
    /// that had none.
    pub fn or_insert(self, value: V) -> (stored: &'a mut V)
        ensures
            match self {
                Entry::Occupied(e) => *stored == e.slot().1 && e.kept(
                    *final(e.slot()),
                    *final(stored),
                ),
                Entry::Vacant(e) => *stored == value && e.filled(
                    *final(e.table()),
                    *final(stored),
                ),
            },
    {
        match self {
            Entry::Occupied(e) => &mut e.entry.1,
            Entry::Vacant(e) => e.insert(value),
        }
    }

    /// The value that the key has, or the value that `maker` makes, after
    /// putting it in for a key that had none. `maker` is called only for a key
    /// that had no value.
    pub fn or_insert_with<F>(self, maker: F) -> (stored: &'a mut V) where F: FnOnce() -> V
        requires
            self is Vacant ==> maker.requires(()),
        ensures
            match self {
                Entry::Occupied(e) => *stored == e.slot().1 && e.kept(
                    *final(e.slot()),
                    *final(stored),
                ),
                Entry::Vacant(e) => maker.ensures((), *stored) && e.filled(
                    *final(e.table()),
                    *final(stored),
                ),
            },
    {
        match self {
            Entry::Occupied(e) => &mut e.entry.1,
            Entry::Vacant(e) => e.insert(maker()),
        }
    }

    /// The value that the key has, or the default value after putting it in
    /// for a key that had none.
    pub fn or_default(self) -> (stored: &'a mut V) where V: Default
        ensures
            match self {
                Entry::Occupied(e) => *stored == e.slot().1 && e.kept(
                    *final(e.slot()),
                    *final(stored),
                ),
                Entry::Vacant(e) => call_ensures(V::default, (), *stored) && e.filled(
                    *final(e.table()),
                    *final(stored),
                ),
            },
    {
        self.or_insert_with(V::default)
    }
}

impl<K: Key, V> HashMap<K, V> {
    /// The entry of `key`. The table grows first if it is crowded. For a key
    /// that the table holds, the entry borrows the key's pair: whatever value
    /// the pair has in the end is the key's value in the table. For a key that
    /// it does not hold, the entry borrows the whole table.
    pub fn entry<'a>(&'a mut self, key: K) -> (e: Entry<'a, K, V>)
        requires
            old(self).wf(),
            old(self).growth_fits(),
            old(self).count_fits(key@),
        ensures
            match e {
                Entry::Occupied(o) => {
                    &&& old(self)@.contains_key(key@)
                    &&& o.slot().0@ == key@
                    &&& o.slot().1 == old(self)@[key@]
                    &&& *o.slot() == holder(regrown(old(self).chains()), key@)
                    &&& final(self).chains() == replaced(
                        regrown(old(self).chains()),
                        key@,
                        *final(o.slot()),
                    )
                    &&& final(self).bucket_count() == settled(
                        old(self).bucket_count(),
                        old(self)@.len(),
                    )
                    &&& final(o.slot()).0@ == key@ ==> {
                        &&& final(self).wf()
                        &&& final(self)@ == old(self)@.insert(key@, final(o.slot()).1)
                    }
                },
                Entry::Vacant(v) => {
                    &&& !old(self)@.contains_key(key@)
                    &&& v.key() == key
                    &&& v.table().wf()
                    &&& v.table()@ == old(self)@
                    &&& v.table().chains() == regrown(old(self).chains())
                    &&& v.table().bucket_count() == settled(
                        old(self).bucket_count(),
                        old(self)@.len(),
                    )
                    &&& *final(self) == *final(v.table())
                },
            },
    {
        self.maybe_grow();
        let bucket = self.bucket(&key);
        let ghost before = self.chains();
        let ghost count = self.items as nat;
        assert(self.buckets[bucket as int]@ == before[bucket as int]);
        match position(&self.buckets[bucket], &key) {
            Some(index) => {
                proof {
                    assert forall|pair: (K, V)| pair.0@ == key@ implies well_formed(
                        #[trigger] before.update(
                            bucket as int,
                            before[bucket as int].update(index as int, pair),
                        ),
                        count,
                    ) && contents(
                        before.update(
                            bucket as int,
                            before[bucket as int].update(index as int, pair),
                        ),
                    ) == self@.insert(key@, pair.1) by {
                        lemma_table_set(before, count, bucket as int, index as int, pair);
                    }
                    lemma_table_set(
                        before,
                        count,
                        bucket as int,
                        index as int,
                        before[bucket as int][index as int],
                    );
                }
                let ghost this = self;
                let entry = &mut self.buckets[bucket][index];
                proof {
                    assert(final(this).chains() =~= before.update(
                        bucket as int,
                        before[bucket as int].update(index as int, *final(entry)),
                    ));
                }
                Entry::Occupied(OccupiedEntry { entry })
            },
            None => {
                proof {
                    lemma_absent(before, key@);
                }
                Entry::Vacant(VacantEntry { map: self, key, bucket })
            },
        }
    }
}

} // verus!
