//! How the map of a bucket array changes when one chain gains, changes or
//! loses a pair.

use crate::key::Key;
use crate::layout::chain_distinct;
use crate::layout::chain_find;
use crate::layout::chain_has;
use crate::layout::contents;
use crate::layout::distinct;
use crate::layout::home_of;
use crate::layout::lemma_found;
use crate::layout::lemma_home_in_range;
use crate::layout::lemma_one_place;
use crate::layout::lemma_present;
use crate::layout::placed;
use crate::layout::well_formed;
use crate::order::lemma_flatten_update_len;
use vstd::prelude::*;

verus! {

/// The pair of the buckets that holds the key with the identity `id`.
pub open spec fn holder<K: Key, V>(buckets: Seq<Seq<(K, V)>>, id: K::V) -> (K, V) {
    let chain = buckets[home_of::<K>(id, buckets.len())];
    chain[chain_find(chain, id)]
}

/// The buckets in which `pair` stands where the key with the identity `id`
/// is held.
pub open spec fn replaced<K: Key, V>(buckets: Seq<Seq<(K, V)>>, id: K::V, pair: (K, V)) -> Seq<
    Seq<(K, V)>,
> {
    let b = home_of::<K>(id, buckets.len());
    let chain = buckets[b];
    buckets.update(b, chain.update(chain_find(chain, id), pair))
}

/// The buckets after `pair` has been stored: where the pair's key is held
/// already, the value beside it is replaced; else the pair is appended to the
/// key's home bucket.
pub open spec fn put<K: Key, V>(buckets: Seq<Seq<(K, V)>>, pair: (K, V)) -> Seq<Seq<(K, V)>> {
    let b = home_of::<K>(pair.0@, buckets.len());
    if chain_has(buckets[b], pair.0@) {
        replaced(buckets, pair.0@, (holder(buckets, pair.0@).0, pair.1))
    } else {
        buckets.update(b, buckets[b].push(pair))
    }
}

/// The buckets after the key with the identity `id` has been taken out: where
/// the key is held, the last pair of its home bucket takes its place and the
/// bucket loses its last position; else nothing changes.
pub open spec fn taken<K: Key, V>(buckets: Seq<Seq<(K, V)>>, id: K::V) -> Seq<Seq<(K, V)>> {
    let b = home_of::<K>(id, buckets.len());
    if buckets.len() > 0 && chain_has(buckets[b], id) {
        let chain = buckets[b];
        let t = chain_find(chain, id);
        buckets.update(b, chain.update(t, chain.last()).drop_last())
    } else {
        buckets
    }
}

/// Appending a pair with a new key to its home bucket inserts it into the map.
pub proof fn lemma_push<K: Key, V>(buckets: Seq<Seq<(K, V)>>, b: int, pair: (K, V))
    requires
        placed(buckets),
        distinct(buckets),
        0 <= b < buckets.len(),
        b == home_of::<K>(pair.0@, buckets.len()),
        !chain_has(buckets[b], pair.0@),
    ensures
        placed(buckets.update(b, buckets[b].push(pair))),
        distinct(buckets.update(b, buckets[b].push(pair))),
        contents(buckets.update(b, buckets[b].push(pair))) =~= contents(buckets).insert(
            pair.0@,
            pair.1,
        ),
        !contents(buckets).contains_key(pair.0@),
{
    let chain = buckets[b];
    let longer = chain.push(pair);
    let after = buckets.update(b, longer);
    let n = buckets.len();
    assert forall|c: int, t: int| 0 <= c < after.len() && 0 <= t < after[c].len() implies home_of::<
        K,
    >((#[trigger] after[c][t]).0@, after.len()) == c by {
        if c == b {
            if t < chain.len() {
                assert(after[c][t] == buckets[b][t]);
            }
        } else {
            assert(after[c][t] == buckets[c][t]);
        }
    }
    assert forall|c: int| 0 <= c < after.len() implies chain_distinct(#[trigger] after[c]) by {
        if c == b {
            assert(chain_distinct(buckets[b]));
            assert forall|s: int, t: int|
                0 <= s < longer.len() && 0 <= t < longer.len() && s != t implies (
            #[trigger] longer[s]).0@ != (#[trigger] longer[t]).0@ by {
                if s < chain.len() {
                    assert(longer[s] == chain[s]);
                }
                if t < chain.len() {
                    assert(longer[t] == chain[t]);
                }
            }
        } else {
            assert(after[c] == buckets[c]);
        }
    }
    let before_map = contents(buckets);
    let after_map = contents(after);
    assert forall|id: K::V| #[trigger] after_map.contains_key(id) == before_map.insert(
        pair.0@,
        pair.1,
    ).contains_key(id) by {
        lemma_home_in_range(K::digest_of(id), n);
        let h = home_of::<K>(id, n);
        if id == pair.0@ {
            assert(longer[chain.len() as int] == pair);
            assert(chain_has(longer, id));
        } else if h == b {
            if chain_has(chain, id) {
                let t = chain_find(chain, id);
                assert(longer[t] == chain[t]);
                assert(chain_has(longer, id));
            }
            if chain_has(longer, id) {
                let t = chain_find(longer, id);
                assert(t < chain.len());
                assert(longer[t] == chain[t]);
                assert(chain_has(chain, id));
            }
        } else {
            assert(after[h] == buckets[h]);
        }
    }
    assert forall|id: K::V| #[trigger] after_map.contains_key(id) implies after_map[id]
        == before_map.insert(pair.0@, pair.1)[id] by {
        lemma_home_in_range(K::digest_of(id), n);
        let at = lemma_present(after, id);
        lemma_found(after, at.0, at.1);
        if id == pair.0@ {
            assert(longer[chain.len() as int] == pair);
            lemma_one_place(after, at.0, at.1, b, chain.len() as int);
        } else if at.0 == b {
            assert(at.1 < chain.len());
            assert(longer[at.1] == chain[at.1]);
            lemma_found(buckets, b, at.1);
        } else {
            assert(after[at.0] == buckets[at.0]);
            lemma_found(buckets, at.0, at.1);
        }
    }
}

/// Replacing the value beside a key maps the key to the new value.
pub proof fn lemma_set_value<K: Key, V>(buckets: Seq<Seq<(K, V)>>, b: int, t: int, pair: (K, V))
    requires
        placed(buckets),
        distinct(buckets),
        0 <= b < buckets.len(),
        0 <= t < buckets[b].len(),
        pair.0@ == buckets[b][t].0@,
    ensures
        placed(buckets.update(b, buckets[b].update(t, pair))),
        distinct(buckets.update(b, buckets[b].update(t, pair))),
        contents(buckets.update(b, buckets[b].update(t, pair))) =~= contents(buckets).insert(
            pair.0@,
            pair.1,
        ),
        contents(buckets).contains_key(pair.0@),
{
    let chain = buckets[b];
    let changed = chain.update(t, pair);
    let after = buckets.update(b, changed);
    let n = buckets.len();
    lemma_found(buckets, b, t);
    assert forall|c: int, u: int| 0 <= c < after.len() && 0 <= u < after[c].len() implies home_of::<
        K,
    >((#[trigger] after[c][u]).0@, after.len()) == c by {
        if c == b {
            if u != t {
                assert(after[c][u] == buckets[b][u]);
            }
        } else {
            assert(after[c][u] == buckets[c][u]);
        }
    }
    assert forall|c: int| 0 <= c < after.len() implies chain_distinct(#[trigger] after[c]) by {
        if c == b {
            assert(chain_distinct(buckets[b]));
            assert forall|s: int, u: int|
                0 <= s < changed.len() && 0 <= u < changed.len() && s != u implies (
            #[trigger] changed[s]).0@ != (#[trigger] changed[u]).0@ by {
                assert(changed[s].0@ == chain[s].0@);
                assert(changed[u].0@ == chain[u].0@);
            }
        } else {
            assert(after[c] == buckets[c]);
        }
    }
    let before_map = contents(buckets);
    let after_map = contents(after);
    assert forall|id: K::V| #[trigger] after_map.contains_key(id) == before_map.insert(
        pair.0@,
        pair.1,
    ).contains_key(id) by {
        lemma_home_in_range(K::digest_of(id), n);
        let h = home_of::<K>(id, n);
        if h == b {
            if chain_has(chain, id) {
                let u = chain_find(chain, id);
                assert(changed[u].0@ == chain[u].0@);
                assert(chain_has(changed, id));
            }
            if chain_has(changed, id) {
                let u = chain_find(changed, id);
                assert(changed[u].0@ == chain[u].0@);
                assert(chain_has(chain, id));
            }
        } else {
            assert(after[h] == buckets[h]);
        }
    }
    assert forall|id: K::V| #[trigger] after_map.contains_key(id) implies after_map[id]
        == before_map.insert(pair.0@, pair.1)[id] by {
        let at = lemma_present(after, id);
        lemma_found(after, at.0, at.1);
        if at.0 == b {
            assert(changed[at.1].0@ == chain[at.1].0@);
            lemma_found(buckets, b, at.1);
            if id == pair.0@ {
                lemma_one_place(buckets, b, at.1, b, t);
            }
        } else {
            assert(after[at.0] == buckets[at.0]);
            lemma_found(buckets, at.0, at.1);
        }
    }
}

/// Moving the last pair of a chain into position `t` and dropping the last
/// position removes the key that was at `t` from the map.
pub proof fn lemma_swap_remove<K: Key, V>(buckets: Seq<Seq<(K, V)>>, b: int, t: int)
    requires
        placed(buckets),
        distinct(buckets),
        0 <= b < buckets.len(),
        0 <= t < buckets[b].len(),
    ensures
        placed(buckets.update(b, buckets[b].update(t, buckets[b].last()).drop_last())),
        distinct(buckets.update(b, buckets[b].update(t, buckets[b].last()).drop_last())),
        contents(buckets.update(b, buckets[b].update(t, buckets[b].last()).drop_last()))
            =~= contents(buckets).remove(buckets[b][t].0@),
        contents(buckets).contains_key(buckets[b][t].0@),
{
    let chain = buckets[b];
    let last = chain.len() - 1;
    let shorter = chain.update(t, chain.last()).drop_last();
    let after = buckets.update(b, shorter);
    let n = buckets.len();
    let gone = chain[t].0@;
    lemma_found(buckets, b, t);
    assert(chain_distinct(chain));
    // where each position of the shorter chain comes from
    assert forall|u: int| 0 <= u < shorter.len() implies #[trigger] shorter[u] == chain[if u
        == t {
        last
    } else {
        u
    }] by {}
    assert forall|c: int, u: int| 0 <= c < after.len() && 0 <= u < after[c].len() implies home_of::<
        K,
    >((#[trigger] after[c][u]).0@, after.len()) == c by {
        if c == b {
            let from = if u == t {
                last
            } else {
                u
            };
            assert(after[c][u] == buckets[b][from]);
        } else {
            assert(after[c][u] == buckets[c][u]);
        }
    }
    assert forall|c: int| 0 <= c < after.len() implies chain_distinct(#[trigger] after[c]) by {
        if c == b {
            assert forall|s: int, u: int|
                0 <= s < shorter.len() && 0 <= u < shorter.len() && s != u implies (
            #[trigger] shorter[s]).0@ != (#[trigger] shorter[u]).0@ by {
                let fs = if s == t {
                    last
                } else {
                    s
                };
                let fu = if u == t {
                    last
                } else {
                    u
                };
                assert(shorter[s] == chain[fs]);
                assert(shorter[u] == chain[fu]);
            }
        } else {
            assert(after[c] == buckets[c]);
        }
    }
    let before_map = contents(buckets);
    let after_map = contents(after);
    assert forall|id: K::V| #[trigger] after_map.contains_key(id) == before_map.remove(
        gone,
    ).contains_key(id) by {
        lemma_home_in_range(K::digest_of(id), n);
        let h = home_of::<K>(id, n);
        if h == b {
            if chain_has(shorter, id) {
                let u = chain_find(shorter, id);
                let from = if u == t {
                    last
                } else {
                    u
                };
                assert(shorter[u] == chain[from]);
                assert(chain_has(chain, id));
                assert(from != t);
                assert(chain[from].0@ != chain[t].0@);
            }
            if id != gone && chain_has(chain, id) {
                let u = chain_find(chain, id);
                assert(u != t);
                if u == last {
                    assert(shorter[t] == chain[last]);
                } else {
                    assert(shorter[u] == chain[u]);
                }
                assert(chain_has(shorter, id));
            }
        } else {
            assert(after[h] == buckets[h]);
        }
    }
    assert forall|id: K::V| #[trigger] after_map.contains_key(id) implies after_map[id]
        == before_map.remove(gone)[id] by {
        let at = lemma_present(after, id);
        lemma_found(after, at.0, at.1);
        if at.0 == b {
            let from = if at.1 == t {
                last
            } else {
                at.1
            };
            assert(shorter[at.1] == chain[from]);
            lemma_found(buckets, b, from);
        } else {
            assert(after[at.0] == buckets[at.0]);
            lemma_found(buckets, at.0, at.1);
        }
    }
}

/// A sound table stays sound when a pair with a new key joins its home
/// bucket; the map gains the pair.
pub proof fn lemma_table_push<K: Key, V>(
    buckets: Seq<Seq<(K, V)>>,
    pairs: nat,
    b: int,
    pair: (K, V),
)
    requires
        well_formed(buckets, pairs),
        0 <= b < buckets.len(),
        b == home_of::<K>(pair.0@, buckets.len()),
        !chain_has(buckets[b], pair.0@),
    ensures
        well_formed(buckets.update(b, buckets[b].push(pair)), pairs + 1),
        contents(buckets.update(b, buckets[b].push(pair))) == contents(buckets).insert(
            pair.0@,
            pair.1,
        ),
        !contents(buckets).contains_key(pair.0@),
{
    lemma_push(buckets, b, pair);
    lemma_flatten_update_len(buckets, b, buckets[b].push(pair));
}

/// A sound table stays sound when the pair at a position is replaced by one
/// with the same key; the map gives the key the new value.
pub proof fn lemma_table_set<K: Key, V>(
    buckets: Seq<Seq<(K, V)>>,
    pairs: nat,
    b: int,
    t: int,
    pair: (K, V),
)
    requires
        well_formed(buckets, pairs),
        0 <= b < buckets.len(),
        0 <= t < buckets[b].len(),
        pair.0@ == buckets[b][t].0@,
    ensures
        well_formed(buckets.update(b, buckets[b].update(t, pair)), pairs),
        contents(buckets.update(b, buckets[b].update(t, pair))) == contents(buckets).insert(
            pair.0@,
            pair.1,
        ),
        contents(buckets).contains_key(pair.0@),
        contents(buckets)[pair.0@] == buckets[b][t].1,
        b == home_of::<K>(pair.0@, buckets.len()),
{
    lemma_found(buckets, b, t);
    lemma_set_value(buckets, b, t, pair);
    lemma_flatten_update_len(buckets, b, buckets[b].update(t, pair));
    assert(contents(buckets).insert(pair.0@, pair.1).dom() =~= contents(buckets).dom());
}

/// A sound table stays sound when the last pair of a chain takes the place of
/// the pair at a position; the map loses the key that was there.
pub proof fn lemma_table_swap_remove<K: Key, V>(
    buckets: Seq<Seq<(K, V)>>,
    pairs: nat,
    b: int,
    t: int,
)
    requires
        well_formed(buckets, pairs),
        0 <= b < buckets.len(),
        0 <= t < buckets[b].len(),
    ensures
        pairs > 0,
        well_formed(
            buckets.update(b, buckets[b].update(t, buckets[b].last()).drop_last()),
            (pairs - 1) as nat,
        ),
        contents(buckets.update(b, buckets[b].update(t, buckets[b].last()).drop_last()))
            == contents(buckets).remove(buckets[b][t].0@),
        contents(buckets).contains_key(buckets[b][t].0@),
        contents(buckets)[buckets[b][t].0@] == buckets[b][t].1,
{
    lemma_found(buckets, b, t);
    lemma_swap_remove(buckets, b, t);
    lemma_flatten_update_len(buckets, b, buckets[b].update(t, buckets[b].last()).drop_last());
}

} // verus!
