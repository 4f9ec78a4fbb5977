use hashmap::HashMap;
use hashmap::Key;

/// A plain model of the table: the buckets as vectors, filled by the rules
/// that the table follows.
struct Model {
    buckets: Vec<Vec<(u64, u64)>>,
    items: usize,
}

fn model_insert(model: &mut Model, key: u64, value: u64) {
    if model.buckets.is_empty() || model.items > model.buckets.len() / 4 {
        let target = if model.buckets.is_empty() { 1 } else { 2 * model.buckets.len() };
        let mut grown: Vec<Vec<(u64, u64)>> = (0..target).map(|_| Vec::new()).collect();
        for chain in model.buckets.drain(..) {
            for pair in chain {
                let home = (pair.0.digest() % target as u64) as usize;
                grown[home].push(pair);
            }
        }
        model.buckets = grown;
    }
    let home = (key.digest() % model.buckets.len() as u64) as usize;
    for pair in model.buckets[home].iter_mut() {
        if pair.0 == key {
            pair.1 = value;
            return;
        }
    }
    model.buckets[home].push((key, value));
    model.items += 1;
}

fn model_remove(model: &mut Model, key: u64) {
    if model.buckets.is_empty() {
        return;
    }
    let home = (key.digest() % model.buckets.len() as u64) as usize;
    if let Some(at) = model.buckets[home].iter().position(|pair| pair.0 == key) {
        model.buckets[home].swap_remove(at);
        model.items -= 1;
    }
}

fn walk(map: &HashMap<u64, u64>) -> Vec<(u64, u64)> {
    map.into_iter().map(|(k, v)| (*k, *v)).collect()
}

#[test]
fn three_pairs_are_each_met_once() {
    let mut map = HashMap::new();
    map.insert("a", 1);
    map.insert("b", 2);
    map.insert("c", 3);
    let mut first: Vec<(&str, i32)> = (&map).into_iter().map(|(k, v)| (*k, *v)).collect();
    let mut second: Vec<(&str, i32)> = (&map).into_iter().map(|(k, v)| (*k, *v)).collect();
    assert_eq!(first.len(), 3);
    assert_eq!(first, second);
    first.sort();
    second.sort();
    assert_eq!(first, vec![("a", 1), ("b", 2), ("c", 3)]);
    assert_eq!(second, vec![("a", 1), ("b", 2), ("c", 3)]);
}

#[test]
fn an_exhausted_iterator_stays_exhausted() {
    let mut map = HashMap::new();
    map.insert(1u64, 1u64);
    let mut iter = (&map).into_iter();
    assert_eq!(iter.next(), Some((&1, &1)));
    assert_eq!(iter.next(), None);
    assert_eq!(iter.next(), None);
    let mut owned = map.into_iter();
    assert_eq!(owned.next(), Some((1, 1)));
    assert_eq!(owned.next(), None);
    assert_eq!(owned.next(), None);
}

#[test]
fn consuming_iteration_yields_every_pair_once() {
    let mut map = HashMap::new();
    map.insert(String::from("a"), 1);
    map.insert(String::from("b"), 2);
    map.insert(String::from("c"), 3);
    map.insert(String::from("d"), 4);
    map.insert(String::from("e"), 5);
    let mut pairs: Vec<(String, i32)> = map.into_iter().collect();
    assert_eq!(pairs.len(), 5);
    pairs.sort();
    let expected: Vec<(String, i32)> = vec![
        (String::from("a"), 1),
        (String::from("b"), 2),
        (String::from("c"), 3),
        (String::from("d"), 4),
        (String::from("e"), 5),
    ];
    assert_eq!(pairs, expected);
}

#[test]
fn five_inserts_leave_sixteen_buckets() {
    let mut map = HashMap::new();
    for key in 0..5u64 {
        map.insert(key, key);
    }
    let homes: Vec<u64> = walk(&map).iter().map(|pair| pair.0.digest() % 16).collect();
    assert_eq!(homes.len(), 5);
    for at in 1..homes.len() {
        assert!(homes[at - 1] <= homes[at]);
    }
}

#[test]
fn a_walk_goes_bucket_by_bucket_front_to_back() {
    let mut map = HashMap::new();
    let mut model = Model { buckets: Vec::new(), items: 0 };
    for n in 0..500u64 {
        let key = (n * 7919) % 211;
        map.insert(key, n);
        model_insert(&mut model, key, n);
    }
    let expected: Vec<(u64, u64)> = model.buckets.iter().flatten().copied().collect();
    assert_eq!(walk(&map), expected);
    assert_eq!(map.len(), model.items);
}

#[test]
fn a_removal_moves_the_last_pair_of_the_bucket_into_the_gap() {
    let mut map = HashMap::new();
    let mut model = Model { buckets: Vec::new(), items: 0 };
    for key in 0..400u64 {
        map.insert(key, key);
        model_insert(&mut model, key, key);
    }
    for key in 0..300u64 {
        map.remove(&key);
        model_remove(&mut model, key);
    }
    for key in 400..460u64 {
        map.insert(key, key);
        model_insert(&mut model, key, key);
    }
    for key in (300..460u64).step_by(3) {
        assert_eq!(map.remove(&key), Some(key));
        model_remove(&mut model, key);
    }
    assert!(model.buckets.iter().any(|chain| chain.len() > 1));
    let expected: Vec<(u64, u64)> = model.buckets.iter().flatten().copied().collect();
    assert_eq!(walk(&map), expected);
    assert_eq!(map.len(), model.items);
}

#[test]
fn consuming_iteration_empties_each_bucket_from_its_back() {
    let mut map = HashMap::new();
    let mut model = Model { buckets: Vec::new(), items: 0 };
    for key in 0..400u64 {
        map.insert(key, key + 1);
        model_insert(&mut model, key, key + 1);
    }
    for key in 0..250u64 {
        map.remove(&key);
        model_remove(&mut model, key);
    }
    for key in 1000..1100u64 {
        map.insert(key, key + 1);
        model_insert(&mut model, key, key + 1);
    }
    assert!(model.buckets.iter().any(|chain| chain.len() > 1));
    let expected: Vec<(u64, u64)> =
        model.buckets.iter().flat_map(|chain| chain.iter().rev().copied()).collect();
    let drained: Vec<(u64, u64)> = map.into_iter().collect();
    assert_eq!(drained, expected);
}
