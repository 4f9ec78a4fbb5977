use hashmap::HashMap;

#[test]
fn insert() {
    let mut map = HashMap::new();
    assert_eq!(map.len(), 0);
    assert!(map.is_empty());
    map.insert("testing", 123);
    assert!(!map.is_empty());
    assert_eq!(map.len(), 1);
    assert_eq!(map.get(&"testing"), Some(&123));
    assert_eq!(map.remove(&"testing"), Some(123));
    assert_eq!(map.len(), 0);
    assert!(map.is_empty());
    assert_eq!(map.get(&"testing"), None);
}

#[test]
fn iter() {
    let mut map = HashMap::new();
    map.insert("a", 123);
    map.insert("b", 1231);
    map.insert("c", 1232);
    map.insert("d", 12334);
    map.insert("e", 12345);

    for (&k, &v) in &map {
        match k {
            "a" => assert_eq!(v, 123),
            "b" => assert_eq!(v, 1231),
            "c" => assert_eq!(v, 1232),
            "d" => assert_eq!(v, 12334),
            "e" => assert_eq!(v, 12345),
            _ => unreachable!(),
        }
    }

    assert_eq!((&map).into_iter().count(), 5);
}

#[test]
fn new_table_is_empty() {
    let map: HashMap<u64, u64> = HashMap::new();
    assert_eq!(map.len(), 0);
    assert!(map.is_empty());
    assert_eq!((&map).into_iter().count(), 0);
}

#[test]
fn reads_on_a_table_without_buckets_find_nothing() {
    let mut map: HashMap<u64, &str> = HashMap::new();
    assert_eq!(map.get(&7), None);
    assert!(!map.contains_key(&7));
    assert_eq!(map.remove(&7), None);
    assert_eq!(map.len(), 0);
}

#[test]
fn inserted_value_is_found() {
    let mut map = HashMap::new();
    assert_eq!(map.insert(17u64, "seventeen"), None);
    assert_eq!(map.get(&17), Some(&"seventeen"));
    assert!(map.contains_key(&17));
    assert!(!map.contains_key(&18));
}

#[test]
fn second_insert_returns_the_first_value() {
    let mut map = HashMap::new();
    assert_eq!(map.insert("k", 1), None);
    assert_eq!(map.len(), 1);
    assert_eq!(map.insert("k", 2), Some(1));
    assert_eq!(map.get(&"k"), Some(&2));
    assert_eq!(map.len(), 1);
}

#[test]
fn removing_an_absent_key_changes_nothing() {
    let mut map = HashMap::new();
    map.insert(1u64, 10);
    map.insert(2u64, 20);
    assert_eq!(map.remove(&3), None);
    assert_eq!(map.len(), 2);
    assert_eq!(map.get(&1), Some(&10));
    assert_eq!(map.get(&2), Some(&20));
}

#[test]
fn removing_a_present_key_takes_it_out() {
    let mut map = HashMap::new();
    map.insert(1u64, 10);
    map.insert(2u64, 20);
    assert_eq!(map.remove(&1), Some(10));
    assert_eq!(map.len(), 1);
    assert_eq!(map.get(&1), None);
    assert_eq!(map.get(&2), Some(&20));
    assert_eq!(map.remove(&1), None);
    assert_eq!(map.len(), 1);
}

#[test]
fn len_counts_the_distinct_keys() {
    let mut map = HashMap::new();
    for round in 0..3u64 {
        for key in 0..50u64 {
            map.insert(key, key + round);
        }
    }
    assert_eq!(map.len(), 50);
    for key in 0..20u64 {
        assert_eq!(map.remove(&key), Some(key + 2));
    }
    assert_eq!(map.len(), 30);
    assert_eq!((&map).into_iter().count(), 30);
    for key in 0..10u64 {
        map.insert(key, 0);
    }
    assert_eq!(map.len(), 40);
    assert_eq!((&map).into_iter().count(), 40);
}

#[test]
fn a_thousand_keys_survive_the_growth() {
    let mut map = HashMap::new();
    for key in 0..1000u64 {
        assert_eq!(map.insert(key, key * 3 + 1), None);
    }
    assert_eq!(map.len(), 1000);
    for key in 0..1000u64 {
        assert_eq!(map.get(&key), Some(&(key * 3 + 1)));
    }
    assert_eq!(map.get(&1000), None);
    assert_eq!((&map).into_iter().count(), 1000);
}

#[test]
fn a_thousand_string_keys_survive_the_growth() {
    let mut map = HashMap::new();
    for n in 0..1000u32 {
        assert_eq!(map.insert(format!("key-{}", n), n), None);
    }
    assert_eq!(map.len(), 1000);
    for n in 0..1000u32 {
        assert_eq!(map.get(format!("key-{}", n).as_str()), Some(&n));
        assert_eq!(map.get(&format!("key-{}", n)), Some(&n));
    }
    assert_eq!(map.get("key-1000"), None);
}

#[test]
fn string_keys_are_found_by_string_slices() {
    let mut map = HashMap::new();
    map.insert(String::from("alpha"), 1);
    map.insert(String::from("beta"), 2);
    assert_eq!(map.get("alpha"), Some(&1));
    assert!(map.contains_key("beta"));
    assert!(!map.contains_key("gamma"));
    assert_eq!(map.remove("alpha"), Some(1));
    assert_eq!(map.get("alpha"), None);
    assert_eq!(map.len(), 1);
}

#[test]
fn borrowed_string_keys_are_found_by_string_slices() {
    let owner = String::from("alpha");
    let mut map = HashMap::new();
    map.insert(owner.as_str(), 1);
    map.insert("beta", 2);
    assert_eq!(map.get("alpha"), Some(&1));
    assert_eq!(map.get(&"alpha"), Some(&1));
    assert!(map.contains_key("beta"));
    assert_eq!(map.remove("beta"), Some(2));
    assert_eq!(map.get("beta"), None);
}

#[test]
fn from_iter_keeps_the_later_of_two_equal_keys() {
    let map = HashMap::from_iter(vec![("a", 1), ("b", 2), ("a", 3), ("c", 4), ("b", 5)]);
    assert_eq!(map.len(), 3);
    assert_eq!(map.get(&"a"), Some(&3));
    assert_eq!(map.get(&"b"), Some(&5));
    assert_eq!(map.get(&"c"), Some(&4));
}

#[test]
fn from_iter_of_nothing_is_empty() {
    let map: HashMap<u64, u64> = HashMap::from_iter(Vec::new());
    assert!(map.is_empty());
    assert_eq!(map.get(&0), None);
}

#[test]
fn from_iter_does_what_inserts_do() {
    let pairs: Vec<(u64, u64)> = (0..200u64).map(|n| (n % 70, n)).collect();
    let gathered = HashMap::from_iter(pairs.clone());
    let mut built = HashMap::new();
    for (key, value) in pairs {
        built.insert(key, value);
    }
    assert_eq!(gathered.len(), 70);
    assert_eq!(built.len(), 70);
    for key in 0..70u64 {
        assert_eq!(gathered.get(&key), built.get(&key));
    }
    let left: Vec<(u64, u64)> = (&gathered).into_iter().map(|(k, v)| (*k, *v)).collect();
    let right: Vec<(u64, u64)> = (&built).into_iter().map(|(k, v)| (*k, *v)).collect();
    assert_eq!(left, right);
}
