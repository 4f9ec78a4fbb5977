use hashmap::Entry;
use hashmap::HashMap;
use std::cell::Cell;

#[test]
fn or_insert_puts_the_value_in_for_an_absent_key() {
    let mut map = HashMap::new();
    assert_eq!(*map.entry("a").or_insert(1), 1);
    assert_eq!(map.get(&"a"), Some(&1));
    assert_eq!(map.len(), 1);
}

#[test]
fn or_insert_keeps_the_value_of_a_present_key() {
    let mut map = HashMap::new();
    map.insert("a", 1);
    assert_eq!(*map.entry("a").or_insert(2), 1);
    assert_eq!(map.get(&"a"), Some(&1));
    assert_eq!(map.len(), 1);
}

#[test]
fn a_write_through_the_entry_reaches_the_table() {
    let mut map = HashMap::new();
    *map.entry("hits").or_insert(0) += 1;
    *map.entry("hits").or_insert(0) += 1;
    *map.entry("hits").or_insert(0) += 1;
    assert_eq!(map.get(&"hits"), Some(&3));
    assert_eq!(map.len(), 1);
}

#[test]
fn or_insert_with_calls_the_maker_once_for_an_absent_key() {
    let calls = Cell::new(0u32);
    let mut map = HashMap::new();
    let value = *map.entry(5u64).or_insert_with(|| {
        calls.set(calls.get() + 1);
        String::from("made")
    }) == "made";
    assert!(value);
    assert_eq!(calls.get(), 1);
    assert_eq!(map.get(&5), Some(&String::from("made")));
}

#[test]
fn or_insert_with_does_not_call_the_maker_for_a_present_key() {
    let calls = Cell::new(0u32);
    let mut map = HashMap::new();
    map.insert(5u64, String::from("kept"));
    let seen = map.entry(5u64).or_insert_with(|| {
        calls.set(calls.get() + 1);
        String::from("made")
    }).clone();
    assert_eq!(seen, "kept");
    assert_eq!(calls.get(), 0);
    assert_eq!(map.get(&5), Some(&String::from("kept")));
    assert_eq!(map.len(), 1);
}

#[test]
fn or_default_puts_the_default_in() {
    let mut map: HashMap<&str, Vec<u32>> = HashMap::new();
    map.entry("list").or_default().push(4);
    map.entry("list").or_default().push(5);
    assert_eq!(map.get(&"list"), Some(&vec![4, 5]));
    let mut counts: HashMap<u64, u64> = HashMap::new();
    assert_eq!(*counts.entry(9).or_default(), 0);
    assert_eq!(counts.get(&9), Some(&0));
}

#[test]
fn entry_tells_present_from_absent() {
    let mut map = HashMap::new();
    map.insert("here", 1);
    assert!(matches!(map.entry("here"), Entry::Occupied(_)));
    assert!(matches!(map.entry("gone"), Entry::Vacant(_)));
    assert_eq!(map.len(), 1);
    assert_eq!(map.get(&"gone"), None);
}

#[test]
fn vacant_insert_stores_the_pair() {
    let mut map = HashMap::new();
    map.insert("x", 1);
    match map.entry("y") {
        Entry::Vacant(vacant) => {
            let stored = vacant.insert(2);
            assert_eq!(*stored, 2);
            *stored = 20;
        }
        Entry::Occupied(_) => unreachable!(),
    }
    assert_eq!(map.get(&"y"), Some(&20));
    assert_eq!(map.get(&"x"), Some(&1));
    assert_eq!(map.len(), 2);
}

#[test]
fn entries_grow_the_table_as_inserts_do() {
    let mut by_entry = HashMap::new();
    let mut by_insert = HashMap::new();
    for key in 0..300u64 {
        *by_entry.entry(key % 120).or_insert(0u64) += key;
        let sum = by_insert.get(&(key % 120)).copied().unwrap_or(0u64) + key;
        by_insert.insert(key % 120, sum);
    }
    assert_eq!(by_entry.len(), 120);
    let left: Vec<(u64, u64)> = (&by_entry).into_iter().map(|(k, v)| (*k, *v)).collect();
    let right: Vec<(u64, u64)> = (&by_insert).into_iter().map(|(k, v)| (*k, *v)).collect();
    assert_eq!(left, right);
}
