use hashmap::Key;
use hashmap::Lookup;
use std::collections::hash_map::DefaultHasher;
use std::hash::Hash;
use std::hash::Hasher;

#[test]
fn equal_keys_have_equal_digests() {
    assert_eq!(5u64.digest(), 5u64.digest());
    assert_eq!("abc".digest(), "abc".digest());
    assert_eq!(String::from("abc").digest(), String::from("abc").digest());
}

#[test]
fn digest_depends_on_the_integer() {
    let digests: Vec<u64> = (0..64u64).map(|key| key.digest()).collect();
    for a in 0..digests.len() {
        for b in 0..a {
            assert_ne!(digests[a], digests[b]);
        }
    }
}

#[test]
fn digest_depends_on_the_string() {
    assert_ne!("abc".digest(), "abd".digest());
    assert_ne!("".digest(), "a".digest());
    assert_ne!("ab".digest(), "ba".digest());
}

#[test]
fn digest_is_that_of_the_default_hasher() {
    let mut hasher = DefaultHasher::new();
    42u64.hash(&mut hasher);
    assert_eq!(42u64.digest(), hasher.finish());
    let mut hasher = DefaultHasher::new();
    "forty-two".hash(&mut hasher);
    assert_eq!("forty-two".digest(), hasher.finish());
    let mut hasher = DefaultHasher::new();
    String::from("forty-two").hash(&mut hasher);
    assert_eq!(String::from("forty-two").digest(), hasher.finish());
}

#[test]
fn a_string_and_its_slice_have_one_digest() {
    let owned = String::from("borrowed");
    assert_eq!(owned.digest(), "borrowed".digest());
    assert_eq!(Lookup::<String>::lookup_digest("borrowed"), owned.digest());
    assert_eq!(Lookup::<String>::lookup_digest(&owned), owned.digest());
}

#[test]
fn same_tells_keys_apart() {
    assert!(7u64.same(&7));
    assert!(!7u64.same(&8));
    assert!("abc".same(&"abc"));
    assert!(!"abc".same(&"abd"));
    assert!(!"abc".same(&"ab"));
    assert!(String::from("x").same(&String::from("x")));
    assert!(!String::from("x").same(&String::from("y")));
}

#[test]
fn is_key_compares_a_lookup_form_with_a_key() {
    assert!("abc".is_key(&String::from("abc")));
    assert!(!"abc".is_key(&String::from("abcd")));
    assert!(3u64.is_key(&3u64));
    assert!(!3u64.is_key(&4u64));
}
