//! What a type must offer to serve as a key of the table: an identity, a
//! digest that depends on the identity alone, and an executable equality
//! test. Implementations for `u64`, `&str` and `String` hash with the
//! standard library's default hasher.

use std::collections::hash_map::DefaultHasher;
use std::hash::Hash;
use std::hash::Hasher;
use vstd::prelude::*;
use vstd::std_specs::hash::DefaultHasherAdditionalSpecFns;

verus! {

/// A key of the table.
///
/// The view of a key is its identity: two keys are the same key exactly when
/// their views are equal. The digest is a function of the identity, so equal
/// keys always land in the same bucket.
pub trait Key: View + Sized {
    /// The 64-bit digest of every key whose identity is `id`.
    spec fn digest_of(id: Self::V) -> u64;

    /// Computes the digest of this key.
    fn digest(&self) -> (d: u64)
        ensures
            d == Self::digest_of(self@),
    ;

    /// Tells whether two keys are the same key.
    fn same(&self, other: &Self) -> (b: bool)
        ensures
            b == (self@ == other@),
    ;
}

/// A value that can stand in for a key of type `K` in a lookup: it names the
/// identity of a key, hashes as that key does and can be compared with stored
/// keys. Every key is a lookup form of itself; `str` is one of `String` and of
/// `&str`.
pub trait Lookup<K: Key> {
    /// The identity of the key that this value stands for.
    spec fn id(&self) -> K::V;

    /// Computes the digest of the key that this value stands for.
    fn lookup_digest(&self) -> (d: u64)
        ensures
            d == K::digest_of(self.id()),
    ;

    /// Tells whether `key` is the key that this value stands for.
    fn is_key(&self, key: &K) -> (b: bool)
        ensures
            b == (self.id() == key@),
    ;
}

impl<K: Key> Lookup<K> for K {
    open spec fn id(&self) -> K::V {
        self@
    }

    fn lookup_digest(&self) -> (d: u64) {
        self.digest()
    }

    fn is_key(&self, key: &K) -> (b: bool) {
        self.same(key)
    }
}

/// The byte strings that hashing the integer `key` hands to a hasher, in order.
pub uninterp spec fn u64_written(key: u64) -> Seq<Seq<u8>>;

/// The byte strings that hashing a string with the characters `key` hands to a
/// hasher, in order.
pub uninterp spec fn str_written(key: Seq<char>) -> Seq<Seq<u8>>;

/// `<u64 as Hash>::hash` on the default hasher: the hasher receives a series of
/// writes that depends on the integer alone, after those it had received.
#[verifier::external_body]
fn feed_u64(key: &u64, state: &mut DefaultHasher)
    ensures
        final(state)@ == old(state)@ + u64_written(*key),
{
    key.hash(state)
}

/// `<str as Hash>::hash` on the default hasher: the hasher receives a series of
/// writes that depends on the string's characters alone, after those it had
/// received.
#[verifier::external_body]
fn feed_str(key: &str, state: &mut DefaultHasher)
    ensures
        final(state)@ == old(state)@ + str_written(key@),
{
    key.hash(state)
}

/// `<str as PartialEq>::eq`: two strings are equal exactly when they hold the
/// same characters.
#[verifier::external_body]
fn str_eq(a: &str, b: &str) -> (r: bool)
    ensures
        r == (a@ == b@),
{
    a == b
}

/// The digest that the default hasher gives to a string.
fn str_digest(key: &str) -> (d: u64)
    ensures
        d == DefaultHasher::spec_finish(str_written(key@)),
{
    let mut state = DefaultHasher::new();
    feed_str(key, &mut state);
    assert(state@ =~= str_written(key@));
    state.finish()
}

impl Key for u64 {
    open spec fn digest_of(id: u64) -> u64 {
        DefaultHasher::spec_finish(u64_written(id))
    }

    fn digest(&self) -> (d: u64) {
        let mut state = DefaultHasher::new();
        feed_u64(self, &mut state);
        assert(state@ =~= u64_written(*self));
        state.finish()
    }

    fn same(&self, other: &u64) -> (b: bool) {
        *self == *other
    }
}

impl<'a> Key for &'a str {
    open spec fn digest_of(id: Seq<char>) -> u64 {
        DefaultHasher::spec_finish(str_written(id))
    }

    fn digest(&self) -> (d: u64) {
        str_digest(*self)
    }

    fn same(&self, other: &&'a str) -> (b: bool) {
        str_eq(*self, *other)
    }
}

impl Key for String {
    open spec fn digest_of(id: Seq<char>) -> u64 {
        DefaultHasher::spec_finish(str_written(id))
    }

    fn digest(&self) -> (d: u64) {
        str_digest(self.as_str())
    }

    fn same(&self, other: &String) -> (b: bool) {
        str_eq(self.as_str(), other.as_str())
    }
}

impl<'a> Lookup<&'a str> for str {
    open spec fn id(&self) -> Seq<char> {
        self@
    }

    fn lookup_digest(&self) -> (d: u64) {
        str_digest(self)
    }

    fn is_key(&self, key: &&'a str) -> (b: bool) {
        str_eq(self, *key)
    }
}

impl Lookup<String> for str {
    open spec fn id(&self) -> Seq<char> {
        self@
    }

    fn lookup_digest(&self) -> (d: u64) {
        str_digest(self)
    }

    fn is_key(&self, key: &String) -> (b: bool) {
        str_eq(self, key.as_str())
    }
}

} // verus!
