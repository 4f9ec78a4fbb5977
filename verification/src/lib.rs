//! A map from keys to values, kept as a hash table with chaining.
//!
//! The table is a vector of buckets. Each bucket is a chain of pairs; a key
//! lives in the bucket that its digest selects. Before an insertion the
//! table grows if it has no bucket or holds more pairs than a quarter of its
//! bucket count: it then gets one bucket, or twice as many as it had, and
//! every pair moves to its bucket in the new array. The table never shrinks.
//!
//! A table stands for a map from the identities of its keys to its values
//! (`map@`). Every operation says what it does to that map, and to the
//! buckets themselves, from which the order of iteration follows.

use vstd::prelude::*;

pub mod entry;
pub mod growth;
pub mod iter;
pub mod key;
pub mod laws;
pub mod layout;
pub mod map;
pub mod order;
pub mod update;

pub use crate::entry::Entry;
pub use crate::entry::OccupiedEntry;
pub use crate::entry::VacantEntry;
pub use crate::iter::IntoIter;
pub use crate::iter::Iter;
pub use crate::key::Key;
pub use crate::key::Lookup;
pub use crate::map::HashMap;
