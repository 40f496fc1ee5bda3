//! An ordered map from string keys to values.
//!
//! Entries are kept in an order that the caller controls: the order of
//! insertion by default, with explicit moves to the front or the back. A hash
//! index finds an entry by its key, a ring of slots linked by their numbers
//! keeps the order, and released slots are recycled through a free list.
//!
//! Every function states what it does to the sequence of entries, which is the
//! view of the map; `laws` holds what follows for sequences of calls.

pub mod compare;
pub mod entry;
pub mod hashing;
pub mod index;
pub mod iter;
pub mod laws;
pub mod map;
pub mod model;
pub mod node;
pub mod order;
pub mod raw_entry;

pub use entry::{Entry, OccupiedEntry, VacantEntry};
pub use hashing::hash_key;
pub use iter::{IntoIter, Iter, IterMut};
pub use map::MiniMap;
pub use raw_entry::{
    RawEntryBuilder, RawEntryBuilderMut, RawEntryMut, RawOccupiedEntryMut, RawVacantEntryMut,
};
