//! Position hashing and the cache that is indexed by it.

pub mod hashtable;
pub mod zobrist;

pub use hashtable::HashTable;
pub use zobrist::Zobrist;
