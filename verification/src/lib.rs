//! An incrementally resizing hash table and hash map built on hashbrown.

pub mod bag;
pub mod pair_table;
pub mod hash_table;
pub mod hash_map;
pub mod trie;
pub mod laws;

pub use hash_map::IncHashMap;
pub use hash_table::IncHashTable;
