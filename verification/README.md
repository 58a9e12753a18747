# hashbrown_inc

An incrementally resizing hash table and hash map on top of `hashbrown`,
verified with Verus.

When the table is full it allocates a larger one and keeps the old one
beside it; each later insertion moves one old element across, so no single
insertion pays for rehashing everything.

Layout:

- `src/pair_table.rs` — the `hashbrown::HashTable` of `(u64, u64)` pairs the
  library stores its entries in, and the contracts of the hashbrown methods
  it calls. These, and the contract of the `BuildKeyHasher` trait in
  `src/hash_map.rs` (implemented by the map's users, as std's
  `BuildHasher` is), are what the proofs trust.
- `src/bag.rs` — the multiset of a table's buckets, and lemmas about it.
- `src/hash_table.rs` — `IncHashTable`: the two tables, lookups, entries,
  growth, in-place updates, retain, extract, drain.
- `src/hash_map.rs` — `IncHashMap<S>`: a map from `u64` keys to `u64` values
  over `IncHashTable`, hashing keys with a `BuildKeyHasher`.
- `src/trie.rs` — `HashTableTrie`: tables chosen by the bits of a hash, grown
  while small and split when they fill up, none holding more than `CAP`.
- `src/laws.rs` — properties that relate several operations.
- `tests/` — tests that run the library with the real `hashbrown`.
- `app/` — maps hashed with the standard library's `RandomState`.
