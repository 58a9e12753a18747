use hashbrown_inc::pair_table::PairTable;
use hashbrown_inc::trie::{HashTableTrie, CAP, SHIFT};

#[test]
fn new_trie_is_empty() {
    let trie = HashTableTrie::new();
    assert_eq!(trie.tables(), 0);
    assert_eq!(trie.trie_len(), 0);
    assert_eq!(trie.allocation_size(), 0);
    assert!(trie.iter().is_empty());
    let _table = trie.get_table(12345);
}

#[test]
fn first_table_on_demand() {
    let mut trie = HashTableTrie::new();
    let _t = trie.get_table_mut(99);
    assert_eq!(trie.tables(), 1);
    assert_eq!(trie.trie_len(), 1);
    assert_eq!(trie.iter().len(), 1);
    // A table that has not allocated, in a slot array of one slot.
    assert_eq!(trie.allocation_size(), std::mem::size_of::<Option<PairTable>>());
    let _t = trie.get_table_mut(7);
    assert_eq!(trie.tables(), 1);
}

#[test]
fn table_for_insert_has_room() {
    let mut trie = HashTableTrie::new();
    let hasher = |x: &(u64, u64)| x.0;
    assert!(trie.get_table_for_insert(1 << SHIFT, hasher).is_some());
    assert_eq!(trie.tables(), 1);
    // Growing the empty table by one element gives it 4 buckets of 16 bytes
    // and 4 + 16 control bytes.
    assert_eq!(trie.allocation_size(), 84 + std::mem::size_of::<Option<PairTable>>());
    assert!(trie.get_table_for_insert(5 << SHIFT, hasher).is_some());
    assert_eq!(trie.tables(), 1);
}

#[test]
fn split_threshold() {
    assert_eq!(CAP, 896);
    assert_eq!(SHIFT, 7);
}

#[test]
fn inserting_past_cap_splits_the_table() {
    let mut trie = HashTableTrie::new();
    let hasher = |x: &(u64, u64)| x.0;
    let hash = |k: u64| k.wrapping_mul(0x9E37_79B9_7F4A_7C15);
    for k in 0..CAP as u64 {
        assert!(trie.insert_unique(hash(k), (hash(k), k), hasher));
    }
    // One table, grown up to `CAP` elements and full.
    assert_eq!(trie.tables(), 1);
    assert_eq!(trie.trie_len(), 1);
    let k = CAP as u64;
    assert!(trie.insert_unique(hash(k), (hash(k), k), hasher));
    // It was split in two, one level down.
    assert_eq!(trie.tables(), 2);
    assert_eq!(trie.trie_len(), 3);
    for k in CAP as u64 + 1..3000 {
        assert!(trie.insert_unique(hash(k), (hash(k), k), hasher));
    }
    assert!(trie.tables() > 2);
    assert_eq!(trie.trie_len() + 1, (trie.trie_len() + 1).next_power_of_two());
}
