use std::hash::BuildHasher;

use foldhash::fast::FixedState;
use hashbrown_inc::hash_map::{BuildKeyHasher, Entry, EntryRef, IncHashMap};

/// A seeded foldhash hasher for the map's keys.
struct Seeded(FixedState);

impl BuildKeyHasher for Seeded {
    fn spec_hash_one(&self, key: u64) -> u64 {
        self.0.hash_one(key)
    }

    fn hash_one(&self, key: &u64) -> u64 {
        self.0.hash_one(key)
    }
}

fn seeded(seed: u64) -> IncHashMap<Seeded> {
    IncHashMap::with_hasher(Seeded(FixedState::with_seed(seed)))
}

#[test]
fn hash_map_works() {
    for i in 0..200u64 {
        let mut table = seeded(i);

        for i in 0..10000u64 {
            let entry = table.entry(i);
            let Entry::Vacant(e) = entry else { panic!() };
            e.insert(i);
        }

        assert_eq!(table.len(), 10000);

        for i in 0..10000u64 {
            let entry = table.entry(i);
            let Entry::Occupied(e) = entry else { panic!() };
            if i % 2 == 0 {
                e.remove();
            }
        }

        assert_eq!(table.len(), 5000);
    }
}

#[test]
fn read_after_write() {
    let mut map = seeded(1);
    assert_eq!(map.insert(7, 70), None);
    assert_eq!(map.get(&7), Some(&70));
    assert_eq!(map.len(), 1);
    assert_eq!(map.insert(7, 71), Some(70));
    assert_eq!(map.get(&7), Some(&71));
    assert_eq!(map.len(), 1);
    assert_eq!(map.get(&8), None);
}

#[test]
fn read_after_remove() {
    let mut map = seeded(2);
    map.insert(1, 10);
    map.insert(2, 20);
    assert_eq!(map.remove(&1), Some(10));
    assert_eq!(map.get(&1), None);
    assert_eq!(map.get(&2), Some(&20));
    assert_eq!(map.remove(&1), None);
    assert_eq!(map.len(), 1);
    assert_eq!(map.remove_entry(&2), Some((2, 20)));
    assert!(map.is_empty());
}

#[test]
fn remove_undoes_insert() {
    let mut map = seeded(3);
    for k in 0..50u64 {
        map.insert(k, k * 3);
    }
    assert_eq!(map.insert(1000, 5), None);
    assert_eq!(map.remove(&1000), Some(5));
    assert_eq!(map.len(), 50);
    for k in 0..50u64 {
        assert_eq!(map.get(&k), Some(&(k * 3)));
    }
    assert!(!map.contains_key(&1000));
}

#[test]
fn entry_matches_contents() {
    let mut map = seeded(4);
    map.insert(5, 50);
    match map.entry(5) {
        Entry::Occupied(o) => {
            assert_eq!(*o.key(), 5);
            assert_eq!(*o.get(), 50);
        }
        Entry::Vacant(_) => panic!(),
    }
    match map.entry(6) {
        Entry::Occupied(_) => panic!(),
        Entry::Vacant(v) => {
            assert_eq!(*v.key(), 6);
            assert_eq!(v.into_key(), 6);
        }
    }
    assert_eq!(map.len(), 1);
}

#[test]
fn insert_into_full_map_finds_key() {
    // A table for three elements is full after three keys; setting one of
    // them again finds it before the table grows.
    let mut map = IncHashMap::with_capacity_and_hasher(3, Seeded(FixedState::with_seed(5)));
    assert_eq!(map.capacity(), 3);
    map.insert(1, 10);
    map.insert(2, 20);
    map.insert(3, 30);
    assert_eq!(map.insert(1, 11), Some(10));
    assert_eq!(map.len(), 3);
    assert_eq!(map.get(&1), Some(&11));
    assert!(matches!(map.entry(2), Entry::Occupied(_)));
    assert!(matches!(map.try_insert(3, 33), Err(_)));
    assert_eq!(map.len(), 3);
}

#[test]
fn insert_twice_keeps_map() {
    let mut map = seeded(19);
    assert_eq!(map.insert(4, 40), None);
    assert_eq!(map.insert(4, 40), Some(40));
    assert_eq!(map.len(), 1);
    map.extend(vec![(4, 41), (5, 50), (5, 51)]);
    assert_eq!(map.get(&4), Some(&41));
    assert_eq!(map.get(&5), Some(&51));
    assert_eq!(map.len(), 2);
}

#[test]
fn try_insert_variants() {
    let mut map = seeded(6);
    match map.try_insert(1, 10) {
        Ok(v) => assert_eq!(*v, 10),
        Err(_) => panic!(),
    }
    match map.try_insert(1, 11) {
        Ok(_) => panic!(),
        Err(err) => {
            assert_eq!(err.value, 11);
            assert_eq!(*err.entry.get(), 10);
        }
    }
    assert_eq!(map.get(&1), Some(&10));
}

#[test]
fn entry_or_insert_family() {
    let mut map = seeded(7);
    assert_eq!(*map.entry(1).or_insert(10), 10);
    assert_eq!(*map.entry(1).or_insert(99), 10);
    assert_eq!(*map.entry(2).or_insert_with(|| 20), 20);
    assert_eq!(*map.entry(2).or_insert_with(|| 99), 20);
    assert_eq!(*map.entry(3).or_insert_with_key(|k| k * 100), 300);
    assert_eq!(*map.entry(4).or_default(), 0);
    let e = map.entry(1).and_modify(|v| *v += 1);
    assert_eq!(*e.key(), 1);
    assert_eq!(map.get(&1), Some(&11));
    let e = map.entry(9).and_modify(|v| *v += 1);
    assert!(matches!(e, Entry::Vacant(_)));
    assert_eq!(map.get(&9), None);
    let o = map.entry(9).insert(90);
    assert_eq!(*o.get(), 90);
    let o = map.entry(9).insert(91);
    assert_eq!(*o.get(), 91);
    assert_eq!(map.len(), 5);
}

#[test]
fn entry_replace_with() {
    let mut map = seeded(8);
    map.insert(1, 10);
    map.insert(2, 20);
    let e = map.entry(1).and_replace_entry_with(|_k, v| Some(v * 2));
    assert!(matches!(e, Entry::Occupied(_)));
    assert_eq!(map.get(&1), Some(&20));
    let e = map.entry(2).and_replace_entry_with(|_k, _v| None);
    assert!(matches!(e, Entry::Vacant(_)));
    assert_eq!(map.get(&2), None);
    let e = map.entry(3).and_replace_entry_with(|_k, v| Some(v));
    assert!(matches!(e, Entry::Vacant(_)));
    assert_eq!(map.len(), 1);
}

#[test]
fn occupied_entry_operations() {
    let mut map = seeded(9);
    map.insert(1, 10);
    map.insert(2, 20);
    if let Entry::Occupied(mut o) = map.entry(1) {
        *o.get_mut() += 5;
        assert_eq!(o.insert(100), 15);
        assert_eq!(*o.get(), 100);
        *o.into_mut() += 1;
    } else {
        panic!();
    }
    assert_eq!(map.get(&1), Some(&101));
    if let Entry::Occupied(o) = map.entry(2) {
        assert_eq!(o.remove_entry(), (2, 20));
    } else {
        panic!();
    }
    assert_eq!(map.len(), 1);
    if let Entry::Vacant(v) = map.entry(3) {
        let o = v.insert_entry(30);
        assert_eq!(*o.key(), 3);
        assert_eq!(*o.get(), 30);
    } else {
        panic!();
    }
    assert_eq!(map.get(&3), Some(&30));
}

#[test]
fn entry_ref_variants() {
    let mut map = seeded(10);
    let k = 4u64;
    assert_eq!(*map.entry_ref(&k).or_insert(40), 40);
    assert_eq!(*map.entry_ref(&k).or_insert(99), 40);
    let j = 5u64;
    match map.entry_ref(&j) {
        EntryRef::Vacant(v) => {
            assert_eq!(*v.key(), 5);
            assert_eq!(*v.insert(50), 50);
        }
        EntryRef::Occupied(_) => panic!(),
    }
    assert_eq!(*map.entry_ref(&6).or_insert_with(|| 60), 60);
    assert_eq!(*map.entry_ref(&7).or_insert_with_key(|k| k + 1), 8);
    assert_eq!(*map.entry_ref(&8).or_default(), 0);
    let e = map.entry_ref(&4).and_modify(|v| *v *= 2);
    assert_eq!(*e.key(), 4);
    assert_eq!(map.get(&4), Some(&80));
    let o = map.entry_ref(&9).insert(90);
    assert_eq!(*o.get(), 90);
    if let EntryRef::Vacant(v) = map.entry_ref(&11) {
        let o = v.insert_entry(110);
        assert_eq!(*o.get(), 110);
    } else {
        panic!();
    }
    assert_eq!(map.len(), 7);
}

#[test]
fn lookups_and_mutation() {
    let mut map = seeded(11);
    map.insert(1, 10);
    assert_eq!(map.get_key_value(&1), Some((&1, &10)));
    assert_eq!(map.get_key_value(&2), None);
    if let Some(v) = map.get_mut(&1) {
        *v = 12;
    }
    assert_eq!(map.get(&1), Some(&12));
    if let Some((k, v)) = map.get_key_value_mut(&1) {
        assert_eq!(*k, 1);
        *v += 1;
    }
    assert_eq!(map.get(&1), Some(&13));
    assert!(map.get_mut(&2).is_none());
    assert!(map.get_key_value_mut(&2).is_none());
}

#[test]
fn listing() {
    let mut map = seeded(12);
    for k in 0..20u64 {
        map.insert(k, k + 100);
    }
    let mut pairs = map.iter();
    pairs.sort();
    assert_eq!(pairs, (0..20u64).map(|k| (k, k + 100)).collect::<Vec<_>>());
    let mut keys = map.keys();
    keys.sort();
    assert_eq!(keys, (0..20u64).collect::<Vec<_>>());
    let mut values = map.values();
    values.sort();
    assert_eq!(values, (100..120u64).collect::<Vec<_>>());
}

#[test]
fn drain_empties() {
    let mut map = seeded(13);
    for k in 0..30u64 {
        map.insert(k, k);
    }
    let mut drained = map.drain();
    drained.sort();
    assert_eq!(drained, (0..30u64).map(|k| (k, k)).collect::<Vec<_>>());
    assert!(map.is_empty());
    assert_eq!(map.get(&3), None);
}

#[test]
fn retain_and_extract_if() {
    let mut a = seeded(14);
    let mut b = seeded(14);
    for k in 0..40u64 {
        a.insert(k, k * 2);
        b.insert(k, k * 2);
    }
    a.retain(|k, _v| k % 3 != 0);
    let mut taken = b.extract_if(|k, _v| k % 3 == 0);
    taken.sort();
    assert_eq!(taken, (0..40u64).filter(|k| k % 3 == 0).map(|k| (k, k * 2)).collect::<Vec<_>>());
    let mut left_a = a.iter();
    let mut left_b = b.iter();
    left_a.sort();
    left_b.sort();
    assert_eq!(left_a, left_b);
    assert_eq!(a.len(), 26);
}

#[test]
fn capacity_shrink_clear() {
    let mut map = IncHashMap::with_capacity_and_hasher(100, Seeded(FixedState::with_seed(15)));
    assert!(map.capacity() >= 100);
    assert!(map.allocation_size() > 0);
    for k in 0..10u64 {
        map.insert(k, k);
    }
    map.shrink_to_fit();
    assert!(map.capacity() >= 10);
    assert!(map.capacity() < 100);
    for k in 0..10u64 {
        assert_eq!(map.get(&k), Some(&k));
    }
    map.clear();
    assert_eq!(map.len(), 0);
    assert!(map.is_empty());
    assert_eq!(map.get(&1), None);
}

#[test]
fn hasher_is_kept() {
    let map = seeded(16);
    let h = map.hasher();
    assert_eq!(h.hash_one(&5), FixedState::with_seed(16).hash_one(5u64));
    assert_eq!(map.allocation_size(), 0);
    assert_eq!(map.capacity(), 0);
}

#[test]
fn extend_adds_pairs() {
    let mut map = seeded(17);
    map.insert(1, 1);
    map.extend(vec![(2, 20), (3, 30)]);
    assert_eq!(map.len(), 3);
    assert_eq!(map.get(&2), Some(&20));
    assert_eq!(map.get(&3), Some(&30));
}

#[test]
fn many_keys_through_growth() {
    let mut map = seeded(18);
    for k in 0..5000u64 {
        assert_eq!(map.insert(k, k + 1), None);
    }
    for k in 0..5000u64 {
        assert_eq!(map.get(&k), Some(&(k + 1)));
    }
    for k in (0..5000u64).step_by(3) {
        assert_eq!(map.remove(&k), Some(k + 1));
    }
    assert_eq!(map.len(), 5000 - 1667);
}

#[test]
fn iter_mut_and_values_mut_change_values() {
    let mut map = seeded(20);
    for k in 0..10u64 {
        map.insert(k, k);
    }
    map.iter_mut(|k, v| *v += k * 10);
    for k in 0..10u64 {
        assert_eq!(map.get(&k), Some(&(k * 11)));
    }
    map.values_mut(|v| *v += 1);
    for k in 0..10u64 {
        assert_eq!(map.get(&k), Some(&(k * 11 + 1)));
    }
    assert_eq!(map.len(), 10);
}

#[test]
fn retain_and_extract_if_keep_changed_values() {
    let mut map = seeded(21);
    for k in 0..10u64 {
        map.insert(k, k);
    }
    map.retain(|k, v| {
        *v += 100;
        k % 2 == 0
    });
    assert_eq!(map.len(), 5);
    for k in (0..10u64).step_by(2) {
        assert_eq!(map.get(&k), Some(&(k + 100)));
    }
    let mut taken = map.extract_if(|k, v| {
        *v += 1;
        *k < 4
    });
    taken.sort();
    assert_eq!(taken, vec![(0, 101), (2, 103)]);
    assert_eq!(map.get(&4), Some(&105));
    assert_eq!(map.len(), 3);
}

#[test]
fn vacant_into_key_leaves_map_unchanged() {
    let mut map = seeded(21);
    for k in 0..40u64 {
        map.insert(k, k + 1);
    }
    let capacity = map.capacity();
    match map.entry(1000) {
        Entry::Occupied(_) => panic!(),
        Entry::Vacant(v) => assert_eq!(v.into_key(), 1000),
    }
    assert_eq!(map.len(), 40);
    assert!(map.capacity() >= capacity);
    for k in 0..40u64 {
        assert_eq!(map.get(&k), Some(&(k + 1)));
    }
    assert_eq!(map.get(&1000), None);
}

#[test]
fn map_shrink_to_fit_leaves_at_most_twice_the_length() {
    let mut map = seeded(22);
    for k in 0..1000u64 {
        map.insert(k, k);
    }
    map.retain(|k, _v| *k < 50);
    map.shrink_to_fit();
    assert_eq!(map.len(), 50);
    assert!(map.capacity() >= 50 && map.capacity() <= 100);
    for k in 0..50u64 {
        assert_eq!(map.get(&k), Some(&k));
    }
}
