use std::hash::{BuildHasher, RandomState};

use hashbrown_inc::hash_table::{Entry, IncHashTable};

fn hash_of(state: &RandomState, key: u64) -> u64 {
    state.hash_one(key)
}

#[test]
fn hash_table_works() {
    let hasher = RandomState::new();
    let mut table = IncHashTable::new();

    for i in 0..10000u64 {
        assert!(table.find_entry(hash_of(&hasher, i), |x| x.0 == i).is_err());

        let entry = table.entry(hash_of(&hasher, i), |x| x.0 == i, |x| hash_of(&hasher, x.0));
        let Entry::Vacant(e) = entry else { panic!() };
        e.insert((i, i));

        assert!(table.find_entry(hash_of(&hasher, i), |x| x.0 == i).is_ok());
    }

    assert_eq!(table.len(), 10000);
    // Elements are pairs of `u64`s here: a table of 16384 buckets and the
    // old one of 8192 buckets, at 17 bytes a bucket plus 16 control bytes.
    assert_eq!(table.allocation_size(), 417824);

    for i in 0..10000u64 {
        let entry = table.find_entry(hash_of(&hasher, i), |x| x.0 == i);
        let Ok(e) = entry else { panic!() };
        if i % 2 == 0 {
            e.remove();
        }
    }

    assert_eq!(table.len(), 5000);
}

#[test]
fn find_after_insert() {
    let state = RandomState::new();
    let mut table = IncHashTable::new();
    let hasher = |x: &(u64, u64)| hash_of(&state, x.0);
    for k in 0..100u64 {
        let e = table.insert_unique(hash_of(&state, k), (k, k * 10), hasher);
        assert_eq!(*e.get(), (k, k * 10));
    }
    for k in 0..100u64 {
        assert_eq!(table.find(hash_of(&state, k), |x| x.0 == k), Some(&(k, k * 10)));
    }
    assert_eq!(table.find(hash_of(&state, 500), |x| x.0 == 500), None);
    assert_eq!(table.len(), 100);
    assert!(!table.is_empty());
}

#[test]
fn find_entry_and_remove() {
    let state = RandomState::new();
    let mut table = IncHashTable::new();
    let hasher = |x: &(u64, u64)| hash_of(&state, x.0);
    for k in 0..20u64 {
        table.insert_unique(hash_of(&state, k), (k, k), hasher);
    }
    match table.find_entry(hash_of(&state, 3), |x| x.0 == 3) {
        Ok(mut e) => {
            e.get_mut().1 = 33;
            assert_eq!(*e.get(), (3, 33));
            let (removed, _vacant) = e.remove();
            assert_eq!(removed, (3, 33));
        }
        Err(_) => panic!(),
    }
    match table.find_entry(hash_of(&state, 3), |x| x.0 == 3) {
        Ok(_) => panic!(),
        Err(absent) => {
            let t = absent.into_table();
            assert_eq!(t.len(), 19);
        }
    }
    if let Ok(e) = table.find_entry(hash_of(&state, 4), |x| x.0 == 4) {
        e.into_mut().1 = 44;
    }
    assert_eq!(table.find(hash_of(&state, 4), |x| x.0 == 4), Some(&(4, 44)));
}

#[test]
fn removed_entry_can_be_refilled() {
    let state = RandomState::new();
    let mut table = IncHashTable::new();
    let hasher = |x: &(u64, u64)| hash_of(&state, x.0);
    table.insert_unique(hash_of(&state, 1), (1, 1), hasher);
    let Ok(e) = table.find_entry(hash_of(&state, 1), |x| x.0 == 1) else { panic!() };
    let (_, vacant) = e.remove();
    let o = vacant.insert((1, 2));
    assert_eq!(*o.get(), (1, 2));
    assert_eq!(table.len(), 1);
}

#[test]
fn entry_variants() {
    let state = RandomState::new();
    let mut table = IncHashTable::new();
    let hasher = |x: &(u64, u64)| hash_of(&state, x.0);
    let h = hash_of(&state, 1);
    let o = table.entry(h, |x| x.0 == 1, hasher).or_insert((1, 10));
    assert_eq!(*o.get(), (1, 10));
    let o = table.entry(h, |x| x.0 == 1, hasher).or_insert((1, 99));
    assert_eq!(*o.get(), (1, 10));
    let o = table.entry(h, |x| x.0 == 1, hasher).insert((1, 11));
    assert_eq!(*o.get(), (1, 11));
    let h2 = hash_of(&state, 2);
    let o = table.entry(h2, |x| x.0 == 2, hasher).or_insert_with(|| (2, 20));
    assert_eq!(*o.get(), (2, 20));
    let e = table.entry(h2, |x| x.0 == 2, hasher).and_modify(|x| x.1 += 1);
    assert!(matches!(e, Entry::Occupied(_)));
    assert_eq!(table.find(h2, |x| x.0 == 2), Some(&(2, 21)));
    let h3 = hash_of(&state, 3);
    let e = table.entry(h3, |x| x.0 == 3, hasher).and_modify(|x| x.1 += 1);
    assert!(matches!(e, Entry::Vacant(_)));
    assert_eq!(table.len(), 2);
}

#[test]
fn extract_if_is_negated_retain() {
    let state = RandomState::new();
    let hasher = |x: &(u64, u64)| hash_of(&state, x.0);
    let mut a = IncHashTable::new();
    let mut b = IncHashTable::new();
    for k in 0..300u64 {
        a.insert_unique(hash_of(&state, k), (k, k), hasher);
        b.insert_unique(hash_of(&state, k), (k, k), hasher);
    }
    let mut taken = a.extract_if(|x| x.0 % 4 == 0);
    b.retain(|x| x.0 % 4 != 0);
    taken.sort();
    assert_eq!(taken, (0..300u64).filter(|k| k % 4 == 0).map(|k| (k, k)).collect::<Vec<_>>());
    let mut left_a = a.iter();
    let mut left_b = b.into_vec();
    left_a.sort();
    left_b.sort();
    assert_eq!(left_a, left_b);
    assert_eq!(a.len(), 225);
}

#[test]
fn drain_and_clear() {
    let state = RandomState::new();
    let hasher = |x: &(u64, u64)| hash_of(&state, x.0);
    let mut table = IncHashTable::with_capacity(50);
    assert!(table.capacity() >= 50);
    for k in 0..40u64 {
        table.insert_unique(hash_of(&state, k), (k, 1), hasher);
    }
    let mut drained = table.drain();
    drained.sort();
    assert_eq!(drained, (0..40u64).map(|k| (k, 1)).collect::<Vec<_>>());
    assert_eq!(table.len(), 0);
    table.insert_unique(hash_of(&state, 7), (7, 7), hasher);
    table.clear();
    assert!(table.is_empty());
    assert_eq!(table.find(hash_of(&state, 7), |x| x.0 == 7), None);
}

#[test]
fn reserve_and_shrink_keep_elements() {
    let state = RandomState::new();
    let hasher = |x: &(u64, u64)| hash_of(&state, x.0);
    let mut table = IncHashTable::new();
    assert_eq!(table.capacity(), 0);
    assert_eq!(table.allocation_size(), 0);
    for k in 0..10u64 {
        table.insert_unique(hash_of(&state, k), (k, k), hasher);
    }
    table.reserve(1000, hasher);
    assert!(table.capacity() >= 1010);
    for k in 0..10u64 {
        assert_eq!(table.find(hash_of(&state, k), |x| x.0 == k), Some(&(k, k)));
    }
    table.shrink_to_fit(hasher);
    assert!(table.capacity() >= 10);
    assert!(table.capacity() < 1010);
    for k in 0..10u64 {
        assert_eq!(table.find(hash_of(&state, k), |x| x.0 == k), Some(&(k, k)));
    }
}

#[test]
fn growth_keeps_old_table_until_drained() {
    let state = RandomState::new();
    let hasher = |x: &(u64, u64)| hash_of(&state, x.0);
    let mut table = IncHashTable::with_capacity(3);
    assert_eq!(table.capacity(), 3);
    for k in 0..3u64 {
        table.insert_unique(hash_of(&state, k), (k, k), hasher);
    }
    // A fourth element grows the table to room for 3 + 3, keeping the
    // three old elements aside.
    table.insert_unique(hash_of(&state, 3), (3, 3), hasher);
    assert_eq!(table.capacity(), 7);
    assert_eq!(table.len(), 4);
    // 8 buckets now, and the 4 old ones, at 17 bytes a bucket plus 16.
    assert_eq!(table.allocation_size(), 8 * 17 + 16 + 4 * 17 + 16);
    // Each insertion moves one old element; after three the old table is gone.
    for k in 4..7u64 {
        table.insert_unique(hash_of(&state, k), (k, k), hasher);
    }
    assert_eq!(table.allocation_size(), 8 * 17 + 16);
    for k in 0..7u64 {
        assert_eq!(table.find(hash_of(&state, k), |x| x.0 == k), Some(&(k, k)));
    }
}

#[test]
fn entry_in_full_table_finds_element() {
    let state = RandomState::new();
    let hasher = |x: &(u64, u64)| hash_of(&state, x.0);
    let mut table = IncHashTable::new();
    for k in 0..4u64 {
        table.insert_unique(hash_of(&state, k), (k, k), hasher);
    }
    for k in 0..4u64 {
        let e = table.entry(hash_of(&state, k), |x| x.0 == k, hasher);
        let Entry::Occupied(o) = e else { panic!() };
        assert_eq!(*o.get(), (k, k));
    }
    assert_eq!(table.len(), 4);
}

#[test]
fn iter_mut_changes_every_element_in_place() {
    let state = RandomState::new();
    let mut table = IncHashTable::new();
    let hasher = |x: &(u64, u64)| hash_of(&state, x.0);
    for k in 0..200u64 {
        table.insert_unique(hash_of(&state, k), (k, k), hasher);
    }
    table.iter_mut(|x: &mut (u64, u64)| x.1 += 1000);
    assert_eq!(table.len(), 200);
    for k in 0..200u64 {
        assert_eq!(table.find(hash_of(&state, k), |x| x.0 == k), Some(&(k, k + 1000)));
    }
}

#[test]
fn retain_and_extract_if_keep_changed_elements() {
    let state = RandomState::new();
    let hasher = |x: &(u64, u64)| hash_of(&state, x.0);
    let mut table = IncHashTable::new();
    for k in 0..100u64 {
        table.insert_unique(hash_of(&state, k), (k, k), hasher);
    }
    table.retain(|x| {
        x.1 += 1;
        x.0 % 2 == 0
    });
    assert_eq!(table.len(), 50);
    for k in 0..100u64 {
        let found = table.find(hash_of(&state, k), |x| x.0 == k);
        if k % 2 == 0 {
            assert_eq!(found, Some(&(k, k + 1)));
        } else {
            assert_eq!(found, None);
        }
    }
    let mut taken = table.extract_if(|x| {
        x.1 *= 2;
        x.0 % 4 == 0
    });
    taken.sort();
    assert_eq!(taken, (0..100u64).filter(|k| k % 4 == 0).map(|k| (k, (k + 1) * 2)).collect::<Vec<_>>());
    assert_eq!(table.len(), 25);
    for k in (0..100u64).filter(|k| k % 2 == 0) {
        let found = table.find(hash_of(&state, k), |x| x.0 == k);
        if k % 4 == 0 {
            assert_eq!(found, None);
        } else {
            assert_eq!(found, Some(&(k, (k + 1) * 2)));
        }
    }
}

#[test]
fn shrink_to_fit_leaves_at_most_twice_the_length() {
    let state = RandomState::new();
    let hasher = |x: &(u64, u64)| hash_of(&state, x.0);
    let mut table = IncHashTable::new();
    for k in 0..2000u64 {
        table.insert_unique(hash_of(&state, k), (k, k), hasher);
    }
    table.retain(|x| x.0 < 100);
    assert_eq!(table.len(), 100);
    table.shrink_to_fit(hasher);
    assert!(table.capacity() >= 100);
    assert!(table.capacity() <= 200);
    for k in 0..100u64 {
        assert_eq!(table.find(hash_of(&state, k), |x| x.0 == k), Some(&(k, k)));
    }
    table.retain(|x| x.0 < 3);
    table.shrink_to_fit(hasher);
    assert!(table.capacity() <= 14);
    assert_eq!(table.len(), 3);
}

#[test]
fn drain_keeps_the_current_allocation() {
    let state = RandomState::new();
    let hasher = |x: &(u64, u64)| hash_of(&state, x.0);
    let mut table = IncHashTable::new();
    for k in 0..50u64 {
        table.insert_unique(hash_of(&state, k), (k, k), hasher);
    }
    let capacity = table.capacity();
    let drained = table.drain();
    assert_eq!(drained.len(), 50);
    assert!(table.is_empty());
    assert!(table.capacity() >= capacity);
}
