//! A map from `u64` keys to `u64` values on top of the incremental table.
//!
//! Each entry of the table is a key and a value, placed under the hash of
//! the key that the map's hasher gives.
use vstd::prelude::*;
use vstd::multiset::Multiset;
use crate::bag::{
    bag_of, strip, lemma_strip_contains, lemma_strip_len, lemma_bag_of_contains, lemma_bag_of_injective, lemma_bag_of_twice,
};
use crate::hash_table::{self, IncHashTable, agrees_with, callable_on, spec_max};
use crate::pair_table::{Pair, Slot, capacity_limit};

verus! {

broadcast use vstd::multiset::group_multiset_axioms, vstd::set::group_set_axioms, vstd::set_lib::group_set_lib_default;

/// Hashes keys for the map, as `std::hash::BuildHasher` does for a map of
/// the standard library. A hasher gives the same hash every time it is asked
/// about the same key.
pub trait BuildKeyHasher {
    /// The hash this hasher gives for `key`. An implementation written
    /// outside Verus computes it as `hash_one` does.
    spec fn spec_hash_one(&self, key: u64) -> u64;

    /// Hashes `key`.
    fn hash_one(&self, key: &u64) -> (hash: u64)
        ensures
            hash == self.spec_hash_one(*key),
    ;
}

/// Every entry is placed under the hash of its key, and no key occurs twice.
pub open spec fn entries_ok(entries: Multiset<Slot>, hash_of: spec_fn(u64) -> u64) -> bool {
    &&& forall|e: Slot| #[trigger] entries.contains(e) ==> e.0 == hash_of(e.1.0)
    &&& forall|e: Slot| #[trigger] entries.count(e) <= 1
    &&& forall|e1: Slot, e2: Slot|
        #[trigger] entries.contains(e1) && #[trigger] entries.contains(e2) && e1.1.0 == e2.1.0 ==> e1 == e2
}

/// The map that entries with distinct keys describe.
pub open spec fn map_of(entries: Multiset<Slot>) -> Map<u64, u64> {
    Map::new(
        |k: u64| exists|e: Slot| #[trigger] entries.contains(e) && e.1.0 == k,
        |k: u64| (choose|e: Slot| #[trigger] entries.contains(e) && e.1.0 == k).1.1,
    )
}

/// An entry's key maps to its value.
pub proof fn lemma_map_of_entry(entries: Multiset<Slot>, hash_of: spec_fn(u64) -> u64, e: Slot)
    requires
        entries_ok(entries, hash_of),
        entries.contains(e),
    ensures
        map_of(entries).contains_key(e.1.0),
        map_of(entries)[e.1.0] == e.1.1,
{
    let k = e.1.0;
    assert(exists|x: Slot| #[trigger] entries.contains(x) && x.1.0 == k);
    let c = choose|x: Slot| #[trigger] entries.contains(x) && x.1.0 == k;
    assert(c == e);
}

/// A key of the map belongs to an entry, placed under the key's hash.
pub proof fn lemma_map_of_key(entries: Multiset<Slot>, hash_of: spec_fn(u64) -> u64, k: u64)
    requires
        entries_ok(entries, hash_of),
        map_of(entries).contains_key(k),
    ensures
        entries.contains((hash_of(k), (k, map_of(entries)[k]))),
{
    let c = choose|x: Slot| #[trigger] entries.contains(x) && x.1.0 == k;
    assert(entries.contains(c) && c.1.0 == k);
}

/// Adding an entry for a new key adds the key to the map.
pub proof fn lemma_map_of_insert(entries: Multiset<Slot>, hash_of: spec_fn(u64) -> u64, k: u64, v: u64)
    requires
        entries_ok(entries, hash_of),
        !map_of(entries).contains_key(k),
    ensures
        entries_ok(entries.insert((hash_of(k), (k, v))), hash_of),
        map_of(entries.insert((hash_of(k), (k, v)))) == map_of(entries).insert(k, v),
{
    let n = entries.insert((hash_of(k), (k, v)));
    assert forall|e: Slot| #[trigger] entries.contains(e) implies e.1.0 != k by {
        assert(map_of(entries).contains_key(e.1.0));
    }
    assert forall|e: Slot| #[trigger] n.count(e) <= 1 by {
        if e != (hash_of(k), (k, v)) {
        } else {
            assert(!entries.contains(e));
        }
    }
    assert forall|e: Slot| #[trigger] n.contains(e) implies e.0 == hash_of(e.1.0) by {
        if e != (hash_of(k), (k, v)) {
            assert(entries.contains(e));
        }
    }
    assert forall|e1: Slot, e2: Slot|
        #[trigger] n.contains(e1) && #[trigger] n.contains(e2) && e1.1.0 == e2.1.0 implies e1 == e2 by {
        if e1 != (hash_of(k), (k, v)) {
            assert(entries.contains(e1));
        }
        if e2 != (hash_of(k), (k, v)) {
            assert(entries.contains(e2));
        }
    }
    assert(entries_ok(n, hash_of));
    assert forall|key: u64| #[trigger] map_of(n).contains_key(key) implies map_of(entries).insert(k, v).contains_key(key)
        && map_of(n)[key] == map_of(entries).insert(k, v)[key] by {
        let c = choose|x: Slot| #[trigger] n.contains(x) && x.1.0 == key;
        assert(n.contains(c));
        lemma_map_of_entry(n, hash_of, c);
        if key != k {
            assert(entries.contains(c));
            lemma_map_of_entry(entries, hash_of, c);
        } else if c != (hash_of(k), (k, v)) {
            assert(entries.contains(c));
        }
    }
    assert forall|key: u64| #[trigger] map_of(entries).insert(k, v).contains_key(key) implies map_of(n).contains_key(key) by {
        if key == k {
            assert(n.contains((hash_of(k), (k, v))));
        } else {
            lemma_map_of_key(entries, hash_of, key);
            assert(n.contains((hash_of(key), (key, map_of(entries)[key]))));
        }
    }
    assert(map_of(n) =~= map_of(entries).insert(k, v));
}

/// Taking out the entry of a key takes the key out of the map.
pub proof fn lemma_map_of_remove(entries: Multiset<Slot>, hash_of: spec_fn(u64) -> u64, e: Slot)
    requires
        entries_ok(entries, hash_of),
        entries.contains(e),
    ensures
        entries_ok(entries.remove(e), hash_of),
        map_of(entries.remove(e)) == map_of(entries).remove(e.1.0),
        !map_of(entries.remove(e)).contains_key(e.1.0),
{
    let n = entries.remove(e);
    assert forall|x: Slot| #[trigger] n.contains(x) implies entries.contains(x) by {}
    assert forall|x: Slot| #[trigger] n.contains(x) implies x.1.0 != e.1.0 by {
        assert(entries.count(e) <= 1);
        assert(entries.contains(x));
    }
    assert forall|x: Slot| #[trigger] n.count(x) <= 1 by {
        assert(entries.count(x) <= 1);
    }
    assert forall|e1: Slot, e2: Slot|
        #[trigger] n.contains(e1) && #[trigger] n.contains(e2) && e1.1.0 == e2.1.0 implies e1 == e2 by {
        assert(entries.contains(e1));
        assert(entries.contains(e2));
    }
    assert(entries_ok(n, hash_of));
    assert forall|key: u64| #[trigger] map_of(n).contains_key(key) implies map_of(entries).remove(e.1.0).contains_key(key)
        && map_of(n)[key] == map_of(entries).remove(e.1.0)[key] by {
        let c = choose|x: Slot| #[trigger] n.contains(x) && x.1.0 == key;
        assert(n.contains(c));
        lemma_map_of_entry(n, hash_of, c);
        assert(entries.contains(c));
        lemma_map_of_entry(entries, hash_of, c);
    }
    assert forall|key: u64| #[trigger] map_of(entries).remove(e.1.0).contains_key(key) implies map_of(n).contains_key(key) by {
        lemma_map_of_key(entries, hash_of, key);
        let x = (hash_of(key), (key, map_of(entries)[key]));
        assert(x != e);
        assert(n.contains(x));
    }
    assert(map_of(n) =~= map_of(entries).remove(e.1.0));
}

/// The map has as many keys as there are entries.
pub proof fn lemma_map_of_len(entries: Multiset<Slot>, hash_of: spec_fn(u64) -> u64)
    requires
        entries_ok(entries, hash_of),
    ensures
        map_of(entries).dom().finite(),
        map_of(entries).dom().len() == entries.len(),
    decreases entries.len(),
{
    if entries.len() == 0 {
        assert(map_of(entries).dom() =~= Set::empty()) by {
            assert forall|k: u64| !#[trigger] map_of(entries).contains_key(k) by {
                if map_of(entries).contains_key(k) {
                    let c = choose|x: Slot| #[trigger] entries.contains(x) && x.1.0 == k;
                    assert(entries.contains(c));
                }
            }
        }
    } else {
        let e = entries.choose();
        assert(entries.contains(e));
        lemma_map_of_remove(entries, hash_of, e);
        lemma_map_of_len(entries.remove(e), hash_of);
        lemma_map_of_entry(entries, hash_of, e);
        assert(map_of(entries).dom() =~= map_of(entries.remove(e)).dom().insert(e.1.0));
    }
}

/// Replacing the value of a present key changes only that key.
pub proof fn lemma_map_of_replace(entries: Multiset<Slot>, hash_of: spec_fn(u64) -> u64, e: Slot, v: u64)
    requires
        entries_ok(entries, hash_of),
        entries.contains(e),
    ensures
        entries_ok(entries.remove(e).insert((e.0, (e.1.0, v))), hash_of),
        map_of(entries.remove(e).insert((e.0, (e.1.0, v)))) == map_of(entries).insert(e.1.0, v),
{
    lemma_map_of_remove(entries, hash_of, e);
    lemma_map_of_insert(entries.remove(e), hash_of, e.1.0, v);
    assert(map_of(entries).remove(e.1.0).insert(e.1.0, v) =~= map_of(entries).insert(e.1.0, v));
}

/// Entries with distinct keys, listed in `before`, each changed in place
/// into the entry at the same index of `after`, with the same hash and key:
/// the keys stay distinct, the map keeps its keys, and each key has the value
/// its entry was changed to.
pub proof fn lemma_changed_in_place(
    entries: Multiset<Slot>,
    hash_of: spec_fn(u64) -> u64,
    before: Seq<Slot>,
    after: Seq<Slot>,
)
    requires
        entries_ok(entries, hash_of),
        before.to_multiset() == entries,
        before.len() == after.len(),
        forall|i: int|
            #![trigger after[i]]
            0 <= i < before.len() ==> after[i].0 == before[i].0 && after[i].1.0 == before[i].1.0,
    ensures
        entries_ok(after.to_multiset(), hash_of),
        map_of(after.to_multiset()).dom() == map_of(entries).dom(),
        forall|k: u64|
            #[trigger] map_of(entries).contains_key(k) ==> exists|i: int|
                0 <= i < before.len() && before[i].1 == (k, map_of(entries)[k]) && after[i].1 == (
                k,
                map_of(after.to_multiset())[k],
                ),
{
    broadcast use vstd::seq_lib::group_to_multiset_ensures;
    let post = after.to_multiset();
    before.lemma_multiset_has_no_duplicates_conv();
    assert forall|i: int, j: int| 0 <= i < before.len() && 0 <= j < before.len() && i != j implies
        #[trigger] before[i].1.0 != #[trigger] before[j].1.0 by {
        assert(entries.contains(before[i]) && entries.contains(before[j]));
    }
    assert(after.no_duplicates()) by {
        assert forall|i: int, j: int| 0 <= i < after.len() && 0 <= j < after.len() && i != j implies after[i]
            != after[j] by {
            assert(before[i].1.0 != before[j].1.0);
        }
    }
    after.lemma_multiset_has_no_duplicates();
    assert forall|e: Slot| #[trigger] post.contains(e) implies e.0 == hash_of(e.1.0) by {
        let i = choose|i: int| 0 <= i < after.len() && after[i] == e;
        assert(entries.contains(before[i]));
    }
    assert forall|e: Slot| #[trigger] post.count(e) <= 1 by {
        if post.contains(e) {
        }
    }
    assert forall|e1: Slot, e2: Slot|
        #[trigger] post.contains(e1) && #[trigger] post.contains(e2) && e1.1.0 == e2.1.0 implies e1 == e2 by {
        let i = choose|i: int| 0 <= i < after.len() && after[i] == e1;
        let j = choose|j: int| 0 <= j < after.len() && after[j] == e2;
        if i != j {
            assert(before[i].1.0 != before[j].1.0);
        }
    }
    assert forall|k: u64| map_of(post).contains_key(k) == map_of(entries).contains_key(k) by {
        if map_of(post).contains_key(k) {
            let e = choose|e: Slot| #[trigger] post.contains(e) && e.1.0 == k;
            let i = choose|i: int| 0 <= i < after.len() && after[i] == e;
            assert(entries.contains(before[i]) && before[i].1.0 == k);
        }
        if map_of(entries).contains_key(k) {
            let e = choose|e: Slot| #[trigger] entries.contains(e) && e.1.0 == k;
            let i = choose|i: int| 0 <= i < before.len() && before[i] == e;
            assert(post.contains(after[i]) && after[i].1.0 == k);
        }
    }
    assert(map_of(post).dom() =~= map_of(entries).dom());
    assert forall|k: u64| #[trigger] map_of(entries).contains_key(k) implies exists|i: int|
        0 <= i < before.len() && before[i].1 == (k, map_of(entries)[k]) && after[i].1 == (k, map_of(post)[k]) by {
        let e = choose|e: Slot| #[trigger] entries.contains(e) && e.1.0 == k;
        let i = choose|i: int| 0 <= i < before.len() && before[i] == e;
        lemma_map_of_entry(entries, hash_of, e);
        assert(post.contains(after[i]));
        lemma_map_of_entry(post, hash_of, after[i]);
    }
}

/// Entries with distinct keys, held at places, of which those at the places
/// of `kept` stay, each with the hash and key it had: the keys stay
/// distinct, and the map keeps exactly the keys of the places kept, each
/// with the value its entry has there.
pub proof fn lemma_kept_in_place<K>(placed: Map<K, Slot>, hash_of: spec_fn(u64) -> u64, kept: Map<K, Slot>)
    requires
        placed.dom().finite(),
        entries_ok(bag_of(placed), hash_of),
        kept.dom().subset_of(placed.dom()),
        forall|q: K| #[trigger] kept.contains_key(q) ==> kept[q].0 == placed[q].0 && kept[q].1.0 == placed[q].1.0,
    ensures
        kept.dom().finite(),
        entries_ok(bag_of(kept), hash_of),
        forall|q1: K, q2: K|
            #[trigger] placed.contains_key(q1) && #[trigger] placed.contains_key(q2) && placed[q1].1.0 == placed[q2].1.0
                ==> q1 == q2,
        forall|k: u64| #[trigger] map_of(bag_of(kept)).contains_key(k) ==> map_of(bag_of(placed)).contains_key(k),
        forall|k: u64|
            #[trigger] map_of(bag_of(placed)).contains_key(k) ==> exists|q: K|
                {
                    &&& placed.contains_key(q)
                    &&& placed[q].1 == (k, map_of(bag_of(placed))[k])
                    &&& map_of(bag_of(kept)).contains_key(k) == kept.contains_key(q)
                    &&& kept.contains_key(q) ==> map_of(bag_of(kept))[k] == kept[q].1.1
                },
{
    let before = bag_of(placed);
    let after = bag_of(kept);
    vstd::set_lib::lemma_set_subset_finite(placed.dom(), kept.dom());
    assert forall|q1: K, q2: K|
        #[trigger] placed.contains_key(q1) && #[trigger] placed.contains_key(q2) && placed[q1].1.0 == placed[q2].1.0
        implies q1 == q2 by {
        lemma_bag_of_contains(placed, placed[q1]);
        lemma_bag_of_contains(placed, placed[q2]);
        assert(before.contains(placed[q1]) && before.contains(placed[q2]));
        if q1 != q2 {
            lemma_bag_of_twice(placed, q1, q2);
        }
    }
    assert forall|q1: K, q2: K|
        #[trigger] kept.contains_key(q1) && #[trigger] kept.contains_key(q2) && kept[q1] == kept[q2] implies q1 == q2 by {
        assert(placed.contains_key(q1) && placed.contains_key(q2));
    }
    lemma_bag_of_injective(kept);
    assert forall|e: Slot| #[trigger] after.contains(e) implies e.0 == hash_of(e.1.0) by {
        lemma_bag_of_contains(kept, e);
        let q = choose|q: K| kept.contains_key(q) && kept[q] == e;
        assert(placed.contains_key(q));
        lemma_bag_of_contains(placed, placed[q]);
        assert(before.contains(placed[q]));
    }
    assert forall|e1: Slot, e2: Slot|
        #[trigger] after.contains(e1) && #[trigger] after.contains(e2) && e1.1.0 == e2.1.0 implies e1 == e2 by {
        lemma_bag_of_contains(kept, e1);
        lemma_bag_of_contains(kept, e2);
        let q1 = choose|q: K| kept.contains_key(q) && kept[q] == e1;
        let q2 = choose|q: K| kept.contains_key(q) && kept[q] == e2;
        assert(placed.contains_key(q1) && placed.contains_key(q2));
    }
    assert forall|k: u64| #[trigger] map_of(after).contains_key(k) implies map_of(before).contains_key(k) by {
        let e = choose|e: Slot| #[trigger] after.contains(e) && e.1.0 == k;
        lemma_bag_of_contains(kept, e);
        let q = choose|q: K| kept.contains_key(q) && kept[q] == e;
        assert(placed.contains_key(q));
        lemma_bag_of_contains(placed, placed[q]);
        assert(before.contains(placed[q]) && placed[q].1.0 == k);
    }
    assert forall|k: u64| #[trigger] map_of(before).contains_key(k) implies exists|q: K|
        {
            &&& placed.contains_key(q)
            &&& placed[q].1 == (k, map_of(before)[k])
            &&& map_of(after).contains_key(k) == kept.contains_key(q)
            &&& kept.contains_key(q) ==> map_of(after)[k] == kept[q].1.1
        } by {
        let e = choose|e: Slot| #[trigger] before.contains(e) && e.1.0 == k;
        lemma_bag_of_contains(placed, e);
        let q = choose|q: K| placed.contains_key(q) && placed[q] == e;
        lemma_map_of_entry(before, hash_of, e);
        if kept.contains_key(q) {
            lemma_bag_of_contains(kept, kept[q]);
            lemma_map_of_entry(after, hash_of, kept[q]);
        } else if map_of(after).contains_key(k) {
            let e2 = choose|e: Slot| #[trigger] after.contains(e) && e.1.0 == k;
            lemma_bag_of_contains(kept, e2);
            let q2 = choose|q: K| kept.contains_key(q) && kept[q] == e2;
            assert(placed.contains_key(q2));
        }
    }
}

/// `pairs` lists every key of `m` once, with its value.
pub open spec fn is_listing(pairs: Seq<Pair>, m: Map<u64, u64>) -> bool {
    &&& pairs.len() == m.len()
    &&& forall|i: int| 0 <= i < pairs.len() ==> m.contains_key(#[trigger] pairs[i].0) && m[pairs[i].0] == pairs[i].1
    &&& forall|k: u64| #[trigger] m.contains_key(k) ==> exists|i: int| 0 <= i < pairs.len() && pairs[i].0 == k
}

/// A sequence holding the elements of entries with distinct keys lists the
/// map they describe.
pub proof fn lemma_listing(entries: Multiset<Slot>, hash_of: spec_fn(u64) -> u64, pairs: Seq<Pair>)
    requires
        entries_ok(entries, hash_of),
        pairs.to_multiset() == strip(entries),
    ensures
        is_listing(pairs, map_of(entries)),
{
    broadcast use vstd::seq_lib::group_to_multiset_ensures;
    lemma_strip_len(entries);
    lemma_map_of_len(entries, hash_of);
    assert forall|i: int| 0 <= i < pairs.len() implies map_of(entries).contains_key(#[trigger] pairs[i].0)
        && map_of(entries)[pairs[i].0] == pairs[i].1 by {
        assert(pairs.contains(pairs[i]));
        assert(pairs.to_multiset().count(pairs[i]) > 0);
        lemma_strip_contains(entries, pairs[i]);
        let h = choose|h: u64| entries.contains((h, pairs[i]));
        lemma_map_of_entry(entries, hash_of, (h, pairs[i]));
    }
    assert forall|k: u64| #[trigger] map_of(entries).contains_key(k) implies exists|i: int| 0 <= i < pairs.len() && pairs[i].0 == k by {
        lemma_map_of_key(entries, hash_of, k);
        let x = (k, map_of(entries)[k]);
        lemma_strip_contains(entries, x);
        assert(strip(entries).contains(x));
        assert(pairs.to_multiset().count(x) > 0);
        assert(pairs.contains(x));
        let i = choose|i: int| 0 <= i < pairs.len() && pairs[i] == x;
        assert(pairs[i].0 == k);
    }
}

/// The map that setting the keys of `pairs` in turn, each to its value,
/// gives.
pub open spec fn pairs_map(pairs: Seq<Pair>) -> Map<u64, u64>
    decreases pairs.len(),
{
    if pairs.len() == 0 {
        Map::empty()
    } else {
        pairs_map(pairs.drop_last()).insert(pairs.last().0, pairs.last().1)
    }
}

/// Every key of `pairs_map` has the value of some pair that names it.
pub proof fn lemma_pairs_map_value(pairs: Seq<Pair>, k: u64)
    requires
        pairs_map(pairs).contains_key(k),
    ensures
        exists|j: int| 0 <= j < pairs.len() && pairs[j] == (k, pairs_map(pairs)[k]),
    decreases pairs.len(),
{
    if pairs.len() > 0 {
        if k == pairs.last().0 {
            assert(pairs[pairs.len() - 1] == (k, pairs_map(pairs)[k]));
        } else {
            lemma_pairs_map_value(pairs.drop_last(), k);
            let j = choose|j: int| 0 <= j < pairs.drop_last().len() && pairs.drop_last()[j] == (
                k,
                pairs_map(pairs.drop_last())[k],
            );
            assert(pairs[j] == (k, pairs_map(pairs)[k]));
        }
    }
}

/// A listing of `m` builds `m` back.
pub proof fn lemma_pairs_map_of_listing(pairs: Seq<Pair>, m: Map<u64, u64>)
    requires
        is_listing(pairs, m),
    ensures
        pairs_map(pairs) == m,
{
    lemma_pairs_map_keys(pairs);
    assert forall|k: u64| #[trigger] pairs_map(pairs).contains_key(k) == m.contains_key(k) by {
        if pairs_map(pairs).contains_key(k) {
            let j = choose|j: int| 0 <= j < pairs.len() && pairs[j].0 == k;
            assert(m.contains_key(pairs[j].0));
        }
    }
    assert forall|k: u64| #[trigger] pairs_map(pairs).contains_key(k) implies pairs_map(pairs)[k] == m[k] by {
        lemma_pairs_map_value(pairs, k);
        let j = choose|j: int| 0 <= j < pairs.len() && pairs[j] == (k, pairs_map(pairs)[k]);
        assert(m[pairs[j].0] == pairs[j].1);
    }
    assert(pairs_map(pairs) =~= m);
}

/// The keys of `pairs_map` are the keys the pairs name.
pub proof fn lemma_pairs_map_keys(pairs: Seq<Pair>)
    ensures
        forall|k: u64| #[trigger] pairs_map(pairs).contains_key(k) <==> exists|j: int| 0 <= j < pairs.len() && pairs[j].0 == k,
    decreases pairs.len(),
{
    if pairs.len() > 0 {
        lemma_pairs_map_keys(pairs.drop_last());
        assert forall|k: u64| #[trigger] pairs_map(pairs).contains_key(k) <==> exists|j: int| 0 <= j < pairs.len() && pairs[j].0 == k by {
            if pairs_map(pairs).contains_key(k) && k != pairs.last().0 {
                assert(pairs_map(pairs.drop_last()).contains_key(k));
                let j = choose|j: int| 0 <= j < pairs.drop_last().len() && pairs.drop_last()[j].0 == k;
                assert(pairs[j].0 == k);
            }
            if exists|j: int| 0 <= j < pairs.len() && pairs[j].0 == k {
                let j = choose|j: int| 0 <= j < pairs.len() && pairs[j].0 == k;
                if j < pairs.len() - 1 {
                    assert(pairs.drop_last()[j].0 == k);
                    assert(pairs_map(pairs.drop_last()).contains_key(k));
                } else {
                    assert(pairs.last().0 == k);
                }
                assert(pairs_map(pairs).contains_key(k));
            }
        }
    }
}

/// An incrementally resizing hash map from `u64` keys to `u64` values.
pub struct IncHashMap<S> {
    table: IncHashTable,
    hasher: S,
}

impl<S: BuildKeyHasher> IncHashMap<S> {
    /// The hash of `key` under the map's hasher.
    pub open spec fn hash_of(&self) -> spec_fn(u64) -> u64 {
        |k: u64| self.spec_hasher().spec_hash_one(k)
    }

    /// The map's hasher.
    pub closed spec fn spec_hasher(&self) -> S {
        self.hasher
    }

    /// The table underneath.
    pub closed spec fn spec_table(&self) -> IncHashTable {
        self.table
    }

    /// The map's invariant: the table is well formed, every entry is placed
    /// under the hash of its key, and no key occurs twice.
    pub open spec fn wf(&self) -> bool {
        &&& self.spec_table().wf()
        &&& entries_ok(self.spec_table()@, self.hash_of())
    }

    /// The keys and values.
    pub open spec fn view(&self) -> Map<u64, u64> {
        map_of(self.spec_table()@)
    }

    /// The keys and values in the order the map lists them, which is the
    /// order its table lists its elements in.
    pub closed spec fn listing(&self) -> Seq<Pair> {
        self.table.listing()
    }

    /// The listing names every key once, with its value.
    pub proof fn lemma_listing_lists(&self)
        requires
            self.wf(),
        ensures
            is_listing(self.listing(), self.view()),
    {
        self.table.lemma_listing_items();
        lemma_listing(self.table@, self.hash_of(), self.listing());
    }

    /// The number of keys is the number of entries, which fits in the
    /// capacity.
    pub proof fn lemma_len(&self)
        requires
            self.wf(),
        ensures
            self.view().dom().finite(),
            self.view().dom().len() == self.spec_table()@.len(),
            self.view().dom().len() <= self.spec_table().spec_capacity(),
    {
        lemma_map_of_len(self.spec_table()@, self.hash_of());
        self.spec_table().lemma_len_within_capacity();
    }

    /// An empty map that hashes with `hasher`.
    pub fn with_hasher(hasher: S) -> (map: Self)
        ensures
            map.wf(),
            map.view() =~= Map::empty(),
            map.spec_hasher() == hasher,
    {
        let map = IncHashMap { table: IncHashTable::new(), hasher };
        proof {
            lemma_map_of_len(map.table@, map.hash_of());
        }
        map
    }

    /// An empty map that hashes with `hasher` and holds at least `capacity`
    /// keys before it reallocates.
    pub fn with_capacity_and_hasher(capacity: usize, hasher: S) -> (map: Self)
        requires
            capacity <= capacity_limit(),
        ensures
            map.wf(),
            map.view() =~= Map::empty(),
            map.spec_hasher() == hasher,
            map.spec_table().spec_capacity() >= capacity,
    {
        let map = IncHashMap { table: IncHashTable::with_capacity(capacity), hasher };
        proof {
            lemma_map_of_len(map.table@, map.hash_of());
        }
        map
    }

    /// The map's hasher.
    pub fn hasher(&self) -> (hasher: &S)
        ensures
            *hasher == self.spec_hasher(),
    {
        &self.hasher
    }

    /// The number of keys the map holds without reallocating.
    pub fn capacity(&self) -> (cap: usize)
        requires
            self.wf(),
        ensures
            cap == self.spec_table().spec_capacity(),
            cap >= self.view().len(),
    {
        proof { self.lemma_len(); }
        self.table.capacity()
    }

    /// The number of keys.
    pub fn len(&self) -> (len: usize)
        requires
            self.wf(),
        ensures
            len == self.view().len(),
    {
        proof { self.lemma_len(); }
        self.table.len()
    }

    /// Whether the map holds no key.
    pub fn is_empty(&self) -> (empty: bool)
        requires
            self.wf(),
        ensures
            empty == (self.view().len() == 0),
    {
        proof { self.lemma_len(); }
        self.table.is_empty()
    }

    /// Removes every key; the allocation stays.
    pub fn clear(&mut self)
        requires
            old(self).wf(),
        ensures
            final(self).wf(),
            final(self).view() =~= Map::empty(),
            final(self).spec_hasher() == old(self).spec_hasher(),
            final(self).spec_table().spec_capacity() >= old(self).spec_table().spec_capacity(),
    {
        self.table.clear();
        proof {
            lemma_map_of_len(self.table@, self.hash_of());
        }
    }

    /// The bytes allocated by the map.
    pub fn allocation_size(&self) -> (size: usize)
        requires
            self.wf(),
        ensures
            size == self.spec_table().spec_allocation(),
    {
        self.table.allocation_size()
    }

    /// The entry for `key`, or `None`.
    pub fn get_key_value(&self, key: &u64) -> (found: Option<(&u64, &u64)>)
        requires
            self.wf(),
        ensures
            match found {
                Some((k, v)) => *k == *key && self.view().contains_key(*key) && *v == self.view()[*key],
                None => !self.view().contains_key(*key),
            },
    {
        let k = *key;
        let hash = self.hasher.hash_one(key);
        let eq = |e: &Pair| -> (same: bool)
            ensures
                same == (e.0 == k),
            { e.0 == k };
        match self.table.find(hash, eq) {
            Some(pair) => {
                proof {
                    let h = choose|h: u64| self.table@.contains((h, *pair));
                    lemma_map_of_entry(self.table@, self.hash_of(), (h, *pair));
                }
                Some((&pair.0, &pair.1))
            },
            None => {
                proof {
                    if self.view().contains_key(k) {
                        lemma_map_of_key(self.table@, self.hash_of(), k);
                        let e = (self.hash_of()(k), (k, self.view()[k]));
                        assert(self.table@.contains(e) && e.0 == hash);
                    }
                }
                None
            },
        }
    }

    /// The value of `key`, or `None`.
    pub fn get(&self, key: &u64) -> (found: Option<&u64>)
        requires
            self.wf(),
        ensures
            match found {
                Some(v) => self.view().contains_key(*key) && *v == self.view()[*key],
                None => !self.view().contains_key(*key),
            },
    {
        match self.get_key_value(key) {
            Some((_k, v)) => Some(v),
            None => None,
        }
    }

    /// Whether `key` has a value.
    pub fn contains_key(&self, key: &u64) -> (found: bool)
        requires
            self.wf(),
        ensures
            found == self.view().contains_key(*key),
    {
        self.get_key_value(key).is_some()
    }

    /// The entry for `key`: occupied if the key has a value, vacant
    /// otherwise, with room for one more key.
    pub fn entry(&mut self, key: u64) -> (entry: Entry<'_>)
        requires
            old(self).wf(),
            2 * old(self).view().len() + 1 <= capacity_limit(),
        ensures
            final(self).spec_hasher() == old(self).spec_hasher(),
            match entry {
                Entry::Occupied(o) => {
                    &&& o.wf()
                    &&& o.hash_of@ == old(self).hash_of()
                    &&& o.key_spec() == key
                    &&& o.map_view() == old(self).view()
                    &&& old(self).view().contains_key(key)
                    &&& o.value_spec() == old(self).view()[key]
                    &&& final(self).spec_table() == *final(o.inner.table)
                },
                Entry::Vacant(v) => {
                    &&& v.wf()
                    &&& v.hash_of@ == old(self).hash_of()
                    &&& v.key == key
                    &&& v.map_view() == old(self).view()
                    &&& (*v.inner.table)@ == old(self).spec_table()@
                    &&& !old(self).view().contains_key(key)
                    &&& final(self).spec_table() == *final(v.inner.table)
                },
            },
    {
        proof { self.lemma_len(); }
        let hash = self.hasher.hash_one(&key);
        let k = key;
        let eq = |e: &Pair| -> (same: bool)
            ensures
                same == (e.0 == k),
            { e.0 == k };
        let hasher_ref = &self.hasher;
        let hasher = |e: &Pair| -> (h: u64)
            ensures
                h == hasher_ref.spec_hash_one(e.0),
            { hasher_ref.hash_one(&e.0) };
        let ghost pre = *self;
        let ghost hash_of = self.hash_of();
        proof {
            assert forall|e: Slot| #[trigger] self.table@.contains(e) implies call_requires(eq, (&e.1,)) by {}
        }
        match self.table.entry(hash, eq, hasher) {
            hash_table::Entry::Occupied(inner) => {
                proof {
                    inner.lemma_slot_in_table();
                    lemma_map_of_entry(pre.table@, hash_of, inner.slot());
                }
                Entry::Occupied(OccupiedEntry { inner, hash_of: Ghost(hash_of) })
            },
            hash_table::Entry::Vacant(inner) => {
                proof {
                    if pre.view().contains_key(key) {
                        lemma_map_of_key(pre.table@, hash_of, key);
                        let e = (hash_of(key), (key, pre.view()[key]));
                        assert(pre.table@.contains(e) && e.0 == hash);
                    }
                }
                Entry::Vacant(VacantEntry { key, inner, hash_of: Ghost(hash_of) })
            },
        }
    }

    /// What `insert(key, value)` does, returning `replaced`: the key gets
    /// `value`, and the value it had before, if any, is returned.
    pub open spec fn insert_post(before: Self, after: Self, key: u64, value: u64, replaced: Option<u64>) -> bool {
        &&& after.wf()
        &&& after.spec_hasher() == before.spec_hasher()
        &&& after.view() == before.view().insert(key, value)
        &&& replaced == if before.view().contains_key(key) {
            Some(before.view()[key])
        } else {
            None
        }
    }

    /// What `remove(key)` does, returning `removed`: the key loses its value,
    /// which is returned.
    pub open spec fn remove_post(before: Self, after: Self, key: u64, removed: Option<u64>) -> bool {
        &&& after.wf()
        &&& after.spec_hasher() == before.spec_hasher()
        &&& after.view() == before.view().remove(key)
        &&& match removed {
            Some(v) => before.view().contains_key(key) && v == before.view()[key],
            None => !before.view().contains_key(key),
        }
    }

    /// Sets the value of `key` to `value`; returns the value it replaced, if
    /// any.
    pub fn insert(&mut self, key: u64, value: u64) -> (replaced: Option<u64>)
        requires
            old(self).wf(),
            2 * old(self).view().len() + 1 <= capacity_limit(),
        ensures
            Self::insert_post(*old(self), *final(self), key, value, replaced),
    {
        let ghost pre = *self;
        proof {
            pre.lemma_len();
        }
        let replaced = self.insert_entries(key, value);
        proof {
            Self::lemma_insert_entries(pre, *self, key, value, replaced);
        }
        replaced
    }

    /// The map's weaker invariant, which holds even when a key occurs
    /// twice: the table is well formed and every entry is placed under the
    /// hash of its key.
    pub open spec fn sound(&self) -> bool {
        &&& self.spec_table().wf()
        &&& forall|e: Slot| #[trigger] self.spec_table()@.contains(e) ==> e.0 == self.hash_of()(e.1.0)
    }

    /// What `insert(key, value)` does to the entries: the entry with the key
    /// gets `value` and its old value is returned; or, when no entry has the
    /// key, an entry for it is added.
    pub open spec fn insert_entries_post(
        before: Self,
        after: Self,
        key: u64,
        value: u64,
        replaced: Option<u64>,
    ) -> bool {
        &&& after.sound()
        &&& after.spec_hasher() == before.spec_hasher()
        &&& match replaced {
            Some(v) => exists|e: Slot|
                #![trigger before.spec_table()@.contains(e)]
                before.spec_table()@.contains(e) && e.1.0 == key && e.1.1 == v && after.spec_table()@
                    == before.spec_table()@.remove(e).insert((e.0, (key, value))),
            None => {
                &&& after.spec_table()@ == before.spec_table()@.insert((before.hash_of()(key), (key, value)))
                &&& forall|e: Slot| #[trigger] before.spec_table()@.contains(e) ==> e.1.0 != key
            },
        }
    }

    /// `insert`, on the entries: finds the entry for `key` and gives it
    /// `value`, or adds one when no entry has the key.
    fn insert_entries(&mut self, key: u64, value: u64) -> (replaced: Option<u64>)
        requires
            old(self).sound(),
            2 * old(self).spec_table()@.len() + 1 <= capacity_limit(),
        ensures
            Self::insert_entries_post(*old(self), *final(self), key, value, replaced),
    {
        let hash = self.hasher.hash_one(&key);
        let k = key;
        let eq = |e: &Pair| -> (same: bool)
            ensures
                same == (e.0 == k),
            { e.0 == k };
        let hasher_ref = &self.hasher;
        let hasher = |e: &Pair| -> (h: u64)
            ensures
                h == hasher_ref.spec_hash_one(e.0),
            { hasher_ref.hash_one(&e.0) };
        let ghost pre = *self;
        proof {
            assert forall|e: Slot| #[trigger] self.table@.contains(e) implies call_requires(eq, (&e.1,)) by {}
        }
        let ghost hash_of = self.hash_of();
        let replaced = match self.table.entry(hash, eq, hasher) {
            hash_table::Entry::Occupied(mut o) => {
                let ghost slot = o.slot();
                proof {
                    assert(pre.table@.contains(slot));
                    assert(slot.1.0 == key);
                    assert(slot.0 == hash_of(key));
                }
                let elem = o.get_mut();
                let replaced = elem.1;
                elem.1 = value;
                Some(replaced)
            },
            hash_table::Entry::Vacant(v) => {
                let _o = v.insert((key, value));
                None
            },
        };
        proof {
            assert forall|e: Slot| #[trigger] self.table@.contains(e) implies e.0 == hash_of(e.1.0) by {
                if !pre.table@.contains(e) {
                    assert(e.1.0 == key);
                }
            }
        }
        replaced
    }

    /// On a map whose keys occur once, what `insert_entries` does is what
    /// `insert` promises.
    proof fn lemma_insert_entries(before: Self, after: Self, key: u64, value: u64, replaced: Option<u64>)
        requires
            before.wf(),
            Self::insert_entries_post(before, after, key, value, replaced),
        ensures
            Self::insert_post(before, after, key, value, replaced),
    {
        let entries = before.table@;
        let hash_of = before.hash_of();
        before.lemma_len();
        before.table.lemma_len_within_capacity();
        match replaced {
            Some(v) => {
                let e = choose|e: Slot|
                    #![trigger entries.contains(e)]
                    entries.contains(e) && e.1.0 == key && e.1.1 == v && after.table@ == entries.remove(e).insert(
                        (e.0, (key, value)),
                    );
                lemma_map_of_entry(entries, hash_of, e);
                lemma_map_of_replace(entries, hash_of, e, value);
            },
            None => {
                if !before.view().contains_key(key) {
                    lemma_map_of_insert(entries, hash_of, key, value);
                } else {
                    lemma_map_of_key(entries, hash_of, key);
                    let e = (hash_of(key), (key, before.view()[key]));
                    assert(entries.contains(e));
                }
            },
        }
    }

    /// Takes `key` out of the map and returns its entry, if it had one.
    pub fn remove_entry(&mut self, key: &u64) -> (removed: Option<(u64, u64)>)
        requires
            old(self).wf(),
        ensures
            final(self).wf(),
            final(self).spec_hasher() == old(self).spec_hasher(),
            final(self).view() == old(self).view().remove(*key),
            match removed {
                Some((k, v)) => k == *key && old(self).view().contains_key(*key) && v == old(self).view()[*key],
                None => !old(self).view().contains_key(*key),
            },
    {
        let k = *key;
        let hash = self.hasher.hash_one(key);
        let eq = |e: &Pair| -> (same: bool)
            ensures
                same == (e.0 == k),
            { e.0 == k };
        let ghost pre = *self;
        let ghost hash_of = self.hash_of();
        match self.table.find_entry(hash, eq) {
            Ok(e) => {
                proof {
                    let x = e.slot().1;
                    let h = choose|h: u64| #![trigger pre.table@.contains((h, x))] pre.table@.contains((h, x)) && (*e.table)@ == pre.table@.remove((h, x)).insert(e.slot());
                    assert(pre.table@.contains((h, x)));
                    assert(e.slot() == (h, x));
                    assert((*e.table)@ =~= pre.table@);
                    e.lemma_slot_in_table();
                    lemma_map_of_entry(pre.table@, hash_of, e.slot());
                    lemma_map_of_remove(pre.table@, hash_of, e.slot());
                }
                let (pair, _vacant) = e.remove();
                Some(pair)
            },
            Err(_absent) => {
                proof {
                    if pre.view().contains_key(k) {
                        lemma_map_of_key(pre.table@, hash_of, k);
                        let e = (hash_of(k), (k, pre.view()[k]));
                        assert(pre.table@.contains(e) && e.0 == hash);
                    }
                    assert(pre.view().remove(k) =~= pre.view());
                }
                None
            },
        }
    }

    /// Takes `key` out of the map and returns its value, if it had one.
    pub fn remove(&mut self, key: &u64) -> (removed: Option<u64>)
        requires
            old(self).wf(),
        ensures
            Self::remove_post(*old(self), *final(self), *key, removed),
    {
        match self.remove_entry(key) {
            Some((_k, v)) => Some(v),
            None => None,
        }
    }

    /// The table entry found for `key` keeps the entries as they were: an
    /// entry moved from the old table goes under its own hash.
    proof fn lemma_found_entry(pre: IncHashTable, hash_of: spec_fn(u64) -> u64, key: u64, e: hash_table::OccupiedEntry)
        requires
            pre.wf(),
            entries_ok(pre@, hash_of),
            e.wf(),
            e.hash == hash_of(key),
            e.slot().1.0 == key,
            e.slot().0 == hash_of(key) || pre@.contains(e.slot()),
            exists|h: u64|
                #![trigger pre@.contains((h, e.slot().1))]
                pre@.contains((h, e.slot().1)) && (*e.table)@ == pre@.remove((h, e.slot().1)).insert(e.slot()),
        ensures
            (*old(e.table))@ == pre@,
            pre@.contains(e.slot()),
            e.slot().0 == hash_of(key),
    {
        let x = e.slot().1;
        let h = choose|h: u64|
            #![trigger pre@.contains((h, x))]
            pre@.contains((h, x)) && (*e.table)@ == pre@.remove((h, x)).insert(e.slot());
        assert(h == hash_of(key));
        assert(e.slot() == (h, x));
        assert((*e.table)@ =~= pre@);
    }

    /// The key and value of `key`, the value to be changed in place, or
    /// `None`.
    pub fn get_key_value_mut(&mut self, key: &u64) -> (found: Option<(&u64, &mut u64)>)
        requires
            old(self).wf(),
        ensures
            final(self).spec_hasher() == old(self).spec_hasher(),
            final(self).wf(),
            final(self).spec_table().spec_capacity() >= old(self).spec_table().spec_capacity(),
            final(self).spec_table().spec_capacity() <= old(self).spec_table().spec_capacity() + 1,
            final(self).spec_table().spec_allocation() == old(self).spec_table().spec_allocation(),
            final(self).spec_table().pending() == old(self).spec_table().pending()
                || final(self).spec_table().pending() + 1 == old(self).spec_table().pending(),
            final(self).spec_table().pending() == old(self).spec_table().pending()
                ==> final(self).spec_table().spec_capacity() == old(self).spec_table().spec_capacity(),
            match found {
                Some((k, v)) => {
                    &&& *k == *key
                    &&& old(self).view().contains_key(*key)
                    &&& *v == old(self).view()[*key]
                    &&& final(self).view() == old(self).view().insert(*key, *final(v))
                },
                None => !old(self).view().contains_key(*key) && final(self).view() == old(self).view(),
            },
    {
        let k = *key;
        let hash = self.hasher.hash_one(key);
        let eq = |e: &Pair| -> (same: bool)
            ensures
                same == (e.0 == k),
            { e.0 == k };
        let ghost pre = *self;
        let ghost hash_of = self.hash_of();
        match self.table.find_entry(hash, eq) {
            Ok(e) => {
                proof {
                    Self::lemma_found_entry(pre.table, hash_of, k, e);
                }
                let entry = OccupiedEntry { inner: e, hash_of: Ghost(hash_of) };
                proof {
                    entry.lemma_entry_in_map();
                }
                let ghost slot = entry.inner.slot();
                let ghost entries = pre.table@;
                proof {
                    assert forall|p: Pair| p.0 == slot.1.0 implies #[trigger] entries_ok(entries.remove(slot).insert((slot.0, p)), hash_of) by {
                        lemma_map_of_replace(entries, hash_of, slot, p.1);
                        assert((slot.0, p) == (slot.0, (slot.1.0, p.1)));
                    }
                    assert forall|p: Pair| p.0 == slot.1.0 implies #[trigger] map_of(entries.remove(slot).insert((slot.0, p)))
                        == map_of(entries).insert(slot.1.0, p.1) by {
                        lemma_map_of_replace(entries, hash_of, slot, p.1);
                        assert((slot.0, p) == (slot.0, (slot.1.0, p.1)));
                    }
                }
                let pair = entry.inner.into_mut();
                let (k_ref, v_ref) = pair;
                Some((&*k_ref, v_ref))
            },
            Err(_absent) => {
                proof {
                    if pre.view().contains_key(k) {
                        lemma_map_of_key(pre.table@, hash_of, k);
                        let e = (hash_of(k), (k, pre.view()[k]));
                        assert(pre.table@.contains(e) && e.0 == hash);
                    }
                }
                None
            },
        }
    }

    /// The value of `key`, to be changed in place, or `None`.
    pub fn get_mut(&mut self, key: &u64) -> (found: Option<&mut u64>)
        requires
            old(self).wf(),
        ensures
            final(self).spec_hasher() == old(self).spec_hasher(),
            final(self).wf(),
            final(self).spec_table().spec_capacity() >= old(self).spec_table().spec_capacity(),
            final(self).spec_table().spec_capacity() <= old(self).spec_table().spec_capacity() + 1,
            final(self).spec_table().spec_allocation() == old(self).spec_table().spec_allocation(),
            final(self).spec_table().pending() == old(self).spec_table().pending()
                || final(self).spec_table().pending() + 1 == old(self).spec_table().pending(),
            final(self).spec_table().pending() == old(self).spec_table().pending()
                ==> final(self).spec_table().spec_capacity() == old(self).spec_table().spec_capacity(),
            match found {
                Some(v) => {
                    &&& old(self).view().contains_key(*key)
                    &&& *v == old(self).view()[*key]
                    &&& final(self).view() == old(self).view().insert(*key, *final(v))
                },
                None => !old(self).view().contains_key(*key) && final(self).view() == old(self).view(),
            },
    {
        match self.get_key_value_mut(key) {
            Some((_k, v)) => Some(v),
            None => None,
        }
    }

    /// Adds `key` with `value` if the key has no value; otherwise returns
    /// the key's entry and `value` in an error.
    pub fn try_insert(&mut self, key: u64, value: u64) -> (inserted: Result<&mut u64, OccupiedError<'_>>)
        requires
            old(self).wf(),
            2 * old(self).view().len() + 1 <= capacity_limit(),
        ensures
            final(self).spec_hasher() == old(self).spec_hasher(),
            match inserted {
                Ok(v) => {
                    &&& *v == value
                    &&& !old(self).view().contains_key(key)
                    &&& final(self).wf()
                    &&& final(self).view() == old(self).view().insert(key, *final(v))
                },
                Err(err) => {
                    &&& err.value == value
                    &&& err.entry.wf()
                    &&& err.entry.hash_of@ == old(self).hash_of()
                    &&& err.entry.key_spec() == key
                    &&& err.entry.map_view() == old(self).view()
                    &&& old(self).view().contains_key(key)
                    &&& err.entry.value_spec() == old(self).view()[key]
                    &&& final(self).spec_table() == *final(err.entry.inner.table)
                },
            },
    {
        match self.entry(key) {
            Entry::Occupied(entry) => {
                proof {
                    entry.lemma_entry_in_map();
                }
                Err(OccupiedError { entry, value })
            },
            Entry::Vacant(e) => Ok(e.insert(value)),
        }
    }

    /// The entry for the key `key` refers to: occupied if the key has a
    /// value, vacant otherwise, with room for one more key. Behaves as
    /// `entry` does.
    pub fn entry_ref<'a, 'b>(&'a mut self, key: &'b u64) -> (entry: EntryRef<'a, 'b>)
        requires
            old(self).wf(),
            2 * old(self).view().len() + 1 <= capacity_limit(),
        ensures
            final(self).spec_hasher() == old(self).spec_hasher(),
            match entry {
                EntryRef::Occupied(o) => {
                    &&& o.wf()
                    &&& o.hash_of@ == old(self).hash_of()
                    &&& o.key_spec() == *key
                    &&& o.map_view() == old(self).view()
                    &&& old(self).view().contains_key(*key)
                    &&& o.value_spec() == old(self).view()[*key]
                    &&& final(self).spec_table() == *final(o.inner.table)
                },
                EntryRef::Vacant(v) => {
                    &&& v.wf()
                    &&& v.hash_of@ == old(self).hash_of()
                    &&& *v.key == *key
                    &&& v.map_view() == old(self).view()
                    &&& !old(self).view().contains_key(*key)
                    &&& final(self).spec_table() == *final(v.inner.table)
                },
            },
    {
        match self.entry(*key) {
            Entry::Occupied(o) => EntryRef::Occupied(o),
            Entry::Vacant(v) => {
                let VacantEntry { key: _, inner, hash_of } = v;
                EntryRef::Vacant(VacantEntryRef { key, inner, hash_of })
            },
        }
    }

    /// Every key with its value.
    pub fn iter(&self) -> (pairs: Vec<Pair>)
        requires
            self.wf(),
        ensures
            is_listing(pairs@, self.view()),
            pairs@ == self.listing(),
    {
        let pairs = self.table.iter();
        proof {
            lemma_listing(self.table@, self.hash_of(), pairs@);
        }
        pairs
    }

    /// Lets `f` change the value of every key in place, once for each key;
    /// the keys stay as they are, and no element moves.
    pub fn iter_mut<F: Fn(&u64, &mut u64)>(&mut self, f: F)
        requires
            old(self).wf(),
            forall|k: u64, v: &mut u64| call_requires(f, (&k, v)),
        ensures
            final(self).wf(),
            final(self).spec_hasher() == old(self).spec_hasher(),
            final(self).view().dom() == old(self).view().dom(),
            forall|k: u64|
                #[trigger] old(self).view().contains_key(k) ==> exists|v: &mut u64|
                    *v == old(self).view()[k] && *final(v) == final(self).view()[k] && call_ensures(f, (&k, v), ()),
            final(self).spec_table().spec_capacity() == old(self).spec_table().spec_capacity(),
            final(self).spec_table().spec_allocation() == old(self).spec_table().spec_allocation(),
            final(self).spec_table().pending() == old(self).spec_table().pending(),
    {
        let fr = &f;
        let g = |e: &mut Pair|
            ensures
                final(e).0 == old(e).0,
                exists|v: &mut u64| *v == old(e).1 && *final(v) == final(e).1 && call_ensures(*fr, (&old(e).0, v), ()),
            {
                fr(&e.0, &mut e.1);
            };
        let ghost pre = *self;
        self.table.iter_mut(g);
        proof {
            let (before, after) = choose|before: Seq<Slot>, after: Seq<Slot>|
                {
                    &&& before.to_multiset() == pre.table@
                    &&& after.to_multiset() == self.table@
                    &&& before.len() == after.len()
                    &&& forall|i: int|
                        0 <= i < before.len() ==> #[trigger] after[i].0 == before[i].0 && exists|p: &mut Pair|
                            *p == before[i].1 && *final(p) == after[i].1 && call_ensures(g, (p,), ())
                };
            assert forall|i: int| #![trigger after[i]] 0 <= i < before.len() implies after[i].0 == before[i].0
                && after[i].1.0 == before[i].1.0 by {
                assert(after[i].0 == before[i].0);
            }
            lemma_changed_in_place(pre.table@, pre.hash_of(), before, after);
            assert forall|k: u64| #[trigger] pre.view().contains_key(k) implies exists|v: &mut u64|
                *v == pre.view()[k] && *final(v) == self.view()[k] && call_ensures(f, (&k, v), ()) by {
                let i = choose|i: int|
                    0 <= i < before.len() && before[i].1 == (k, pre.view()[k]) && after[i].1 == (k, self.view()[k]);
                assert(after[i].0 == before[i].0);
            }
        }
    }

    /// Lets `f` change every value in place, once for each key; the keys
    /// stay as they are, and no element moves.
    pub fn values_mut<F: Fn(&mut u64)>(&mut self, f: F)
        requires
            old(self).wf(),
            forall|v: &mut u64| call_requires(f, (v,)),
        ensures
            final(self).wf(),
            final(self).spec_hasher() == old(self).spec_hasher(),
            final(self).view().dom() == old(self).view().dom(),
            forall|k: u64|
                #[trigger] old(self).view().contains_key(k) ==> exists|v: &mut u64|
                    *v == old(self).view()[k] && *final(v) == final(self).view()[k] && call_ensures(f, (v,), ()),
            final(self).spec_table().spec_capacity() == old(self).spec_table().spec_capacity(),
            final(self).spec_table().spec_allocation() == old(self).spec_table().spec_allocation(),
            final(self).spec_table().pending() == old(self).spec_table().pending(),
    {
        let fr = &f;
        let g = |e: &mut Pair|
            ensures
                final(e).0 == old(e).0,
                exists|v: &mut u64| *v == old(e).1 && *final(v) == final(e).1 && call_ensures(*fr, (v,), ()),
            {
                fr(&mut e.1);
            };
        let ghost pre = *self;
        self.table.iter_mut(g);
        proof {
            let (before, after) = choose|before: Seq<Slot>, after: Seq<Slot>|
                {
                    &&& before.to_multiset() == pre.table@
                    &&& after.to_multiset() == self.table@
                    &&& before.len() == after.len()
                    &&& forall|i: int|
                        0 <= i < before.len() ==> #[trigger] after[i].0 == before[i].0 && exists|p: &mut Pair|
                            *p == before[i].1 && *final(p) == after[i].1 && call_ensures(g, (p,), ())
                };
            assert forall|i: int| #![trigger after[i]] 0 <= i < before.len() implies after[i].0 == before[i].0
                && after[i].1.0 == before[i].1.0 by {
                assert(after[i].0 == before[i].0);
            }
            lemma_changed_in_place(pre.table@, pre.hash_of(), before, after);
            assert forall|k: u64| #[trigger] pre.view().contains_key(k) implies exists|v: &mut u64|
                *v == pre.view()[k] && *final(v) == self.view()[k] && call_ensures(f, (v,), ()) by {
                let i = choose|i: int|
                    0 <= i < before.len() && before[i].1 == (k, pre.view()[k]) && after[i].1 == (k, self.view()[k]);
                assert(after[i].0 == before[i].0);
            }
        }
    }

    /// Every key.
    pub fn keys(&self) -> (keys: Vec<u64>)
        requires
            self.wf(),
        ensures
            exists|pairs: Seq<Pair>| is_listing(pairs, self.view()) && keys@ == pairs.map_values(|p: Pair| p.0),
            keys@ == self.listing().map_values(|p: Pair| p.0),
    {
        let pairs = self.iter();
        let mut keys: Vec<u64> = Vec::new();
        let mut i: usize = 0;
        while i < pairs.len()
            invariant
                i <= pairs.len(),
                keys@ == pairs@.take(i as int).map_values(|p: Pair| p.0),
            decreases pairs.len() - i,
        {
            keys.push(pairs[i].0);
            i = i + 1;
            proof {
                assert(pairs@.take(i as int).map_values(|p: Pair| p.0) =~= pairs@.take(i - 1).map_values(|p: Pair| p.0).push(pairs@[i - 1].0));
            }
        }
        proof {
            assert(pairs@.take(i as int) =~= pairs@);
        }
        keys
    }

    /// Every value, in the order of the keys.
    pub fn values(&self) -> (values: Vec<u64>)
        requires
            self.wf(),
        ensures
            exists|pairs: Seq<Pair>| is_listing(pairs, self.view()) && values@ == pairs.map_values(|p: Pair| p.1),
            values@ == self.listing().map_values(|p: Pair| p.1),
    {
        let pairs = self.iter();
        let mut values: Vec<u64> = Vec::new();
        let mut i: usize = 0;
        while i < pairs.len()
            invariant
                i <= pairs.len(),
                values@ == pairs@.take(i as int).map_values(|p: Pair| p.1),
            decreases pairs.len() - i,
        {
            values.push(pairs[i].1);
            i = i + 1;
            proof {
                assert(pairs@.take(i as int).map_values(|p: Pair| p.1) =~= pairs@.take(i - 1).map_values(|p: Pair| p.1).push(pairs@[i - 1].1));
            }
        }
        proof {
            assert(pairs@.take(i as int) =~= pairs@);
        }
        values
    }

    /// Removes every key and returns them with their values.
    pub fn drain(&mut self) -> (drained: Vec<Pair>)
        requires
            old(self).wf(),
        ensures
            final(self).wf(),
            final(self).spec_hasher() == old(self).spec_hasher(),
            final(self).view() =~= Map::empty(),
            is_listing(drained@, old(self).view()),
            drained@ == old(self).listing(),
            final(self).spec_table().pending() == 0,
            final(self).spec_table().spec_capacity() >= old(self).spec_table().spec_capacity(),
            final(self).spec_table().spec_allocation() <= old(self).spec_table().spec_allocation(),
    {
        let ghost pre = *self;
        let drained = self.table.drain();
        proof {
            lemma_listing(pre.table@, pre.hash_of(), drained@);
            lemma_map_of_len(self.table@, self.hash_of());
        }
        drained
    }

    /// Calls `f` once on every key and its value, which `f` may change in
    /// place, and keeps only the keys for which it returns `true`, with the
    /// values it left; the kept elements still waiting in the old table then
    /// move into the current one, and the old table is given up.
    pub fn retain<F: Fn(&u64, &mut u64) -> bool>(&mut self, f: F)
        requires
            old(self).wf(),
            forall|k: u64, v: &mut u64| call_requires(f, (&k, v)),
        ensures
            final(self).wf(),
            final(self).spec_hasher() == old(self).spec_hasher(),
            forall|k: u64| #[trigger] final(self).view().contains_key(k) ==> old(self).view().contains_key(k),
            forall|k: u64|
                #[trigger] old(self).view().contains_key(k) ==> exists|v: &mut u64|
                    *v == old(self).view()[k] && call_ensures(f, (&k, v), final(self).view().contains_key(k)) && (
                    final(self).view().contains_key(k) ==> final(self).view()[k] == *final(v)),
            final(self).spec_table().pending() == 0,
    {
        let fr = &f;
        let g = |e: &mut Pair| -> (keep: bool)
            ensures
                final(e).0 == old(e).0,
                exists|v: &mut u64| *v == old(e).1 && *final(v) == final(e).1 && call_ensures(*fr, (&old(e).0, v), keep),
            { fr(&e.0, &mut e.1) };
        let ghost pre = *self;
        proof {
            pre.table.lemma_view_is_placed();
        }
        self.table.retain(g);
        let ghost mid = *self;
        proof {
            let before = pre.table.placed();
            let kept = mid.table.placed();
            mid.table.lemma_view_is_placed();
            assert forall|q: hash_table::Place| #[trigger] kept.contains_key(q) implies kept[q].0 == before[q].0
                && kept[q].1.0 == before[q].1.0 by {
                assert(before.contains_key(q));
            }
            lemma_kept_in_place(before, pre.hash_of(), kept);
        }
        let hasher_ref = &self.hasher;
        let hasher = |e: &Pair| -> (h: u64)
            ensures
                h == hasher_ref.spec_hash_one(e.0),
            { hasher_ref.hash_one(&e.0) };
        self.table.settle(hasher);
        proof {
            let before = pre.table.placed();
            let kept = mid.table.placed();
            assert forall|k: u64| #[trigger] pre.view().contains_key(k) implies exists|v: &mut u64|
                *v == pre.view()[k] && call_ensures(f, (&k, v), self.view().contains_key(k)) && (
                self.view().contains_key(k) ==> self.view()[k] == *final(v)) by {
                let q = choose|q: hash_table::Place|
                    {
                        &&& before.contains_key(q)
                        &&& before[q].1 == (k, pre.view()[k])
                        &&& map_of(bag_of(kept)).contains_key(k) == kept.contains_key(q)
                        &&& kept.contains_key(q) ==> map_of(bag_of(kept))[k] == kept[q].1.1
                    };
                assert(before.contains_key(q));
            }
        }
    }

    /// Calls `f` once on every key and its value, which `f` may change in
    /// place, removes the keys for which it returns `true`, and returns them
    /// with the values `f` left; the other keys keep the values `f` left, and
    /// their elements stay where they were.
    pub fn extract_if<F: Fn(&u64, &mut u64) -> bool>(&mut self, f: F) -> (taken: Vec<Pair>)
        requires
            old(self).wf(),
            forall|k: u64, v: &mut u64| call_requires(f, (&k, v)),
        ensures
            final(self).wf(),
            final(self).spec_hasher() == old(self).spec_hasher(),
            forall|k: u64| #[trigger] final(self).view().contains_key(k) ==> old(self).view().contains_key(k),
            is_listing(taken@, pairs_map(taken@)),
            forall|k: u64|
                #[trigger] pairs_map(taken@).contains_key(k) <==> old(self).view().contains_key(k)
                    && !final(self).view().contains_key(k),
            forall|k: u64|
                #[trigger] old(self).view().contains_key(k) ==> exists|v: &mut u64|
                    *v == old(self).view()[k] && call_ensures(f, (&k, v), !final(self).view().contains_key(k)) && (
                    final(self).view().contains_key(k) ==> final(self).view()[k] == *final(v)) && (
                    !final(self).view().contains_key(k) ==> pairs_map(taken@)[k] == *final(v)),
    {
        let fr = &f;
        let g = |e: &mut Pair| -> (take: bool)
            ensures
                final(e).0 == old(e).0,
                exists|v: &mut u64| *v == old(e).1 && *final(v) == final(e).1 && call_ensures(*fr, (&old(e).0, v), take),
            { fr(&e.0, &mut e.1) };
        let ghost pre = *self;
        proof {
            pre.table.lemma_view_is_placed();
        }
        let taken = self.table.extract_if(g);
        proof {
            let before = pre.table.placed();
            let left = self.table.placed();
            self.table.lemma_view_is_placed();
            let after = choose|after: Map<hash_table::Place, Slot>|
                {
                    &&& after.dom() == before.dom()
                    &&& forall|q: hash_table::Place|
                        #![trigger after.contains_key(q)]
                        after.contains_key(q) ==> after[q].0 == before[q].0 && exists|p: &mut Pair|
                            {
                                &&& *p == before[q].1
                                &&& *final(p) == after[q].1
                                &&& call_ensures(g, (p,), !left.contains_key(q))
                            }
                    &&& forall|q: hash_table::Place|
                        #![trigger left.contains_key(q)]
                        left.contains_key(q) ==> left[q] == after[q]
                    &&& taken@.to_multiset() == strip(bag_of(after.remove_keys(left.dom())))
                };
            assert forall|q: hash_table::Place| #![trigger after.contains_key(q)] after.contains_key(q) implies after[q].1.0
                == before[q].1.0 by {
                let p = choose|p: &mut Pair|
                    {
                        &&& *p == before[q].1
                        &&& *final(p) == after[q].1
                        &&& call_ensures(g, (p,), !left.contains_key(q))
                    };
            }
            let removed = after.remove_keys(left.dom());
            assert forall|q: hash_table::Place| #[trigger] left.contains_key(q) implies left[q].0 == before[q].0
                && left[q].1.0 == before[q].1.0 by {
                assert(after.contains_key(q));
            }
            lemma_kept_in_place(before, pre.hash_of(), left);
            assert forall|q: hash_table::Place| #[trigger] removed.contains_key(q) implies removed[q].0 == before[q].0
                && removed[q].1.0 == before[q].1.0 by {
                assert(after.contains_key(q));
            }
            lemma_kept_in_place(before, pre.hash_of(), removed);
            lemma_listing(bag_of(removed), pre.hash_of(), taken@);
            lemma_pairs_map_of_listing(taken@, map_of(bag_of(removed)));
            assert forall|k: u64| #[trigger] pre.view().contains_key(k) implies exists|v: &mut u64|
                *v == pre.view()[k] && call_ensures(f, (&k, v), !self.view().contains_key(k)) && (
                self.view().contains_key(k) ==> self.view()[k] == *final(v)) && (!self.view().contains_key(k)
                ==> pairs_map(taken@)[k] == *final(v)) && (pairs_map(taken@).contains_key(k) == !self.view().contains_key(
                k)) by {
                let q = choose|q: hash_table::Place|
                    {
                        &&& before.contains_key(q)
                        &&& before[q].1 == (k, pre.view()[k])
                        &&& map_of(bag_of(left)).contains_key(k) == left.contains_key(q)
                        &&& left.contains_key(q) ==> map_of(bag_of(left))[k] == left[q].1.1
                    };
                let q2 = choose|q: hash_table::Place|
                    {
                        &&& before.contains_key(q)
                        &&& before[q].1 == (k, pre.view()[k])
                        &&& map_of(bag_of(removed)).contains_key(k) == removed.contains_key(q)
                        &&& removed.contains_key(q) ==> map_of(bag_of(removed))[k] == removed[q].1.1
                    };
                assert(q == q2);
                assert(after.contains_key(q));
            }
            assert forall|k: u64| #[trigger] pairs_map(taken@).contains_key(k) implies pre.view().contains_key(k) by {
                assert(map_of(bag_of(removed)).contains_key(k));
            }
        }
        taken
    }

    /// Shrinks the allocation as far as hashbrown's resize policy allows;
    /// every old entry moves at once. The allocation never grows, and an
    /// empty map gives it up.
    pub fn shrink_to_fit(&mut self)
        requires
            old(self).wf(),
        ensures
            final(self).wf(),
            final(self).spec_hasher() == old(self).spec_hasher(),
            final(self).view() == old(self).view(),
            final(self).spec_table()@ == old(self).spec_table()@,
            final(self).spec_table().pending() == 0,
            final(self).spec_table().spec_allocation() <= old(self).spec_table().spec_allocation(),
            final(self).view().len() == 0 ==> final(self).spec_table().spec_capacity() == 0
                && final(self).spec_table().spec_allocation() == 0,
            final(self).spec_table().spec_capacity() <= spec_max(14, 2 * final(self).view().len() as int),
    {
        proof {
            self.lemma_len();
        }
        let hasher_ref = &self.hasher;
        let hasher = |e: &Pair| -> (h: u64)
            ensures
                h == hasher_ref.spec_hash_one(e.0),
            { hasher_ref.hash_one(&e.0) };
        self.table.shrink_to_fit(hasher);
        proof {
            self.lemma_len();
        }
    }

    /// Adds each pair of `pairs`, in turn, as `insert` does: the map holds
    /// its own keys and those of the pairs, each pair's key with the value of
    /// its last pair.
    pub fn extend(&mut self, pairs: Vec<Pair>)
        requires
            old(self).wf(),
            2 * (old(self).view().len() + pairs.len()) + 1 <= capacity_limit(),
        ensures
            final(self).wf(),
            final(self).spec_hasher() == old(self).spec_hasher(),
            final(self).view() == old(self).view().union_prefer_right(pairs_map(pairs@)),
    {
        let mut i: usize = 0;
        proof {
            self.lemma_len();
            assert(pairs@.take(0) =~= Seq::<Pair>::empty());
            assert(old(self).view().union_prefer_right(pairs_map(pairs@.take(0))) =~= old(self).view());
        }
        while i < pairs.len()
            invariant
                i <= pairs.len(),
                self.wf(),
                self.spec_hasher() == old(self).spec_hasher(),
                self.view() == old(self).view().union_prefer_right(pairs_map(pairs@.take(i as int))),
                self.view().len() <= old(self).view().len() + i,
                2 * (old(self).view().len() + pairs.len()) + 1 <= capacity_limit(),
                old(self).view().dom().finite(),
            decreases pairs.len() - i,
        {
            let (k, v) = pairs[i];
            let ghost before = *self;
            proof {
                self.lemma_len();
            }
            self.insert(k, v);
            i = i + 1;
            proof {
                assert(pairs@.take(i as int).drop_last() =~= pairs@.take(i - 1));
                assert(self.view() =~= old(self).view().union_prefer_right(pairs_map(pairs@.take(i as int))));
                before.lemma_len();
                self.lemma_len();
            }
        }
        proof {
            assert(pairs@.take(i as int) =~= pairs@);
        }
    }
}

/// The entry of a key that has a value, in a borrowed map.
pub struct OccupiedEntry<'a> {
    pub inner: hash_table::OccupiedEntry<'a>,
    pub hash_of: Ghost<spec_fn(u64) -> u64>,
}

/// The place for a key that has no value, in a borrowed map.
pub struct VacantEntry<'a> {
    pub key: u64,
    pub inner: hash_table::VacantEntry<'a>,
    pub hash_of: Ghost<spec_fn(u64) -> u64>,
}

/// The result of `IncHashMap::entry`.
pub enum Entry<'a> {
    Occupied(OccupiedEntry<'a>),
    Vacant(VacantEntry<'a>),
}

impl<'a> OccupiedEntry<'a> {
    /// The table is well formed, holds the entry, and keeps the map's
    /// invariant.
    pub open spec fn wf(&self) -> bool {
        &&& self.inner.wf()
        &&& entries_ok((*self.inner.table)@, self.hash_of@)
        &&& self.inner.hash == (self.hash_of@)(self.key_spec())
    }

    /// The entry's key.
    pub open spec fn key_spec(&self) -> u64 {
        self.inner.slot().1.0
    }

    /// The entry's value.
    pub open spec fn value_spec(&self) -> u64 {
        self.inner.slot().1.1
    }

    /// The map the borrowed table describes.
    pub open spec fn map_view(&self) -> Map<u64, u64> {
        map_of((*self.inner.table)@)
    }

    /// The key has the entry's value in the map.
    pub proof fn lemma_entry_in_map(&self)
        requires
            self.wf(),
        ensures
            self.map_view().contains_key(self.key_spec()),
            self.map_view()[self.key_spec()] == self.value_spec(),
    {
        self.inner.lemma_slot_in_table();
        lemma_map_of_entry((*self.inner.table)@, self.hash_of@, self.inner.slot());
    }

    /// The key.
    pub fn key(&self) -> (key: &u64)
        requires
            self.wf(),
        ensures
            *key == self.key_spec(),
    {
        &self.inner.get().0
    }

    /// The value.
    pub fn get(&self) -> (value: &u64)
        requires
            self.wf(),
        ensures
            *value == self.value_spec(),
    {
        &self.inner.get().1
    }

    /// The value, to be changed in place while the entry is borrowed.
    pub fn get_mut(&mut self) -> (value: &mut u64)
        requires
            old(self).wf(),
        ensures
            *value == old(self).value_spec(),
            final(self).wf(),
            final(self).key_spec() == old(self).key_spec(),
            final(self).value_spec() == *final(value),
            final(self).hash_of == old(self).hash_of,
            final(self).map_view() == old(self).map_view().insert(old(self).key_spec(), *final(value)),
            *final(final(self).inner.table) == *final(old(self).inner.table),
    {
        let ghost slot = self.inner.slot();
        let ghost entries = (*self.inner.table)@;
        let ghost hash_of = self.hash_of@;
        proof {
            self.inner.lemma_slot_in_table();
            assert forall|p: Pair| p.0 == slot.1.0 implies #[trigger] entries_ok(entries.remove(slot).insert((slot.0, p)), hash_of) by {
                lemma_map_of_replace(entries, hash_of, slot, p.1);
                assert((slot.0, p) == (slot.0, (slot.1.0, p.1)));
            }
            assert forall|p: Pair| p.0 == slot.1.0 implies #[trigger] map_of(entries.remove(slot).insert((slot.0, p)))
                == map_of(entries).insert(slot.1.0, p.1) by {
                lemma_map_of_replace(entries, hash_of, slot, p.1);
                assert((slot.0, p) == (slot.0, (slot.1.0, p.1)));
            }
        }
        let pair = self.inner.get_mut();
        &mut pair.1
    }

    /// Replaces the value and returns the one it replaced.
    pub fn insert(&mut self, value: u64) -> (replaced: u64)
        requires
            old(self).wf(),
        ensures
            replaced == old(self).value_spec(),
            final(self).wf(),
            final(self).key_spec() == old(self).key_spec(),
            final(self).value_spec() == value,
            final(self).hash_of == old(self).hash_of,
            final(self).map_view() == old(self).map_view().insert(old(self).key_spec(), value),
            *final(final(self).inner.table) == *final(old(self).inner.table),
    {
        let v = self.get_mut();
        let replaced = *v;
        *v = value;
        replaced
    }

    /// The value, to be changed in place until the map's borrow ends.
    pub fn into_mut(self) -> (value: &'a mut u64)
        requires
            self.wf(),
        ensures
            *value == self.value_spec(),
            (*final(self.inner.table)).wf(),
            entries_ok((*final(self.inner.table))@, self.hash_of@),
            map_of((*final(self.inner.table))@) == self.map_view().insert(self.key_spec(), *final(value)),
    {
        let ghost slot = self.inner.slot();
        let ghost entries = (*self.inner.table)@;
        let ghost hash_of = self.hash_of@;
        proof {
            self.inner.lemma_slot_in_table();
            assert forall|p: Pair| p.0 == slot.1.0 implies #[trigger] entries_ok(entries.remove(slot).insert((slot.0, p)), hash_of) by {
                lemma_map_of_replace(entries, hash_of, slot, p.1);
                assert((slot.0, p) == (slot.0, (slot.1.0, p.1)));
            }
            assert forall|p: Pair| p.0 == slot.1.0 implies #[trigger] map_of(entries.remove(slot).insert((slot.0, p)))
                == map_of(entries).insert(slot.1.0, p.1) by {
                lemma_map_of_replace(entries, hash_of, slot, p.1);
                assert((slot.0, p) == (slot.0, (slot.1.0, p.1)));
            }
        }
        let pair = self.inner.into_mut();
        &mut pair.1
    }

    /// Takes the entry out of the map and returns its key and value.
    pub fn remove_entry(self) -> (removed: (u64, u64))
        requires
            self.wf(),
        ensures
            removed == (self.key_spec(), self.value_spec()),
            (*final(self.inner.table)).wf(),
            entries_ok((*final(self.inner.table))@, self.hash_of@),
            map_of((*final(self.inner.table))@) == self.map_view().remove(self.key_spec()),
    {
        proof {
            self.inner.lemma_slot_in_table();
            lemma_map_of_remove((*self.inner.table)@, self.hash_of@, self.inner.slot());
        }
        let (pair, _vacant) = self.inner.remove();
        pair
    }

    /// Takes the entry out of the map and returns its value.
    pub fn remove(self) -> (removed: u64)
        requires
            self.wf(),
        ensures
            removed == self.value_spec(),
            (*final(self.inner.table)).wf(),
            entries_ok((*final(self.inner.table))@, self.hash_of@),
            map_of((*final(self.inner.table))@) == self.map_view().remove(self.key_spec()),
    {
        self.remove_entry().1
    }
}

impl<'a> VacantEntry<'a> {
    /// The table is well formed with room for one more entry, keeps the
    /// map's invariant, and the entry's hash is that of its key.
    pub open spec fn wf(&self) -> bool {
        &&& self.inner.wf()
        &&& entries_ok((*self.inner.table)@, self.hash_of@)
        &&& self.inner.hash == (self.hash_of@)(self.key)
    }

    /// The map the borrowed table describes.
    pub open spec fn map_view(&self) -> Map<u64, u64> {
        map_of((*self.inner.table)@)
    }

    /// The key.
    pub fn key(&self) -> (key: &u64)
        ensures
            *key == self.key,
    {
        &self.key
    }

    /// Gives up the entry and returns its key; the map stays as it was.
    pub fn into_key(self) -> (key: u64)
        ensures
            key == self.key,
            *final(self.inner.table) == *old(self.inner.table),
    {
        self.key
    }

    /// Adds the key with `value` and returns its entry. The key must not
    /// have a value yet for the map's invariant to hold afterwards.
    pub fn insert_entry(self, value: u64) -> (entry: OccupiedEntry<'a>)
        requires
            self.wf(),
        ensures
            entry.inner.wf(),
            entry.inner.hash == (self.hash_of@)(self.key),
            entry.hash_of == self.hash_of,
            entry.key_spec() == self.key,
            entry.value_spec() == value,
            (*entry.inner.table)@ == (*old(self.inner.table))@.insert(((self.hash_of@)(self.key), (self.key, value))),
            !self.map_view().contains_key(self.key) ==> entry.wf() && entry.map_view() == self.map_view().insert(
                self.key,
                value,
            ),
            *final(self.inner.table) == *final(entry.inner.table),
    {
        proof {
            if !self.map_view().contains_key(self.key) {
                lemma_map_of_insert((*self.inner.table)@, self.hash_of@, self.key, value);
            }
        }
        let inner = self.inner.insert((self.key, value));
        OccupiedEntry { inner, hash_of: self.hash_of }
    }

    /// Adds the key with `value` and returns the value, to be changed in
    /// place until the map's borrow ends.
    pub fn insert(self, value: u64) -> (inserted: &'a mut u64)
        requires
            self.wf(),
        ensures
            *inserted == value,
            (*final(self.inner.table)).wf(),
            (*final(self.inner.table))@ == (*old(self.inner.table))@.insert(
                ((self.hash_of@)(self.key), (self.key, *final(inserted))),
            ),
            !self.map_view().contains_key(self.key) ==> entries_ok((*final(self.inner.table))@, self.hash_of@)
                && map_of((*final(self.inner.table))@) == self.map_view().insert(self.key, *final(inserted)),
    {
        let ghost entries = (*self.inner.table)@;
        let ghost hash_of = self.hash_of@;
        let ghost key = self.key;
        let ghost e0 = (hash_of(key), (key, value));
        proof {
            assert forall|p: Pair| p.0 == key implies #[trigger] entries.insert(e0).remove(e0).insert((e0.0, p))
                == entries.insert((hash_of(key), (key, p.1))) by {
                assert(entries.insert(e0).remove(e0).insert((e0.0, p)) =~= entries.insert((hash_of(key), (key, p.1))));
            }
            if !self.map_view().contains_key(self.key) {
                assert forall|p: Pair| p.0 == key implies #[trigger] map_of(entries.insert(e0).remove(e0).insert((e0.0, p)))
                    == map_of(entries).insert(key, p.1) by {
                    assert(entries.insert(e0).remove(e0).insert((e0.0, p)) =~= entries.insert((hash_of(key), (key, p.1))));
                    lemma_map_of_insert(entries, hash_of, key, p.1);
                }
                assert forall|p: Pair| p.0 == key implies #[trigger] entries_ok(entries.insert(e0).remove(e0).insert((e0.0, p)), hash_of) by {
                    assert(entries.insert(e0).remove(e0).insert((e0.0, p)) =~= entries.insert((hash_of(key), (key, p.1))));
                    lemma_map_of_insert(entries, hash_of, key, p.1);
                }
            }
        }
        let inner = self.inner.insert((self.key, value));
        let pair = inner.into_mut();
        &mut pair.1
    }
}

impl<'a> Entry<'a> {
    /// The borrowed table.
    pub open spec fn table(self) -> &'a mut IncHashTable {
        match self {
            Entry::Occupied(o) => o.inner.table,
            Entry::Vacant(v) => v.inner.table,
        }
    }

    /// The entry is well formed.
    pub open spec fn wf(&self) -> bool {
        match self {
            Entry::Occupied(o) => o.wf(),
            Entry::Vacant(v) => v.wf(),
        }
    }

    /// The entry's key.
    pub open spec fn key_spec(&self) -> u64 {
        match self {
            Entry::Occupied(o) => o.key_spec(),
            Entry::Vacant(v) => v.key,
        }
    }

    /// The map the borrowed table describes.
    pub open spec fn map_view(&self) -> Map<u64, u64> {
        map_of((*self.table())@)
    }

    /// The entry agrees with the map: an occupied entry's key has its value,
    /// a vacant entry's key has none.
    pub open spec fn agrees(&self) -> bool {
        match self {
            Entry::Occupied(o) => true,
            Entry::Vacant(v) => !v.map_view().contains_key(v.key),
        }
    }

    /// The key.
    pub fn key(&self) -> (key: &u64)
        requires
            self.wf(),
        ensures
            *key == self.key_spec(),
    {
        match self {
            Entry::Occupied(o) => o.key(),
            Entry::Vacant(v) => v.key(),
        }
    }

    /// The value of the key, inserting `default` if the entry is vacant; to
    /// be changed in place until the map's borrow ends.
    pub fn or_insert(self, default: u64) -> (value: &'a mut u64)
        requires
            self.wf(),
            self.agrees(),
        ensures
            *value == (match self {
                Entry::Occupied(o) => o.value_spec(),
                Entry::Vacant(_) => default,
            }),
            (*final(self.table())).wf(),
            entries_ok((*final(self.table()))@, self.hash_of()),
            map_of((*final(self.table()))@) == self.map_view().insert(self.key_spec(), *final(value)),
    {
        match self {
            Entry::Occupied(o) => o.into_mut(),
            Entry::Vacant(v) => v.insert(default),
        }
    }

    /// Sets the key's value to `value` and returns its entry.
    pub fn insert(self, value: u64) -> (entry: OccupiedEntry<'a>)
        requires
            self.wf(),
            self.agrees(),
        ensures
            entry.wf(),
            entry.hash_of@ == self.hash_of(),
            entry.key_spec() == self.key_spec(),
            entry.value_spec() == value,
            entry.map_view() == self.map_view().insert(self.key_spec(), value),
            *final(self.table()) == *final(entry.inner.table),
    {
        match self {
            Entry::Occupied(mut o) => {
                o.insert(value);
                o
            },
            Entry::Vacant(v) => v.insert_entry(value),
        }
    }

    /// The value of the key, inserting what `default` returns if the entry
    /// is vacant (only then is it called); to be changed in place until the
    /// map's borrow ends.
    pub fn or_insert_with<D: FnOnce() -> u64>(self, default: D) -> (value: &'a mut u64)
        requires
            self.wf(),
            self.agrees(),
            self is Vacant ==> call_requires(default, ()),
        ensures
            self is Occupied ==> *value == self->Occupied_0.value_spec(),
            self is Vacant ==> call_ensures(default, (), *value),
            (*final(self.table())).wf(),
            entries_ok((*final(self.table()))@, self.hash_of()),
            map_of((*final(self.table()))@) == self.map_view().insert(self.key_spec(), *final(value)),
    {
        match self {
            Entry::Occupied(o) => o.into_mut(),
            Entry::Vacant(v) => v.insert(default()),
        }
    }

    /// The value of the key, inserting what `default` returns for the key if
    /// the entry is vacant (only then is it called); to be changed in place
    /// until the map's borrow ends.
    pub fn or_insert_with_key<D: FnOnce(&u64) -> u64>(self, default: D) -> (value: &'a mut u64)
        requires
            self.wf(),
            self.agrees(),
            self is Vacant ==> call_requires(default, (&self.key_spec(),)),
        ensures
            self is Occupied ==> *value == self->Occupied_0.value_spec(),
            self is Vacant ==> call_ensures(default, (&self.key_spec(),), *value),
            (*final(self.table())).wf(),
            entries_ok((*final(self.table()))@, self.hash_of()),
            map_of((*final(self.table()))@) == self.map_view().insert(self.key_spec(), *final(value)),
    {
        match self {
            Entry::Occupied(o) => o.into_mut(),
            Entry::Vacant(v) => {
                let value = default(v.key());
                v.insert(value)
            },
        }
    }

    /// The value of the key, inserting 0 if the entry is vacant; to be
    /// changed in place until the map's borrow ends.
    pub fn or_default(self) -> (value: &'a mut u64)
        requires
            self.wf(),
            self.agrees(),
        ensures
            *value == (match self {
                Entry::Occupied(o) => o.value_spec(),
                Entry::Vacant(_) => 0,
            }),
            (*final(self.table())).wf(),
            entries_ok((*final(self.table()))@, self.hash_of()),
            map_of((*final(self.table()))@) == self.map_view().insert(self.key_spec(), *final(value)),
    {
        let default = || -> (zero: u64)
            ensures
                zero == 0,
            { 0 };
        self.or_insert_with(default)
    }

    /// For an occupied entry, replaces the value with what `f` returns for
    /// the key and value, or takes the entry out of the map if `f` returns
    /// `None`. A vacant entry stays as it is.
    pub fn and_replace_entry_with<F: FnOnce(&u64, u64) -> Option<u64>>(self, f: F) -> (entry: Self)
        requires
            self.wf(),
            self is Occupied ==> call_requires(f, (&self.key_spec(), self->Occupied_0.value_spec())),
        ensures
            entry.key_spec() == self.key_spec(),
            entry.hash_of() == self.hash_of(),
            *final(self.table()) == *final(entry.table()),
            self is Vacant ==> entry == self,
            self is Occupied ==> {
                ||| exists|v: u64| {
                    &&& call_ensures(f, (&self.key_spec(), self->Occupied_0.value_spec()), Some(v))
                    &&& entry is Occupied
                    &&& entry.wf()
                    &&& entry->Occupied_0.value_spec() == v
                    &&& entry.map_view() == self.map_view().insert(self.key_spec(), v)
                }
                ||| {
                    &&& call_ensures(f, (&self.key_spec(), self->Occupied_0.value_spec()), None)
                    &&& entry is Vacant
                    &&& entry.agrees()
                    &&& (*entry.table()).wf()
                    &&& entries_ok((*entry.table())@, entry.hash_of())
                    &&& entry->Vacant_0.inner.hash == (entry.hash_of())(entry.key_spec())
                    &&& entry.map_view() == self.map_view().remove(self.key_spec())
                    &&& (*old(self->Occupied_0.inner.table)).can_insert() ==> entry.wf()
                }
            },
    {
        match self {
            Entry::Occupied(mut o) => {
                let key = *o.key();
                let value = *o.get();
                match f(&key, value) {
                    Some(new_value) => {
                        o.insert(new_value);
                        let entry = Entry::Occupied(o);
                        proof {
                            assert(call_ensures(f, (&key, value), Some(new_value)));
                            assert(entry->Occupied_0.value_spec() == new_value);
                            assert(entry.wf());
                            assert(entry.map_view() == self.map_view().insert(self.key_spec(), new_value));
                        }
                        entry
                    },
                    None => {
                        let ghost hash_of = o.hash_of@;
                        proof {
                            o.inner.lemma_slot_in_table();
                            lemma_map_of_remove((*o.inner.table)@, hash_of, o.inner.slot());
                        }
                        let OccupiedEntry { inner, hash_of } = o;
                        let (_pair, vacant) = inner.remove();
                        Entry::Vacant(VacantEntry { key, inner: vacant, hash_of })
                    },
                }
            },
            Entry::Vacant(v) => Entry::Vacant(v),
        }
    }

    /// Changes the value of an occupied entry with `f`; a vacant entry stays
    /// as it is.
    pub fn and_modify<M: FnOnce(&mut u64)>(self, f: M) -> (entry: Self)
        requires
            self.wf(),
            forall|x: &mut u64| call_requires(f, (x,)),
        ensures
            entry.wf(),
            self is Occupied ==> entry is Occupied && entry.map_view() == self.map_view().insert(
                self.key_spec(),
                entry->Occupied_0.value_spec(),
            ) && exists|x: &mut u64| *x == self->Occupied_0.value_spec() && *final(x) == entry->Occupied_0.value_spec()
                && call_ensures(f, (x,), ()),
            entry.key_spec() == self.key_spec(),
            entry.hash_of() == self.hash_of(),
            *final(self.table()) == *final(entry.table()),
            self is Vacant ==> entry == self,
    {
        match self {
            Entry::Occupied(mut o) => {
                f(o.get_mut());
                Entry::Occupied(o)
            },
            Entry::Vacant(v) => Entry::Vacant(v),
        }
    }

    /// The hasher the entry carries.
    pub open spec fn hash_of(&self) -> spec_fn(u64) -> u64 {
        match self {
            Entry::Occupied(o) => o.hash_of@,
            Entry::Vacant(v) => v.hash_of@,
        }
    }
}

/// The error `try_insert` returns when the key has a value: the key's
/// entry, and the value that was not inserted.
pub struct OccupiedError<'a> {
    pub entry: OccupiedEntry<'a>,
    pub value: u64,
}

/// The place for a key, given by reference, that has no value, in a
/// borrowed map.
pub struct VacantEntryRef<'a, 'b> {
    pub key: &'b u64,
    pub inner: hash_table::VacantEntry<'a>,
    pub hash_of: Ghost<spec_fn(u64) -> u64>,
}

/// The result of `IncHashMap::entry_ref`.
pub enum EntryRef<'a, 'b> {
    Occupied(OccupiedEntry<'a>),
    Vacant(VacantEntryRef<'a, 'b>),
}

impl<'a, 'b> VacantEntryRef<'a, 'b> {
    /// The table is well formed with room for one more entry, keeps the
    /// map's invariant, and the entry's hash is that of its key.
    pub open spec fn wf(&self) -> bool {
        &&& self.inner.wf()
        &&& entries_ok((*self.inner.table)@, self.hash_of@)
        &&& self.inner.hash == (self.hash_of@)(*self.key)
    }

    /// The map the borrowed table describes.
    pub open spec fn map_view(&self) -> Map<u64, u64> {
        map_of((*self.inner.table)@)
    }

    /// The key.
    pub fn key(&self) -> (key: &'b u64)
        ensures
            *key == *self.key,
    {
        self.key
    }

    /// Adds the key, made from the reference, with `value` and returns its
    /// entry. The key must not have a value yet for the map's invariant to
    /// hold afterwards.
    pub fn insert_entry(self, value: u64) -> (entry: OccupiedEntry<'a>)
        requires
            self.wf(),
        ensures
            entry.inner.wf(),
            entry.inner.hash == (self.hash_of@)(*self.key),
            entry.hash_of == self.hash_of,
            entry.key_spec() == *self.key,
            entry.value_spec() == value,
            (*entry.inner.table)@ == (*old(self.inner.table))@.insert(((self.hash_of@)(*self.key), (*self.key, value))),
            !self.map_view().contains_key(*self.key) ==> entry.wf() && entry.map_view() == self.map_view().insert(
                *self.key,
                value,
            ),
            *final(self.inner.table) == *final(entry.inner.table),
    {
        let key: u64 = *self.key;
        let vacant = VacantEntry { key, inner: self.inner, hash_of: self.hash_of };
        vacant.insert_entry(value)
    }

    /// Adds the key, made from the reference, with `value` and returns the
    /// value, to be changed in place until the map's borrow ends.
    pub fn insert(self, value: u64) -> (inserted: &'a mut u64)
        requires
            self.wf(),
        ensures
            *inserted == value,
            (*final(self.inner.table)).wf(),
            (*final(self.inner.table))@ == (*old(self.inner.table))@.insert(
                ((self.hash_of@)(*self.key), (*self.key, *final(inserted))),
            ),
            !self.map_view().contains_key(*self.key) ==> entries_ok((*final(self.inner.table))@, self.hash_of@)
                && map_of((*final(self.inner.table))@) == self.map_view().insert(*self.key, *final(inserted)),
    {
        let key: u64 = *self.key;
        let vacant = VacantEntry { key, inner: self.inner, hash_of: self.hash_of };
        vacant.insert(value)
    }
}

impl<'a, 'b> EntryRef<'a, 'b> {
    /// The borrowed table.
    pub open spec fn table(self) -> &'a mut IncHashTable {
        match self {
            EntryRef::Occupied(o) => o.inner.table,
            EntryRef::Vacant(v) => v.inner.table,
        }
    }

    /// The entry is well formed.
    pub open spec fn wf(&self) -> bool {
        match self {
            EntryRef::Occupied(o) => o.wf(),
            EntryRef::Vacant(v) => v.wf(),
        }
    }

    /// The entry's key.
    pub open spec fn key_spec(&self) -> u64 {
        match self {
            EntryRef::Occupied(o) => o.key_spec(),
            EntryRef::Vacant(v) => *v.key,
        }
    }

    /// The hasher the entry carries.
    pub open spec fn hash_of(&self) -> spec_fn(u64) -> u64 {
        match self {
            EntryRef::Occupied(o) => o.hash_of@,
            EntryRef::Vacant(v) => v.hash_of@,
        }
    }

    /// The map the borrowed table describes.
    pub open spec fn map_view(&self) -> Map<u64, u64> {
        map_of((*self.table())@)
    }

    /// The entry agrees with the map: an occupied entry's key has its value,
    /// a vacant entry's key has none.
    pub open spec fn agrees(&self) -> bool {
        match self {
            EntryRef::Occupied(o) => true,
            EntryRef::Vacant(v) => !v.map_view().contains_key(*v.key),
        }
    }

    /// The entry as one for an owned key.
    fn into_entry(self) -> (entry: Entry<'a>)
        ensures
            entry.table() == self.table(),
            entry.wf() == self.wf(),
            entry.key_spec() == self.key_spec(),
            entry.hash_of() == self.hash_of(),
            entry.agrees() == self.agrees(),
            self is Occupied <==> entry is Occupied,
            self is Occupied ==> entry->Occupied_0 == self->Occupied_0,
    {
        match self {
            EntryRef::Occupied(o) => Entry::Occupied(o),
            EntryRef::Vacant(v) => {
                let key: u64 = *v.key;
                Entry::Vacant(VacantEntry { key, inner: v.inner, hash_of: v.hash_of })
            },
        }
    }

    /// The key.
    pub fn key(&self) -> (key: &u64)
        requires
            self.wf(),
        ensures
            *key == self.key_spec(),
    {
        match self {
            EntryRef::Occupied(o) => o.key(),
            EntryRef::Vacant(v) => v.key(),
        }
    }

    /// Sets the key's value to `value` and returns its entry.
    pub fn insert(self, value: u64) -> (entry: OccupiedEntry<'a>)
        requires
            self.wf(),
            self.agrees(),
        ensures
            entry.wf(),
            entry.hash_of@ == self.hash_of(),
            entry.key_spec() == self.key_spec(),
            entry.value_spec() == value,
            entry.map_view() == self.map_view().insert(self.key_spec(), value),
            *final(self.table()) == *final(entry.inner.table),
    {
        self.into_entry().insert(value)
    }

    /// The value of the key, inserting `default` if the entry is vacant; to
    /// be changed in place until the map's borrow ends.
    pub fn or_insert(self, default: u64) -> (value: &'a mut u64)
        requires
            self.wf(),
            self.agrees(),
        ensures
            self is Occupied ==> *value == self->Occupied_0.value_spec(),
            self is Vacant ==> *value == default,
            (*final(self.table())).wf(),
            entries_ok((*final(self.table()))@, self.hash_of()),
            map_of((*final(self.table()))@) == self.map_view().insert(self.key_spec(), *final(value)),
    {
        self.into_entry().or_insert(default)
    }

    /// The value of the key, inserting what `default` returns if the entry
    /// is vacant (only then is it called).
    pub fn or_insert_with<D: FnOnce() -> u64>(self, default: D) -> (value: &'a mut u64)
        requires
            self.wf(),
            self.agrees(),
            self is Vacant ==> call_requires(default, ()),
        ensures
            self is Occupied ==> *value == self->Occupied_0.value_spec(),
            self is Vacant ==> call_ensures(default, (), *value),
            (*final(self.table())).wf(),
            entries_ok((*final(self.table()))@, self.hash_of()),
            map_of((*final(self.table()))@) == self.map_view().insert(self.key_spec(), *final(value)),
    {
        self.into_entry().or_insert_with(default)
    }

    /// The value of the key, inserting what `default` returns for the key if
    /// the entry is vacant (only then is it called).
    pub fn or_insert_with_key<D: FnOnce(&u64) -> u64>(self, default: D) -> (value: &'a mut u64)
        requires
            self.wf(),
            self.agrees(),
            self is Vacant ==> call_requires(default, (&self.key_spec(),)),
        ensures
            self is Occupied ==> *value == self->Occupied_0.value_spec(),
            self is Vacant ==> call_ensures(default, (&self.key_spec(),), *value),
            (*final(self.table())).wf(),
            entries_ok((*final(self.table()))@, self.hash_of()),
            map_of((*final(self.table()))@) == self.map_view().insert(self.key_spec(), *final(value)),
    {
        self.into_entry().or_insert_with_key(default)
    }

    /// Changes the value of an occupied entry with `f`; a vacant entry stays
    /// as it is.
    pub fn and_modify<M: FnOnce(&mut u64)>(self, f: M) -> (entry: Self)
        requires
            self.wf(),
            forall|x: &mut u64| call_requires(f, (x,)),
        ensures
            entry.wf(),
            entry.key_spec() == self.key_spec(),
            entry.hash_of() == self.hash_of(),
            *final(self.table()) == *final(entry.table()),
            self is Vacant ==> entry == self,
            self is Occupied ==> entry is Occupied && entry.map_view() == self.map_view().insert(
                self.key_spec(),
                entry->Occupied_0.value_spec(),
            ) && exists|x: &mut u64| *x == self->Occupied_0.value_spec() && *final(x) == entry->Occupied_0.value_spec()
                && call_ensures(f, (x,), ()),
    {
        match self {
            EntryRef::Occupied(mut o) => {
                f(o.get_mut());
                EntryRef::Occupied(o)
            },
            EntryRef::Vacant(v) => EntryRef::Vacant(v),
        }
    }

    /// The value of the key, inserting 0 if the entry is vacant.
    pub fn or_default(self) -> (value: &'a mut u64)
        requires
            self.wf(),
            self.agrees(),
        ensures
            self is Occupied ==> *value == self->Occupied_0.value_spec(),
            self is Vacant ==> *value == 0,
            (*final(self.table())).wf(),
            entries_ok((*final(self.table()))@, self.hash_of()),
            map_of((*final(self.table()))@) == self.map_view().insert(self.key_spec(), *final(value)),
    {
        self.into_entry().or_default()
    }
}

} // verus!
