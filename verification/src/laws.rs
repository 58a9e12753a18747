//! Properties that relate the operations of the map and of the table.
use vstd::prelude::*;
use crate::hash_map::{IncHashMap, BuildKeyHasher, Entry};
use crate::hash_table::{IncHashTable, Place};
use crate::pair_table::{Pair, Slot};

verus! {

broadcast use vstd::multiset::group_multiset_axioms, vstd::set::group_set_axioms, vstd::set_lib::group_set_lib_default;

/// Read after write: after `insert(key, value)`, `get(key)` gives `value`,
/// every other key reads as before, the number of keys grows by one exactly
/// when `key` was new, and `insert` returned the value `key` had before.
pub proof fn law_read_after_write<S: BuildKeyHasher>(
    before: IncHashMap<S>,
    after: IncHashMap<S>,
    key: u64,
    value: u64,
    replaced: Option<u64>,
)
    requires
        before.wf(),
        IncHashMap::insert_post(before, after, key, value, replaced),
    ensures
        after.wf(),
        after.view().contains_key(key),
        after.view()[key] == value,
        forall|k: u64|
            k != key ==> (#[trigger] after.view().contains_key(k) == before.view().contains_key(k)) && (
            before.view().contains_key(k) ==> after.view()[k] == before.view()[k]),
        after.view().len() == before.view().len() + if before.view().contains_key(key) { 0int } else { 1int },
        replaced == if before.view().contains_key(key) { Some(before.view()[key]) } else { None },
{
    before.lemma_len();
}

/// Writing the same value twice: the second `insert(key, value)` returns
/// `value` and leaves the map as the first one left it.
pub proof fn law_insert_twice<S: BuildKeyHasher>(
    before: IncHashMap<S>,
    middle: IncHashMap<S>,
    after: IncHashMap<S>,
    key: u64,
    value: u64,
    first: Option<u64>,
    second: Option<u64>,
)
    requires
        before.wf(),
        IncHashMap::insert_post(before, middle, key, value, first),
        IncHashMap::insert_post(middle, after, key, value, second),
    ensures
        second == Some(value),
        after.view() == middle.view(),
{
    assert(after.view() =~= middle.view());
}

/// Read after remove: after `remove(key)`, `get(key)` gives nothing, every
/// other key reads as before, the number of keys shrinks by one exactly
/// when `key` had a value, and `remove` returned that value.
pub proof fn law_read_after_remove<S: BuildKeyHasher>(
    before: IncHashMap<S>,
    after: IncHashMap<S>,
    key: u64,
    removed: Option<u64>,
)
    requires
        before.wf(),
        IncHashMap::remove_post(before, after, key, removed),
    ensures
        after.wf(),
        !after.view().contains_key(key),
        forall|k: u64|
            k != key ==> (#[trigger] after.view().contains_key(k) == before.view().contains_key(k)) && (
            before.view().contains_key(k) ==> after.view()[k] == before.view()[k]),
        after.view().len() == before.view().len() - if before.view().contains_key(key) { 1int } else { 0int },
        removed == if before.view().contains_key(key) { Some(before.view()[key]) } else { None },
{
    before.lemma_len();
}

/// Removing a key that was just added gives back the map as it was, and
/// the value that was added.
pub proof fn law_remove_undoes_insert<S: BuildKeyHasher>(
    before: IncHashMap<S>,
    middle: IncHashMap<S>,
    after: IncHashMap<S>,
    key: u64,
    value: u64,
    replaced: Option<u64>,
    removed: Option<u64>,
)
    requires
        before.wf(),
        !before.view().contains_key(key),
        IncHashMap::insert_post(before, middle, key, value, replaced),
        IncHashMap::remove_post(middle, after, key, removed),
    ensures
        after.view() == before.view(),
        removed == Some(value),
{
    assert(after.view() =~= before.view());
}

/// `entry(key)` is occupied exactly when `key` has a value, and then holds
/// that value; the entry describes the map as it was.
pub proof fn law_entry_matches_contents<'a, S: BuildKeyHasher>(before: IncHashMap<S>, key: u64, entry: Entry<'a>)
    requires
        before.wf(),
        match entry {
            Entry::Occupied(o) => o.wf() && o.key_spec() == key && o.map_view() == before.view(),
            Entry::Vacant(v) => !before.view().contains_key(key) && v.key == key && v.map_view() == before.view(),
        },
    ensures
        (entry is Occupied) == before.view().contains_key(key),
        entry matches Entry::Occupied(o) ==> o.value_spec() == before.view()[key],
        entry.map_view() == before.view(),
{
    if let Entry::Occupied(o) = entry {
        o.lemma_entry_in_map();
    }
}

/// Extracting with `f` leaves the table that retaining with `g` leaves, when
/// `g` answers the opposite of `f` and `f`, handed equal elements, answers
/// alike and leaves them alike: `extract_if` is `retain` with the negated
/// predicate, element for element and place for place.
pub proof fn law_extract_if_is_negated_retain<F: Fn(&mut Pair) -> bool, G: Fn(&mut Pair) -> bool>(
    before: IncHashTable,
    extracted: IncHashTable,
    retained: IncHashTable,
    f: F,
    g: G,
)
    requires
        before.wf(),
        extracted.wf(),
        retained.wf(),
        extracted.placed().dom().subset_of(before.placed().dom()),
        exists|after: Map<Place, Slot>|
            #![trigger after.dom()]
            {
                &&& after.dom() == before.placed().dom()
                &&& forall|q: Place|
                    #![trigger after.contains_key(q)]
                    after.contains_key(q) ==> after[q].0 == before.placed()[q].0 && exists|p: &mut Pair|
                        {
                            &&& *p == before.placed()[q].1
                            &&& *final(p) == after[q].1
                            &&& call_ensures(f, (p,), !extracted.placed().contains_key(q))
                        }
                &&& forall|q: Place|
                    #![trigger extracted.placed().contains_key(q)]
                    extracted.placed().contains_key(q) ==> extracted.placed()[q] == after[q]
            },
        retained.placed().dom().subset_of(before.placed().dom()),
        forall|q: Place|
            #[trigger] before.placed().contains_key(q) ==> exists|p: &mut Pair|
                {
                    &&& *p == before.placed()[q].1
                    &&& call_ensures(g, (p,), retained.placed().contains_key(q))
                    &&& retained.placed().contains_key(q) ==> retained.placed()[q] == (before.placed()[q].0, *final(p))
                },
        forall|p: &mut Pair, b: bool| #[trigger] call_ensures(g, (p,), b) == call_ensures(f, (p,), !b),
        forall|p1: &mut Pair, p2: &mut Pair, b1: bool, b2: bool|
            #[trigger] call_ensures(f, (p1,), b1) && #[trigger] call_ensures(f, (p2,), b2) && *p1 == *p2 ==> b1 == b2
                && *final(p1) == *final(p2),
    ensures
        extracted.placed() == retained.placed(),
        extracted@ == retained@,
{
    let after = choose|after: Map<Place, Slot>|
        #![trigger after.dom()]
        {
            &&& after.dom() == before.placed().dom()
            &&& forall|q: Place|
                #![trigger after.contains_key(q)]
                after.contains_key(q) ==> after[q].0 == before.placed()[q].0 && exists|p: &mut Pair|
                    {
                        &&& *p == before.placed()[q].1
                        &&& *final(p) == after[q].1
                        &&& call_ensures(f, (p,), !extracted.placed().contains_key(q))
                    }
            &&& forall|q: Place|
                #![trigger extracted.placed().contains_key(q)]
                extracted.placed().contains_key(q) ==> extracted.placed()[q] == after[q]
        };
    assert forall|q: Place| #[trigger] extracted.placed().contains_key(q) == retained.placed().contains_key(q) && (
    extracted.placed().contains_key(q) ==> extracted.placed()[q] == retained.placed()[q]) by {
        if before.placed().contains_key(q) {
            assert(after.contains_key(q));
            let p1 = choose|p: &mut Pair|
                {
                    &&& *p == before.placed()[q].1
                    &&& *final(p) == after[q].1
                    &&& call_ensures(f, (p,), !extracted.placed().contains_key(q))
                };
            let p2 = choose|p: &mut Pair|
                {
                    &&& *p == before.placed()[q].1
                    &&& call_ensures(g, (p,), retained.placed().contains_key(q))
                    &&& retained.placed().contains_key(q) ==> retained.placed()[q] == (before.placed()[q].0, *final(p))
                };
            assert(call_ensures(f, (p2,), !retained.placed().contains_key(q)));
        }
    }
    assert(extracted.placed() =~= retained.placed());
    extracted.lemma_view_is_placed();
    retained.lemma_view_is_placed();
}

/// Find after insert: once `insert_unique(hash, value)` has added `value`
/// under `hash`, `find(hash, eq)` with an `eq` that does not reject `value`
/// cannot come back empty, since an empty answer means that `eq` rejected
/// every element placed under `hash`. The table holds one more element.
pub proof fn law_find_after_insert<F: Fn(&Pair) -> bool>(
    before: IncHashTable,
    after: IncHashTable,
    hash: u64,
    value: Pair,
    eq: F,
)
    requires
        after@ == before@.insert((hash, value)),
        !call_ensures(eq, (&value,), false),
    ensures
        !(forall|e: Slot| #[trigger] after@.contains(e) && e.0 == hash ==> call_ensures(eq, (&e.1,), false)),
        after@.contains((hash, value)),
        after@.len() == before@.len() + 1,
{
    assert(after@.contains((hash, value)));
}

/// On the map too, `extract_if` with `f` leaves the map that `retain` with
/// the opposite of `f` leaves, values included, when `f` gives one answer
/// and leaves one value for each key and value.
pub proof fn law_map_extract_if_is_negated_retain<S: BuildKeyHasher, F: Fn(&u64, &mut u64) -> bool, G: Fn(
    &u64,
    &mut u64,
) -> bool>(before: IncHashMap<S>, extracted: IncHashMap<S>, retained: IncHashMap<S>, f: F, g: G)
    requires
        before.wf(),
        forall|k: u64| #[trigger] extracted.view().contains_key(k) ==> before.view().contains_key(k),
        forall|k: u64|
            #[trigger] before.view().contains_key(k) ==> exists|v: &mut u64|
                *v == before.view()[k] && call_ensures(f, (&k, v), !extracted.view().contains_key(k)) && (
                extracted.view().contains_key(k) ==> extracted.view()[k] == *final(v)),
        forall|k: u64| #[trigger] retained.view().contains_key(k) ==> before.view().contains_key(k),
        forall|k: u64|
            #[trigger] before.view().contains_key(k) ==> exists|v: &mut u64|
                *v == before.view()[k] && call_ensures(g, (&k, v), retained.view().contains_key(k)) && (
                retained.view().contains_key(k) ==> retained.view()[k] == *final(v)),
        forall|k: u64, v: &mut u64, b: bool| #[trigger] call_ensures(g, (&k, v), b) == call_ensures(f, (&k, v), !b),
        forall|k: u64, v1: &mut u64, v2: &mut u64, b1: bool, b2: bool|
            #[trigger] call_ensures(f, (&k, v1), b1) && #[trigger] call_ensures(f, (&k, v2), b2) && *v1 == *v2 ==> b1
                == b2 && *final(v1) == *final(v2),
    ensures
        extracted.view() == retained.view(),
{
    assert forall|k: u64| #[trigger] extracted.view().contains_key(k) == retained.view().contains_key(k) && (
    extracted.view().contains_key(k) ==> extracted.view()[k] == retained.view()[k]) by {
        if before.view().contains_key(k) {
            let v1 = choose|v: &mut u64|
                *v == before.view()[k] && call_ensures(f, (&k, v), !extracted.view().contains_key(k)) && (
                extracted.view().contains_key(k) ==> extracted.view()[k] == *final(v));
            let v2 = choose|v: &mut u64|
                *v == before.view()[k] && call_ensures(g, (&k, v), retained.view().contains_key(k)) && (
                retained.view().contains_key(k) ==> retained.view()[k] == *final(v));
            assert(call_ensures(f, (&k, v2), !retained.view().contains_key(k)));
        }
    }
    assert(extracted.view() =~= retained.view());
}

/// `keys()` and `values()` on one map list it in one order: the value at
/// each position of `values()` is the value, in the map, of the key at that
/// position of `keys()`; every key comes exactly once. `iter()` lists the
/// same pairs in the same order, and `drain()` hands them back in it.
pub proof fn law_keys_values_pair_up<S: BuildKeyHasher>(
    m: IncHashMap<S>,
    pairs: Seq<Pair>,
    keys: Seq<u64>,
    values: Seq<u64>,
    drained: Seq<Pair>,
)
    requires
        m.wf(),
        pairs == m.listing(),
        keys == m.listing().map_values(|p: Pair| p.0),
        values == m.listing().map_values(|p: Pair| p.1),
        drained == m.listing(),
    ensures
        keys.len() == values.len(),
        keys.len() == m.view().len(),
        keys.no_duplicates(),
        forall|i: int|
            0 <= i < keys.len() ==> m.view().contains_key(#[trigger] keys[i]) && m.view()[keys[i]] == values[i],
        forall|k: u64| #[trigger] m.view().contains_key(k) ==> keys.contains(k),
        forall|i: int| 0 <= i < pairs.len() ==> #[trigger] pairs[i] == (keys[i], values[i]),
        drained == pairs,
{
    m.lemma_listing_lists();
    let l = m.listing();
    assert forall|i: int| 0 <= i < keys.len() implies m.view().contains_key(#[trigger] keys[i])
        && m.view()[keys[i]] == values[i] by {
        assert(keys[i] == l[i].0 && values[i] == l[i].1);
    }
    assert forall|k: u64| #[trigger] m.view().contains_key(k) implies keys.contains(k) by {
        let j = choose|j: int| 0 <= j < l.len() && l[j].0 == k;
        assert(keys[j] == k);
    }
    m.lemma_len();
    assert(keys.to_set() =~= m.view().dom()) by {
        assert forall|k: u64| keys.to_set().contains(k) implies m.view().dom().contains(k) by {
            let j = choose|j: int| 0 <= j < keys.len() && keys[j] == k;
        }
    }
    keys.lemma_no_dup_set_cardinality();
    assert forall|i: int| 0 <= i < pairs.len() implies #[trigger] pairs[i] == (keys[i], values[i]) by {
        assert(keys[i] == l[i].0 && values[i] == l[i].1);
    }
}

} // verus!
