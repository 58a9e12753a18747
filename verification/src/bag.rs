//! The multiset of values stored in a finite map, such as a map from bucket
//! indices.
//!
//! A hash table places each of its elements in a bucket; what the table
//! holds, forgetting where, is the multiset of the buckets' values.
use vstd::prelude::*;
use vstd::multiset::Multiset;

verus! {

broadcast use vstd::set::group_set_axioms, vstd::set_lib::group_set_lib_default, vstd::multiset::group_multiset_axioms;

/// The values of `m`, counted with multiplicity.
pub open spec fn bag_of<K, E>(m: Map<K, E>) -> Multiset<E>
    decreases m.dom().len(),
{
    if m.dom().finite() && m.dom().len() > 0 {
        let k = m.dom().choose();
        bag_of(m.remove(k)).insert(m[k])
    } else {
        Multiset::empty()
    }
}

/// Removing any one key takes its value out of the bag once.
pub proof fn lemma_bag_of_remove<K, E>(m: Map<K, E>, k: K)
    requires
        m.dom().finite(),
        m.contains_key(k),
    ensures
        bag_of(m) == bag_of(m.remove(k)).insert(m[k]),
    decreases m.dom().len(),
{
    let c = m.dom().choose();
    assert(m.dom().contains(c));
    if c != k {
        let mc = m.remove(c);
        let mk = m.remove(k);
        lemma_bag_of_remove(mc, k);
        lemma_bag_of_remove(mk, c);
        assert(mc.remove(k) =~= mk.remove(c));
        assert(bag_of(m) =~= bag_of(mk).insert(m[k]));
    }
}

/// Inserting under a fresh key puts the value into the bag once.
pub proof fn lemma_bag_of_insert<K, E>(m: Map<K, E>, k: K, v: E)
    requires
        m.dom().finite(),
        !m.contains_key(k),
    ensures
        bag_of(m.insert(k, v)) == bag_of(m).insert(v),
{
    let mi = m.insert(k, v);
    lemma_bag_of_remove(mi, k);
    assert(mi.remove(k) =~= m);
}

/// Overwriting the value under a present key swaps one value for the other.
pub proof fn lemma_bag_of_update<K, E>(m: Map<K, E>, k: K, v: E)
    requires
        m.dom().finite(),
        m.contains_key(k),
    ensures
        bag_of(m.insert(k, v)) == bag_of(m).remove(m[k]).insert(v),
{
    let mi = m.insert(k, v);
    lemma_bag_of_remove(mi, k);
    lemma_bag_of_remove(m, k);
    assert(mi.remove(k) =~= m.remove(k));
    assert(bag_of(m).remove(m[k]) =~= bag_of(m.remove(k)));
}

/// The bag has one value per key.
pub proof fn lemma_bag_of_len<K, E>(m: Map<K, E>)
    requires
        m.dom().finite(),
    ensures
        bag_of(m).len() == m.dom().len(),
    decreases m.dom().len(),
{
    if m.dom().len() > 0 {
        let c = m.dom().choose();
        assert(m.dom().contains(c));
        lemma_bag_of_len(m.remove(c));
    }
}

/// A value is in the bag exactly when some key maps to it.
pub proof fn lemma_bag_of_contains<K, E>(m: Map<K, E>, v: E)
    requires
        m.dom().finite(),
    ensures
        bag_of(m).contains(v) <==> exists|k: K| m.contains_key(k) && m[k] == v,
    decreases m.dom().len(),
{
    if m.dom().len() > 0 {
        let c = m.dom().choose();
        assert(m.dom().contains(c));
        let mc = m.remove(c);
        lemma_bag_of_contains(mc, v);
        if exists|k: K| m.contains_key(k) && m[k] == v {
            let k = choose|k: K| m.contains_key(k) && m[k] == v;
            if k != c {
                assert(mc.contains_key(k) && mc[k] == v);
            }
        }
    } else {
        assert(m.dom() =~= Set::empty());
    }
}

/// Keeping a part of the keys keeps a part of the bag, and what leaves the
/// bag is the bag of the keys that left.
pub proof fn lemma_bag_of_submap<K, E>(m: Map<K, E>, s: Map<K, E>)
    requires
        m.dom().finite(),
        s.submap_of(m),
    ensures
        bag_of(m) == bag_of(s).add(bag_of(m.remove_keys(s.dom()))),
    decreases m.dom().len(),
{
    if m.dom().len() > 0 {
        let c = m.dom().choose();
        assert(m.dom().contains(c));
        let mc = m.remove(c);
        lemma_bag_of_remove(m, c);
        if s.contains_key(c) {
            let sc = s.remove(c);
            assert(sc.submap_of(mc));
            lemma_bag_of_submap(mc, sc);
            vstd::set_lib::lemma_len_subset(s.dom(), m.dom());
            lemma_bag_of_remove(s, c);
            assert(mc.remove_keys(sc.dom()) =~= m.remove_keys(s.dom()));
            assert(bag_of(m) =~= bag_of(s).add(bag_of(m.remove_keys(s.dom()))));
        } else {
            assert(s.submap_of(mc));
            lemma_bag_of_submap(mc, s);
            let r = m.remove_keys(s.dom());
            assert(r.contains_key(c));
            vstd::set_lib::lemma_len_subset(r.dom(), m.dom());
            lemma_bag_of_remove(r, c);
            assert(r.remove(c) =~= mc.remove_keys(s.dom()));
            assert(bag_of(m) =~= bag_of(s).add(bag_of(m.remove_keys(s.dom()))));
        }
    } else {
        assert(m.dom() =~= Set::empty());
        assert(s.dom() =~= Set::empty());
        assert(m.remove_keys(s.dom()).dom() =~= Set::empty());
    }
}

/// A map that holds each value under one key at most has each value in its
/// bag once at most.
pub proof fn lemma_bag_of_injective<K, E>(m: Map<K, E>)
    requires
        m.dom().finite(),
        forall|k1: K, k2: K| #[trigger] m.contains_key(k1) && #[trigger] m.contains_key(k2) && m[k1] == m[k2] ==> k1 == k2,
    ensures
        forall|v: E| #[trigger] bag_of(m).count(v) <= 1,
    decreases m.dom().len(),
{
    if m.dom().len() > 0 {
        let c = m.dom().choose();
        assert(m.dom().contains(c));
        let mr = m.remove(c);
        lemma_bag_of_injective(mr);
        lemma_bag_of_remove(m, c);
        lemma_bag_of_contains(mr, m[c]);
        assert(!bag_of(mr).contains(m[c]));
    } else {
        assert(m.dom() =~= Set::empty());
    }
}

/// A value held under two keys is in the bag at least twice.
pub proof fn lemma_bag_of_twice<K, E>(m: Map<K, E>, k1: K, k2: K)
    requires
        m.dom().finite(),
        m.contains_key(k1),
        m.contains_key(k2),
        k1 != k2,
        m[k1] == m[k2],
    ensures
        bag_of(m).count(m[k1]) >= 2,
{
    let mr = m.remove(k1);
    lemma_bag_of_remove(m, k1);
    lemma_bag_of_contains(mr, m[k1]);
    assert(mr.contains_key(k2) && mr[k2] == m[k1]);
    assert(bag_of(mr).contains(m[k1]));
}

/// The map `m` with every key `k` moved to `(t, k)`.
pub open spec fn tagged<K, E>(m: Map<K, E>, t: bool) -> Map<(bool, K), E> {
    Map::new(|q: (bool, K)| q.0 == t && m.contains_key(q.1), |q: (bool, K)| m[q.1])
}

/// Moving the keys leaves the bag as it was.
pub proof fn lemma_bag_of_tagged<K, E>(m: Map<K, E>, t: bool)
    requires
        m.dom().finite(),
    ensures
        tagged(m, t).dom().finite(),
        tagged(m, t).dom().len() == m.dom().len(),
        bag_of(tagged(m, t)) == bag_of(m),
    decreases m.dom().len(),
{
    if m.dom().len() > 0 {
        let c = m.dom().choose();
        assert(m.dom().contains(c));
        let mr = m.remove(c);
        lemma_bag_of_tagged(mr, t);
        assert(tagged(mr, t) =~= tagged(m, t).remove((t, c)));
        assert(tagged(m, t).dom() =~= tagged(mr, t).dom().insert((t, c)));
        lemma_bag_of_remove(m, c);
        lemma_bag_of_remove(tagged(m, t), (t, c));
    } else {
        assert(m.dom() =~= Set::empty());
        assert(tagged(m, t).dom() =~= Set::empty());
    }
}

/// Two maps side by side, the first under the tag `true` and the second
/// under `false`, hold the bags of both.
pub proof fn lemma_bag_of_tagged_union<K, E>(a: Map<K, E>, c: Map<K, E>)
    requires
        a.dom().finite(),
        c.dom().finite(),
    ensures
        tagged(a, true).union_prefer_right(tagged(c, false)).dom().finite(),
        bag_of(tagged(a, true).union_prefer_right(tagged(c, false))) == bag_of(a).add(bag_of(c)),
{
    let ta = tagged(a, true);
    let tc = tagged(c, false);
    let u = ta.union_prefer_right(tc);
    lemma_bag_of_tagged(a, true);
    lemma_bag_of_tagged(c, false);
    assert(u.dom() =~= ta.dom().union(tc.dom()));
    assert(ta.submap_of(u));
    lemma_bag_of_submap(u, ta);
    assert(u.remove_keys(ta.dom()) =~= tc);
}

/// The second components of a multiset of pairs, with multiplicity.
pub open spec fn strip<A, B>(m: Multiset<(A, B)>) -> Multiset<B>
    decreases m.len(),
{
    if m.len() > 0 {
        let e = m.choose();
        strip(m.remove(e)).insert(e.1)
    } else {
        Multiset::empty()
    }
}

/// Removing any one pair takes its second component out once.
pub proof fn lemma_strip_remove<A, B>(m: Multiset<(A, B)>, e: (A, B))
    requires
        m.contains(e),
    ensures
        strip(m) == strip(m.remove(e)).insert(e.1),
    decreases m.len(),
{
    let c = m.choose();
    assert(m.contains(c));
    if c != e {
        let mc = m.remove(c);
        let me = m.remove(e);
        assert(mc.contains(e));
        assert(me.contains(c));
        lemma_strip_remove(mc, e);
        lemma_strip_remove(me, c);
        assert(mc.remove(e) =~= me.remove(c));
        assert(strip(m) =~= strip(me).insert(e.1));
    }
}

/// Adding a pair adds its second component.
pub proof fn lemma_strip_insert<A, B>(m: Multiset<(A, B)>, e: (A, B))
    ensures
        strip(m.insert(e)) == strip(m).insert(e.1),
{
    lemma_strip_remove(m.insert(e), e);
    assert(m.insert(e).remove(e) =~= m);
}

/// Stripping the sum is the sum of the stripped parts.
pub proof fn lemma_strip_add<A, B>(m: Multiset<(A, B)>, n: Multiset<(A, B)>)
    ensures
        strip(m.add(n)) == strip(m).add(strip(n)),
    decreases n.len(),
{
    if n.len() > 0 {
        let e = n.choose();
        assert(n.contains(e));
        let nr = n.remove(e);
        lemma_strip_add(m, nr);
        assert(m.add(n) =~= m.add(nr).insert(e));
        lemma_strip_insert(m.add(nr), e);
        lemma_strip_remove(n, e);
        assert(strip(m.add(n)) =~= strip(m).add(strip(n)));
    } else {
        assert(n =~= Multiset::empty());
        assert(m.add(n) =~= m);
        assert(strip(m).add(strip(n)) =~= strip(m));
    }
}

/// Stripping keeps the number of elements.
pub proof fn lemma_strip_len<A, B>(m: Multiset<(A, B)>)
    ensures
        strip(m).len() == m.len(),
    decreases m.len(),
{
    if m.len() > 0 {
        let e = m.choose();
        assert(m.contains(e));
        lemma_strip_len(m.remove(e));
    }
}

/// A second component is in the stripped multiset exactly when some pair
/// with it is in the multiset.
pub proof fn lemma_strip_contains<A, B>(m: Multiset<(A, B)>, x: B)
    ensures
        strip(m).contains(x) <==> exists|a: A| m.contains((a, x)),
    decreases m.len(),
{
    if m.len() > 0 {
        let e = m.choose();
        assert(m.contains(e));
        let mr = m.remove(e);
        lemma_strip_contains(mr, x);
        assert(strip(m) == strip(mr).insert(e.1));
        if e.1 == x {
            assert(m.contains((e.0, x)));
        }
        if exists|a: A| m.contains((a, x)) {
            let a = choose|a: A| m.contains((a, x));
            if (a, x) != e {
                assert(mr.contains((a, x)));
            }
        }
        if exists|a: A| mr.contains((a, x)) {
            let a = choose|a: A| mr.contains((a, x));
            assert(m.contains((a, x)));
        }
    } else {
        assert(m =~= Multiset::empty());
    }
}

/// The bag of the elements of the slots is the stripped bag of the slots.
pub proof fn lemma_bag_of_map_values<K, A, B>(m: Map<K, (A, B)>)
    requires
        m.dom().finite(),
    ensures
        bag_of(m.map_values(|s: (A, B)| s.1)) == strip(bag_of(m)),
    decreases m.dom().len(),
{
    let mv = m.map_values(|s: (A, B)| s.1);
    assert(mv.dom() =~= m.dom());
    if m.dom().len() > 0 {
        let c = m.dom().choose();
        assert(m.dom().contains(c));
        let mr = m.remove(c);
        lemma_bag_of_map_values(mr);
        assert(mr.map_values(|s: (A, B)| s.1) =~= mv.remove(c));
        lemma_bag_of_remove(m, c);
        lemma_bag_of_remove(mv, c);
        lemma_strip_insert(bag_of(mr), m[c]);
    } else {
        assert(m.dom() =~= Set::empty());
        assert(mv.dom() =~= Set::empty());
        assert(bag_of(m) =~= Multiset::empty());
    }
}

} // verus!
