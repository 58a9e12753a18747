//! A hash table that grows incrementally.
//!
//! When the table must grow it allocates a new table twice as large and
//! keeps the old one beside it. Every later insertion moves one element of
//! the old table into the new one, so no single insertion pays for moving
//! them all. Lookups search the old table, then the current one.
use vstd::prelude::*;
use vstd::multiset::Multiset;
use crate::bag::{
    bag_of, strip, lemma_bag_of_contains, lemma_bag_of_insert, lemma_bag_of_len, lemma_bag_of_remove, lemma_bag_of_update,
    lemma_bag_of_map_values, lemma_strip_add, tagged, lemma_bag_of_tagged_union,
};
use crate::pair_table::{
    PairTable, Pair, Slot, pair_table_slots, pair_table_capacity, pair_table_allocation,
    capacity_limit, slot_items, hashes_agree, callable_on_all, bucket_order, lemma_bucket_order,
};

verus! {

broadcast use vstd::multiset::group_multiset_axioms, vstd::set::group_set_axioms, vstd::set_lib::group_set_lib_default;

/// `hasher` may be called on every element of `entries` and gives back the
/// hash the element was placed under.
pub open spec fn agrees_with<H: Fn(&Pair) -> u64>(hasher: H, entries: Multiset<Slot>) -> bool {
    forall|e: Slot|
        #![trigger entries.contains(e)]
        entries.contains(e) ==> {
            &&& call_requires(hasher, (&e.1,))
            &&& forall|h: u64| call_ensures(hasher, (&e.1,), h) ==> h == e.0
        }
}

/// `f` may be called on every element of `entries`.
pub open spec fn callable_on<R, F: Fn(&Pair) -> R>(f: F, entries: Multiset<Slot>) -> bool {
    forall|e: Slot| #![trigger entries.contains(e)] entries.contains(e) ==> call_requires(f, (&e.1,))
}

/// An incrementally resizing hash table of `(u64, u64)` pairs.
///
/// The caller supplies the hash of each element, and an equality test and a
/// hasher where they are needed. The table is described by the multiset of
/// its entries, each an element with the hash it was placed under.
pub struct IncHashTable {
    pub(crate) old: PairTable,
    pub(crate) drain_from: usize,
    pub(crate) curr: PairTable,
}

/// Where an entry sits: in the old table (`true`) or in the current one
/// (`false`), and in which bucket.
pub type Place = (bool, usize);

/// Takes one element out of `t`, searching the buckets upwards from `from`,
/// below which every bucket is empty; afterwards `from` is the bucket it
/// came out of.
fn pop_slot(t: &mut PairTable, from: &mut usize) -> (popped: (Pair, Ghost<Slot>))
    requires
        pair_table_slots(*old(t)).dom().finite(),
        pair_table_slots(*old(t)).len() > 0,
        forall|b: usize| #[trigger] pair_table_slots(*old(t)).contains_key(b) ==> b >= *old(from),
    ensures
        popped.1@.1 == popped.0,
        bag_of(pair_table_slots(*old(t))) == bag_of(pair_table_slots(*final(t))).insert(popped.1@),
        pair_table_slots(*final(t)).dom().finite(),
        pair_table_slots(*final(t)).len() + 1 == pair_table_slots(*old(t)).len(),
        forall|b: usize| #[trigger] pair_table_slots(*final(t)).contains_key(b) ==> b >= *final(from),
        pair_table_capacity(*final(t)) + 1 >= pair_table_capacity(*old(t)),
        pair_table_allocation(*final(t)) == pair_table_allocation(*old(t)),
{
    let ghost m = pair_table_slots(*t);
    proof {
        vstd::set_lib::lemma_set_empty_equivalency_len(m.dom());
    }
    let ghost w = choose|b: usize| m.dom().contains(b);
    let mut b: usize = *from;
    loop
        invariant
            pair_table_slots(*t) == m,
            m.contains_key(w),
            b <= w,
            forall|k: usize| #[trigger] m.contains_key(k) ==> k >= b,
        ensures
            pair_table_slots(*t) == m,
            m.contains_key(b),
            forall|k: usize| #[trigger] m.contains_key(k) ==> k >= b,
        decreases w - b,
    {
        match t.get_bucket(b) {
            Some(_) => {
                break;
            },
            None => {
                b = b + 1;
            },
        }
    }
    let x = t.remove_bucket(b).unwrap();
    *from = b;
    proof {
        lemma_bag_of_remove(m, b);
    }
    (x, Ghost(m[b]))
}

/// The slots of `m` in buckets below `b`.
spec fn below<E>(m: Map<usize, E>, b: int) -> Map<usize, E> {
    m.restrict(Set::new(|k: usize| k < b))
}

/// Lets `f` change every element of `t` in place, bucket by bucket.
/// Returns, in bucket order, the entries before and after.
fn change_each<F: Fn(&mut Pair)>(t: &mut PairTable, f: &F) -> (changed: Ghost<(Seq<Slot>, Seq<Slot>)>)
    requires
        pair_table_slots(*old(t)).dom().finite(),
        forall|p: &mut Pair| call_requires(*f, (p,)),
    ensures
        pair_table_slots(*final(t)).dom() == pair_table_slots(*old(t)).dom(),
        pair_table_capacity(*final(t)) == pair_table_capacity(*old(t)),
        pair_table_allocation(*final(t)) == pair_table_allocation(*old(t)),
        changed@.0.to_multiset() == bag_of(pair_table_slots(*old(t))),
        changed@.1.to_multiset() == bag_of(pair_table_slots(*final(t))),
        changed@.0.len() == changed@.1.len(),
        forall|i: int|
            0 <= i < changed@.0.len() ==> #[trigger] changed@.1[i].0 == changed@.0[i].0 && exists|p: &mut Pair|
                *p == changed@.0[i].1 && *final(p) == changed@.1[i].1 && call_ensures(*f, (p,), ()),
{
    let ghost m0 = pair_table_slots(*t);
    let ghost cap0 = pair_table_capacity(*t);
    let ghost alloc0 = pair_table_allocation(*t);
    let n = t.num_buckets();
    let ghost mut before: Seq<Slot> = Seq::empty();
    let ghost mut after: Seq<Slot> = Seq::empty();
    proof {
        assert(below(m0, 0) =~= Map::empty());
        assert(below(pair_table_slots(*t), 0) =~= Map::empty());
        assert(bag_of(Map::<usize, Slot>::empty()) =~= Multiset::empty()) by {
            assert(Map::<usize, Slot>::empty().dom() =~= Set::empty());
        }
        assert(before.to_multiset() =~= Multiset::empty() && after.to_multiset() =~= Multiset::empty()) by {
            broadcast use vstd::seq_lib::to_multiset_len, vstd::multiset::lemma_multiset_empty_len;
            assert(before.len() == 0 && after.len() == 0);
            assert(before.to_multiset().len() == 0 && after.to_multiset().len() == 0);
        }
    }
    let mut b: usize = 0;
    while b < n
        invariant
            b <= n,
            m0.dom().finite(),
            forall|k: usize| #[trigger] m0.contains_key(k) ==> k < n,
            pair_table_slots(*t).dom() == m0.dom(),
            forall|k: usize| #[trigger] m0.contains_key(k) && k >= b ==> pair_table_slots(*t)[k] == m0[k],
            pair_table_capacity(*t) == cap0,
            pair_table_allocation(*t) == alloc0,
            before.to_multiset() == bag_of(below(m0, b as int)),
            after.to_multiset() == bag_of(below(pair_table_slots(*t), b as int)),
            before.len() == after.len(),
            forall|i: int|
                0 <= i < before.len() ==> #[trigger] after[i].0 == before[i].0 && exists|p: &mut Pair|
                    *p == before[i].1 && *final(p) == after[i].1 && call_ensures(*f, (p,), ()),
            forall|p: &mut Pair| call_requires(*f, (p,)),
        decreases n - b,
    {
        let ghost prev = pair_table_slots(*t);
        if let Some(x) = t.get_bucket_mut(b) {
            f(x);
        }
        proof {
            let now = pair_table_slots(*t);
            if prev.contains_key(b) {
                assert(now[b as usize].0 == m0[b as usize].0);
                assert(exists|p: &mut Pair|
                    *p == m0[b as usize].1 && *final(p) == now[b as usize].1 && call_ensures(*f, (p,), ()));
                assert(below(m0, b as int).dom() =~= m0.dom().intersect(Set::new(|k: usize| k < b)));
                assert(below(prev, b as int).dom() =~= prev.dom().intersect(Set::new(|k: usize| k < b)));
                assert(below(m0, b + 1) =~= below(m0, b as int).insert(b, m0[b as usize]));
                assert(below(now, b + 1) =~= below(prev, b as int).insert(b, now[b as usize]));
                lemma_bag_of_insert(below(m0, b as int), b, m0[b as usize]);
                lemma_bag_of_insert(below(prev, b as int), b, now[b as usize]);
                let nb = before.push(m0[b as usize]);
                let na = after.push(now[b as usize]);
                assert forall|i: int| 0 <= i < nb.len() implies #[trigger] na[i].0 == nb[i].0 && exists|p: &mut Pair|
                    *p == nb[i].1 && *final(p) == na[i].1 && call_ensures(*f, (p,), ()) by {
                    if i < before.len() {
                        assert(nb[i] == before[i] && na[i] == after[i]);
                    } else {
                        assert(nb[i] == m0[b as usize] && na[i] == now[b as usize]);
                    }
                }
                vstd::seq_lib::to_multiset_build(before, m0[b as usize]);
                vstd::seq_lib::to_multiset_build(after, now[b as usize]);
                before = nb;
                after = na;
            } else {
                assert(below(m0, b + 1) =~= below(m0, b as int));
                assert(below(now, b + 1) =~= below(now, b as int));
            }
        }
        b = b + 1;
    }
    proof {
        assert(below(m0, n as int) =~= m0);
        assert(below(pair_table_slots(*t), n as int) =~= pair_table_slots(*t));
    }
    Ghost((before, after))
}

/// The larger of two integers.
pub open spec fn spec_max(a: int, b: int) -> int {
    if a >= b { a } else { b }
}

/// The size of the table that replaces a full one: room for the current
/// elements twice over (or for `additional` more, if that is larger) and for
/// the old elements; `None` if that overflows.
fn new_cap(old: usize, len: usize, additional: usize) -> (cap: Option<usize>)
    ensures
        match cap {
            Some(c) => c == len + spec_max(additional as int, len as int) + old,
            None => len + spec_max(additional as int, len as int) + old > usize::MAX,
        },
{
    let additional = if additional >= len { additional } else { len };
    match len.checked_add(additional) {
        Some(sum) => sum.checked_add(old),
        None => None,
    }
}

/// A hasher that agrees with a multiset agrees with the slots whose bag is
/// contained in it.
pub(crate) proof fn lemma_agrees_slots<H: Fn(&Pair) -> u64>(hasher: H, m: Map<usize, Slot>, entries: Multiset<Slot>)
    requires
        m.dom().finite(),
        agrees_with(hasher, entries),
        forall|e: Slot| #[trigger] bag_of(m).contains(e) ==> entries.contains(e),
    ensures
        hashes_agree(hasher, m),
{
    assert forall|b: usize| #[trigger] m.contains_key(b) implies {
        &&& call_requires(hasher, (&m[b].1,))
        &&& forall|h: u64| call_ensures(hasher, (&m[b].1,), h) ==> h == m[b].0
    } by {
        lemma_bag_of_contains(m, m[b]);
        assert(entries.contains(m[b]));
    }
}

/// The elements of the table are those of its two parts.
proof fn lemma_items_parts(t: IncHashTable)
    requires
        pair_table_slots(t.old).dom().finite(),
        pair_table_slots(t.curr).dom().finite(),
    ensures
        strip(t@) == bag_of(slot_items(pair_table_slots(t.old))).add(bag_of(slot_items(pair_table_slots(t.curr)))),
{
    let o = pair_table_slots(t.old);
    let c = pair_table_slots(t.curr);
    lemma_bag_of_map_values(o);
    lemma_bag_of_map_values(c);
    assert(slot_items(o) =~= o.map_values(|s: Slot| s.1));
    assert(slot_items(c) =~= c.map_values(|s: Slot| s.1));
    lemma_strip_add(bag_of(o), bag_of(c));
}

impl View for IncHashTable {
    type V = Multiset<Slot>;

    closed spec fn view(&self) -> Multiset<Slot> {
        bag_of(pair_table_slots(self.old)).add(bag_of(pair_table_slots(self.curr)))
    }
}

impl IncHashTable {
    /// The elements of the table, with multiplicity, without their hashes.
    pub open spec fn items(self) -> Multiset<Pair> {
        strip(self@)
    }

    /// The capacity reported for the table: that of the current allocation.
    pub closed spec fn spec_capacity(self) -> nat {
        pair_table_capacity(self.curr)
    }

    /// The bytes allocated by both tables.
    pub closed spec fn spec_allocation(self) -> nat {
        pair_table_allocation(self.curr) + pair_table_allocation(self.old)
    }

    /// The number of further elements the current table takes without
    /// reallocating, once every old element has moved into it.
    pub closed spec fn room(self) -> int {
        pair_table_capacity(self.curr) - pair_table_slots(self.curr).len() - pair_table_slots(self.old).len()
    }

    /// Whether one more element fits without reallocating.
    pub closed spec fn has_room(self) -> bool {
        self.room() >= 1
    }

    /// The entries still waiting in the old table.
    pub closed spec fn pending_entries(self) -> Multiset<Slot> {
        bag_of(pair_table_slots(self.old))
    }

    /// The entries in the current table.
    pub closed spec fn settled_entries(self) -> Multiset<Slot> {
        bag_of(pair_table_slots(self.curr))
    }

    /// The number of elements still waiting in the old table.
    pub closed spec fn pending(self) -> nat {
        pair_table_slots(self.old).len()
    }

    /// The number of elements in the current table.
    pub closed spec fn settled(self) -> nat {
        pair_table_slots(self.curr).len()
    }

    /// The elements in the order the table lists them: those of the old
    /// table, then those of the current one, each in the order of its
    /// buckets.
    pub closed spec fn listing(self) -> Seq<Pair> {
        bucket_order(slot_items(pair_table_slots(self.old))) + bucket_order(slot_items(pair_table_slots(self.curr)))
    }

    /// The listing holds every element, as many times as the table does.
    pub proof fn lemma_listing_items(self)
        requires
            self.wf(),
        ensures
            self.listing().to_multiset() == self.items(),
            self.listing().len() == self@.len(),
    {
        let o = slot_items(pair_table_slots(self.old));
        let c = slot_items(pair_table_slots(self.curr));
        assert(o.dom() =~= pair_table_slots(self.old).dom());
        assert(c.dom() =~= pair_table_slots(self.curr).dom());
        lemma_bucket_order(o);
        lemma_bucket_order(c);
        vstd::seq_lib::lemma_multiset_commutative(bucket_order(o), bucket_order(c));
        lemma_items_parts(self);
        lemma_bag_of_len(pair_table_slots(self.old));
        lemma_bag_of_len(pair_table_slots(self.curr));
    }

    /// The entries by the place they sit in.
    pub closed spec fn placed(self) -> Map<Place, Slot> {
        tagged(pair_table_slots(self.old), true).union_prefer_right(tagged(pair_table_slots(self.curr), false))
    }

    /// The table holds the entries at its places.
    pub proof fn lemma_view_is_placed(self)
        requires
            self.wf(),
        ensures
            self.placed().dom().finite(),
            self@ == bag_of(self.placed()),
    {
        lemma_bag_of_tagged_union(pair_table_slots(self.old), pair_table_slots(self.curr));
    }

    /// Whether one more element fits and still leaves the current table
    /// room for every old element.
    pub closed spec fn can_insert(self) -> bool {
        self.room() >= 1 && self.room() >= self.pending()
    }

    /// The table's invariant: the current table has space for all the old
    /// elements, and, beyond them, for as many new ones as there are old
    /// elements but one, so that moving one old element with each insertion
    /// empties the old table before the current one fills; the buckets of
    /// the old table below `drain_from` are already empty.
    pub closed spec fn wf(self) -> bool {
        &&& pair_table_slots(self.old).dom().finite()
        &&& pair_table_slots(self.curr).dom().finite()
        &&& self.room() >= 0
        &&& self.room() + 1 >= self.pending()
        &&& forall|b: usize| #[trigger] pair_table_slots(self.old).contains_key(b) ==> b >= self.drain_from
    }

    /// The number of entries fits within the capacity.
    pub proof fn lemma_len_within_capacity(self)
        requires
            self.wf(),
        ensures
            self@.len() <= self.spec_capacity(),
            self@.len() == self.pending() + self.settled(),
            self.has_room() <==> self@.len() < self.spec_capacity(),
            self@ == self.pending_entries().add(self.settled_entries()),
    {
        lemma_bag_of_len(pair_table_slots(self.old));
        lemma_bag_of_len(pair_table_slots(self.curr));
    }

    /// An empty table that has not allocated.
    pub fn new() -> (table: Self)
        ensures
            table.wf(),
            table@ =~= Multiset::empty(),
            table.spec_capacity() == 0,
    {
        let table = IncHashTable { old: PairTable::new(), drain_from: 0, curr: PairTable::new() };
        proof {
            lemma_bag_of_len(pair_table_slots(table.old));
            lemma_bag_of_len(pair_table_slots(table.curr));
        }
        table
    }

    /// An empty table that holds at least `capacity` elements before it
    /// reallocates.
    pub fn with_capacity(capacity: usize) -> (table: Self)
        requires
            capacity <= capacity_limit(),
        ensures
            table.wf(),
            table@ =~= Multiset::empty(),
            table.spec_capacity() >= capacity,
    {
        let table = IncHashTable { old: PairTable::new(), drain_from: 0, curr: PairTable::with_capacity(capacity) };
        proof {
            lemma_bag_of_len(pair_table_slots(table.old));
            lemma_bag_of_len(pair_table_slots(table.curr));
        }
        table
    }

    /// The number of elements the table holds without reallocating.
    pub fn capacity(&self) -> (cap: usize)
        requires
            self.wf(),
        ensures
            cap == self.spec_capacity(),
            cap >= self@.len(),
    {
        proof { self.lemma_len_within_capacity(); }
        self.curr.capacity()
    }

    /// The number of elements.
    pub fn len(&self) -> (len: usize)
        requires
            self.wf(),
        ensures
            len == self@.len(),
    {
        proof {
            lemma_bag_of_len(pair_table_slots(self.old));
            lemma_bag_of_len(pair_table_slots(self.curr));
        }
        // Both lengths fit within the current capacity, a `usize`.
        let _cap = self.curr.capacity();
        self.old.len() + self.curr.len()
    }

    /// Whether the table holds no element.
    pub fn is_empty(&self) -> (empty: bool)
        requires
            self.wf(),
        ensures
            empty == (self@.len() == 0),
    {
        self.len() == 0
    }

    /// Removes every element; the current allocation stays.
    pub fn clear(&mut self)
        requires
            old(self).wf(),
        ensures
            final(self).wf(),
            final(self)@ =~= Multiset::empty(),
            final(self).spec_capacity() >= old(self).spec_capacity(),
    {
        self.old = PairTable::new();
        self.drain_from = 0;
        self.curr.clear();
        proof {
            lemma_bag_of_len(pair_table_slots(self.old));
            lemma_bag_of_len(pair_table_slots(self.curr));
        }
    }

    /// The bytes allocated by the table.
    pub fn allocation_size(&self) -> (size: usize)
        requires
            self.wf(),
        ensures
            size == self.spec_allocation(),
    {
        self.curr.allocation_size() + self.old.allocation_size()
    }

    /// An element for which `eq` holds, searching the old table first; or
    /// `None`, and then `eq` is false for every element placed under `hash`.
    pub fn find<F: Fn(&Pair) -> bool>(&self, hash: u64, eq: F) -> (found: Option<&Pair>)
        requires
            self.wf(),
            callable_on(eq, self@),
        ensures
            match found {
                Some(x) => call_ensures(eq, (x,), true) && exists|h: u64| self@.contains((h, *x)),
                None => forall|e: Slot| #[trigger] self@.contains(e) && e.0 == hash ==> call_ensures(eq, (&e.1,), false),
            },
    {
        proof { self.lemma_callable_on_parts(eq); }
        match self.old.find_bucket(hash, &eq) {
            Some(b) => {
                let x = self.old.get_bucket(b);
                proof {
                    lemma_bag_of_contains(pair_table_slots(self.old), pair_table_slots(self.old)[b]);
                    assert(self@.contains((pair_table_slots(self.old)[b].0, pair_table_slots(self.old)[b].1)));
                }
                x
            },
            None => {
                match self.curr.find_bucket(hash, &eq) {
                    Some(b) => {
                        let x = self.curr.get_bucket(b);
                        proof {
                            lemma_bag_of_contains(pair_table_slots(self.curr), pair_table_slots(self.curr)[b]);
                            assert(self@.contains((pair_table_slots(self.curr)[b].0, pair_table_slots(self.curr)[b].1)));
                        }
                        x
                    },
                    None => {
                        proof { self.lemma_absent_from_parts(hash, eq); }
                        None
                    },
                }
            },
        }
    }

    /// A closure callable on every entry is callable on every slot of both
    /// tables.
    proof fn lemma_callable_on_parts<R, F: Fn(&Pair) -> R>(self, f: F)
        requires
            self.wf(),
            callable_on(f, self@),
        ensures
            callable_on_all(f, pair_table_slots(self.old)),
            callable_on_all(f, pair_table_slots(self.curr)),
    {
        let o = pair_table_slots(self.old);
        let c = pair_table_slots(self.curr);
        assert forall|b: usize| #[trigger] o.contains_key(b) implies call_requires(f, (&o[b].1,)) by {
            lemma_bag_of_contains(o, o[b]);
            assert(self@.contains(o[b]));
        }
        assert forall|b: usize| #[trigger] c.contains_key(b) implies call_requires(f, (&c[b].1,)) by {
            lemma_bag_of_contains(c, c[b]);
            assert(self@.contains(c[b]));
        }
    }

    /// If neither table has an element placed under `hash` for which `eq`
    /// holds, the table has none.
    proof fn lemma_absent_from_parts<F: Fn(&Pair) -> bool>(self, hash: u64, eq: F)
        requires
            self.wf(),
            forall|b: usize|
                #![trigger pair_table_slots(self.old).contains_key(b)]
                pair_table_slots(self.old).contains_key(b) && pair_table_slots(self.old)[b].0 == hash
                    ==> call_ensures(eq, (&pair_table_slots(self.old)[b].1,), false),
            forall|b: usize|
                #![trigger pair_table_slots(self.curr).contains_key(b)]
                pair_table_slots(self.curr).contains_key(b) && pair_table_slots(self.curr)[b].0 == hash
                    ==> call_ensures(eq, (&pair_table_slots(self.curr)[b].1,), false),
        ensures
            forall|e: Slot| #[trigger] self@.contains(e) && e.0 == hash ==> call_ensures(eq, (&e.1,), false),
    {
        let o = pair_table_slots(self.old);
        let c = pair_table_slots(self.curr);
        assert forall|e: Slot| #[trigger] self@.contains(e) && e.0 == hash implies call_ensures(eq, (&e.1,), false) by {
            lemma_bag_of_contains(o, e);
            lemma_bag_of_contains(c, e);
            if bag_of(o).contains(e) {
                let b = choose|b: usize| o.contains_key(b) && o[b] == e;
                assert(o.contains_key(b));
            } else {
                let b = choose|b: usize| c.contains_key(b) && c[b] == e;
                assert(c.contains_key(b));
            }
        }
    }

    /// Moves one element, if any is left, from the old table into the
    /// current one, under the hash `hasher` gives for it. The entries stay the
    /// same.
    fn rehash_one<H: Fn(&Pair) -> u64>(&mut self, hasher: H) -> (moved: bool)
        requires
            old(self).wf(),
            agrees_with(hasher, old(self)@),
        ensures
            final(self).wf(),
            final(self)@ == old(self)@,
            final(self).room() >= old(self).room(),
            final(self).spec_capacity() >= old(self).spec_capacity(),
            moved == (old(self).pending() > 0),
            final(self).pending() == if moved { old(self).pending() - 1 } else { 0 },
            final(self).room() >= final(self).pending(),
            old(self).settled_entries() <= final(self).settled_entries(),
    {
        if self.old.len() == 0 {
            return false;
        }
        let ghost before = *self;
        let (e, Ghost(slot)) = pop_slot(&mut self.old, &mut self.drain_from);
        proof {
            lemma_bag_of_len(pair_table_slots(before.old));
            assert(bag_of(pair_table_slots(before.old)).contains(slot));
            assert(before@.contains(slot));
        }
        let hash = hasher(&e);
        let _b = self.curr.insert_unique(hash, e);
        if self.old.len() == 0 {
            self.old = PairTable::new();
            self.drain_from = 0;
        }
        proof {
            lemma_bag_of_insert(pair_table_slots(before.curr), _b, slot);
            lemma_bag_of_len(pair_table_slots(self.old));
            assert(self@ =~= before@);
        }
        true
    }

    /// Replaces the old table with `replace`, and moves every element of the
    /// old table for which `f` holds into the current table; the others are
    /// dropped. Returns the entries dropped.
    fn retain_rehash_old<F: Fn(&Pair) -> bool, H: Fn(&Pair) -> u64>(
        &mut self,
        replace: PairTable,
        f: F,
        hasher: H,
    ) -> (dropped: Ghost<Multiset<Slot>>)
        requires
            pair_table_slots(old(self).old).dom().finite(),
            pair_table_slots(old(self).curr).dom().finite(),
            forall|b: usize| #[trigger] pair_table_slots(old(self).old).contains_key(b) ==> b >= old(self).drain_from,
            pair_table_slots(replace).dom().finite(),
            pair_table_capacity(old(self).curr) >= pair_table_slots(old(self).curr).len() + pair_table_slots(
                old(self).old,
            ).len() + 2 * pair_table_slots(replace).len(),
            callable_on(f, bag_of(pair_table_slots(old(self).old))),
            agrees_with(hasher, bag_of(pair_table_slots(old(self).old))),
        ensures
            final(self).wf(),
            final(self).room() >= final(self).pending(),
            final(self).old == replace,
            final(self).drain_from == 0,
            bag_of(pair_table_slots(old(self).old)) == bag_of(pair_table_slots(final(self).curr)).sub(
                bag_of(pair_table_slots(old(self).curr)),
            ).add(dropped@),
            bag_of(pair_table_slots(old(self).curr)) <= bag_of(pair_table_slots(final(self).curr)),
            forall|e: Slot| #[trigger] dropped@.contains(e) ==> call_ensures(f, (&e.1,), false),
            forall|e: Slot|
                #[trigger] bag_of(pair_table_slots(final(self).curr)).count(e) > bag_of(
                    pair_table_slots(old(self).curr),
                ).count(e) ==> call_ensures(f, (&e.1,), true),
            pair_table_capacity(final(self).curr) >= pair_table_capacity(old(self).curr),
            pair_table_allocation(final(self).curr) == pair_table_allocation(old(self).curr),
    {
        let mut taken = replace;
        std::mem::swap(&mut self.old, &mut taken);
        let mut from = self.drain_from;
        self.drain_from = 0;
        let ghost curr0 = bag_of(pair_table_slots(self.curr));
        let ghost taken0 = bag_of(pair_table_slots(taken));
        let ghost mut kept: Multiset<Slot> = Multiset::empty();
        let ghost mut dropped: Multiset<Slot> = Multiset::empty();
        proof {
            lemma_bag_of_len(pair_table_slots(taken));
        }
        while taken.len() > 0
            invariant
                self.old == replace,
                self.drain_from == 0,
                pair_table_slots(self.curr).dom().finite(),
                pair_table_slots(taken).dom().finite(),
                forall|b: usize| #[trigger] pair_table_slots(taken).contains_key(b) ==> b >= from,
                pair_table_capacity(self.curr) >= pair_table_slots(self.curr).len() + pair_table_slots(
                    taken,
                ).len() + 2 * pair_table_slots(replace).len(),
                pair_table_capacity(self.curr) >= pair_table_capacity(old(self).curr),
                pair_table_allocation(self.curr) == pair_table_allocation(old(self).curr),
                curr0 == bag_of(pair_table_slots(old(self).curr)),
                taken0 == bag_of(pair_table_slots(old(self).old)),
                bag_of(pair_table_slots(self.curr)) == curr0.add(kept),
                taken0 == bag_of(pair_table_slots(taken)).add(kept).add(dropped),
                bag_of(pair_table_slots(taken)).len() == pair_table_slots(taken).len(),
                callable_on(f, taken0),
                agrees_with(hasher, taken0),
                forall|e: Slot| #[trigger] dropped.contains(e) ==> call_ensures(f, (&e.1,), false),
                forall|e: Slot| #[trigger] kept.contains(e) ==> call_ensures(f, (&e.1,), true),
            decreases pair_table_slots(taken).len(),
        {
            let ghost tb = bag_of(pair_table_slots(taken));
            let (e, Ghost(slot)) = pop_slot(&mut taken, &mut from);
            proof {
                lemma_bag_of_len(pair_table_slots(taken));
                assert(tb.contains(slot));
                assert(taken0.contains(slot));
            }
            let keep = f(&e);
            if keep {
                let hash = hasher(&e);
                let ghost cb = pair_table_slots(self.curr);
                let b = self.curr.insert_unique(hash, e);
                proof {
                    lemma_bag_of_insert(cb, b, slot);
                    assert(call_ensures(f, (&slot.1,), true));
                    let k0 = kept;
                    kept = kept.insert(slot);
                    assert forall|x: Slot| #[trigger] kept.contains(x) implies call_ensures(f, (&x.1,), true) by {
                        if x != slot {
                            assert(k0.contains(x));
                        }
                    }
                    assert(bag_of(pair_table_slots(self.curr)) =~= curr0.add(kept));
                    assert(taken0 =~= bag_of(pair_table_slots(taken)).add(kept).add(dropped));
                }
            } else {
                proof {
                    assert(call_ensures(f, (&slot.1,), false));
                    let d0 = dropped;
                    dropped = dropped.insert(slot);
                    assert forall|x: Slot| #[trigger] dropped.contains(x) implies call_ensures(f, (&x.1,), false) by {
                        if x != slot {
                            assert(d0.contains(x));
                        }
                    }
                    assert(taken0 =~= bag_of(pair_table_slots(taken)).add(kept).add(dropped));
                }
            }
        }
        proof {
            assert(bag_of(pair_table_slots(taken)) =~= Multiset::empty());
            assert(bag_of(pair_table_slots(self.curr)).sub(curr0) =~= kept);
            assert(taken0 =~= kept.add(dropped));
            assert forall|e: Slot|
                #[trigger] bag_of(pair_table_slots(self.curr)).count(e) > curr0.count(e) implies call_ensures(
                f,
                (&e.1,),
                true,
            ) by {
                assert(kept.contains(e));
            }
        }
        Ghost(dropped)
    }

    /// The bag of the current table after `retain_rehash_old` kept every
    /// old element: the old elements joined the current ones.
    proof fn lemma_kept_all<F: Fn(&Pair) -> bool>(
        f: F,
        old_bag: Multiset<Slot>,
        curr0: Multiset<Slot>,
        curr1: Multiset<Slot>,
        dropped: Multiset<Slot>,
    )
        requires
            forall|x: &Pair, keep: bool| call_ensures(f, (x,), keep) ==> keep,
            old_bag == curr1.sub(curr0).add(dropped),
            curr0 <= curr1,
            forall|e: Slot| #[trigger] dropped.contains(e) ==> call_ensures(f, (&e.1,), false),
        ensures
            curr1 == curr0.add(old_bag),
    {
        assert forall|e: Slot| dropped.count(e) == 0 by {
            if dropped.count(e) > 0 {
                assert(dropped.contains(e));
            }
        }
        assert(curr1 =~= curr0.add(old_bag));
    }

    /// Allocates a new current table with room for twice the current
    /// elements (more if `additional` asks for more) and for the old ones;
    /// the current table becomes the old one, and what was left in the old
    /// table moves into the new one at once.
    #[verifier::rlimit(30)]
    fn reserve_realloc<H: Fn(&Pair) -> u64>(&mut self, additional: usize, hasher: H)
        requires
            old(self).wf(),
            agrees_with(hasher, old(self)@),
            old(self).settled() + spec_max(additional as int, old(self).settled() as int) + old(self).pending()
                <= capacity_limit(),
        ensures
            final(self).wf(),
            final(self)@ == old(self)@,
            final(self).room() >= additional,
            final(self).room() >= final(self).pending(),
            final(self).pending() == old(self).settled(),
            final(self).spec_capacity() >= old(self).settled() + spec_max(additional as int, old(self).settled() as int)
                + old(self).pending(),
    {
        let cap = new_cap(self.old.len(), self.curr.len(), additional).expect("new capacity should not overflow usize");
        let mut prev = PairTable::with_capacity(cap);
        std::mem::swap(&mut self.curr, &mut prev);
        let ghost pre = *old(self);
        proof {
            lemma_bag_of_len(pair_table_slots(pre.old));
            lemma_bag_of_len(pair_table_slots(pre.curr));
            lemma_bag_of_len(pair_table_slots(self.curr));
            assert(bag_of(pair_table_slots(self.curr)) =~= Multiset::empty());
            assert forall|e: Slot| #[trigger] bag_of(pair_table_slots(pre.old)).contains(e) implies {
                &&& call_requires(hasher, (&e.1,))
                &&& forall|h: u64| call_ensures(hasher, (&e.1,), h) ==> h == e.0
            } by {
                assert(pre@.contains(e));
            }
        }
        let keep_all = |_x: &Pair| -> (keep: bool)
            ensures
                keep,
            { true };
        let ghost next_bag = bag_of(pair_table_slots(self.curr));
        let Ghost(dropped) = self.retain_rehash_old(prev, keep_all, hasher);
        proof {
            Self::lemma_kept_all(
                keep_all,
                bag_of(pair_table_slots(pre.old)),
                next_bag,
                bag_of(pair_table_slots(self.curr)),
                dropped,
            );
            lemma_bag_of_len(pair_table_slots(self.curr));
            lemma_bag_of_len(pair_table_slots(self.old));
            assert(self@ =~= pre@);
        }
    }

    /// Makes sure `additional` more elements fit without reallocating.
    /// When they do not, a new table is allocated, and the elements still
    /// left in the old table are moved at once.
    pub fn reserve<H: Fn(&Pair) -> u64>(&mut self, additional: usize, hasher: H)
        requires
            old(self).wf(),
            agrees_with(hasher, old(self)@),
            2 * old(self)@.len() + additional <= capacity_limit(),
        ensures
            final(self).wf(),
            final(self)@ == old(self)@,
            final(self)@.len() + additional <= final(self).spec_capacity(),
            old(self)@.len() + additional <= old(self).spec_capacity() ==> *final(self) == *old(self),
            old(self).room() >= old(self).pending() ==> final(self).room() >= final(self).pending(),
            old(self)@.len() + additional > old(self).spec_capacity() ==> {
                &&& final(self).pending() == old(self).settled()
                &&& final(self).spec_capacity() >= old(self).settled() + spec_max(
                    additional as int,
                    old(self).settled() as int,
                ) + old(self).pending()
            },
    {
        proof { self.lemma_len_within_capacity(); }
        let growth_left = self.curr.capacity() - self.curr.len() - self.old.len();
        if additional > growth_left {
            self.reserve_realloc(additional, hasher);
        }
        proof { self.lemma_len_within_capacity(); }
    }

    /// Inserts `value` under `hash`, without looking for an equal element.
    /// Moves one old element into the current table first, and grows the
    /// table if it is full; `hasher` must give each element the hash it was
    /// placed under. A table with room, or with two or more old elements,
    /// moves exactly one old element, if it has any, and does not grow. A
    /// table that grows leaves all its earlier elements waiting in the old
    /// table, and the new one takes at least twice as many.
    pub fn insert_unique<H: Fn(&Pair) -> u64>(&mut self, hash: u64, value: Pair, hasher: H) -> (entry: OccupiedEntry<'_>)
        requires
            old(self).wf(),
            agrees_with(hasher, old(self)@),
            2 * old(self)@.len() + 1 <= capacity_limit(),
        ensures
            entry.wf(),
            entry.slot() == (hash, value),
            entry.hash == hash,
            (*entry.table)@ == old(self)@.insert((hash, value)),
            old(self).has_room() ==> (*entry.table).pending() == if old(self).pending() > 0 {
                old(self).pending() - 1
            } else {
                0
            },
            old(self).pending() >= 2 ==> (*entry.table).pending() == old(self).pending() - 1,
            old(self).pending() < 2 ==> (*entry.table).pending() == 0 || {
                &&& (*entry.table).pending() == old(self)@.len()
                &&& (*entry.table).spec_capacity() >= old(self)@.len() + spec_max(1, old(self)@.len() as int)
            },
            *final(self) == *final(entry.table),
    {
        self.rehash_one(&hasher);
        proof {
            self.lemma_len_within_capacity();
        }
        self.reserve(1, &hasher);
        let ghost pre = *self;
        proof { self.lemma_len_within_capacity(); }
        let b = self.curr.insert_unique(hash, value);
        proof {
            lemma_bag_of_insert(pair_table_slots(pre.curr), b, (hash, value));
            assert(self@ =~= pre@.insert((hash, value)));
        }
        OccupiedEntry { table: self, bucket: b, hash }
    }

    /// Moves every old element into the current table at once, each under
    /// the hash `hasher` gives for it, and gives up the old table.
    pub(crate) fn settle<H: Fn(&Pair) -> u64>(&mut self, hasher: H)
        requires
            old(self).wf(),
            agrees_with(hasher, old(self)@),
        ensures
            final(self).wf(),
            final(self)@ == old(self)@,
            final(self).pending() == 0,
            final(self).spec_capacity() >= old(self).spec_capacity(),
            final(self).spec_allocation() <= old(self).spec_allocation(),
            pair_table_allocation(final(self).old) == 0,
            pair_table_allocation(final(self).curr) == pair_table_allocation(old(self).curr),
    {
        let ghost pre = *self;
        proof {
            assert forall|e: Slot| #[trigger] bag_of(pair_table_slots(pre.old)).contains(e) implies {
                &&& call_requires(hasher, (&e.1,))
                &&& forall|h: u64| call_ensures(hasher, (&e.1,), h) ==> h == e.0
            } by {
                assert(pre@.contains(e));
            }
            lemma_bag_of_len(pair_table_slots(pre.old));
            lemma_bag_of_len(pair_table_slots(pre.curr));
        }
        let keep_all = |_x: &Pair| -> (keep: bool)
            ensures
                keep,
            { true };
        let Ghost(dropped) = self.retain_rehash_old(PairTable::new(), keep_all, &hasher);
        proof {
            Self::lemma_kept_all(
                keep_all,
                bag_of(pair_table_slots(pre.old)),
                bag_of(pair_table_slots(pre.curr)),
                bag_of(pair_table_slots(self.curr)),
                dropped,
            );
            lemma_bag_of_len(pair_table_slots(self.old));
            lemma_bag_of_len(pair_table_slots(self.curr));
            assert(self@ =~= pre@);
            self.lemma_len_within_capacity();
        }
    }

    /// Shrinks the allocation as far as hashbrown's resize policy allows.
    /// This is not incremental: every old element moves at once.
    pub fn shrink_to_fit<H: Fn(&Pair) -> u64>(&mut self, hasher: H)
        requires
            old(self).wf(),
            agrees_with(hasher, old(self)@),
        ensures
            final(self).wf(),
            final(self)@ == old(self)@,
            final(self).pending() == 0,
            final(self).spec_allocation() <= old(self).spec_allocation(),
            final(self)@.len() == 0 ==> final(self).spec_capacity() == 0 && final(self).spec_allocation() == 0,
            final(self).spec_capacity() <= spec_max(14, 2 * final(self)@.len() as int),
    {
        let ghost pre = *self;
        self.settle(&hasher);
        let ghost mid = *self;
        proof {
            lemma_agrees_slots(hasher, pair_table_slots(self.curr), pre@);
        }
        self.curr.shrink_to_fit(&hasher);
        proof {
            lemma_bag_of_len(pair_table_slots(self.old));
            lemma_bag_of_len(pair_table_slots(mid.curr));
            lemma_bag_of_len(pair_table_slots(self.curr));
            assert(self@ =~= pre@);
            self.lemma_len_within_capacity();
        }
    }

    /// The element in bucket `b` of the current table, to be changed in place.
    pub(crate) fn curr_bucket_mut(&mut self, b: usize) -> (elem: &mut Pair)
        requires
            pair_table_slots(old(self).curr).contains_key(b),
        ensures
            *elem == pair_table_slots(old(self).curr)[b].1,
            pair_table_slots(final(self).curr) == pair_table_slots(old(self).curr).insert(
                b,
                (pair_table_slots(old(self).curr)[b].0, *final(elem)),
            ),
            pair_table_capacity(final(self).curr) == pair_table_capacity(old(self).curr),
            pair_table_allocation(final(self).curr) == pair_table_allocation(old(self).curr),
            final(self).old == old(self).old,
            final(self).drain_from == old(self).drain_from,
    {
        self.curr.get_bucket_mut(b).unwrap()
    }

    /// Replaces the element in bucket `b` of the current table.
    pub(crate) fn set_curr_item(&mut self, b: usize, value: Pair)
        requires
            old(self).wf(),
            pair_table_slots(old(self).curr).contains_key(b),
        ensures
            final(self).wf(),
            pair_table_slots(final(self).curr) == pair_table_slots(old(self).curr).insert(
                b,
                (pair_table_slots(old(self).curr)[b].0, value),
            ),
            final(self)@ == old(self)@.remove(pair_table_slots(old(self).curr)[b]).insert(
                (pair_table_slots(old(self).curr)[b].0, value),
            ),
            final(self).spec_capacity() == old(self).spec_capacity(),
            final(self).room() == old(self).room(),
    {
        let ghost m = pair_table_slots(self.curr);
        let ghost pre = *self;
        let elem = self.curr.get_bucket_mut(b).unwrap();
        *elem = value;
        proof {
            lemma_bag_of_update(m, b, (m[b].0, value));
            lemma_bag_of_contains(m, m[b]);
            assert(m.insert(b, (m[b].0, value)).dom() =~= m.dom());
            assert(self@ =~= pre@.remove(m[b]).insert((m[b].0, value)));
        }
    }

    /// Finds an element for which `eq` holds and returns an entry for it; an
    /// element found in the old table first moves into the current one,
    /// under `hash`. Otherwise hands the table back; then `eq` is false for
    /// every element placed under `hash`.
    pub fn find_entry<F: Fn(&Pair) -> bool>(&mut self, hash: u64, eq: F) -> (found: Result<OccupiedEntry<'_>, AbsentEntry<'_>>)
        requires
            old(self).wf(),
            callable_on(eq, old(self)@),
        ensures
            match found {
                Ok(entry) => {
                    &&& entry.wf()
                    &&& entry.hash == hash
                    &&& (entry.slot().0 == hash || old(self)@.contains(entry.slot()))
                    &&& call_ensures(eq, (&entry.slot().1,), true)
                    &&& exists|h: u64|
                        #![trigger old(self)@.contains((h, entry.slot().1))]
                        old(self)@.contains((h, entry.slot().1)) && (*entry.table)@ == old(self)@.remove(
                            (h, entry.slot().1),
                        ).insert(entry.slot())
                    &&& (*entry.table).spec_capacity() >= old(self).spec_capacity()
                    &&& (*entry.table).spec_capacity() <= old(self).spec_capacity() + 1
                    &&& (*entry.table).spec_allocation() == old(self).spec_allocation()
                    &&& (*entry.table).pending() == old(self).pending() || (*entry.table).pending() + 1
                        == old(self).pending()
                    &&& (*entry.table).pending() == old(self).pending() ==> *entry.table == *old(self)
                    &&& *final(self) == *final(entry.table)
                },
                Err(absent) => {
                    &&& *absent.table == *old(self)
                    &&& forall|e: Slot|
                        #[trigger] old(self)@.contains(e) && e.0 == hash ==> call_ensures(eq, (&e.1,), false)
                    &&& *final(self) == *final(absent.table)
                },
            },
    {
        proof { self.lemma_callable_on_parts(eq); }
        let ghost pre = *self;
        match self.old.find_bucket(hash, &eq) {
            Some(b) => {
                let ghost slot = pair_table_slots(pre.old)[b];
                proof {
                    lemma_bag_of_remove(pair_table_slots(pre.old), b);
                    lemma_bag_of_len(pair_table_slots(pre.old));
                    lemma_bag_of_len(pair_table_slots(pre.curr));
                }
                let e = self.old.remove_bucket(b).unwrap();
                let ghost mid_curr = pair_table_slots(self.curr);
                let nb = self.curr.insert_unique(hash, e);
                proof {
                    lemma_bag_of_insert(mid_curr, nb, (hash, e));
                    lemma_bag_of_len(pair_table_slots(self.old));
                    lemma_bag_of_len(pair_table_slots(self.curr));
                    lemma_bag_of_contains(pair_table_slots(pre.old), slot);
                    assert(self@ =~= pre@.remove(slot).insert((hash, e)));
                    assert(pre@.contains((slot.0, e)));
                }
                return Ok(OccupiedEntry { table: self, bucket: nb, hash });
            },
            None => {},
        }
        match self.curr.find_bucket(hash, &eq) {
            Some(b) => {
                proof {
                    let slot = pair_table_slots(pre.curr)[b];
                    lemma_bag_of_contains(pair_table_slots(pre.curr), slot);
                    assert(pre@.contains((slot.0, slot.1)));
                    assert(pre@.remove(slot).insert(slot) =~= pre@);
                }
                Ok(OccupiedEntry { table: self, bucket: b, hash })
            },
            None => {
                proof { pre.lemma_absent_from_parts(hash, eq); }
                Err(AbsentEntry { table: self })
            },
        }
    }

    /// Finds an element for which `eq` holds, or makes room for one under
    /// `hash`. An element found in the old table moves into the current one
    /// first. Otherwise one old element moves and the current table is
    /// searched; only when nothing is found does the table grow if it is
    /// full, so the entry is vacant exactly when no element placed under
    /// `hash` satisfies `eq`. Either way one old element moves, and while two
    /// or more wait the table does not grow; when it grows, all its elements
    /// wait in the old table, and the new one takes at least twice as many.
    pub fn entry<F: Fn(&Pair) -> bool, H: Fn(&Pair) -> u64>(&mut self, hash: u64, eq: F, hasher: H) -> (entry: Entry<'_>)
        requires
            old(self).wf(),
            callable_on(eq, old(self)@),
            agrees_with(hasher, old(self)@),
            2 * old(self)@.len() + 1 <= capacity_limit(),
        ensures
            match entry {
                Entry::Occupied(o) => {
                    &&& o.wf()
                    &&& o.hash == hash
                    &&& call_ensures(eq, (&o.slot().1,), true)
                    &&& old(self)@.contains(o.slot())
                    &&& (*o.table)@ == old(self)@
                    &&& (*o.table).pending() == if old(self).pending() > 0 {
                        old(self).pending() - 1
                    } else {
                        0
                    }
                    &&& *final(self) == *final(o.table)
                },
                Entry::Vacant(v) => {
                    &&& v.wf()
                    &&& v.hash == hash
                    &&& (*v.table)@ == old(self)@
                    &&& old(self).pending() >= 2 ==> (*v.table).pending() == old(self).pending() - 1
                    &&& old(self).pending() < 2 ==> (*v.table).pending() == 0 || {
                        &&& (*v.table).pending() == old(self)@.len()
                        &&& (*v.table).spec_capacity() >= old(self)@.len() + spec_max(1, old(self)@.len() as int)
                    }
                    &&& forall|e: Slot|
                        #[trigger] old(self)@.contains(e) && e.0 == hash ==> call_ensures(eq, (&e.1,), false)
                    &&& *final(self) == *final(v.table)
                },
            },
    {
        proof {
            self.lemma_callable_on_parts(eq);
            self.lemma_len_within_capacity();
        }
        let ghost pre = *self;
        match self.old.find_bucket(hash, &eq) {
            Some(b) => {
                let ghost slot = pair_table_slots(pre.old)[b];
                proof {
                    lemma_bag_of_remove(pair_table_slots(pre.old), b);
                    lemma_bag_of_len(pair_table_slots(pre.old));
                    lemma_bag_of_len(pair_table_slots(pre.curr));
                    lemma_bag_of_contains(pair_table_slots(pre.old), slot);
                    assert(pre@.contains(slot));
                }
                let e = self.old.remove_bucket(b).unwrap();
                let h = hasher(&e);
                let ghost mid_curr = pair_table_slots(self.curr);
                let nb = self.curr.insert_unique(h, e);
                proof {
                    lemma_bag_of_insert(mid_curr, nb, (h, e));
                    lemma_bag_of_len(pair_table_slots(self.old));
                    lemma_bag_of_len(pair_table_slots(self.curr));
                    assert(h == slot.0);
                    assert(self@ =~= pre@);
                    assert(pair_table_slots(self.curr)[nb] == slot);
                }
                return Entry::Occupied(OccupiedEntry { table: self, bucket: nb, hash });
            },
            None => {},
        }
        proof {
            let o = pair_table_slots(pre.old);
            assert forall|e: Slot| #[trigger] pre.pending_entries().contains(e) && e.0 == hash implies call_ensures(
                eq,
                (&e.1,),
                false,
            ) by {
                lemma_bag_of_contains(o, e);
                let b = choose|b: usize| o.contains_key(b) && o[b] == e;
                assert(o.contains_key(b));
            }
        }
        self.rehash_one(&hasher);
        let ghost after_move = *self;
        proof {
            self.lemma_callable_on_parts(eq);
        }
        match self.curr.find_bucket(hash, &eq) {
            Some(b) => {
                proof {
                    let slot = pair_table_slots(self.curr)[b];
                    lemma_bag_of_contains(pair_table_slots(self.curr), slot);
                    assert(self@.contains(slot));
                }
                return Entry::Occupied(OccupiedEntry { table: self, bucket: b, hash });
            },
            None => {},
        }
        proof {
            let c = pair_table_slots(self.curr);
            pre.lemma_len_within_capacity();
            after_move.lemma_len_within_capacity();
            assert forall|e: Slot| #[trigger] pre@.contains(e) && e.0 == hash implies call_ensures(
                eq,
                (&e.1,),
                false,
            ) by {
                if !pre.pending_entries().contains(e) {
                    assert(pre.settled_entries().contains(e));
                    assert(after_move.settled_entries().contains(e));
                    lemma_bag_of_contains(c, e);
                    let b = choose|b: usize| c.contains_key(b) && c[b] == e;
                    assert(c.contains_key(b));
                }
            }
        }
        self.reserve(1, &hasher);
        proof {
            self.lemma_len_within_capacity();
        }
        Entry::Vacant(VacantEntry { table: self, hash })
    }

    /// Hands every element to `f` to change in place and keeps those for
    /// which it returns true, where they were and as `f` left them.
    pub fn retain<F: Fn(&mut Pair) -> bool>(&mut self, f: F)
        requires
            old(self).wf(),
            forall|p: &mut Pair| call_requires(f, (p,)),
        ensures
            final(self).wf(),
            final(self).placed().dom().subset_of(old(self).placed().dom()),
            forall|q: Place|
                #[trigger] old(self).placed().contains_key(q) ==> exists|p: &mut Pair|
                    {
                        &&& *p == old(self).placed()[q].1
                        &&& call_ensures(f, (p,), final(self).placed().contains_key(q))
                        &&& final(self).placed().contains_key(q) ==> final(self).placed()[q] == (
                        old(self).placed()[q].0,
                        *final(p),
                    )
                    },
    {
        let ghost pre = *self;
        self.curr.retain(&f);
        self.old.retain(&f);
        proof {
            let (mo, so) = (pair_table_slots(pre.old), pair_table_slots(self.old));
            let (mc, sc) = (pair_table_slots(pre.curr), pair_table_slots(self.curr));
            vstd::set_lib::lemma_len_subset(so.dom(), mo.dom());
            vstd::set_lib::lemma_len_subset(sc.dom(), mc.dom());
            assert(self.placed().dom().subset_of(pre.placed().dom()));
            assert forall|q: Place| #[trigger] pre.placed().contains_key(q) implies exists|p: &mut Pair|
                {
                    &&& *p == pre.placed()[q].1
                    &&& call_ensures(f, (p,), self.placed().contains_key(q))
                    &&& self.placed().contains_key(q) ==> self.placed()[q] == (pre.placed()[q].0, *final(p))
                } by {
                if q.0 {
                    assert(mo.contains_key(q.1));
                } else {
                    assert(mc.contains_key(q.1));
                }
            }
            assert forall|b: usize| #[trigger] so.contains_key(b) implies b >= self.drain_from by {
                assert(mo.contains_key(b));
            }
        }
    }

    /// Removes every element and returns them; the current table keeps its
    /// allocation, the old one gives its own up.
    pub fn drain(&mut self) -> (drained: Vec<Pair>)
        requires
            old(self).wf(),
        ensures
            final(self).wf(),
            final(self)@ =~= Multiset::empty(),
            drained@.to_multiset() == old(self).items(),
            drained@ == old(self).listing(),
            final(self).pending() == 0,
            final(self).spec_capacity() >= old(self).spec_capacity(),
            final(self).spec_allocation() <= old(self).spec_allocation(),
    {
        let ghost pre = *self;
        let mut old_table = PairTable::new();
        std::mem::swap(&mut self.old, &mut old_table);
        self.drain_from = 0;
        let mut drained = old_table.drain();
        let mut rest = self.curr.drain();
        proof {
            vstd::seq_lib::lemma_multiset_commutative(drained@, rest@);
        }
        drained.append(&mut rest);
        proof {
            lemma_items_parts(pre);
            lemma_bag_of_len(pair_table_slots(self.old));
            lemma_bag_of_len(pair_table_slots(self.curr));
        }
        drained
    }

    /// Hands every element to `f` to change in place, takes out those for
    /// which it returns true and returns them as `f` left them, those of the
    /// old table first; the others stay where they were, as `f` left them.
    pub fn extract_if<F: Fn(&mut Pair) -> bool>(&mut self, f: F) -> (taken: Vec<Pair>)
        requires
            old(self).wf(),
            forall|p: &mut Pair| call_requires(f, (p,)),
        ensures
            final(self).wf(),
            final(self).placed().dom().subset_of(old(self).placed().dom()),
            exists|after: Map<Place, Slot>|
                {
                    &&& after.dom() == old(self).placed().dom()
                    &&& forall|q: Place|
                        #![trigger after.contains_key(q)]
                        after.contains_key(q) ==> after[q].0 == old(self).placed()[q].0 && exists|p: &mut Pair|
                            {
                                &&& *p == old(self).placed()[q].1
                                &&& *final(p) == after[q].1
                                &&& call_ensures(f, (p,), !final(self).placed().contains_key(q))
                            }
                    &&& forall|q: Place|
                        #![trigger final(self).placed().contains_key(q)]
                        final(self).placed().contains_key(q) ==> final(self).placed()[q] == after[q]
                    &&& taken@.to_multiset() == strip(bag_of(after.remove_keys(final(self).placed().dom())))
                },
    {
        let ghost pre = *self;
        let mut taken = self.old.extract_if(&f);
        let mut rest = self.curr.extract_if(&f);
        let ghost taken_old = taken@;
        let ghost taken_curr = rest@;
        proof {
            vstd::seq_lib::lemma_multiset_commutative(taken@, rest@);
        }
        taken.append(&mut rest);
        proof {
            let (mo, so) = (pair_table_slots(pre.old), pair_table_slots(self.old));
            let (mc, sc) = (pair_table_slots(pre.curr), pair_table_slots(self.curr));
            vstd::set_lib::lemma_len_subset(so.dom(), mo.dom());
            vstd::set_lib::lemma_len_subset(sc.dom(), mc.dom());
            let ao = choose|after: Map<usize, Slot>|
                {
                    &&& after.dom() == mo.dom()
                    &&& forall|b: usize|
                        #![trigger after.contains_key(b)]
                        after.contains_key(b) ==> after[b].0 == mo[b].0 && exists|p: &mut Pair|
                            {
                                &&& *p == mo[b].1
                                &&& *final(p) == after[b].1
                                &&& call_ensures(f, (p,), !so.contains_key(b))
                            }
                    &&& forall|b: usize| #![trigger so.contains_key(b)] so.contains_key(b) ==> so[b] == after[b]
                    &&& taken_old.to_multiset() == bag_of(slot_items(after.remove_keys(so.dom())))
                };
            let ac = choose|after: Map<usize, Slot>|
                {
                    &&& after.dom() == mc.dom()
                    &&& forall|b: usize|
                        #![trigger after.contains_key(b)]
                        after.contains_key(b) ==> after[b].0 == mc[b].0 && exists|p: &mut Pair|
                            {
                                &&& *p == mc[b].1
                                &&& *final(p) == after[b].1
                                &&& call_ensures(f, (p,), !sc.contains_key(b))
                            }
                    &&& forall|b: usize| #![trigger sc.contains_key(b)] sc.contains_key(b) ==> sc[b] == after[b]
                    &&& taken_curr.to_multiset() == bag_of(slot_items(after.remove_keys(sc.dom())))
                };
            let after = tagged(ao, true).union_prefer_right(tagged(ac, false));
            let ro = ao.remove_keys(so.dom());
            let rc = ac.remove_keys(sc.dom());
            assert(after.dom() =~= pre.placed().dom());
            assert forall|q: Place| #![trigger after.contains_key(q)] after.contains_key(q) implies after[q].0
                == pre.placed()[q].0 && exists|p: &mut Pair|
                {
                    &&& *p == pre.placed()[q].1
                    &&& *final(p) == after[q].1
                    &&& call_ensures(f, (p,), !self.placed().contains_key(q))
                } by {
                if q.0 {
                    assert(ao.contains_key(q.1));
                } else {
                    assert(ac.contains_key(q.1));
                }
            }
            assert forall|q: Place| #![trigger self.placed().contains_key(q)] self.placed().contains_key(q)
                implies self.placed()[q] == after[q] by {
                if q.0 {
                    assert(so.contains_key(q.1));
                } else {
                    assert(sc.contains_key(q.1));
                }
            }
            assert(after.remove_keys(self.placed().dom()) =~= tagged(ro, true).union_prefer_right(tagged(rc, false)));
            assert(ro.dom().finite() && rc.dom().finite()) by {
                assert(ro.dom() =~= mo.dom().difference(so.dom()));
                assert(rc.dom() =~= mc.dom().difference(sc.dom()));
            }
            lemma_bag_of_tagged_union(ro, rc);
            lemma_bag_of_map_values(ro);
            lemma_bag_of_map_values(rc);
            assert(slot_items(ro) =~= ro.map_values(|s: Slot| s.1));
            assert(slot_items(rc) =~= rc.map_values(|s: Slot| s.1));
            lemma_strip_add(bag_of(ro), bag_of(rc));
            assert forall|b: usize| #[trigger] so.contains_key(b) implies b >= self.drain_from by {
                assert(mo.contains_key(b));
            }
        }
        taken
    }

    /// Every element, those of the old table first.
    pub fn iter(&self) -> (items: Vec<Pair>)
        requires
            self.wf(),
        ensures
            items@.to_multiset() == self.items(),
            items@ == self.listing(),
    {
        let mut items = self.old.items();
        let mut rest = self.curr.items();
        proof {
            vstd::seq_lib::lemma_multiset_commutative(items@, rest@);
        }
        items.append(&mut rest);
        proof {
            lemma_items_parts(*self);
        }
        items
    }

    /// Lets `f` change every element in place, once each, those of the old
    /// table first. Each element stays filed under the hash it was placed
    /// under, so `f` should leave unchanged what the hash is computed from.
    pub fn iter_mut<F: Fn(&mut Pair)>(&mut self, f: F)
        requires
            old(self).wf(),
            forall|p: &mut Pair| call_requires(f, (p,)),
        ensures
            final(self).wf(),
            final(self).spec_capacity() == old(self).spec_capacity(),
            final(self).spec_allocation() == old(self).spec_allocation(),
            final(self).pending() == old(self).pending(),
            final(self).room() == old(self).room(),
            exists|before: Seq<Slot>, after: Seq<Slot>|
                {
                    &&& before.to_multiset() == old(self)@
                    &&& after.to_multiset() == final(self)@
                    &&& before.len() == after.len()
                    &&& forall|i: int|
                        0 <= i < before.len() ==> #[trigger] after[i].0 == before[i].0 && exists|p: &mut Pair|
                            *p == before[i].1 && *final(p) == after[i].1 && call_ensures(f, (p,), ())
                },
    {
        let ghost pre = *self;
        let changed_old = change_each(&mut self.old, &f);
        let changed_curr = change_each(&mut self.curr, &f);
        proof {
            let before = changed_old@.0 + changed_curr@.0;
            let after = changed_old@.1 + changed_curr@.1;
            vstd::seq_lib::lemma_multiset_commutative(changed_old@.0, changed_curr@.0);
            vstd::seq_lib::lemma_multiset_commutative(changed_old@.1, changed_curr@.1);
            lemma_bag_of_len(pair_table_slots(pre.old));
            lemma_bag_of_len(pair_table_slots(self.old));
            lemma_bag_of_len(pair_table_slots(pre.curr));
            lemma_bag_of_len(pair_table_slots(self.curr));
            assert forall|i: int| 0 <= i < before.len() implies #[trigger] after[i].0 == before[i].0 && exists|p: &mut Pair|
                *p == before[i].1 && *final(p) == after[i].1 && call_ensures(f, (p,), ()) by {
                if i < changed_old@.0.len() {
                    assert(before[i] == changed_old@.0[i] && after[i] == changed_old@.1[i]);
                } else {
                    let j = i - changed_old@.0.len();
                    assert(before[i] == changed_curr@.0[j] && after[i] == changed_curr@.1[j]);
                }
            }
            assert forall|b: usize| #[trigger] pair_table_slots(self.old).contains_key(b) implies b >= self.drain_from by {
                assert(pair_table_slots(pre.old).contains_key(b));
            }
        }
    }

    /// Consumes the table and returns every element, those of the old table
    /// first.
    pub fn into_vec(self) -> (items: Vec<Pair>)
        requires
            self.wf(),
        ensures
            items@.to_multiset() == self.items(),
            items@ == self.listing(),
    {
        let mut table = self;
        table.drain()
    }
}

/// An element found in, or just inserted into, the current table of a
/// borrowed table, with the hash it was looked up or inserted with. The
/// borrow lasts as long as the entry.
pub struct OccupiedEntry<'a> {
    pub table: &'a mut IncHashTable,
    pub bucket: usize,
    pub hash: u64,
}

/// A place for an element under `hash`, in a borrowed table that has room
/// for one more element.
pub struct VacantEntry<'a> {
    pub table: &'a mut IncHashTable,
    pub hash: u64,
}

/// The result of a search that found nothing; it hands the table back.
pub struct AbsentEntry<'a> {
    pub table: &'a mut IncHashTable,
}

/// The result of `IncHashTable::entry`.
pub enum Entry<'a> {
    Occupied(OccupiedEntry<'a>),
    Vacant(VacantEntry<'a>),
}

impl<'a> OccupiedEntry<'a> {
    /// The table is well formed and the bucket of the entry is occupied.
    pub open spec fn wf(&self) -> bool {
        &&& (*self.table).wf()
        &&& self.occupied()
    }

    /// The bucket of the entry is occupied.
    pub closed spec fn occupied(&self) -> bool {
        pair_table_slots(self.table.curr).contains_key(self.bucket)
    }

    /// The entry's element, with the hash it is placed under.
    pub closed spec fn slot(&self) -> Slot {
        pair_table_slots(self.table.curr)[self.bucket]
    }

    /// The entry is one of the table's entries.
    pub proof fn lemma_slot_in_table(&self)
        requires
            self.wf(),
        ensures
            (*old(self.table))@.contains(self.slot()),
    {
        lemma_bag_of_contains(pair_table_slots(self.table.curr), self.slot());
    }

    /// The element.
    pub fn get(&self) -> (elem: &Pair)
        requires
            self.wf(),
        ensures
            *elem == self.slot().1,
    {
        self.table.curr.get_bucket(self.bucket).unwrap()
    }

    /// The element, to be changed in place while the entry is borrowed; it
    /// stays under the hash it was placed under.
    pub fn get_mut(&mut self) -> (elem: &mut Pair)
        requires
            old(self).wf(),
        ensures
            *elem == old(self).slot().1,
            final(self).bucket == old(self).bucket,
            final(self).hash == old(self).hash,
            final(self).wf(),
            final(self).slot() == (old(self).slot().0, *final(elem)),
            (*final(self).table)@ == (*old(self).table)@.remove(old(self).slot()).insert(
                (old(self).slot().0, *final(elem)),
            ),
            (*final(self).table).spec_capacity() == (*old(self).table).spec_capacity(),
            *final(final(self).table) == *final(old(self).table),
    {
        let ghost pre = *self.table;
        let ghost m = pair_table_slots(pre.curr);
        let ghost b = self.bucket;
        proof {
            lemma_bag_of_contains(m, m[b]);
            assert forall|v: Slot| #[trigger] bag_of(pair_table_slots(pre.old)).add(bag_of(m.insert(b, v)))
                == pre@.remove(m[b]).insert(v) by {
                lemma_bag_of_update(m, b, v);
                assert(bag_of(pair_table_slots(pre.old)).add(bag_of(m.insert(b, v))) =~= pre@.remove(m[b]).insert(v));
            }
            assert forall|v: Slot| #[trigger] m.insert(b, v).dom() == m.dom() by {
                assert(m.insert(b, v).dom() =~= m.dom());
            }
        }
        self.table.curr_bucket_mut(self.bucket)
    }

    /// The element, to be changed in place until the table's borrow ends;
    /// it stays under the hash it was placed under.
    pub fn into_mut(self) -> (elem: &'a mut Pair)
        requires
            self.wf(),
        ensures
            *elem == self.slot().1,
            (*final(self.table)).wf(),
            (*final(self.table))@ == (*old(self.table))@.remove(self.slot()).insert((self.slot().0, *final(elem))),
            (*final(self.table)).spec_capacity() == (*old(self.table)).spec_capacity(),
            (*final(self.table)).spec_allocation() == (*old(self.table)).spec_allocation(),
            (*final(self.table)).pending() == (*old(self.table)).pending(),
    {
        let ghost pre = *self.table;
        let ghost m = pair_table_slots(pre.curr);
        let ghost b = self.bucket;
        proof {
            assert forall|v: Slot| #[trigger] bag_of(m.insert(b, v)) == bag_of(m).remove(m[b]).insert(v) by {
                lemma_bag_of_update(m, b, v);
            }
            assert forall|v: Slot| #[trigger] m.insert(b, v).dom() == m.dom() by {
                assert(m.insert(b, v).dom() =~= m.dom());
            }
            lemma_bag_of_contains(m, m[b]);
            assert forall|v: Slot| #[trigger] bag_of(pair_table_slots(pre.old)).add(bag_of(m.insert(b, v)))
                == pre@.remove(m[b]).insert(v) by {
                lemma_bag_of_update(m, b, v);
                assert(bag_of(pair_table_slots(pre.old)).add(bag_of(m.insert(b, v))) =~= pre@.remove(m[b]).insert(v));
            }
        }
        self.table.curr_bucket_mut(self.bucket)
    }

    /// Takes the element out of the table, leaving a place for an element
    /// under the entry's hash.
    pub fn remove(self) -> (removed: (Pair, VacantEntry<'a>))
        requires
            self.wf(),
        ensures
            removed.0 == self.slot().1,
            (*removed.1.table).wf(),
            (*old(self.table)).can_insert() ==> removed.1.wf(),
            removed.1.hash == self.hash,
            (*removed.1.table)@ == (*old(self.table))@.remove(self.slot()),
            *final(self.table) == *final(removed.1.table),
    {
        let ghost pre = *self.table;
        proof {
            lemma_bag_of_remove(pair_table_slots(pre.curr), self.bucket);
            pre.lemma_len_within_capacity();
        }
        let x = self.table.curr.remove_bucket(self.bucket).unwrap();
        proof {
            lemma_bag_of_len(pair_table_slots(self.table.curr));
            assert((*self.table)@ =~= pre@.remove(pair_table_slots(pre.curr)[self.bucket]));
        }
        (x, VacantEntry { table: self.table, hash: self.hash })
    }
}

impl<'a> VacantEntry<'a> {
    /// The table is well formed and has room for one more element beside
    /// the old ones.
    pub open spec fn wf(&self) -> bool {
        &&& (*self.table).wf()
        &&& (*self.table).can_insert()
    }

    /// Places `value` under the entry's hash.
    pub fn insert(self, value: Pair) -> (entry: OccupiedEntry<'a>)
        requires
            self.wf(),
        ensures
            entry.wf(),
            entry.slot() == (self.hash, value),
            entry.hash == self.hash,
            (*entry.table)@ == (*old(self.table))@.insert((self.hash, value)),
            *final(self.table) == *final(entry.table),
    {
        let ghost pre = *self.table;
        let hash = self.hash;
        let b = self.table.curr.insert_unique(hash, value);
        proof {
            lemma_bag_of_insert(pair_table_slots(pre.curr), b, (hash, value));
            assert((*self.table)@ =~= pre@.insert((hash, value)));
        }
        OccupiedEntry { table: self.table, bucket: b, hash }
    }
}

impl<'a> AbsentEntry<'a> {
    /// The table, borrowed for as long as the entry was.
    pub fn into_table(self) -> (table: &'a mut IncHashTable)
        ensures
            *table == *old(self.table),
            *final(table) == *final(self.table),
    {
        self.table
    }
}

impl<'a> Entry<'a> {
    /// The entry is well formed.
    pub open spec fn wf(&self) -> bool {
        match self {
            Entry::Occupied(o) => o.wf(),
            Entry::Vacant(v) => v.wf(),
        }
    }

    /// Sets the element of the entry to `value`: an occupied entry's element
    /// is replaced in place, a vacant entry is filled.
    pub fn insert(self, value: Pair) -> (entry: OccupiedEntry<'a>)
        requires
            self.wf(),
        ensures
            entry.wf(),
            entry.slot().1 == value,
            match self {
                Entry::Occupied(o) => {
                    &&& (*entry.table)@ == (*old(self->Occupied_0.table))@.remove(o.slot()).insert((o.slot().0, value))
                    &&& entry.slot().0 == o.slot().0
                    &&& entry.hash == o.hash
                    &&& *final(o.table) == *final(entry.table)
                },
                Entry::Vacant(v) => {
                    &&& (*entry.table)@ == (*old(self->Vacant_0.table))@.insert((v.hash, value))
                    &&& entry.slot().0 == v.hash
                    &&& entry.hash == v.hash
                    &&& *final(v.table) == *final(entry.table)
                },
            },
    {
        match self {
            Entry::Occupied(o) => {
                let OccupiedEntry { table, bucket, hash } = o;
                table.set_curr_item(bucket, value);
                OccupiedEntry { table, bucket, hash }
            },
            Entry::Vacant(v) => v.insert(value),
        }
    }

    /// The entry's element, inserting `default` if the entry is vacant.
    pub fn or_insert(self, default: Pair) -> (entry: OccupiedEntry<'a>)
        requires
            self.wf(),
        ensures
            entry.wf(),
            match self {
                Entry::Occupied(o) => {
                    &&& entry.slot() == o.slot()
                    &&& (*entry.table)@ == (*old(self->Occupied_0.table))@
                    &&& entry.hash == o.hash
                    &&& *final(o.table) == *final(entry.table)
                },
                Entry::Vacant(v) => {
                    &&& entry.slot() == (v.hash, default)
                    &&& (*entry.table)@ == (*old(self->Vacant_0.table))@.insert((v.hash, default))
                    &&& entry.hash == v.hash
                    &&& *final(v.table) == *final(entry.table)
                },
            },
    {
        match self {
            Entry::Occupied(o) => o,
            Entry::Vacant(v) => v.insert(default),
        }
    }

    /// The entry's element, inserting what `default` returns if the entry is
    /// vacant; `default` is called only then.
    pub fn or_insert_with<D: FnOnce() -> Pair>(self, default: D) -> (entry: OccupiedEntry<'a>)
        requires
            self.wf(),
            call_requires(default, ()),
        ensures
            entry.wf(),
            match self {
                Entry::Occupied(o) => {
                    &&& entry.slot() == o.slot()
                    &&& (*entry.table)@ == (*old(self->Occupied_0.table))@
                    &&& entry.hash == o.hash
                    &&& *final(o.table) == *final(entry.table)
                },
                Entry::Vacant(v) => {
                    &&& entry.slot().0 == v.hash
                    &&& call_ensures(default, (), entry.slot().1)
                    &&& (*entry.table)@ == (*old(self->Vacant_0.table))@.insert(entry.slot())
                    &&& entry.hash == v.hash
                    &&& *final(v.table) == *final(entry.table)
                },
            },
    {
        match self {
            Entry::Occupied(o) => o,
            Entry::Vacant(v) => v.insert(default()),
        }
    }
}

impl<'a> Entry<'a> {
    /// The borrowed table.
    pub open spec fn table(self) -> &'a mut IncHashTable {
        match self {
            Entry::Occupied(o) => o.table,
            Entry::Vacant(v) => v.table,
        }
    }

    /// Changes the element of an occupied entry with `f`; it stays under the
    /// hash it was placed under. A vacant entry stays as it is.
    pub fn and_modify<M: FnOnce(&mut Pair)>(self, f: M) -> (entry: Self)
        requires
            self.wf(),
            forall|x: &mut Pair| call_requires(f, (x,)),
        ensures
            entry.wf(),
            *final(self.table()) == *final(entry.table()),
            self is Vacant ==> entry == self,
            self is Occupied ==> {
                &&& entry is Occupied
                &&& entry->Occupied_0.hash == self->Occupied_0.hash
                &&& entry->Occupied_0.slot().0 == self->Occupied_0.slot().0
                &&& (*entry.table())@ == (*old(self->Occupied_0.table))@.remove(self->Occupied_0.slot()).insert(
                    entry->Occupied_0.slot(),
                )
                &&& exists|x: &mut Pair| *x == self->Occupied_0.slot().1 && *final(x) == entry->Occupied_0.slot().1
                    && call_ensures(f, (x,), ())
            },
    {
        match self {
            Entry::Occupied(mut o) => {
                f(o.get_mut());
                Entry::Occupied(o)
            },
            Entry::Vacant(v) => Entry::Vacant(v),
        }
    }
}

} // verus!
