//! The hashbrown `HashTable` that stores the library's entries, and the
//! contracts that the library relies on for each of its methods.
//!
//! A table is described by its *slots*: for every occupied bucket, the hash
//! the element was placed under and the element itself. The element type is
//! a pair of `u64`s, a key and a value.
use vstd::prelude::*;
use hashbrown::HashTable;
use vstd::multiset::Multiset;
use crate::bag::{bag_of, lemma_bag_of_remove};

verus! {

/// An element of a table: a key and a value.
pub type Pair = (u64, u64);

/// An occupied bucket: the hash that placed the element, and the element.
pub type Slot = (u64, Pair);

/// A `hashbrown::HashTable<(u64, u64)>`.
///
/// Verus cannot declare `HashTable` itself (it has an allocator parameter),
/// so the table lives in the private field of this struct.
#[verifier::external_body]
pub struct PairTable {
    table: HashTable<Pair>,
}

/// The occupied buckets of the table: bucket index to (hash, element).
pub uninterp spec fn pair_table_slots(t: PairTable) -> Map<usize, Slot>;

/// What `HashTable::capacity` reports for the table.
pub uninterp spec fn pair_table_capacity(t: PairTable) -> nat;

/// What `HashTable::allocation_size` reports for the table.
pub uninterp spec fn pair_table_allocation(t: PairTable) -> nat;

/// No bucket of the table is marked deleted. hashbrown marks a bucket
/// deleted when it erases an element that others may have probed past; an
/// insertion into such a bucket raises the reported capacity.
pub uninterp spec fn pair_table_clean(t: PairTable) -> bool;

/// The capacity hashbrown gives a table of 16-byte elements that it sizes
/// for `n` elements: none for none, otherwise the least of 3, 7, 14, 28, ...
/// (after 3, seven times a power of two) that is at least `n`.
pub open spec fn capacity_for(n: nat) -> nat {
    if n == 0 {
        0
    } else if n <= 3 {
        3
    } else {
        doubled_until(7, n)
    }
}

/// A table sized for `n` elements holds them, and holds at most 7, or
/// fewer than twice as many, since a capacity is doubled only while it is
/// below `n`.
pub proof fn lemma_capacity_for(n: nat)
    ensures
        capacity_for(n) >= n,
        n > 0 ==> capacity_for(n) <= 7 || capacity_for(n) <= 2 * n - 2,
{
    if n > 3 {
        lemma_doubled_until(7, n);
    }
}

/// Doubling `c` until it reaches `n` ends at `n` or above, and, unless `c`
/// already was, below twice `n`.
proof fn lemma_doubled_until(c: nat, n: nat)
    requires
        c >= 1,
    ensures
        doubled_until(c, n) >= n,
        doubled_until(c, n) <= c || doubled_until(c, n) <= 2 * n - 2,
    decreases (if c >= n { 0 } else { n - c }),
{
    if c < n {
        lemma_doubled_until(2 * c, n);
    }
}

/// `c`, doubled until it is at least `n`.
pub open spec fn doubled_until(c: nat, n: nat) -> nat
    decreases (if c == 0 || c >= n { 0 } else { n - c }),
{
    if c == 0 || c >= n {
        c
    } else {
        doubled_until(2 * c, n)
    }
}

/// Capacities up to this bound never overflow hashbrown's layout arithmetic
/// for 16-byte elements, on 32- and 64-bit targets.
pub open spec fn capacity_limit() -> int {
    isize::MAX as int / 64
}

/// `capacity_limit` as a `usize`.
pub fn capacity_bound() -> (bound: usize)
    ensures
        bound == capacity_limit(),
{
    (isize::MAX / 64) as usize
}

/// The elements of `m`, in ascending order of their buckets.
pub open spec fn bucket_order(m: Map<usize, Pair>) -> Seq<Pair>
    decreases m.dom().len(),
{
    if m.dom().finite() && m.dom().len() > 0 {
        let last = choose|b: usize| m.contains_key(b) && forall|c: usize| #[trigger] m.contains_key(c) ==> c <= b;
        if m.contains_key(last) {
            bucket_order(m.remove(last)).push(m[last])
        } else {
            Seq::empty()
        }
    } else {
        Seq::empty()
    }
}

/// A finite, non-empty set of bucket indices has a largest one.
proof fn lemma_last_bucket(s: Set<usize>)
    requires
        s.finite(),
        s.len() > 0,
    ensures
        exists|b: usize| s.contains(b) && forall|c: usize| #[trigger] s.contains(c) ==> c <= b,
    decreases s.len(),
{
    let x = s.choose();
    assert(s.contains(x));
    let r = s.remove(x);
    if r.len() == 0 {
        assert forall|c: usize| #[trigger] s.contains(c) implies c <= x by {
            if c != x {
                assert(r.contains(c));
            }
        }
    } else {
        lemma_last_bucket(r);
        let y = choose|b: usize| r.contains(b) && forall|c: usize| #[trigger] r.contains(c) ==> c <= b;
        let b = if x >= y { x } else { y };
        assert forall|c: usize| #[trigger] s.contains(c) implies c <= b by {
            if c != x {
                assert(r.contains(c));
            }
        }
    }
}

/// Listing the elements in bucket order lists each once: the listing holds
/// the bag of the elements.
pub proof fn lemma_bucket_order(m: Map<usize, Pair>)
    requires
        m.dom().finite(),
    ensures
        bucket_order(m).to_multiset() == bag_of(m),
        bucket_order(m).len() == m.dom().len(),
    decreases m.dom().len(),
{
    broadcast use vstd::seq_lib::group_to_multiset_ensures;
    if m.dom().len() > 0 {
        lemma_last_bucket(m.dom());
        let last = choose|b: usize| m.contains_key(b) && forall|c: usize| #[trigger] m.contains_key(c) ==> c <= b;
        let rest = m.remove(last);
        lemma_bucket_order(rest);
        lemma_bag_of_remove(m, last);
        vstd::seq_lib::to_multiset_build(bucket_order(rest), m[last]);
    } else {
        assert(m.dom() =~= Set::empty());
        assert(bucket_order(m).to_multiset() =~= Multiset::empty());
    }
}

/// The elements of the slots, forgetting their hashes.
pub open spec fn slot_items(m: Map<usize, Slot>) -> Map<usize, Pair> {
    m.map_values(|s: Slot| s.1)
}

/// `hasher` may be called on every element of `m`, and gives back the hash
/// that the element was placed under.
pub open spec fn hashes_agree<H: Fn(&Pair) -> u64>(hasher: H, m: Map<usize, Slot>) -> bool {
    forall|b: usize|
        #![trigger m.contains_key(b)]
        m.contains_key(b) ==> {
            &&& call_requires(hasher, (&m[b].1,))
            &&& forall|h: u64| call_ensures(hasher, (&m[b].1,), h) ==> h == m[b].0
        }
}

/// `f` may be called on every element of `m`.
pub open spec fn callable_on_all<R, F: Fn(&Pair) -> R>(f: F, m: Map<usize, Slot>) -> bool {
    forall|b: usize| #![trigger m.contains_key(b)] m.contains_key(b) ==> call_requires(f, (&m[b].1,))
}

impl PairTable {
    /// `HashTable::new`: an empty table that has not allocated.
    #[verifier::external_body]
    pub(crate) fn new() -> (table: PairTable)
        ensures
            pair_table_slots(table) =~= Map::empty(),
            pair_table_capacity(table) == 0,
            pair_table_allocation(table) == 0,
            pair_table_clean(table),
    {
        PairTable { table: HashTable::new() }
    }

    /// `HashTable::with_capacity`: an empty table that holds at least
    /// `capacity` elements before it reallocates; hashbrown picks the bucket
    /// count for `capacity` (`capacity_to_buckets`), and the capacity is what
    /// those buckets hold. hashbrown panics on capacities whose layout
    /// overflows, which the bound excludes.
    #[verifier::external_body]
    pub(crate) fn with_capacity(capacity: usize) -> (table: PairTable)
        requires
            capacity <= capacity_limit(),
        ensures
            pair_table_slots(table) =~= Map::empty(),
            pair_table_capacity(table) >= capacity,
            pair_table_capacity(table) == capacity_for(capacity as nat),
            pair_table_clean(table),
    {
        PairTable { table: HashTable::with_capacity(capacity) }
    }

    /// `HashTable::len`: the number of elements.
    #[verifier::external_body]
    pub(crate) fn len(&self) -> (len: usize)
        ensures
            len == pair_table_slots(*self).len(),
    {
        self.table.len()
    }

    /// `HashTable::capacity`: the number of elements held without
    /// reallocating; hashbrown computes it as the number of elements plus the
    /// free buckets left, so it is never below the length.
    #[verifier::external_body]
    pub(crate) fn capacity(&self) -> (cap: usize)
        ensures
            cap == pair_table_capacity(*self),
            pair_table_slots(*self).len() <= cap,
    {
        self.table.capacity()
    }

    /// `HashTable::allocation_size`: the bytes allocated; hashbrown keeps
    /// every allocation within `isize::MAX`.
    #[verifier::external_body]
    pub(crate) fn allocation_size(&self) -> (size: usize)
        ensures
            size == pair_table_allocation(*self),
            size <= isize::MAX,
    {
        self.table.allocation_size()
    }

    /// `HashTable::find_bucket_index`: the bucket of an element for which
    /// `eq` holds, or `None`, in which case `eq` was false for every element
    /// placed under `hash` (hashbrown probes all of them).
    #[verifier::external_body]
    pub(crate) fn find_bucket<F: Fn(&Pair) -> bool>(&self, hash: u64, eq: F) -> (found: Option<usize>)
        requires
            callable_on_all(eq, pair_table_slots(*self)),
        ensures
            match found {
                Some(b) => pair_table_slots(*self).contains_key(b) && call_ensures(
                    eq,
                    (&pair_table_slots(*self)[b].1,),
                    true,
                ),
                None => forall|b: usize|
                    #![trigger pair_table_slots(*self).contains_key(b)]
                    pair_table_slots(*self).contains_key(b) && pair_table_slots(*self)[b].0 == hash
                        ==> call_ensures(eq, (&pair_table_slots(*self)[b].1,), false),
            },
    {
        self.table.find_bucket_index(hash, eq)
    }

    /// `HashTable::get_bucket`: the element in bucket `b`, if it is occupied.
    #[verifier::external_body]
    pub(crate) fn get_bucket(&self, b: usize) -> (elem: Option<&Pair>)
        ensures
            match elem {
                Some(x) => pair_table_slots(*self).contains_key(b) && *x == pair_table_slots(*self)[b].1,
                None => !pair_table_slots(*self).contains_key(b),
            },
    {
        self.table.get_bucket(b)
    }

    /// `HashTable::get_bucket_mut`: the element in bucket `b`, to be changed
    /// in place; it stays filed under its hash.
    #[verifier::external_body]
    pub(crate) fn get_bucket_mut(&mut self, b: usize) -> (elem: Option<&mut Pair>)
        ensures
            match elem {
                Some(x) => {
                    &&& pair_table_slots(*old(self)).contains_key(b)
                    &&& *x == pair_table_slots(*old(self))[b].1
                    &&& pair_table_slots(*final(self)) == pair_table_slots(*old(self)).insert(
                        b,
                        (pair_table_slots(*old(self))[b].0, *final(x)),
                    )
                    &&& pair_table_capacity(*final(self)) == pair_table_capacity(*old(self))
                    &&& pair_table_allocation(*final(self)) == pair_table_allocation(*old(self))
                    &&& pair_table_clean(*final(self)) == pair_table_clean(*old(self))
                },
                None => !pair_table_slots(*old(self)).contains_key(b) && *final(self) == *old(self),
            },
    {
        self.table.get_bucket_mut(b)
    }

    /// `HashTable::num_buckets`: the number of buckets; every occupied
    /// bucket has an index below it.
    #[verifier::external_body]
    pub(crate) fn num_buckets(&self) -> (n: usize)
        ensures
            forall|b: usize| #[trigger] pair_table_slots(*self).contains_key(b) ==> b < n,
    {
        self.table.num_buckets()
    }

    /// `HashTable::get_bucket_entry` then `OccupiedEntry::remove`: takes the
    /// element out of bucket `b`. Erasing leaves the capacity as it was, or
    /// one lower when the bucket must stay marked as deleted.
    #[verifier::external_body]
    pub(crate) fn remove_bucket(&mut self, b: usize) -> (elem: Option<Pair>)
        ensures
            match elem {
                Some(x) => {
                    &&& pair_table_slots(*old(self)).contains_key(b)
                    &&& x == pair_table_slots(*old(self))[b].1
                    &&& pair_table_slots(*final(self)) == pair_table_slots(*old(self)).remove(b)
                    &&& pair_table_capacity(*final(self)) + 1 >= pair_table_capacity(*old(self))
                    &&& pair_table_allocation(*final(self)) == pair_table_allocation(*old(self))
                },
                None => !pair_table_slots(*old(self)).contains_key(b) && *final(self) == *old(self),
            },
    {
        match self.table.get_bucket_entry(b) {
            Ok(entry) => Some(entry.remove().0),
            Err(_) => None,
        }
    }

    /// `HashTable::insert_unique` followed by `OccupiedEntry::bucket_index`,
    /// while a bucket is free: the element goes into a bucket that was empty
    /// and nothing moves. Filling a deleted bucket raises the capacity by one;
    /// a table without deleted buckets fills an empty one and keeps its
    /// capacity.
    /// hashbrown calls the hasher it is given only when no bucket is free,
    /// which the precondition excludes, so the one handed over (it reads the
    /// key) is never called.
    #[verifier::external_body]
    pub(crate) fn insert_unique(&mut self, hash: u64, value: Pair) -> (b: usize)
        requires
            pair_table_slots(*old(self)).len() < pair_table_capacity(*old(self)),
        ensures
            !pair_table_slots(*old(self)).contains_key(b),
            pair_table_slots(*final(self)) == pair_table_slots(*old(self)).insert(b, (hash, value)),
            pair_table_capacity(*final(self)) >= pair_table_capacity(*old(self)),
            pair_table_capacity(*final(self)) <= pair_table_capacity(*old(self)) + 1,
            pair_table_allocation(*final(self)) == pair_table_allocation(*old(self)),
            pair_table_clean(*old(self)) ==> pair_table_clean(*final(self)) && pair_table_capacity(*final(self))
                == pair_table_capacity(*old(self)),
    {
        self.table.insert_unique(hash, value, |x: &Pair| x.0).bucket_index()
    }

    /// `HashTable::clear`: removes every element and keeps the allocation,
    /// so all of its buckets are free again.
    #[verifier::external_body]
    pub(crate) fn clear(&mut self)
        ensures
            pair_table_slots(*final(self)) =~= Map::empty(),
            pair_table_capacity(*final(self)) >= pair_table_capacity(*old(self)),
    {
        self.table.clear()
    }

    /// `HashTable::retain`: visits every element once, hands it to `f` to
    /// change in place, and erases it where `f` returns false; the others
    /// stay in their buckets as `f` left them.
    #[verifier::external_body]
    pub(crate) fn retain<F: Fn(&mut Pair) -> bool>(&mut self, f: F)
        requires
            forall|p: &mut Pair| call_requires(f, (p,)),
        ensures
            pair_table_slots(*final(self)).dom().subset_of(pair_table_slots(*old(self)).dom()),
            forall|b: usize|
                #![trigger pair_table_slots(*old(self)).contains_key(b)]
                pair_table_slots(*old(self)).contains_key(b) ==> exists|p: &mut Pair|
                    {
                        &&& *p == pair_table_slots(*old(self))[b].1
                        &&& call_ensures(f, (p,), pair_table_slots(*final(self)).contains_key(b))
                        &&& pair_table_slots(*final(self)).contains_key(b) ==> pair_table_slots(*final(self))[b] == (
                        pair_table_slots(*old(self))[b].0,
                        *final(p),
                    )
                    },
            pair_table_capacity(*final(self)) + pair_table_slots(*old(self)).len() >= pair_table_capacity(
                *old(self),
            ) + pair_table_slots(*final(self)).len(),
    {
        self.table.retain(f)
    }

    /// `HashTable::extract_if`, run to the end: visits every element once,
    /// hands it to `f` to change in place, takes it out where `f` returns
    /// true and returns it as `f` left it; the others stay in their buckets
    /// as `f` left them.
    #[verifier::external_body]
    pub(crate) fn extract_if<F: Fn(&mut Pair) -> bool>(&mut self, f: F) -> (taken: Vec<Pair>)
        requires
            forall|p: &mut Pair| call_requires(f, (p,)),
        ensures
            pair_table_slots(*final(self)).dom().subset_of(pair_table_slots(*old(self)).dom()),
            exists|after: Map<usize, Slot>|
                {
                    &&& after.dom() == pair_table_slots(*old(self)).dom()
                    &&& forall|b: usize|
                        #![trigger after.contains_key(b)]
                        after.contains_key(b) ==> after[b].0 == pair_table_slots(*old(self))[b].0 && exists|p: &mut Pair|
                            {
                                &&& *p == pair_table_slots(*old(self))[b].1
                                &&& *final(p) == after[b].1
                                &&& call_ensures(f, (p,), !pair_table_slots(*final(self)).contains_key(b))
                            }
                    &&& forall|b: usize|
                        #![trigger pair_table_slots(*final(self)).contains_key(b)]
                        pair_table_slots(*final(self)).contains_key(b) ==> pair_table_slots(*final(self))[b] == after[b]
                    &&& taken@.to_multiset() == bag_of(
                        slot_items(after.remove_keys(pair_table_slots(*final(self)).dom())),
                    )
                },
            pair_table_capacity(*final(self)) + pair_table_slots(*old(self)).len() >= pair_table_capacity(
                *old(self),
            ) + pair_table_slots(*final(self)).len(),
    {
        self.table.extract_if(f).collect()
    }

    /// `HashTable::drain`, run to the end: every element, in bucket order.
    /// The allocation stays and every bucket is empty again, none marked
    /// deleted, so a table without deleted buckets keeps its capacity.
    #[verifier::external_body]
    pub(crate) fn drain(&mut self) -> (drained: Vec<Pair>)
        ensures
            drained@.to_multiset() == bag_of(slot_items(pair_table_slots(*old(self)))),
            drained@ == bucket_order(slot_items(pair_table_slots(*old(self)))),
            pair_table_slots(*final(self)) =~= Map::empty(),
            pair_table_capacity(*final(self)) >= pair_table_capacity(*old(self)),
            pair_table_allocation(*final(self)) == pair_table_allocation(*old(self)),
            pair_table_clean(*final(self)),
            pair_table_clean(*old(self)) ==> pair_table_capacity(*final(self)) == pair_table_capacity(*old(self)),
    {
        self.table.drain().collect()
    }

    /// `HashTable::iter`, copied into a vector: every element once, in
    /// ascending order of its bucket (hashbrown walks the control bytes group
    /// by group, and each group from its lowest bucket up).
    #[verifier::external_body]
    pub(crate) fn items(&self) -> (items: Vec<Pair>)
        ensures
            items@.to_multiset() == bag_of(slot_items(pair_table_slots(*self))),
            items@ == bucket_order(slot_items(pair_table_slots(*self))),
    {
        self.table.iter().copied().collect()
    }

    /// `HashTable::shrink_to_fit`: may move every element to a smaller
    /// allocation, placing each under what `hasher` gives for it; with a
    /// hasher that agrees with the placement, the (hash, element) pairs stay
    /// the same. The allocation never grows, and an empty table gives its
    /// allocation up (hashbrown replaces it by an unallocated one). A
    /// non-empty table ends with no more buckets than hashbrown picks for its
    /// length: for 16-byte elements that is a capacity of at most 14 for up
    /// to 14 elements, and below twice the length beyond (7/8 of the next
    /// power of two above 8/7 of the length).
    #[verifier::external_body]
    pub(crate) fn shrink_to_fit<H: Fn(&Pair) -> u64>(&mut self, hasher: H)
        requires
            hashes_agree(hasher, pair_table_slots(*old(self))),
        ensures
            pair_table_slots(*final(self)).dom().finite(),
            bag_of(pair_table_slots(*final(self))) == bag_of(pair_table_slots(*old(self))),
            pair_table_capacity(*final(self)) >= pair_table_slots(*final(self)).len(),
            pair_table_allocation(*final(self)) <= pair_table_allocation(*old(self)),
            pair_table_slots(*final(self)).len() == 0 ==> pair_table_capacity(*final(self)) == 0
                && pair_table_allocation(*final(self)) == 0,
            pair_table_capacity(*final(self)) <= 14 || pair_table_capacity(*final(self)) <= 2 * pair_table_slots(
                *final(self),
            ).len(),
    {
        self.table.shrink_to_fit(hasher)
    }

    /// `HashTable::reserve`: afterwards `additional` more elements fit
    /// without reallocating; a reallocation places each element under what
    /// `hasher` gives for it. hashbrown panics when the new layout overflows:
    /// it sizes the new table from `len + additional` and from the current
    /// bucket count, and each bucket takes 17 of the allocated bytes, which
    /// the two bounds keep small enough. It does nothing when the elements
    /// fit already. Otherwise, for a table without deleted buckets, it moves
    /// everything into a table sized for `len + additional`, which has no
    /// deleted buckets either (`reserve_rehash_inner`).
    #[verifier::external_body]
    pub(crate) fn reserve<H: Fn(&Pair) -> u64>(&mut self, additional: usize, hasher: H)
        requires
            hashes_agree(hasher, pair_table_slots(*old(self))),
            pair_table_slots(*old(self)).len() + additional <= capacity_limit(),
            pair_table_allocation(*old(self)) <= 16 * capacity_limit(),
        ensures
            pair_table_slots(*final(self)).dom().finite(),
            bag_of(pair_table_slots(*final(self))) == bag_of(pair_table_slots(*old(self))),
            pair_table_capacity(*final(self)) >= pair_table_slots(*old(self)).len() + additional,
            pair_table_slots(*old(self)).len() + additional <= pair_table_capacity(*old(self)) ==> *final(self)
                == *old(self),
            pair_table_clean(*old(self)) ==> pair_table_clean(*final(self)),
            pair_table_clean(*old(self)) && pair_table_slots(*old(self)).len() + additional > pair_table_capacity(
                *old(self),
            ) ==> pair_table_capacity(*final(self)) == capacity_for((pair_table_slots(*old(self)).len() + additional) as nat),
    {
        self.table.reserve(additional, hasher)
    }
}

} // verus!
