//! A trie of hashbrown tables.
//!
//! Every hash has a key: the hash without the low bits that hashbrown keeps
//! for its control bytes. The trie is a triangular array of slots: level `l`
//! has `2^l` slots, starting at position `2^l - 1`, one for each residue of a
//! key modulo `2^l`. On its way down the levels every key meets exactly one
//! slot that holds a table, and that table holds every entry with the key.
//! A table that is full and large is split between the two slots below it.
use vstd::prelude::*;
use vstd::multiset::Multiset;
use vstd::arithmetic::power2::{
    pow2, lemma_pow2_unfold, lemma_pow2_pos, lemma_pow2_strictly_increases, lemma2_to64,
};
use vstd::arithmetic::div_mod::{lemma_mod_mod, lemma_mod_breakdown, lemma_small_mod};
use vstd::bits::{low_bits_mask, lemma_u64_low_bits_mask_is_mod};
use crate::bag::{
    bag_of, strip, lemma_bag_of_insert, lemma_bag_of_len, lemma_bag_of_map_values, lemma_strip_contains,
    lemma_strip_len, lemma_strip_remove,
};
use crate::pair_table::{
    PairTable, Pair, Slot, pair_table_slots, pair_table_capacity, pair_table_allocation, capacity_limit, slot_items,
    capacity_bound, pair_table_clean, capacity_for, lemma_capacity_for, doubled_until,
};
use crate::hash_table::agrees_with;

verus! {

broadcast use vstd::multiset::group_multiset_axioms, vstd::set::group_set_axioms, vstd::set_lib::group_set_lib_default,
    vstd::seq_lib::group_to_multiset_ensures;

/// The low bits of a hash that hashbrown keeps for its control bytes; the
/// trie chooses tables by the bits above them.
pub const SHIFT: u32 = 7;

/// The number of elements a table of 1024 buckets holds. A full table
/// larger than half of this is split instead of grown.
pub const CAP: usize = 1024 * 7 / 8;

/// A table sized for `CAP` elements holds exactly `CAP`: seven eighths of
/// 1024 buckets.
proof fn lemma_capacity_for_cap()
    ensures
        capacity_for(CAP as nat) == CAP,
{
    reveal_with_fuel(doubled_until, 9);
}

/// One more element fits into `t` without reallocating.
pub open spec fn has_room(t: PairTable) -> bool {
    pair_table_slots(t).len() < pair_table_capacity(t)
}

/// `t` is small enough to be grown rather than split: at most half of
/// `CAP`, and allocated within what hashbrown can lay out twice over.
pub open spec fn growable(t: PairTable) -> bool {
    pair_table_capacity(t) <= CAP / 2 && pair_table_allocation(t) <= 16 * capacity_limit()
}

/// The key of a hash: the hash without its low `SHIFT` bits.
pub open spec fn key_of(hash: u64) -> int {
    hash as int / 128
}

/// The position of the slot at level `l` for key `k`.
pub open spec fn slot_index(l: nat, k: int) -> int {
    pow2(l) - 1 + k % (pow2(l) as int)
}

/// The entries of a slot.
pub open spec fn slot_bag(o: Option<PairTable>) -> Multiset<Slot> {
    match o {
        Some(t) => bag_of(pair_table_slots(t)),
        None => Multiset::empty(),
    }
}

/// The entries of all the slots.
pub open spec fn slots_bag(s: Seq<Option<PairTable>>) -> Multiset<Slot>
    decreases s.len(),
{
    if s.len() == 0 {
        Multiset::empty()
    } else {
        slots_bag(s.drop_last()).add(slot_bag(s.last()))
    }
}

/// The number of slots that hold a table.
pub open spec fn count_tables(s: Seq<Option<PairTable>>) -> nat
    decreases s.len(),
{
    if s.len() == 0 {
        0
    } else {
        count_tables(s.drop_last()) + if s.last() is Some { 1nat } else { 0nat }
    }
}

/// The bytes allocated by the tables in the slots.
pub open spec fn slots_allocation(s: Seq<Option<PairTable>>) -> nat
    decreases s.len(),
{
    if s.len() == 0 {
        0
    } else {
        slots_allocation(s.drop_last()) + match s.last() {
            Some(t) => pair_table_allocation(t),
            None => 0,
        }
    }
}

/// The tables in the slots, in slot order.
pub open spec fn slot_tables(s: Seq<Option<PairTable>>) -> Seq<PairTable>
    decreases s.len(),
{
    if s.len() == 0 {
        Seq::empty()
    } else {
        slot_tables(s.drop_last()) + match s.last() {
            Some(t) => seq![t],
            None => Seq::empty(),
        }
    }
}

/// `x`, or `usize::MAX` if it is larger.
pub open spec fn saturated(x: int) -> int {
    if x > usize::MAX {
        usize::MAX as int
    } else {
        x
    }
}

/// Replacing one slot replaces its entries, and changes the number of tables
/// by what the two slots hold.
pub proof fn lemma_slots_update(s: Seq<Option<PairTable>>, i: int, x: Option<PairTable>)
    requires
        0 <= i < s.len(),
    ensures
        slots_bag(s.update(i, x)).add(slot_bag(s[i])) == slots_bag(s).add(slot_bag(x)),
        count_tables(s.update(i, x)) + (if s[i] is Some { 1int } else { 0int }) == count_tables(s) + (
        if x is Some { 1int } else { 0int }),
    decreases s.len(),
{
    let u = s.update(i, x);
    let d = s.drop_last();
    assert(slots_bag(s) == slots_bag(d).add(slot_bag(s.last())));
    assert(slots_bag(u) == slots_bag(u.drop_last()).add(slot_bag(u.last())));
    if i == s.len() - 1 {
        assert(u.drop_last() =~= d);
        assert(u.last() == x);
        assert(s.last() == s[i]);
        assert(slots_bag(u) == slots_bag(d).add(slot_bag(x)));
    } else {
        lemma_slots_update(d, i, x);
        assert(u.drop_last() =~= d.update(i, x));
        assert(u.last() == s.last());
        assert(d[i] == s[i]);
        assert(slots_bag(u) == slots_bag(d.update(i, x)).add(slot_bag(s.last())));
        assert(slots_bag(d.update(i, x)).add(slot_bag(s[i])) == slots_bag(d).add(slot_bag(x)));
        assert forall|e: Slot| #[trigger] slots_bag(u).add(slot_bag(s[i])).count(e) == slots_bag(s).add(
            slot_bag(x),
        ).count(e) by {
            assert(slots_bag(d.update(i, x)).add(slot_bag(s[i])).count(e) == slots_bag(d).add(slot_bag(x)).count(
                e,
            ));
        }
    }
    assert(slots_bag(u).add(slot_bag(s[i])) =~= slots_bag(s).add(slot_bag(x)));
}

/// An empty slot added at the end changes nothing.
pub proof fn lemma_slots_push_none(s: Seq<Option<PairTable>>)
    ensures
        slots_bag(s.push(None)) == slots_bag(s),
        count_tables(s.push(None)) == count_tables(s),
{
    assert(s.push(None).drop_last() =~= s);
    assert(slots_bag(s.push(None)) =~= slots_bag(s));
}

/// No more slots hold a table than there are slots.
pub proof fn lemma_count_tables_bound(s: Seq<Option<PairTable>>)
    ensures
        count_tables(s) <= s.len(),
    decreases s.len(),
{
    if s.len() > 0 {
        lemma_count_tables_bound(s.drop_last());
    }
}

/// An entry that no slot holds is not among the entries.
pub proof fn lemma_slots_absent(s: Seq<Option<PairTable>>, e: Slot)
    requires
        forall|i: int| 0 <= i < s.len() ==> !#[trigger] slot_bag(s[i]).contains(e),
    ensures
        slots_bag(s).count(e) == 0,
    decreases s.len(),
{
    if s.len() > 0 {
        let d = s.drop_last();
        assert forall|i: int| 0 <= i < d.len() implies !#[trigger] slot_bag(d[i]).contains(e) by {
            assert(d[i] == s[i]);
        }
        lemma_slots_absent(d, e);
        assert(!slot_bag(s[s.len() - 1]).contains(e));
    }
}

/// When only slot `j` can hold an entry, the entries hold it as often as
/// that slot does.
pub proof fn lemma_slots_count(s: Seq<Option<PairTable>>, e: Slot, j: int)
    requires
        0 <= j < s.len(),
        forall|i: int| 0 <= i < s.len() && i != j ==> !#[trigger] slot_bag(s[i]).contains(e),
    ensures
        slots_bag(s).count(e) == slot_bag(s[j]).count(e),
    decreases s.len(),
{
    let d = s.drop_last();
    if j == s.len() - 1 {
        assert forall|i: int| 0 <= i < d.len() implies !#[trigger] slot_bag(d[i]).contains(e) by {
            assert(d[i] == s[i]);
        }
        lemma_slots_absent(d, e);
    } else {
        assert forall|i: int| 0 <= i < d.len() && i != j implies !#[trigger] slot_bag(d[i]).contains(e) by {
            assert(d[i] == s[i]);
        }
        lemma_slots_count(d, e, j);
        assert(!slot_bag(s[s.len() - 1]).contains(e));
        assert(d[j] == s[j]);
    }
}

/// The entries of one slot are among all the entries.
pub proof fn lemma_slot_within(s: Seq<Option<PairTable>>, j: int)
    requires
        0 <= j < s.len(),
    ensures
        slot_bag(s[j]) <= slots_bag(s),
    decreases s.len(),
{
    let d = s.drop_last();
    if j < s.len() - 1 {
        lemma_slot_within(d, j);
        assert(d[j] == s[j]);
    }
}

/// Level `l` takes the positions from `2^l - 1` up to `2^(l+1) - 1`.
pub proof fn lemma_slot_index_range(l: nat, k: int)
    ensures
        pow2(l) > 0,
        pow2(l + 1) == 2 * pow2(l),
        0 <= k % (pow2(l) as int) < pow2(l),
        pow2(l) - 1 <= slot_index(l, k) < pow2(l + 1) - 1,
{
    lemma_pow2_pos(l);
    lemma_pow2_unfold(l + 1);
}

/// A position belongs to one level and one residue.
pub proof fn lemma_slot_index_inj(l1: nat, k1: int, l2: nat, k2: int)
    requires
        slot_index(l1, k1) == slot_index(l2, k2),
    ensures
        l1 == l2,
        k1 % (pow2(l1) as int) == k2 % (pow2(l1) as int),
{
    lemma_slot_index_range(l1, k1);
    lemma_slot_index_range(l2, k2);
    if l1 < l2 {
        if l1 + 1 < l2 {
            lemma_pow2_strictly_increases(l1 + 1, l2);
        }
    } else if l2 < l1 {
        if l2 + 1 < l1 {
            lemma_pow2_strictly_increases(l2 + 1, l1);
        }
    }
}

/// Every position below `2^levels - 1` is the slot of some level below
/// `levels` for some key.
pub proof fn lemma_slot_index_onto(i: int, levels: nat)
    requires
        0 <= i < pow2(levels) - 1,
    ensures
        exists|l: nat, k: int| l < levels && 0 <= k && #[trigger] slot_index(l, k) == i,
    decreases levels,
{
    if levels == 0 {
        lemma2_to64();
    } else {
        let l = (levels - 1) as nat;
        lemma_slot_index_range(l, 0);
        if i < pow2(l) - 1 {
            lemma_slot_index_onto(i, l);
            let (l0, k0) = choose|l0: nat, k0: int| l0 < l && 0 <= k0 && #[trigger] slot_index(l0, k0) == i;
            assert(slot_index(l0, k0) == i);
        } else {
            let k = i - (pow2(l) - 1);
            lemma_small_mod(k as nat, pow2(l));
            assert(slot_index(l, k) == i);
        }
    }
}

/// Going one level down, a residue modulo `2^l` becomes one of two
/// residues modulo `2^(l+1)`: the same one, or `2^l` above it.
pub proof fn lemma_residue_next(k: int, l: nat)
    requires
        0 <= k,
    ensures
        k % (pow2(l + 1) as int) == k % (pow2(l) as int) || k % (pow2(l + 1) as int) == k % (pow2(l) as int)
            + pow2(l),
        (k % (pow2(l + 1) as int)) % (pow2(l) as int) == k % (pow2(l) as int),
{
    let p = pow2(l) as int;
    lemma_slot_index_range(l, k);
    assert(p * 2 == pow2(l + 1));
    lemma_mod_breakdown(k, p, 2);
    lemma_mod_mod(k, p, 2);
    let q = (k / p) % 2;
    assert(q == 0 || q == 1);
    if q == 0 {
        assert(p * q == 0);
    } else {
        assert(p * q == p);
    }
}

/// A trie of hashbrown tables that share out the entries by key.
pub struct HashTableTrie {
    pub(crate) map: Vec<Option<PairTable>>,
    pub(crate) cached: PairTable,
    pub(crate) tables: usize,
    pub(crate) levels: Ghost<nat>,
}

impl View for HashTableTrie {
    type V = Multiset<Slot>;

    /// The entries of all the tables.
    closed spec fn view(&self) -> Multiset<Slot> {
        slots_bag(self.map@)
    }
}

impl HashTableTrie {
    /// Whether the slot at level `l` for key `k` holds a table.
    pub closed spec fn present(self, l: nat, k: int) -> bool {
        l < self.levels@ && self.map@[slot_index(l, k)] is Some
    }

    /// The entries of the slot at level `l` for key `k`.
    pub closed spec fn entries_at(self, l: nat, k: int) -> Multiset<Slot> {
        slot_bag(self.map@[slot_index(l, k)])
    }

    /// Some level holds a table for key `k`.
    pub closed spec fn covered(self, k: int) -> bool {
        exists|l: nat| self.present(l, k)
    }

    /// The level that holds the table for key `k`.
    pub closed spec fn route(self, k: int) -> nat {
        choose|l: nat| self.present(l, k)
    }

    /// The number of levels.
    pub closed spec fn depth(self) -> nat {
        self.levels@
    }

    /// The table that holds the entries for `hash`; before the first table
    /// exists, the spare table, which is empty and has not allocated.
    pub closed spec fn table_for(self, hash: u64) -> PairTable {
        if self.levels@ == 0 {
            self.cached
        } else {
            self.map@[slot_index(self.route(key_of(hash)), key_of(hash))]->Some_0
        }
    }

    /// The trie's invariant: the levels fill the array, every key meets
    /// exactly one table on its way down, and every entry is in the table
    /// its key meets; the spare table is empty.
    pub closed spec fn wf(self) -> bool {
        &&& self.map@.len() + 1 == pow2(self.levels@)
        &&& self.tables == count_tables(self.map@)
        &&& (self.tables == 0) == (self.levels@ == 0)
        &&& pair_table_slots(self.cached).dom().finite()
        &&& pair_table_slots(self.cached).len() == 0
        &&& self.levels@ == 0 ==> pair_table_capacity(self.cached) == 0 && pair_table_allocation(self.cached) == 0
        &&& pair_table_clean(self.cached)
        &&& pair_table_capacity(self.cached) <= CAP
        &&& forall|i: int|
            0 <= i < self.map@.len() && (#[trigger] self.map@[i]) is Some ==> {
                &&& pair_table_slots(self.map@[i]->Some_0).dom().finite()
                &&& pair_table_clean(self.map@[i]->Some_0)
                &&& pair_table_capacity(self.map@[i]->Some_0) <= CAP
            }
        &&& forall|k: int| 0 <= k && self.levels@ > 0 ==> #[trigger] self.covered(k)
        &&& forall|k: int, l1: nat, l2: nat|
            0 <= k && #[trigger] self.present(l1, k) && #[trigger] self.present(l2, k) ==> l1 == l2
        &&& forall|l: nat, k: int, s: Slot|
            0 <= k && self.present(l, k) && #[trigger] self.entries_at(l, k).contains(s) ==> key_of(s.0) % (pow2(
                l,
            ) as int) == k % (pow2(l) as int)
    }

    /// There are at most 64 levels, since the array's length fits in a
    /// `usize`; every level's slots lie within the array.
    proof fn lemma_levels(self, l: nat, k: int)
        requires
            self.wf(),
            l < self.levels@,
        ensures
            self.levels@ <= 64,
            self.map@.len() <= usize::MAX,
            0 <= slot_index(l, k) < self.map@.len(),
            pow2(l + 1) - 1 <= self.map@.len(),
    {
        lemma2_to64();
        assert(self.map@.len() == self.map.len());
        if self.levels@ > 64 {
            lemma_pow2_strictly_increases(64, self.levels@);
        }
        lemma_slot_index_range(l, k);
        if l + 1 < self.levels@ {
            lemma_pow2_strictly_increases(l + 1, self.levels@);
        }
    }

    /// The route of a key is the one level that holds a table for it.
    proof fn lemma_route(self, k: int)
        requires
            self.wf(),
            self.levels@ > 0,
            0 <= k,
        ensures
            self.present(self.route(k), k),
            forall|l: nat| #[trigger] self.present(l, k) ==> l == self.route(k),
            self.route(k) < self.levels@,
    {
        assert(self.covered(k));
    }

    /// The table for `hash` holds only entries of the trie, and every entry
    /// whose hash has the same key as `hash`, as often as the trie does.
    pub proof fn lemma_table_for(self, hash: u64)
        requires
            self.wf(),
        ensures
            pair_table_slots(self.table_for(hash)).dom().finite(),
            bag_of(pair_table_slots(self.table_for(hash))) <= self@,
            forall|s: Slot|
                key_of(s.0) == key_of(hash) ==> #[trigger] self@.count(s) == bag_of(
                    pair_table_slots(self.table_for(hash)),
                ).count(s),
    {
        let k = key_of(hash);
        if self.levels@ == 0 {
            lemma2_to64();
            assert(self.map@ =~= Seq::empty());
            assert(self@ =~= Multiset::empty());
            crate::bag::lemma_bag_of_len(pair_table_slots(self.cached));
            assert(bag_of(pair_table_slots(self.cached)) =~= Multiset::empty());
        } else {
            self.lemma_route(k);
            let r = self.route(k);
            let j = slot_index(r, k);
            self.lemma_levels(r, k);
            lemma_slot_within(self.map@, j);
            assert forall|s: Slot| key_of(s.0) == key_of(hash) implies #[trigger] self@.count(s) == bag_of(
                pair_table_slots(self.table_for(hash)),
            ).count(s) by {
                assert forall|i: int| 0 <= i < self.map@.len() && i != j implies !#[trigger] slot_bag(
                    self.map@[i],
                ).contains(s) by {
                    if slot_bag(self.map@[i]).contains(s) {
                        lemma_slot_index_onto(i, self.levels@);
                        let (l2, k2) = choose|l2: nat, k2: int|
                            l2 < self.levels@ && 0 <= k2 && #[trigger] slot_index(l2, k2) == i;
                        assert(self.present(l2, k2));
                        assert(self.entries_at(l2, k2).contains(s));
                        assert(slot_index(l2, k) == i);
                        assert(self.present(l2, k));
                    }
                }
                lemma_slots_count(self.map@, s, j);
            }
        }
    }

    /// An empty trie: no tables, no levels.
    pub fn new() -> (trie: Self)
        ensures
            trie.wf(),
            trie@ =~= Multiset::empty(),
            trie.depth() == 0,
    {
        let trie = HashTableTrie { map: Vec::new(), cached: PairTable::new(), tables: 0, levels: Ghost(0) };
        proof {
            lemma2_to64();
            assert(trie.map@ =~= Seq::empty());
        }
        trie
    }

    /// Finds the slot that holds the table for `key`, going down the levels
    /// from the top. Returns the mask of its level, `2^l - 1`, and its
    /// position.
    fn search(&self, key: u64) -> (found: (usize, usize))
        requires
            self.wf(),
            self.levels@ > 0,
        ensures
            found.0 == pow2(self.route(key as int)) - 1,
            found.1 == slot_index(self.route(key as int), key as int),
            found.1 < self.map@.len(),
            self.present(self.route(key as int), key as int),
    {
        let ghost k = key as int;
        proof {
            self.lemma_route(k);
            lemma2_to64();
        }
        let ghost target = self.route(k);
        let mut offset: usize = 0;
        let ghost mut l: nat = 0;
        loop
            invariant
                self.wf(),
                self.levels@ > 0,
                k == key as int,
                target == self.route(k),
                self.present(target, k),
                forall|j: nat| #[trigger] self.present(j, k) ==> j == target,
                l <= target,
                offset == pow2(l) - 1,
            decreases target - l,
        {
            proof {
                self.lemma_levels(l, k);
                lemma_u64_low_bits_mask_is_mod(key, l);
                lemma_slot_index_range(l, k);
                assert((offset as u64) == (low_bits_mask(l) as u64));
            }
            let masked = key & (offset as u64);
            assert(masked == k % (pow2(l) as int));
            let index = offset + masked as usize;
            let mask = offset;
            if self.map[index].is_some() {
                assert(self.present(l, k));
                return (mask, index);
            }
            assert(l != target);
            proof {
                self.lemma_levels(target, k);
                if l + 1 < target {
                    lemma_pow2_strictly_increases(l + 1, target);
                }
                lemma_slot_index_range(l, k);
                lemma_slot_index_range(target, k);
            }
            offset = offset * 2 + 1;
            proof {
                l = l + 1;
            }
        }
    }

    /// `search` on the key of `hash`.
    fn search_hash(&self, hash: u64) -> (found: (usize, usize))
        requires
            self.wf(),
            self.levels@ > 0,
        ensures
            found.0 == pow2(self.route(key_of(hash))) - 1,
            found.1 == slot_index(self.route(key_of(hash)), key_of(hash)),
            found.1 < self.map@.len(),
            self.present(self.route(key_of(hash)), key_of(hash)),
    {
        let key = hash >> SHIFT;
        assert(key == hash / 128) by (bit_vector)
            requires
                key == hash >> 7u32,
        ;
        self.search(key)
    }

    /// The table that holds the entries for `hash`.
    pub fn get_table(&self, hash: u64) -> (table: &PairTable)
        requires
            self.wf(),
        ensures
            *table == self.table_for(hash),
    {
        if self.tables == 0 {
            return &self.cached;
        }
        let (_, index) = self.search_hash(hash);
        self.map[index].as_ref().unwrap()
    }

    /// `post` is `pre` with the table in the slot at level `l` for residue
    /// `rho` shared out between `left` and `right`, in the two slots below it,
    /// and the array grown to hold the level below `l`.
    spec fn split_of(pre: Self, post: Self, l: nat, rho: int, left: PairTable, right: PairTable) -> bool {
        let levels = if pre.levels@ >= l + 2 { pre.levels@ } else { l + 2 };
        &&& post.levels@ == levels
        &&& post.map@.len() + 1 == pow2(levels)
        &&& forall|i: int|
            0 <= i < post.map@.len() ==> #[trigger] post.map@[i] == (if i == slot_index(l, rho) {
                None
            } else if i == slot_index(l + 1, rho) {
                Some(left)
            } else if i == slot_index(l + 1, rho + pow2(l)) {
                Some(right)
            } else if i < pre.map@.len() {
                pre.map@[i]
            } else {
                None
            })
    }

    /// The positions of the split slot and of the two slots below it.
    proof fn lemma_split_positions(l: nat, rho: int)
        requires
            0 <= rho < pow2(l),
        ensures
            slot_index(l, rho) == pow2(l) - 1 + rho,
            slot_index(l, rho + pow2(l)) == pow2(l) - 1 + rho,
            slot_index(l + 1, rho) == pow2(l + 1) - 1 + rho,
            slot_index(l + 1, rho + pow2(l)) == pow2(l + 1) - 1 + rho + pow2(l),
            pow2(l + 1) == 2 * pow2(l),
            pow2(l + 2) == 2 * pow2(l + 1),
    {
        lemma_slot_index_range(l, rho);
        lemma_slot_index_range(l + 1, rho);
        lemma_small_mod(rho as nat, pow2(l));
        lemma_small_mod(rho as nat, pow2(l + 1));
        lemma_small_mod((rho + pow2(l)) as nat, pow2(l + 1));
        lemma_residue_next(rho + pow2(l), l);
    }

    /// After a split, a key whose residue is that of the split slot has its
    /// table one level lower; every other key keeps its table.
    proof fn lemma_split_present(
        pre: Self,
        post: Self,
        l: nat,
        rho: int,
        left: PairTable,
        right: PairTable,
        j: nat,
        k: int,
    )
        requires
            pre.wf(),
            l < pre.levels@,
            0 <= rho < pow2(l),
            pre.present(l, rho),
            Self::split_of(pre, post, l, rho, left, right),
            0 <= k,
        ensures
            post.present(j, k) == if k % (pow2(l) as int) == rho {
                j == l + 1
            } else {
                pre.present(j, k)
            },
            post.present(j, k) && k % (pow2(l) as int) == rho && k % (pow2(l + 1) as int) == rho ==> post.map@[slot_index(j, k)] == Some(left),
            post.present(j, k) && k % (pow2(l) as int) == rho && k % (pow2(l + 1) as int) != rho ==> post.map@[slot_index(j, k)] == Some(right),
            post.present(j, k) && k % (pow2(l) as int) != rho ==> post.map@[slot_index(j, k)] == pre.map@[slot_index(j, k)],
    {
        let new_levels = post.levels@;
        let i = slot_index(j, k);
        Self::lemma_split_positions(l, rho);
        lemma_slot_index_range(j, k);
        lemma_residue_next(k, l);
        pre.lemma_levels(l, rho);
        if j < new_levels {
            if j + 1 < new_levels {
                lemma_pow2_strictly_increases(j + 1, new_levels);
            }
            assert(0 <= i < post.map@.len());
        }
        if j >= pre.levels@ {
            if j > pre.levels@ {
                lemma_pow2_strictly_increases(pre.levels@, j);
            }
            assert(i >= pre.map@.len());
        } else {
            pre.lemma_levels(j, k);
        }
        if i == slot_index(l, rho) {
            lemma_slot_index_inj(j, k, l, rho);
        }
        if i == slot_index(l + 1, rho) {
            lemma_slot_index_inj(j, k, l + 1, rho);
        }
        if i == slot_index(l + 1, rho + pow2(l)) {
            lemma_slot_index_inj(j, k, l + 1, rho + pow2(l));
        }
        if k % (pow2(l) as int) == rho {
            assert(slot_index(l, k) == slot_index(l, rho));
            assert(pre.present(l, k));
            if j != l && j != l + 1 && j < pre.levels@ && pre.map@[i] is Some {
                assert(pre.present(j, k));
            }
        }
    }

    /// A split keeps the trie's invariant, and sends the keys with the split
    /// slot's residue one level lower.
    proof fn lemma_split_wf(pre: Self, post: Self, l: nat, rho: int, left: PairTable, right: PairTable)
        requires
            pre.wf(),
            l < pre.levels@,
            0 <= rho < pow2(l),
            pre.present(l, rho),
            Self::split_of(pre, post, l, rho, left, right),
            post.tables == count_tables(post.map@),
            post.tables > 0,
            pair_table_slots(post.cached).dom().finite(),
            pair_table_slots(post.cached).len() == 0,
            pair_table_clean(post.cached),
            pair_table_capacity(post.cached) <= CAP,
            pair_table_slots(left).dom().finite(),
            pair_table_slots(right).dom().finite(),
            pair_table_clean(left),
            pair_table_clean(right),
            pair_table_capacity(left) <= CAP,
            pair_table_capacity(right) <= CAP,
            forall|s: Slot|
                #[trigger] bag_of(pair_table_slots(left)).contains(s) ==> key_of(s.0) % (pow2(l + 1) as int)
                    == rho,
            forall|s: Slot|
                #[trigger] bag_of(pair_table_slots(right)).contains(s) ==> key_of(s.0) % (pow2(l + 1) as int)
                    == rho + pow2(l),
        ensures
            post.wf(),
            forall|k: int| 0 <= k && k % (pow2(l) as int) == rho ==> #[trigger] post.route(k) == l + 1,
    {
        Self::lemma_split_positions(l, rho);
        assert forall|i: int| 0 <= i < post.map@.len() && (#[trigger] post.map@[i]) is Some implies {
            &&& pair_table_slots(post.map@[i]->Some_0).dom().finite()
            &&& pair_table_clean(post.map@[i]->Some_0)
            &&& pair_table_capacity(post.map@[i]->Some_0) <= CAP
        } by {
            if i != slot_index(l, rho) && i != slot_index(l + 1, rho) && i != slot_index(l + 1, rho + pow2(l)) {
                assert(post.map@[i] == pre.map@[i]);
            }
        }
        assert forall|k: int| 0 <= k && post.levels@ > 0 implies #[trigger] post.covered(k) by {
            if k % (pow2(l) as int) == rho {
                Self::lemma_split_present(pre, post, l, rho, left, right, l + 1, k);
                assert(post.present(l + 1, k));
            } else {
                pre.lemma_route(k);
                let j = pre.route(k);
                Self::lemma_split_present(pre, post, l, rho, left, right, j, k);
                assert(post.present(j, k));
            }
        }
        assert forall|k: int, l1: nat, l2: nat|
            0 <= k && #[trigger] post.present(l1, k) && #[trigger] post.present(l2, k) implies l1 == l2 by {
            Self::lemma_split_present(pre, post, l, rho, left, right, l1, k);
            Self::lemma_split_present(pre, post, l, rho, left, right, l2, k);
        }
        assert forall|j: nat, k: int, s: Slot|
            0 <= k && post.present(j, k) && #[trigger] post.entries_at(j, k).contains(s) implies key_of(s.0) % (
            pow2(j) as int) == k % (pow2(j) as int) by {
            Self::lemma_split_present(pre, post, l, rho, left, right, j, k);
            lemma_residue_next(k, l);
            if k % (pow2(l) as int) == rho {
                lemma_residue_next(key_of(s.0), l);
                if k % (pow2(l + 1) as int) == rho {
                    assert(bag_of(pair_table_slots(left)).contains(s));
                } else {
                    assert(bag_of(pair_table_slots(right)).contains(s));
                }
            } else {
                assert(pre.entries_at(j, k).contains(s));
            }
        }
        assert forall|k: int| 0 <= k && k % (pow2(l) as int) == rho implies #[trigger] post.route(k) == l + 1 by {
            Self::lemma_split_present(pre, post, l, rho, left, right, l + 1, k);
            post.lemma_route(k);
            Self::lemma_split_present(pre, post, l, rho, left, right, post.route(k), k);
        }
    }

    /// Splits the full table in the slot at `index`, on level `l` with mask
    /// `2^l - 1`, between the two slots below it: an entry goes to the first
    /// when bit `l` of its key is clear, to the second when it is set. Both
    /// new tables have room for all of the table's at most `CAP` entries:
    /// the first is allocated for `CAP` of them, the second is the spare
    /// table, replaced by such a new one when it has less room. The emptied
    /// table becomes the spare.
    #[verifier::rlimit(50)]
    #[verifier::spinoff_prover]
    fn split<H: Fn(&Pair) -> u64>(
        &mut self,
        mask: usize,
        index: usize,
        hasher: H,
        Ghost(l): Ghost<nat>,
        Ghost(rho): Ghost<int>,
    )
        requires
            old(self).wf(),
            agrees_with(hasher, old(self)@),
            l < old(self).levels@,
            0 <= rho < pow2(l),
            old(self).present(l, rho),
            mask == pow2(l) - 1,
            index == slot_index(l, rho),
            pow2(l + 2) - 1 <= usize::MAX,
            pair_table_slots(old(self).map@[slot_index(l, rho)]->Some_0).len() <= CAP,
        ensures
            final(self).wf(),
            final(self)@ == old(self)@,
            final(self).levels@ >= old(self).levels@,
            final(self).depth() == if old(self).depth() >= l + 2 { old(self).depth() } else { l + 2 },
            final(self).table_count() == old(self).table_count() + 1,
            forall|k: int| 0 <= k && k % (pow2(l) as int) == rho ==> #[trigger] final(self).route(k) == l + 1,
    {
        let ghost pre = *old(self);
        proof {
            Self::lemma_split_positions(l, rho);
            pre.lemma_levels(l, rho);
        }
        let next_mask = mask * 2 + 1;
        let next_len = next_mask * 2 + 1;
        let next0 = next_mask + index - mask;
        let next1 = next_mask + index + 1;
        let ghost new_len: int = if pre.levels@ >= l + 2 { pre.map@.len() as int } else { next_len as int };
        proof {
            if pre.levels@ >= l + 2 {
                if pre.levels@ > l + 2 {
                    lemma_pow2_strictly_increases(l + 2, pre.levels@);
                }
            } else {
                if l + 1 < pre.levels@ {
                    lemma_pow2_strictly_increases(l + 1, pre.levels@);
                }
            }
        }
        while self.map.len() < next_len
            invariant
                pre.map@.len() <= self.map@.len() <= new_len,
                new_len == if pre.map@.len() >= next_len { pre.map@.len() as int } else { next_len as int },
                forall|i: int|
                    0 <= i < self.map@.len() ==> #[trigger] self.map@[i] == if i < pre.map@.len() {
                        pre.map@[i]
                    } else {
                        None
                    },
                slots_bag(self.map@) == slots_bag(pre.map@),
                count_tables(self.map@) == count_tables(pre.map@),
                self.cached == pre.cached,
                self.tables == pre.tables,
                self.levels == pre.levels,
            decreases next_len - self.map@.len(),
        {
            proof {
                lemma_slots_push_none(self.map@);
            }
            self.map.push(None);
        }
        let ghost ext = self.map@;
        let mut slot: Option<PairTable> = None;
        self.map.set_and_swap(index, &mut slot);
        let mut table = slot.unwrap();
        let ghost whole = pair_table_slots(table);
        proof {
            assert(ext[index as int] == pre.map@[index as int]);
            assert(whole.dom().finite());
            lemma_slot_within(pre.map@, index as int);
            crate::hash_table::lemma_agrees_slots(hasher, whole, pre@);
            lemma_bag_of_len(whole);
        }
        let n = table.len();
        proof {
            lemma_capacity_for_cap();
        }
        let mut left = PairTable::with_capacity(CAP);
        if self.cached.capacity() < CAP {
            self.cached = PairTable::with_capacity(CAP);
        }
        let mut right = PairTable::new();
        std::mem::swap(&mut right, &mut self.cached);
        let mut drained = table.drain();
        let ghost mut rem: Multiset<Slot> = bag_of(whole);
        proof {
            assert(slot_items(whole) =~= whole.map_values(|x: Slot| x.1));
            lemma_bag_of_map_values(whole);
            lemma_strip_len(rem);
            assert(drained@.to_multiset().len() == drained@.len());
            assert(drained@.len() == n);
            lemma_bag_of_len(pair_table_slots(left));
            lemma_bag_of_len(pair_table_slots(right));
            assert(bag_of(pair_table_slots(left)) =~= Multiset::empty());
            assert(bag_of(pair_table_slots(right)) =~= Multiset::empty());
            assert(rem.add(bag_of(pair_table_slots(left))).add(bag_of(pair_table_slots(right))) =~= rem);
            assert forall|x: Slot| #[trigger] rem.contains(x) implies key_of(x.0) % (pow2(l) as int) == rho by {
                assert(pre.entries_at(l, rho).contains(x));
            }
            assert forall|x: Slot| #[trigger] rem.contains(x) implies {
                &&& call_requires(hasher, (&x.1,))
                &&& forall|h: u64| call_ensures(hasher, (&x.1,), h) ==> h == x.0
            } by {
                crate::bag::lemma_bag_of_contains(whole, x);
                let b = choose|b: usize| whole.contains_key(b) && whole[b] == x;
                assert(whole.contains_key(b));
            }
            assert(l + 1 < 64) by {
                lemma2_to64();
                if l + 2 > 64 {
                    if l + 2 > 65 {
                        lemma_pow2_strictly_increases(65, l + 2);
                    }
                    lemma_pow2_unfold(65);
                }
            }
        }
        while drained.len() > 0
            invariant
                drained@.to_multiset() == strip(rem),
                bag_of(whole) == rem.add(bag_of(pair_table_slots(left))).add(bag_of(pair_table_slots(right))),
                agrees_with(hasher, rem),
                forall|x: Slot| #[trigger] rem.contains(x) ==> key_of(x.0) % (pow2(l) as int) == rho,
                forall|x: Slot|
                    #[trigger] bag_of(pair_table_slots(left)).contains(x) ==> key_of(x.0) % (pow2(l + 1) as int)
                        == rho,
                forall|x: Slot|
                    #[trigger] bag_of(pair_table_slots(right)).contains(x) ==> key_of(x.0) % (pow2(l + 1) as int)
                        == rho + pow2(l),
                pair_table_slots(left).dom().finite(),
                pair_table_slots(right).dom().finite(),
                pair_table_slots(left).len() + pair_table_slots(right).len() + drained@.len() == n,
                pair_table_capacity(left) >= n,
                pair_table_capacity(right) >= n,
                pair_table_clean(left),
                pair_table_clean(right),
                pair_table_capacity(left) <= CAP,
                pair_table_capacity(right) <= CAP,
                mask == pow2(l) - 1,
                next_mask == pow2(l + 1) - 1,
                pow2(l + 1) == 2 * pow2(l),
                l + 1 < 64,
                0 <= rho < pow2(l),
            decreases drained@.len(),
        {
            let ghost before = drained@;
            let ghost left_before = pair_table_slots(left);
            let ghost right_before = pair_table_slots(right);
            let e = drained.pop().unwrap();
            proof {
                assert(before =~= drained@.push(e));
                assert(drained@.push(e).to_multiset() == drained@.to_multiset().insert(e));
                assert(strip(rem).contains(e));
                lemma_strip_contains(rem, e);
            }
            let ghost a: u64 = choose|a: u64| rem.contains((a, e));
            let ghost x: Slot = (a, e);
            assert(rem.contains(x));
            let h = hasher(&e);
            let shifted = h >> SHIFT;
            let key = shifted & (next_mask as u64);
            proof {
                assert(h == a);
                assert(shifted == h / 128) by (bit_vector)
                    requires
                        shifted == h >> 7u32,
                ;
                lemma_u64_low_bits_mask_is_mod(shifted, l + 1);
                lemma2_to64();
                lemma_pow2_strictly_increases(l + 1, 64);
                assert((next_mask as u64) == (low_bits_mask(l + 1) as u64));
                assert((pow2(l + 1) as u64) as int == pow2(l + 1));
                lemma_slot_index_range(l + 1, key_of(h));
                assert(key == key_of(h) % (pow2(l + 1) as int));
                lemma_residue_next(key_of(h), l);
                lemma_bag_of_len(left_before);
                lemma_bag_of_len(right_before);
            }
            if key <= mask as u64 {
                let b = left.insert_unique(h, e);
                proof {
                    lemma_bag_of_insert(left_before, b, x);
                    assert(key_of(x.0) % (pow2(l) as int) == rho);
                    assert(key_of(x.0) % (pow2(l + 1) as int) == rho);
                    assert forall|y: Slot| #[trigger] bag_of(pair_table_slots(left)).contains(y) implies key_of(y.0) % (
                    pow2(l + 1) as int) == rho by {
                        if y != x {
                            assert(bag_of(left_before).contains(y));
                        }
                    }
                }
            } else {
                let b = right.insert_unique(h, e);
                proof {
                    lemma_bag_of_insert(right_before, b, x);
                    assert(key_of(x.0) % (pow2(l) as int) == rho);
                    assert(key_of(x.0) % (pow2(l + 1) as int) == rho + pow2(l));
                    assert forall|y: Slot| #[trigger] bag_of(pair_table_slots(right)).contains(y) implies key_of(y.0) % (
                    pow2(l + 1) as int) == rho + pow2(l) by {
                        if y != x {
                            assert(bag_of(right_before).contains(y));
                        }
                    }
                }
            }
            proof {
                lemma_strip_remove(rem, x);
                let rem_before = rem;
                rem = rem.remove(x);
                assert(strip(rem).insert(e) =~= drained@.to_multiset().insert(e));
                assert forall|y: Pair| #[trigger] drained@.to_multiset().count(y) == strip(rem).count(y) by {
                    assert(strip(rem).insert(e).count(y) == drained@.to_multiset().insert(e).count(y));
                }
                assert(drained@.to_multiset() =~= strip(rem));
                assert(bag_of(whole) =~= rem.add(bag_of(pair_table_slots(left))).add(
                    bag_of(pair_table_slots(right)),
                ));
                assert forall|y: Slot| #[trigger] rem.contains(y) implies rem_before.contains(y) by {}
            }
        }
        proof {
            assert(drained@ =~= Seq::empty());
            lemma_strip_len(rem);
            assert(rem =~= Multiset::empty());
            assert(bag_of(whole) =~= bag_of(pair_table_slots(left)).add(bag_of(pair_table_slots(right))));
        }
        let ghost emptied = self.map@;
        self.cached = table;
        self.map.set(next0, Some(left));
        let ghost with_left = self.map@;
        self.map.set(next1, Some(right));
        proof {
            assert(emptied == ext.update(index as int, None));
            assert(ext[index as int] == pre.map@[index as int]);
            assert(slot_bag(ext[index as int]) == bag_of(whole));
            assert(ext[next0 as int] is None) by {
                if (next0 as int) < pre.map@.len() && pre.map@[next0 as int] is Some {
                    assert(slot_index(l + 1, rho) == next0);
                    assert(pre.present(l + 1, rho));
                }
            }
            assert(ext[next1 as int] is None) by {
                if (next1 as int) < pre.map@.len() && pre.map@[next1 as int] is Some {
                    assert(pre.present(l, rho + pow2(l)));
                    assert(pre.present(l + 1, rho + pow2(l)));
                }
            }
            lemma_slots_update(ext, index as int, None);
            lemma_slots_update(emptied, next0 as int, Some(left));
            assert(emptied[next1 as int] == ext[next1 as int]);
            assert(with_left[next1 as int] is None);
            lemma_slots_update(with_left, next1 as int, Some(right));
            assert(emptied[next0 as int] is None);
            let lb = bag_of(pair_table_slots(left));
            let rb = bag_of(pair_table_slots(right));
            assert forall|y: Slot| #[trigger] slots_bag(self.map@).count(y) == slots_bag(pre.map@).count(y) by {
                assert(slots_bag(emptied).add(bag_of(whole)).count(y) == slots_bag(ext).add(slot_bag(None)).count(y));
                assert(slots_bag(with_left).add(slot_bag(None)).count(y) == slots_bag(emptied).add(lb).count(y));
                assert(slots_bag(self.map@).add(slot_bag(None)).count(y) == slots_bag(with_left).add(rb).count(y));
                assert(bag_of(whole).count(y) == lb.count(y) + rb.count(y));
            }
            assert(slots_bag(self.map@) =~= slots_bag(pre.map@));
            lemma_count_tables_bound(self.map@);
            assert(self.map@.len() == self.map.len());
        }
        self.tables = self.tables + 1;
        self.levels = Ghost(if pre.levels@ >= l + 2 { pre.levels@ } else { l + 2 });
        proof {
            assert forall|i: int| 0 <= i < self.map@.len() implies #[trigger] self.map@[i] == (if i == slot_index(
                l,
                rho,
            ) {
                None
            } else if i == slot_index(l + 1, rho) {
                Some(left)
            } else if i == slot_index(l + 1, rho + pow2(l)) {
                Some(right)
            } else if i < pre.map@.len() {
                pre.map@[i]
            } else {
                None
            }) by {}
            assert(Self::split_of(pre, *self, l, rho, left, right));
            Self::lemma_split_wf(pre, *self, l, rho, left, right);
        }
    }

    /// The array with the slot that holds the table for `hash` set to `x`.
    pub closed spec fn put(self, hash: u64, x: PairTable) -> Seq<Option<PairTable>> {
        self.map@.update(slot_index(self.route(key_of(hash)), key_of(hash)), Some(x))
    }

    /// `fin` is `mid` with the table for `hash` replaced by `x`.
    pub closed spec fn replaced(mid: Self, fin: Self, hash: u64, x: PairTable) -> bool {
        &&& fin.map@ == mid.put(hash, x)
        &&& fin.levels == mid.levels
        &&& fin.tables == mid.tables
        &&& fin.cached == mid.cached
    }

    /// `x` may stand in the slot for `hash`: the keys of its entries agree
    /// with the key of `hash` on that slot's level.
    pub closed spec fn fits(self, hash: u64, x: PairTable) -> bool {
        let l = self.route(key_of(hash));
        &&& pair_table_slots(x).dom().finite()
        &&& pair_table_clean(x)
        &&& pair_table_capacity(x) <= CAP
        &&& forall|s: Slot|
            #[trigger] bag_of(pair_table_slots(x)).contains(s) ==> key_of(s.0) % (pow2(l) as int) == key_of(hash)
                % (pow2(l) as int)
    }

    /// Replacing the table for `hash` by `x` makes `x` the table for `hash`,
    /// and exchanges the replaced table's entries for those of `x`. The table
    /// the trie held fits its slot, and any table that fits keeps the trie's
    /// invariant.
    pub proof fn lemma_replaced(mid: Self, fin: Self, hash: u64, x: PairTable)
        requires
            mid.wf(),
            mid.depth() > 0,
            Self::replaced(mid, fin, hash, x),
        ensures
            fin.table_for(hash) == x,
            fin.depth() == mid.depth(),
            forall|k2: int| 0 <= k2 ==> #[trigger] fin.route(k2) == mid.route(k2),
            fin@.add(bag_of(pair_table_slots(mid.table_for(hash)))) == mid@.add(bag_of(pair_table_slots(x))),
            mid.fits(hash, mid.table_for(hash)),
            fin.fits(hash, x) == mid.fits(hash, x),
            mid.fits(hash, x) ==> fin.wf(),
    {
        let k = key_of(hash);
        mid.lemma_route(k);
        let r = mid.route(k);
        let idx = slot_index(r, k);
        mid.lemma_levels(r, k);
        assert forall|j: nat, k2: int| 0 <= k2 implies #[trigger] fin.present(j, k2) == mid.present(j, k2) by {
            if j < mid.levels@ {
                mid.lemma_levels(j, k2);
            }
        }
        assert forall|k2: int| 0 <= k2 implies #[trigger] fin.route(k2) == mid.route(k2) by {
            mid.lemma_route(k2);
            assert(fin.present(mid.route(k2), k2));
            assert(fin.present(fin.route(k2), k2));
        }
        assert(fin.route(k) == r);
        assert(fin.map@[idx] == Some(x));
        lemma_slots_update(mid.map@, idx, Some(x));
        assert(mid.map@[idx] == Some(mid.table_for(hash)));
        assert forall|s: Slot| #[trigger] bag_of(pair_table_slots(mid.table_for(hash))).contains(s) implies key_of(
            s.0,
        ) % (pow2(r) as int) == k % (pow2(r) as int) by {
            assert(mid.entries_at(r, k).contains(s));
        }
        if mid.fits(hash, x) {
            assert forall|i: int|
                0 <= i < fin.map@.len() && (#[trigger] fin.map@[i]) is Some implies pair_table_slots(
                fin.map@[i]->Some_0,
            ).dom().finite() by {
                if i != idx {
                    assert(fin.map@[i] == mid.map@[i]);
                }
            }
            assert forall|k2: int| 0 <= k2 && fin.levels@ > 0 implies #[trigger] fin.covered(k2) by {
                mid.lemma_route(k2);
                assert(fin.present(mid.route(k2), k2));
            }
            assert forall|k2: int, l1: nat, l2: nat|
                0 <= k2 && #[trigger] fin.present(l1, k2) && #[trigger] fin.present(l2, k2) implies l1 == l2 by {
                assert(mid.present(l1, k2));
                assert(mid.present(l2, k2));
            }
            assert forall|j: nat, k2: int, s: Slot|
                0 <= k2 && fin.present(j, k2) && #[trigger] fin.entries_at(j, k2).contains(s) implies key_of(s.0) % (
                pow2(j) as int) == k2 % (pow2(j) as int) by {
                assert(mid.present(j, k2));
                mid.lemma_levels(j, k2);
                if slot_index(j, k2) == idx {
                    lemma_slot_index_inj(j, k2, r, k);
                    assert(bag_of(pair_table_slots(x)).contains(s));
                } else {
                    assert(fin.map@[slot_index(j, k2)] == mid.map@[slot_index(j, k2)]);
                    assert(mid.entries_at(j, k2).contains(s));
                }
            }
        }
    }

    /// The table for `hash`, found at `index`, to be changed in place.
    fn slot_mut(&mut self, hash: u64, index: usize) -> (t: &mut PairTable)
        requires
            old(self).wf(),
            old(self).levels@ > 0,
            index == slot_index(old(self).route(key_of(hash)), key_of(hash)),
        ensures
            *t == old(self).table_for(hash),
            Self::replaced(*old(self), *final(self), hash, *final(t)),
    {
        proof {
            self.lemma_route(key_of(hash));
            self.lemma_levels(self.route(key_of(hash)), key_of(hash));
        }
        self.map[index].as_mut().unwrap()
    }

    /// The table for `hash`, to be changed in place; when the trie has no
    /// table yet, a new empty one is made the table for every key.
    pub fn get_table_mut(&mut self, hash: u64) -> (t: &mut PairTable)
        requires
            old(self).wf(),
        ensures
            exists|mid: Self|
                #![trigger mid.table_for(hash)]
                Self::replaced(mid, *final(self), hash, *final(t)) && mid.wf() && mid.depth() > 0
                    && mid@ == old(self)@ && *t == mid.table_for(hash) && (old(self).depth() > 0 ==> mid
                    == *old(self)) && (old(self).depth() == 0 ==> mid.depth() == 1 && pair_table_slots(*t)
                    =~= Map::empty() && pair_table_capacity(*t) == 0),
    {
        if self.tables == 0 {
            self.start();
        }
        let (_, index) = self.search_hash(hash);
        self.slot_mut(hash, index)
    }

    /// Puts a first, empty table in the single slot of level 0.
    fn start(&mut self)
        requires
            old(self).wf(),
            old(self).levels@ == 0,
        ensures
            final(self).wf(),
            final(self).levels@ == 1,
            final(self)@ == old(self)@,
            forall|hash: u64|
                pair_table_slots(#[trigger] final(self).table_for(hash)) =~= Map::empty() && pair_table_capacity(
                    final(self).table_for(hash),
                ) == 0,
    {
        proof {
            lemma2_to64();
            assert(self.map@ =~= Seq::empty());
        }
        let first = PairTable::new();
        self.map.push(Some(first));
        self.tables = 1;
        self.levels = Ghost(1);
        proof {
            assert(self.map@ =~= seq![Some(first)]);
            assert(self.map@.drop_last() =~= Seq::empty());
            assert(count_tables(self.map@) == 1);
            assert forall|k: int| 0 <= k && self.levels@ > 0 implies #[trigger] self.covered(k) by {
                assert(slot_index(0, k) == 0);
                assert(self.present(0, k));
            }
            lemma_bag_of_len(pair_table_slots(first));
            assert(bag_of(pair_table_slots(first)) =~= Multiset::empty());
            assert(slots_bag(self.map@) == slots_bag(self.map@.drop_last()).add(slot_bag(self.map@.last())));
            assert(slots_bag(self.map@.drop_last()) =~= Multiset::empty());
            assert(self@ =~= Multiset::empty());
            assert forall|l: nat, k: int, x: Slot|
                0 <= k && self.present(l, k) && #[trigger] self.entries_at(l, k).contains(x) implies key_of(x.0) % (
                pow2(l) as int) == k % (pow2(l) as int) by {
                assert(slot_index(0, k) == 0);
            }
            assert(self.wf());
            assert forall|hash: u64|
                pair_table_slots(#[trigger] self.table_for(hash)) =~= Map::empty() && pair_table_capacity(
                    self.table_for(hash),
                ) == 0 by {
                self.lemma_route(key_of(hash));
                assert(slot_index(0, key_of(hash)) == 0);
            }
        }
    }

    /// `now` is `start` after the splits `get_table_for_insert` makes for
    /// `hash`: the key's table lies no higher; nothing is split while the
    /// table there has room or can grow, and when it can do neither, either
    /// it was split and the key's table lies lower, or nothing changed.
    pub open spec fn moved_on(start: Self, now: Self, hash: u64) -> bool {
        let t = start.table_for(hash);
        &&& start.depth() > 0 ==> now.route(key_of(hash)) >= start.route(key_of(hash))
        &&& start.depth() > 0 && (has_room(t) || growable(t)) ==> now == start
        &&& start.depth() > 0 && !has_room(t) && !growable(t) ==> now == start || now.route(key_of(hash))
            > start.route(key_of(hash))
    }

    /// The table for `hash`, made ready for one insertion. While that table
    /// is full, a table of at most half of `CAP` is grown (if its allocation
    /// is within `16 * capacity_limit()` bytes, so that hashbrown can lay out
    /// the larger one), and any other is split, after which the table for
    /// `hash` lies one level lower. A table with room is returned as it is.
    /// Every table holds at most `CAP` elements, the grown one too. `None`
    /// when a split is needed but cannot be made: the slot array would
    /// outgrow a `usize`.
    pub fn get_table_for_insert<H: Fn(&Pair) -> u64>(&mut self, hash: u64, hasher: H) -> (table: Option<
        &mut PairTable,
    >)
        requires
            old(self).wf(),
            agrees_with(hasher, old(self)@),
        ensures
            match table {
                Some(t) => exists|pre: Self, mid: Self|
                    #![trigger pre.table_for(hash), mid.table_for(hash)]
                    {
                        &&& Self::replaced(mid, *final(self), hash, *final(t))
                        &&& mid.wf()
                        &&& mid.depth() > 0
                        &&& mid@ == old(self)@
                        &&& *t == mid.table_for(hash)
                        &&& has_room(*t)
                        &&& pair_table_capacity(*t) <= CAP
                        &&& pre.wf()
                        &&& pre.depth() > 0
                        &&& pre@ == old(self)@
                        &&& has_room(pre.table_for(hash)) ==> mid == pre
                        &&& !has_room(pre.table_for(hash)) ==> {
                            &&& growable(pre.table_for(hash))
                            &&& Self::replaced(pre, mid, hash, *t)
                            &&& bag_of(pair_table_slots(*t)) == bag_of(pair_table_slots(pre.table_for(hash)))
                        }
                        &&& Self::moved_on(*old(self), pre, hash)
                    },
                None => {
                    let t = final(self).table_for(hash);
                    &&& final(self).wf()
                    &&& final(self)@ == old(self)@
                    &&& final(self).depth() > 0
                    &&& !has_room(t)
                    &&& !growable(t)
                    &&& pow2(final(self).route(key_of(hash)) + 2) - 1 > usize::MAX
                    &&& Self::moved_on(*old(self), *final(self), hash)
                },
            },
    {
        if self.tables == 0 {
            self.start();
        }
        loop
            invariant
                self.wf(),
                self.levels@ > 0,
                self@ == old(self)@,
                agrees_with(hasher, self@),
                Self::moved_on(*old(self), *self, hash),
            decreases 64 - self.route(key_of(hash)),
        {
            let (mask, index) = self.search_hash(hash);
            let ghost l = self.route(key_of(hash));
            let ghost rho = key_of(hash) % (pow2(l) as int);
            let ghost pre = *self;
            proof {
                self.lemma_levels(l, key_of(hash));
                self.lemma_table_for(hash);
                lemma_slot_index_range(l, key_of(hash));
                lemma_bag_of_len(pair_table_slots(self.table_for(hash)));
            }
            let t = self.map[index].as_ref().unwrap();
            let cap = t.capacity();
            let len = t.len();
            let alloc = t.allocation_size();
            let growth_left = cap - len;
            if growth_left >= 1 || (cap <= CAP / 2 && alloc <= capacity_bound() * 16) {
                if growth_left < 1 {
                    proof {
                        crate::hash_table::lemma_agrees_slots(hasher, pair_table_slots(pre.table_for(hash)), pre@);
                    }
                    let t = self.slot_mut(hash, index);
                    t.reserve(1, &hasher);
                    proof {
                        let x = self.map@[index as int]->Some_0;
                        lemma_capacity_for((len + 1) as nat);
                        Self::lemma_replaced(pre, *self, hash, x);
                        let xb = bag_of(pair_table_slots(x));
                        let mb = bag_of(pair_table_slots(pre.table_for(hash)));
                        assert(xb == mb);
                        assert(pre.fits(hash, x));
                        assert forall|y: Slot| #[trigger] self@.count(y) == pre@.count(y) by {
                            assert(self@.add(mb).count(y) == pre@.add(xb).count(y));
                        }
                        assert(self@ =~= pre@);
                        lemma_bag_of_len(pair_table_slots(x));
                        assert(self.table_for(hash) == x);
                        assert(pair_table_slots(x).len() < pair_table_capacity(x));
                        assert(Self::replaced(pre, *self, hash, x));
                    }
                }
                let ghost before = *self;
                proof {
                    assert(has_room(before.table_for(hash)));
                    before.lemma_table_for(hash);
                    assert(pre.table_for(hash) == pre.table_for(hash));
                    if has_room(pre.table_for(hash)) {
                        assert(before == pre);
                    }
                }
                return Some(self.slot_mut(hash, index));
            }
            if mask > (usize::MAX - 3) / 4 {
                proof {
                    Self::lemma_split_positions(l, rho);
                    assert(self.table_for(hash) == *t);
                }
                return None;
            }
            proof {
                Self::lemma_split_positions(l, rho);
                assert(4 * mask + 3 <= usize::MAX);
                lemma_mod_mod(key_of(hash), pow2(l) as int, 1);
                assert(slot_index(l, rho) == index);
                assert(self.present(l, rho));
            }
            self.split(mask, index, &hasher, Ghost(l), Ghost(rho));
            proof {
                assert(self.route(key_of(hash)) == l + 1);
                self.lemma_route(key_of(hash));
            }
        }
    }

    /// Adds `value` under `hash` to the table for `hash`, made ready by
    /// `get_table_for_insert`; `false`, and nothing added, when that cannot
    /// make room.
    pub fn insert_unique<H: Fn(&Pair) -> u64>(&mut self, hash: u64, value: Pair, hasher: H) -> (added: bool)
        requires
            old(self).wf(),
            agrees_with(hasher, old(self)@),
        ensures
            final(self).wf(),
            added ==> final(self)@ == old(self)@.insert((hash, value)),
            !added ==> final(self)@ == old(self)@,
    {
        let ghost start = *self;
        match self.get_table_for_insert(hash, hasher) {
            Some(t) => {
                let ghost before = *t;
                let _b = t.insert_unique(hash, value);
                let ghost after = *t;
                proof {
                    let (pre, mid) = choose|pre: Self, mid: Self|
                        #![trigger pre.table_for(hash), mid.table_for(hash)]
                        {
                            &&& Self::replaced(mid, *self, hash, after)
                            &&& mid.wf()
                            &&& mid.depth() > 0
                            &&& mid@ == start@
                            &&& before == mid.table_for(hash)
                            &&& has_room(before)
                            &&& pair_table_capacity(before) <= CAP
                            &&& pre.wf()
                            &&& pre.depth() > 0
                            &&& pre@ == start@
                            &&& has_room(pre.table_for(hash)) ==> mid == pre
                            &&& !has_room(pre.table_for(hash)) ==> {
                                &&& growable(pre.table_for(hash))
                                &&& Self::replaced(pre, mid, hash, before)
                                &&& bag_of(pair_table_slots(before)) == bag_of(pair_table_slots(pre.table_for(hash)))
                            }
                            &&& Self::moved_on(start, pre, hash)
                        };
                    Self::lemma_replaced(mid, *self, hash, after);
                    assert(mid.fits(hash, before));
                    lemma_bag_of_insert(pair_table_slots(before), _b, (hash, value));
                    lemma_bag_of_len(pair_table_slots(before));
                    let l = mid.route(key_of(hash));
                    assert forall|sl: Slot| #[trigger] bag_of(pair_table_slots(after)).contains(sl) implies key_of(sl.0) % (
                    pow2(l) as int) == key_of(hash) % (pow2(l) as int) by {
                        if sl != (hash, value) {
                            assert(bag_of(pair_table_slots(before)).contains(sl));
                        }
                    }
                    assert(mid.fits(hash, after));
                    assert(self@.add(bag_of(pair_table_slots(before))) == mid@.add(bag_of(pair_table_slots(after))));
                    assert forall|y: Slot| #[trigger] self@.count(y) == start@.insert((hash, value)).count(y) by {
                        assert(self@.add(bag_of(pair_table_slots(before))).count(y) == mid@.add(
                            bag_of(pair_table_slots(after)),
                        ).count(y));
                    }
                    assert(self@ =~= start@.insert((hash, value)));
                }
                true
            },
            None => false,
        }
    }

    /// The number of slots that hold a table.
    pub closed spec fn table_count(self) -> nat {
        count_tables(self.map@)
    }

    /// The tables, in slot order.
    pub closed spec fn table_list(self) -> Seq<PairTable> {
        slot_tables(self.map@)
    }

    /// The bytes allocated: by every table, and by the slot array.
    pub closed spec fn spec_allocation(self) -> nat {
        slots_allocation(self.map@) + self.map@.len() * vstd::layout::size_of::<Option<PairTable>>()
    }

    /// The number of slots, `2^depth - 1`.
    pub fn trie_len(&self) -> (len: usize)
        requires
            self.wf(),
        ensures
            len + 1 == pow2(self.depth()),
    {
        self.map.len()
    }

    /// The number of slots that hold a table.
    pub fn tables(&self) -> (n: usize)
        requires
            self.wf(),
        ensures
            n == self.table_count(),
            n == 0 <==> self.depth() == 0,
    {
        self.tables
    }

    /// The tables, in slot order.
    pub fn iter(&self) -> (tables: Vec<&PairTable>)
        ensures
            tables@.len() == self.table_list().len(),
            forall|i: int| 0 <= i < tables@.len() ==> *tables@[i] == self.table_list()[i],
    {
        let mut tables: Vec<&PairTable> = Vec::new();
        let mut i: usize = 0;
        while i < self.map.len()
            invariant
                i <= self.map@.len(),
                tables@.len() == slot_tables(self.map@.take(i as int)).len(),
                forall|j: int| 0 <= j < tables@.len() ==> *tables@[j] == slot_tables(self.map@.take(i as int))[j],
            decreases self.map@.len() - i,
        {
            let ghost prefix = self.map@.take(i as int);
            proof {
                assert(self.map@.take(i + 1).drop_last() =~= prefix);
                assert(self.map@.take(i + 1).last() == self.map@[i as int]);
            }
            if let Some(t) = self.map[i].as_ref() {
                tables.push(t);
            }
            i = i + 1;
        }
        proof {
            assert(self.map@.take(self.map@.len() as int) =~= self.map@);
        }
        tables
    }

    /// The bytes allocated by the tables and by the slot array, saturating
    /// at `usize::MAX`.
    pub fn allocation_size(&self) -> (size: usize)
        ensures
            size == saturated(self.spec_allocation() as int),
    {
        let mut total: usize = 0;
        let mut i: usize = 0;
        while i < self.map.len()
            invariant
                i <= self.map@.len(),
                total == saturated(slots_allocation(self.map@.take(i as int)) as int),
            decreases self.map@.len() - i,
        {
            proof {
                assert(self.map@.take(i + 1).drop_last() =~= self.map@.take(i as int));
                assert(self.map@.take(i + 1).last() == self.map@[i as int]);
            }
            if let Some(t) = self.map[i].as_ref() {
                total = total.saturating_add(t.allocation_size());
            }
            i = i + 1;
        }
        proof {
            assert(self.map@.take(self.map@.len() as int) =~= self.map@);
        }
        let array = match self.map.len().checked_mul(core::mem::size_of::<Option<PairTable>>()) {
            Some(bytes) => bytes,
            None => usize::MAX,
        };
        total.saturating_add(array)
    }
}

} // verus!
