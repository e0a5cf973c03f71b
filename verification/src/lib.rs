//! An open-addressed associative map specialized for integer keys.
//!
//! There is no hash function: a key's home slot is its low bits under a
//! power-of-two capacity mask. Collisions are resolved by Robin Hood linear
//! probing with a bounded probe budget: insertions displace richer incumbents
//! forward, and removals back-shift the following cluster to repair probe
//! chains. A trailing overflow region of 127 slots absorbs the maximum legal
//! probe distance, so probing never wraps around. Probe chains are bounded by
//! 126 steps; the operations require (and `searchable` / `can_insert` state)
//! that the bound is not crossed, which holds on the sizing the table is meant
//! for — load factors well below one.

use vstd::prelude::*;

pub mod key;
pub mod map;

pub use key::IntKey;
pub use key::SealedKey;
pub use map::Distance;
pub use map::SearchResult;
pub use map::Table;
pub use map::FREE;

verus! {

use crate::map::MAX_DISTANCE;
use crate::map::TAIL_SLOTS;
use vstd::arithmetic::power2::is_pow2;

/// The requested capacity after clamping to the largest supported one.
pub open spec fn clamped_capacity(requested: u32) -> int {
    if requested > 0x4000_0000 {
        0x4000_0000
    } else {
        requested as int
    }
}

/// Consecutive powers of two differ by a factor of two: nothing lies strictly
/// between a power of two and its double.
proof fn lemma_pow2_no_gap(c: int, d: int)
    requires
        is_pow2(c),
        is_pow2(d),
        c < d,
    ensures
        2 * c <= d,
    decreases d,
{
    reveal(vstd::arithmetic::power2::is_pow2);
    if c > 1 {
        lemma_pow2_no_gap(c / 2, d / 2);
    }
}

proof fn lemma_pow2_doubles(n: int)
    requires
        is_pow2(n),
    ensures
        is_pow2(2 * n),
{
    reveal(vstd::arithmetic::power2::is_pow2);
}

proof fn lemma_max_capacity_pow2()
    ensures
        is_pow2(0x4000_0000),
        is_pow2(1),
{
    reveal(vstd::arithmetic::power2::is_pow2);
    vstd::arithmetic::power2::lemma2_to64();
    vstd::arithmetic::power::lemma_pow_positive(2, 30);
    assert(vstd::arithmetic::power::pow(2, 30) == 0x4000_0000);
    assert(vstd::arithmetic::power2::is_pow2_exists(0x4000_0000));
    vstd::arithmetic::power2::is_pow2_equiv(0x4000_0000);
}

/// The map: a slot table plus the index mask giving each key its home slot.
#[derive(Clone)]
pub struct IntMap<K, V> {
    pub table: Table<K, V>,
    pub index_mask: u32,
}

impl<K: IntKey, V> IntMap<K, V> {
    /// Structural validity: a well-formed table whose mask is `index_mask`,
    /// the logical capacity a power of two.
    pub open spec fn wf(self) -> bool {
        &&& self.table.wf()
        &&& self.index_mask == self.table.mask()
        &&& self.table.capacity == self.index_mask + TAIL_SLOTS + 1
        &&& is_pow2(self.index_mask as int + 1)
    }

    /// The user-visible capacity: the number of home slots.
    pub open spec fn spec_capacity(self) -> int {
        self.index_mask as int + 1
    }

    pub open spec fn spec_len(self) -> int {
        self.table.len as int
    }

    /// The home slot of `key` in this map.
    pub open spec fn spec_home_of(self, key: K) -> int {
        key.spec_home(self.index_mask)
    }

    /// A probe walk for `key` stops within the probe budget: the key is
    /// present, or a slot within 127 of its home is poorer than the walk.
    /// Every reachable table whose probe chains respect the budget satisfies
    /// this; a search on a map violating it would be a sizing error and abort.
    pub open spec fn searchable(self, key: K) -> bool {
        self.table.contains_spec(key) || self.table.can_stop(self.spec_home_of(key))
    }

    /// Inserting `key` stays within the probe budget: replacing a present key
    /// always does; a new key needs its probe walk to stop within the budget
    /// and, past the insertion point, a free slot before any entry whose
    /// distance could not grow a step. Violating it would be a sizing error
    /// and abort.
    pub open spec fn can_insert(self, key: K) -> bool {
        self.table.contains_spec(key) || self.table.can_place(self.spec_home_of(key))
    }
}

impl<K: IntKey, V> View for IntMap<K, V> {
    type V = Map<K, V>;

    open spec fn view(&self) -> Map<K, V> {
        self.table@
    }
}

impl<K: IntKey, V> IntMap<K, V> {
    /// Builds an empty map. The requested capacity is clamped to `2^30` and
    /// rounded up to the next power of two (a request of zero gives one);
    /// the ensures pin that shape exactly: the resulting capacity is the
    /// least power of two not below the clamped request.
    pub fn with_capacity(capacity: u32) -> (r: Self)
        ensures
            r.wf(),
            r@ == Map::<K, V>::empty(),
            r.spec_len() == 0,
            is_pow2(r.spec_capacity()),
            r.spec_capacity() >= clamped_capacity(capacity),
            r.spec_capacity() > 1 ==> r.spec_capacity() / 2 < clamped_capacity(capacity),
            1 <= r.spec_capacity() <= 0x4000_0000,
    {
        let requested: u32 = if capacity > 0x4000_0000u32 {
            0x4000_0000u32
        } else {
            capacity
        };
        proof {
            lemma_max_capacity_pow2();
        }
        let mut cap: u32 = 1;
        while cap < requested
            invariant
                1 <= cap <= 0x4000_0000,
                is_pow2(cap as int),
                requested <= 0x4000_0000,
                requested as int == clamped_capacity(capacity),
                cap > 1 ==> cap / 2 < requested,
            decreases 0x4000_0000 - cap,
        {
            proof {
                lemma_max_capacity_pow2();
                lemma_pow2_no_gap(cap as int, 0x4000_0000);
                lemma_pow2_doubles(cap as int);
            }
            cap = cap * 2;
        }
        let total: usize = cap as usize + TAIL_SLOTS;
        let table = Table::with_capacity(total);
        let index_mask: u32 = cap - 1;
        IntMap { table, index_mask }
    }

    /// The home slot of `key`: the key AND the index mask.
    fn index_for_key(&self, key: K) -> (r: usize)
        requires
            self.wf(),
        ensures
            r as int == self.spec_home_of(key),
            r <= self.index_mask as usize,
    {
        key.home(self.index_mask)
    }

    /// Inserts `key` with `value`. Returns the value the key was bound to
    /// before, if any; the length grows only when the key is new.
    pub fn insert(&mut self, key: K, value: V) -> (r: Option<V>)
        requires
            old(self).wf(),
            old(self).can_insert(key),
        ensures
            final(self).wf(),
            final(self)@ == old(self)@.insert(key, value),
            r == (if old(self)@.contains_key(key) {
                Some(old(self)@[key])
            } else {
                None::<V>
            }),
            final(self).index_mask == old(self).index_mask,
            final(self).spec_len() == old(self).spec_len() + (if old(self)@.contains_key(key) {
                0int
            } else {
                1int
            }),
            // replacing is in place: only the found slot's value changes
            old(self)@.contains_key(key) ==> final(self).table.keys@ == old(self).table.keys@
                && final(self).table.distances@ == old(self).table.distances@
                && final(self).table.values@ == old(self).table.values@.update(
                old(self).table.slot_of(key),
                Some(value),
            ),
            // a fresh key lands at its probe walk's stop slot; the cluster up
            // to the first free slot shifts one step further out, incumbents
            // already one step past their left neighbour staying put
            !old(self)@.contains_key(key) ==> ({
                let h = old(self).spec_home_of(key);
                let p = old(self).table.stop_slot(h);
                let ff = old(self).table.first_free_from(p);
                &&& h <= p <= ff < old(self).table.slots()
                &&& final(self).table.distances@[p] as int == p - h
                &&& final(self).table.keys@[p] == key
                &&& final(self).table.values@[p] == Some(value)
                &&& forall|j: int|
                    0 <= j < p ==> #[trigger] final(self).table.distances@[j]
                        == old(self).table.distances@[j]
                &&& forall|j: int|
                    0 <= j < p ==> #[trigger] final(self).table.keys@[j]
                        == old(self).table.keys@[j]
                &&& forall|j: int|
                    0 <= j < p ==> #[trigger] final(self).table.values@[j]
                        == old(self).table.values@[j]
                &&& forall|j: int|
                    ff < j < old(self).table.slots() ==> #[trigger] final(self).table.distances@[j]
                        == old(self).table.distances@[j]
                &&& forall|j: int|
                    ff < j < old(self).table.slots() ==> #[trigger] final(self).table.keys@[j]
                        == old(self).table.keys@[j]
                &&& forall|j: int|
                    ff < j < old(self).table.slots() ==> #[trigger] final(self).table.values@[j]
                        == old(self).table.values@[j]
                &&& forall|j: int|
                    p < j <= ff ==> #[trigger] final(self).table.distances@[j]
                        == old(self).table.distances@[j - 1] + 1
                &&& forall|j: int|
                    p < j <= ff ==> #[trigger] crate::map::keeps_stepped_slot(
                        old(self).table,
                        final(self).table,
                        j,
                    )
            }),
    {
        let index = self.index_for_key(key);
        proof {
            self.table.lemma_view_at(key);
            if !self.table.contains_spec(key) {
                self.table.lemma_can_place_can_stop(index as int);
            }
        }
        match self.table.search(&key, index) {
            SearchResult::Found(i) => {
                let prev = self.table.replace_value(i, value);
                Some(prev)
            },
            SearchResult::NotFound(i, d) => {
                proof {
                    self.table.lemma_place_at_stop(index as int, i as int);
                    self.table.lemma_stop_from_at(index as int, index as int, i as int);
                }
                self.table.insert(i, key, value, d);
                None
            },
        }
    }

    /// Removes `key`, returning the value it was bound to, if any.
    pub fn remove(&mut self, key: K) -> (r: Option<V>)
        requires
            old(self).wf(),
            old(self).searchable(key),
        ensures
            final(self).wf(),
            final(self)@ == old(self)@.remove(key),
            r == (if old(self)@.contains_key(key) {
                Some(old(self)@[key])
            } else {
                None::<V>
            }),
            final(self).index_mask == old(self).index_mask,
            final(self).spec_len() == old(self).spec_len() - (if old(self)@.contains_key(key) {
                1int
            } else {
                0int
            }),
            // removing an absent key changes nothing at all
            !old(self)@.contains_key(key) ==> *final(self) == *old(self),
            // removing a present key back-shifts the run of displaced entries
            // after its slot one slot earlier, each one step closer to home;
            // the walk's end slot and everything past it are untouched
            old(self)@.contains_key(key) ==> ({
                let i = old(self).table.slot_of(key);
                let e = old(self).table.back_shift_end(i + 1);
                &&& i < e < old(self).table.slots()
                &&& forall|j: int|
                    0 <= j < i ==> #[trigger] final(self).table.distances@[j]
                        == old(self).table.distances@[j]
                &&& forall|j: int|
                    0 <= j < i ==> #[trigger] final(self).table.keys@[j]
                        == old(self).table.keys@[j]
                &&& forall|j: int|
                    0 <= j < i ==> #[trigger] final(self).table.values@[j]
                        == old(self).table.values@[j]
                &&& forall|j: int|
                    e <= j < old(self).table.slots() ==> #[trigger] final(self).table.distances@[j]
                        == old(self).table.distances@[j]
                &&& forall|j: int|
                    e <= j < old(self).table.slots() ==> #[trigger] final(self).table.keys@[j]
                        == old(self).table.keys@[j]
                &&& forall|j: int|
                    e <= j < old(self).table.slots() ==> #[trigger] final(self).table.values@[j]
                        == old(self).table.values@[j]
                &&& forall|j: int|
                    i <= j < e - 1 ==> #[trigger] final(self).table.distances@[j]
                        == old(self).table.distances@[j + 1] - 1 && final(self).table.keys@[j]
                        == old(self).table.keys@[j + 1] && final(self).table.values@[j]
                        == old(self).table.values@[j + 1]
                &&& final(self).table.distances@[e - 1] == crate::map::FREE
                &&& final(self).table.values@[e - 1] is None
                &&& final(self).table.keys@[e - 1] == old(self).table.keys@[e - 1]
            }),
    {
        let index = self.index_for_key(key);
        proof {
            self.table.lemma_view_at(key);
        }
        match self.table.search(&key, index) {
            SearchResult::Found(i) => {
                let v = self.table.remove(i);
                Some(v)
            },
            SearchResult::NotFound(..) => {
                proof {
                    assert(self@.remove(key) =~= self@);
                }
                None
            },
        }
    }

    /// Looks `key` up.
    pub fn get(&self, key: K) -> (r: Option<&V>)
        requires
            self.wf(),
            self.searchable(key),
        ensures
            match r {
                Some(v) => self@.contains_key(key) && *v == self@[key],
                None => !self@.contains_key(key),
            },
    {
        let index = self.index_for_key(key);
        proof {
            self.table.lemma_view_at(key);
        }
        match self.table.search(&key, index) {
            SearchResult::Found(i) => {
                proof {
                    self.table.lemma_slot_of(i as int);
                }
                self.table.values[i].as_ref()
            },
            SearchResult::NotFound(..) => None,
        }
    }

    /// Looks `key` up for mutation. Whatever the caller writes through the
    /// returned reference becomes the key's bound value.
    pub fn get_mut(&mut self, key: K) -> (r: Option<&mut V>)
        requires
            old(self).wf(),
            old(self).searchable(key),
        ensures
            match r {
                Some(v) => {
                    &&& old(self)@.contains_key(key)
                    &&& *v == old(self)@[key]
                    &&& final(self).wf()
                    &&& final(self)@ == old(self)@.insert(key, *final(v))
                    &&& final(self).index_mask == old(self).index_mask
                    &&& final(self).spec_len() == old(self).spec_len()
                    &&& final(self).table.keys@ == old(self).table.keys@
                    &&& final(self).table.distances@ == old(self).table.distances@
                    &&& final(self).table.values@ == old(self).table.values@.update(
                        old(self).table.slot_of(key),
                        Some(*final(v)),
                    )
                },
                None => !old(self)@.contains_key(key) && *final(self) == *old(self),
            },
    {
        let index = self.index_for_key(key);
        proof {
            self.table.lemma_view_at(key);
        }
        match self.table.search(&key, index) {
            SearchResult::Found(i) => {
                let v = self.table.value_mut(i);
                Some(v)
            },
            SearchResult::NotFound(..) => None,
        }
    }

    /// Whether `key` is present.
    pub fn contains(&self, key: K) -> (r: bool)
        requires
            self.wf(),
            self.searchable(key),
        ensures
            r == self@.contains_key(key),
    {
        let index = self.index_for_key(key);
        proof {
            self.table.lemma_view_at(key);
        }
        self.table.search(&key, index).is_found()
    }

    /// Tests at run time whether `key` may be probed for: the executable face
    /// of `searchable`, the precondition of `get`, `get_mut`, `remove` and
    /// `contains`.
    pub fn can_probe(&self, key: K) -> (r: bool)
        requires
            self.wf(),
        ensures
            r == self.searchable(key),
    {
        let index = self.index_for_key(key);
        self.table.probe_stops(&key, index)
    }

    /// Tests at run time whether `key` may be inserted: the executable face
    /// of `can_insert`.
    pub fn can_accept(&self, key: K) -> (r: bool)
        requires
            self.wf(),
        ensures
            r == self.can_insert(key),
    {
        let index = self.index_for_key(key);
        if self.table.placement_fits(index) {
            true
        } else if self.table.probe_stops(&key, index) {
            self.table.search(&key, index).is_found()
        } else {
            false
        }
    }

    /// The keys of the occupied slots, in slot order; the order is not
    /// insertion order and is unstable across mutations.
    pub fn keys(&self) -> (r: Vec<K>)
        requires
            self.wf(),
        ensures
            r@ == self.table.keys_in_order(),
            r@.len() == self.spec_len(),
    {
        self.table.keys()
    }

    /// Lends out the values of the occupied slots, in slot order; the order
    /// is not insertion order and is unstable across mutations.
    pub fn values(&self) -> (r: Vec<&V>)
        requires
            self.wf(),
        ensures
            r@.len() == self.table.values_in_order().len(),
            forall|j: int|
                0 <= j < r@.len() ==> *(#[trigger] r@[j]) == self.table.values_in_order()[j],
    {
        self.table.values()
    }

    /// The number of entries.
    pub fn len(&self) -> (r: usize)
        ensures
            r as int == self.spec_len(),
    {
        self.table.len()
    }

    /// The user-visible capacity: the power-of-two number of home slots, not
    /// the allocated slot count.
    pub fn capacity(&self) -> (r: usize)
        requires
            self.wf(),
        ensures
            r as int == self.spec_capacity(),
    {
        1 + (self.index_mask as usize)
    }

    pub fn is_empty(&self) -> (r: bool)
        ensures
            r == (self.spec_len() == 0),
    {
        self.len() == 0
    }

    /// Whether the map is at full occupancy: as many entries as home slots.
    /// Entries may still be displaced into the overflow tail past this point.
    pub fn is_full(&self) -> (r: bool)
        requires
            self.wf(),
        ensures
            r == (self.spec_len() == self.spec_capacity()),
    {
        self.len() == self.capacity()
    }

    /// The probe distance of each occupied slot, in slot order: how far each
    /// entry sits from its key's home slot.
    pub fn probes(&self) -> (r: Vec<usize>)
        requires
            self.wf(),
        ensures
            r@ == self.table.probes_in_order(),
    {
        self.table.probes()
    }

    /// Empties the map, dropping the values still present, and keeps the
    /// capacity. (Dropping is deliberate: resetting the occupancy column
    /// alone would leak owning values.)
    pub fn clear(&mut self)
        requires
            old(self).wf(),
        ensures
            final(self).wf(),
            final(self)@ == Map::<K, V>::empty(),
            final(self).spec_len() == 0,
            final(self).index_mask == old(self).index_mask,
    {
        self.table.clear();
    }
}

impl<K: IntKey, V> IntMap<K, V> {
    /// The length law: `len` counts exactly the occupied slots of the table,
    /// so `keys` and `probes` list `len` entries.
    pub proof fn lemma_len_counts_occupied(self)
        requires
            self.wf(),
        ensures
            self.spec_len() == crate::map::occupied_count(self.table.distances@),
            self.table.keys_in_order().len() == self.spec_len(),
            self.table.probes_in_order().len() == self.spec_len(),
    {
        self.table.lemma_len_counts_occupied();
    }

    /// The key-list law: `keys` lists exactly the keys the map holds.
    pub proof fn lemma_keys_members(self, k: K)
        requires
            self.wf(),
        ensures
            self.table.keys_in_order().contains(k) <==> self@.contains_key(k),
    {
        self.table.lemma_keys_in_order_members(k);
    }

    /// The diagnostics law: the probe distance `probes` lists at each
    /// position is the slot offset of the key `keys` lists there from that
    /// key's home slot.
    pub proof fn lemma_probes_match_keys(self, j: int)
        requires
            self.wf(),
            0 <= j < self.table.keys_in_order().len(),
        ensures
            exists|i: int|
                #![trigger self.table.keys@[i]]
                {
                    &&& self.table.occupied(i)
                    &&& self.table.keys_in_order()[j] == self.table.keys@[i]
                    &&& self.table.probes_in_order()[j] as int == i - self.spec_home_of(
                        self.table.keys@[i],
                    )
                },
    {
        self.table.lemma_probes_match_keys(j);
    }

    /// The placement law, holding after every operation: each occupied slot
    /// sits exactly its stored probe distance past its key's home slot — the
    /// key AND the index mask — and the distance stays within the probe
    /// budget.
    pub proof fn lemma_distance_matches_home(self, i: int)
        requires
            self.wf(),
            self.table.occupied(i),
        ensures
            self.table.dist_at(i) == i - self.spec_home_of(self.table.keys@[i]),
            0 <= self.table.dist_at(i) < MAX_DISTANCE,
            0 <= self.spec_home_of(self.table.keys@[i]) <= self.index_mask,
    {
        assert(self.table.keys@[i].spec_home(self.table.mask()) == i - self.table.distances@[i]);
    }

    /// The empty-map law: a map whose length is zero — as `with_capacity`
    /// builds it and `clear` leaves it — holds no key, and any key may be
    /// searched for or inserted.
    pub proof fn lemma_empty_map(self, k: K)
        requires
            self.wf(),
            self.spec_len() == 0,
        ensures
            !self@.contains_key(k),
            self.searchable(k),
            self.can_insert(k),
    {
        k.lemma_home_bounded(self.index_mask);
        let h = self.spec_home_of(k);
        assert forall|i: int| 0 <= i < self.table.slots() implies self.table.distances@[i]
            == FREE by {
            crate::map::lemma_occupied_count_zero(self.table.distances@, i);
        }
        self.table.lemma_view_at(k);
        if self.table.contains_spec(k) {
            let i = self.table.slot_of(k);
            assert(false);
        }
        assert(self.table.dist_at(h + 0) < 0);
        assert(self.table.distances@[h] == FREE);
    }

    /// The binding law: a map reached by inserting `(k, v)` holds `k`, bound
    /// to `v`, and `k` may at once be probed for again — so a `get` or a
    /// `remove` right after an insert of the same key yields the value that
    /// insert carried, the most recently inserted one.
    pub proof fn lemma_insert_binds(self, prev: Map<K, V>, k: K, v: V)
        requires
            self.wf(),
            self@ == prev.insert(k, v),
        ensures
            self@.contains_key(k),
            self@[k] == v,
            self.searchable(k),
            self.can_insert(k),
    {
        self.table.lemma_view_at(k);
    }

    /// The room law: a free slot within the probe budget of a key's home,
    /// with no entry before it already at the largest legal distance, is
    /// enough to admit the key — a simple sufficient condition for
    /// `can_insert`.
    pub proof fn lemma_room_can_insert(self, k: K)
        requires
            self.wf(),
            self.table.fits(self.spec_home_of(k)),
        ensures
            self.can_insert(k),
            self.searchable(k),
    {
        k.lemma_home_bounded(self.index_mask);
        self.table.lemma_fits_can_place(self.spec_home_of(k));
        self.table.lemma_can_place_can_stop(self.spec_home_of(k));
    }

    /// The light-load law: a map holding fewer entries than the probe budget
    /// accepts any key — probing and inserting stay within budget whatever
    /// the keys, so callers that keep the map this sparse need no per-call
    /// check.
    pub proof fn lemma_light_load(self, k: K)
        requires
            self.wf(),
            self.spec_len() < MAX_DISTANCE,
        ensures
            self.searchable(k),
            self.can_insert(k),
    {
        k.lemma_home_bounded(self.index_mask);
        self.table.lemma_sparse_has_room(self.spec_home_of(k));
        self.table.lemma_fits_can_place(self.spec_home_of(k));
        self.table.lemma_can_place_can_stop(self.spec_home_of(k));
    }

    /// The availability law: a present key can always be probed for, whatever
    /// the occupancy — `get`, `remove` and replacing `insert` stay available
    /// on a full map.
    pub proof fn lemma_present_searchable(self, k: K)
        requires
            self.wf(),
            self@.contains_key(k),
        ensures
            self.searchable(k),
            self.can_insert(k),
    {
        self.table.lemma_view_at(k);
    }
}

/// The replacement law: re-inserting a key overwrites its binding and nothing
/// else, so two inserts of one key collapse to the second, while the first
/// one's binding is what the second returns.
pub proof fn lemma_insert_twice<K, V>(prev: Map<K, V>, k: K, v1: V, v2: V)
    ensures
        prev.insert(k, v1).insert(k, v2) == prev.insert(k, v2),
        prev.insert(k, v1).contains_key(k),
        prev.insert(k, v1)[k] == v1,
{
    assert(prev.insert(k, v1).insert(k, v2) =~= prev.insert(k, v2));
}

} // verus!
