//! The slot table: three parallel columns (distances, keys, values) plus a
//! slot count and an entry count.
//!
//! The distance column drives everything. A slot `i` is occupied exactly when
//! `distances[i] != FREE`, and then holds a key whose home slot (its value AND
//! the index mask) is `i - distances[i]`. Legal probe distances are `0..=126`;
//! the table keeps `capacity - 127` addressable home slots and a trailing
//! overflow region of 127 slots that absorbs the maximum legal displacement,
//! so probe walks never wrap around.

use vstd::prelude::*;

verus! {

use crate::key::IntKey;

/// Probe distance of an occupied slot, or `FREE`.
pub type Distance = i8;

/// Marks an unoccupied slot in the distance column.
pub const FREE: Distance = -1;

/// Probe distances must stay strictly below this bound: the largest legal
/// distance is 126, and a probe walk that would reach distance 127 is a
/// sizing error.
pub const MAX_DISTANCE: Distance = 127;

/// The number of overflow slots kept past the logical capacity; equals
/// `MAX_DISTANCE`, so an entry homed at the last logical slot can sit at any
/// legal distance without leaving the table.
pub const TAIL_SLOTS: usize = 127;

/// The largest logical capacity a table can be built with.
pub const MAX_CAPACITY: usize = 0x4000_0000;

/// The Robin Hood adjacency bound between slot `i` and its left neighbour: a
/// distance never exceeds the previous slot's distance by more than one, with
/// `FREE` counting as -1.
pub open spec fn step_bounded(s: Seq<Distance>, i: int) -> bool {
    s[i] <= s[i - 1] + 1
}

/// Slot `j` of `post` keeps `pre`'s entry whenever `pre`'s distance at `j`
/// already exceeds its left neighbour's by exactly one: the displacement loop
/// walks past such an incumbent without moving it.
pub open spec fn keeps_stepped_slot<K, V>(pre: Table<K, V>, post: Table<K, V>, j: int) -> bool {
    pre.distances@[j] == pre.distances@[j - 1] + 1 ==> post.keys@[j] == pre.keys@[j]
        && post.values@[j] == pre.values@[j]
}

/// The number of occupied (non-`FREE`) entries in a distance column.
pub open spec fn occupied_count(s: Seq<Distance>) -> int
    decreases s.len(),
{
    if s.len() == 0 {
        0
    } else {
        occupied_count(s.drop_last()) + if s.last() != FREE {
            1int
        } else {
            0int
        }
    }
}

/// The outcome of a probe walk: either the slot holding the key, or the slot
/// where the key would be placed together with the probe distance reached
/// there.
pub enum SearchResult {
    Found(usize),
    NotFound(usize, Distance),
}

impl SearchResult {
    pub fn is_found(&self) -> (r: bool)
        ensures
            r == (self is Found),
    {
        match self {
            SearchResult::Found(_) => true,
            SearchResult::NotFound(..) => false,
        }
    }
}

/// Columnar slot storage. `capacity` counts every slot, the logical range
/// plus the overflow tail; `len` counts occupied slots.
#[derive(Clone)]
pub struct Table<K, V> {
    pub distances: Vec<Distance>,
    pub keys: Vec<K>,
    pub values: Vec<Option<V>>,
    pub capacity: usize,
    pub len: usize,
}

impl<K: IntKey, V> Table<K, V> {
    /// Total number of slots, overflow tail included.
    pub open spec fn slots(self) -> int {
        self.capacity as int
    }

    /// The index mask entries are homed under: the logical capacity less one.
    pub open spec fn mask(self) -> u32 {
        (self.capacity - TAIL_SLOTS - 1) as u32
    }

    pub open spec fn occupied(self, i: int) -> bool {
        0 <= i < self.slots() && self.distances@[i] != FREE
    }

    /// Probe distance stored at slot `i`, as a mathematical integer.
    pub open spec fn dist_at(self, i: int) -> int {
        self.distances@[i] as int
    }

    /// The per-slot part of the invariant: column lengths agree with
    /// `capacity`; distances lie in `{FREE} ∪ [0, 126]`; a slot holds a value
    /// exactly when its distance is not `FREE`; every occupied slot sits
    /// exactly its stored distance past its key's home slot, which lies in
    /// the logical range; and no key occupies two slots.
    pub open spec fn wf_core(self) -> bool {
        &&& self.distances@.len() == self.capacity
        &&& self.keys@.len() == self.capacity
        &&& self.values@.len() == self.capacity
        &&& TAIL_SLOTS + 1 <= self.capacity <= MAX_CAPACITY + TAIL_SLOTS
        &&& forall|i: int|
            0 <= i < self.slots() ==> FREE <= #[trigger] self.distances@[i] < MAX_DISTANCE
        &&& forall|i: int|
            0 <= i < self.slots() ==> ((#[trigger] self.values@[i]) is Some <==> self.distances@[i]
                != FREE)
        &&& forall|i: int|
            0 <= i < self.slots() && self.distances@[i] != FREE
                ==> (#[trigger] self.keys@[i]).spec_home(self.mask()) == i - self.distances@[i]
                    && 0 <= i - self.distances@[i] <= self.mask()
        &&& forall|i: int, j: int|
            #![trigger self.keys@[i], self.keys@[j]]
            0 <= i < self.slots() && 0 <= j < self.slots() && i != j && self.distances@[i] != FREE
                && self.distances@[j] != FREE ==> self.keys@[i] != self.keys@[j]
    }

    /// The whole structural invariant, holding between public operations:
    /// the per-slot part, the Robin Hood adjacency bound along the whole
    /// column, and `len` counting the occupied slots.
    pub open spec fn wf(self) -> bool {
        &&& self.wf_core()
        &&& forall|i: int| 0 < i < self.slots() ==> #[trigger] step_bounded(self.distances@, i)
        &&& self.len as int == occupied_count(self.distances@)
    }

    /// Whether some occupied slot holds `k`.
    pub open spec fn contains_spec(self, k: K) -> bool {
        exists|i: int| #![trigger self.keys@[i]] self.occupied(i) && self.keys@[i] == k
    }

    /// The slot holding `k`; meaningful only when `contains_spec(k)`.
    pub open spec fn slot_of(self, k: K) -> int {
        choose|i: int| #![trigger self.keys@[i]] self.occupied(i) && self.keys@[i] == k
    }

    /// The table read as an associative map: the key-value pairs of the
    /// occupied slots.
    pub open spec fn as_map(self) -> Map<K, V> {
        Map::new(|k: K| self.contains_spec(k), |k: K| self.values@[self.slot_of(k)].unwrap())
    }
}

impl<K: IntKey, V> View for Table<K, V> {
    type V = Map<K, V>;

    open spec fn view(&self) -> Map<K, V> {
        self.as_map()
    }
}

proof fn lemma_occupied_count_all_free(s: Seq<Distance>)
    requires
        forall|i: int| 0 <= i < s.len() ==> s[i] == FREE,
    ensures
        occupied_count(s) == 0,
    decreases s.len(),
{
    if s.len() > 0 {
        lemma_occupied_count_all_free(s.drop_last());
    }
}

proof fn lemma_occupied_count_le(s: Seq<Distance>)
    ensures
        0 <= occupied_count(s) <= s.len(),
    decreases s.len(),
{
    if s.len() > 0 {
        lemma_occupied_count_le(s.drop_last());
    }
}

/// Overwriting one entry of a distance column changes the occupied count by
/// the difference in occupancy of the old and new entries.
proof fn lemma_occupied_count_update(s: Seq<Distance>, i: int, v: Distance)
    requires
        0 <= i < s.len(),
    ensures
        occupied_count(s.update(i, v)) == occupied_count(s) - (if s[i] != FREE {
            1int
        } else {
            0int
        }) + (if v != FREE {
            1int
        } else {
            0int
        }),
    decreases s.len(),
{
    let t = s.update(i, v);
    if i == s.len() - 1 {
        assert(t.drop_last() =~= s.drop_last());
        assert(t.last() == v);
    } else {
        lemma_occupied_count_update(s.drop_last(), i, v);
        assert(t.drop_last() =~= s.drop_last().update(i, v));
        assert(t.last() == s.last());
        assert(s.drop_last()[i] == s[i]);
    }
}

/// A run of occupied slots is counted in full: a column counting fewer than
/// `b - a` entries cannot have all of `[a, b)` occupied.
proof fn lemma_occupied_count_window(s: Seq<Distance>, a: int, b: int)
    requires
        0 <= a <= b <= s.len(),
        forall|x: int| a <= x < b ==> #[trigger] s[x] != FREE,
    ensures
        occupied_count(s) >= b - a,
    decreases s.len(),
{
    if a == b {
        lemma_occupied_count_le(s);
    } else if b == s.len() {
        assert forall|x: int| a <= x < b - 1 implies #[trigger] s.drop_last()[x] != FREE by {
            assert(s[x] != FREE);
        }
        lemma_occupied_count_window(s.drop_last(), a, b - 1);
        assert(s.last() != FREE);
    } else {
        assert forall|x: int| a <= x < b implies #[trigger] s.drop_last()[x] != FREE by {
            assert(s[x] != FREE);
        }
        lemma_occupied_count_window(s.drop_last(), a, b);
    }
}

/// A distance column counting no occupied entries is entirely free.
pub proof fn lemma_occupied_count_zero(s: Seq<Distance>, i: int)
    requires
        occupied_count(s) == 0,
        0 <= i < s.len(),
    ensures
        s[i] == FREE,
    decreases s.len(),
{
    lemma_occupied_count_le(s.drop_last());
    if i < s.len() - 1 {
        lemma_occupied_count_zero(s.drop_last(), i);
        assert(s.drop_last()[i] == s[i]);
    }
}

proof fn lemma_occupied_count_pos(s: Seq<Distance>, i: int)
    requires
        0 <= i < s.len(),
        s[i] != FREE,
    ensures
        occupied_count(s) >= 1,
    decreases s.len(),
{
    lemma_occupied_count_le(s.drop_last());
    if i < s.len() - 1 {
        lemma_occupied_count_pos(s.drop_last(), i);
        assert(s.drop_last()[i] == s[i]);
    }
}

impl<K: IntKey, V> Table<K, V> {
    /// In a well-formed table, the slot holding `k` is unique, so `slot_of`
    /// picks exactly the occupied slot `i` whose key is `k`, and the map view
    /// associates `k` with that slot's value.
    pub proof fn lemma_slot_of(self, i: int)
        requires
            self.wf_core(),
            self.occupied(i),
        ensures
            self.contains_spec(self.keys@[i]),
            self.slot_of(self.keys@[i]) == i,
            self@.contains_key(self.keys@[i]),
            self@[self.keys@[i]] == self.values@[i].unwrap(),
    {
        assert(self.occupied(i) && self.keys@[i] == self.keys@[i]);
        let j = self.slot_of(self.keys@[i]);
        assert(self.occupied(j) && self.keys@[j] == self.keys@[i]);
        assert(j == i);
    }

    /// What the map view says about any key: membership matches
    /// `contains_spec`, and a present key's value is read off its slot.
    pub proof fn lemma_view_at(self, k: K)
        requires
            self.wf_core(),
        ensures
            self@.contains_key(k) <==> self.contains_spec(k),
            self.contains_spec(k) ==> {
                &&& self.occupied(self.slot_of(k))
                &&& self.keys@[self.slot_of(k)] == k
                &&& self@[k] == self.values@[self.slot_of(k)].unwrap()
            },
    {
        if self.contains_spec(k) {
            let i = choose|i: int|
                #![trigger self.keys@[i]]
                self.occupied(i) && self.keys@[i] == k;
            self.lemma_slot_of(i);
        }
    }

    /// `post` and `self` hold equal columns at every slot other than `x`.
    pub open spec fn agrees_except(self, post: Self, x: int) -> bool {
        &&& post.capacity == self.capacity
        &&& forall|j: int|
            0 <= j < self.slots() && j != x ==> post.distances@[j] == #[trigger] self.distances@[j]
        &&& forall|j: int| 0 <= j < self.slots() && j != x ==> post.keys@[j] == #[trigger] self.keys@[j]
        &&& forall|j: int|
            0 <= j < self.slots() && j != x ==> post.values@[j] == #[trigger] self.values@[j]
    }

    /// `post` and `self` hold equal columns at every slot other than `x` and `y`.
    pub open spec fn agrees_except2(self, post: Self, x: int, y: int) -> bool {
        &&& post.capacity == self.capacity
        &&& forall|j: int|
            0 <= j < self.slots() && j != x && j != y ==> post.distances@[j]
                == #[trigger] self.distances@[j]
        &&& forall|j: int|
            0 <= j < self.slots() && j != x && j != y ==> post.keys@[j] == #[trigger] self.keys@[j]
        &&& forall|j: int|
            0 <= j < self.slots() && j != x && j != y ==> post.values@[j]
                == #[trigger] self.values@[j]
    }

    /// A table whose occupied bindings match `m` key for key has `m` as its
    /// map view.
    proof fn lemma_view_is(self, m: Map<K, V>)
        requires
            self.wf_core(),
            forall|k: K| self.contains_spec(k) <==> #[trigger] m.contains_key(k),
            forall|k: K|
                #[trigger] self.contains_spec(k) ==> m[k] == self.values@[self.slot_of(k)].unwrap(),
        ensures
            self@ == m,
    {
        assert forall|k: K| self@.dom().contains(k) == m.dom().contains(k) by {
            self.lemma_view_at(k);
        }
        assert(self@.dom() =~= m.dom());
        assert forall|k: K| self@.dom().contains(k) implies self@[k] == m[k] by {
            self.lemma_view_at(k);
        }
        assert(self@ =~= m);
    }

    /// Writing a key the table does not hold, with its value, at a free slot
    /// adds exactly that binding to the map view.
    #[verifier::spinoff_prover]
    proof fn lemma_view_write_free(self, post: Self, f: int, k0: K, v0: V)
        requires
            self.wf_core(),
            post.wf_core(),
            self.agrees_except(post, f),
            0 <= f < self.slots(),
            !self.contains_spec(k0),
            self.distances@[f] == FREE,
            post.distances@[f] != FREE,
            post.keys@[f] == k0,
            post.values@[f] == Some(v0),
        ensures
            post@ == self@.insert(k0, v0),
    {
        post.lemma_slot_of(f);
        let m = self@.insert(k0, v0);
        assert forall|k: K| post.contains_spec(k) <==> #[trigger] m.contains_key(k) by {
            if post.contains_spec(k) && k != k0 {
                let i = post.slot_of(k);
                post.lemma_view_at(k);
                assert(self.occupied(i) && self.keys@[i] == k);
                self.lemma_slot_of(i);
            }
            if m.contains_key(k) && k != k0 {
                self.lemma_view_at(k);
                let i = self.slot_of(k);
                assert(i != f);
                assert(post.occupied(i) && post.keys@[i] == k);
            }
        }
        assert forall|k: K| #[trigger] post.contains_spec(k) implies m[k] == post.values@[post.slot_of(
            k,
        )].unwrap() by {
            if k != k0 {
                let i = post.slot_of(k);
                post.lemma_view_at(k);
                assert(self.occupied(i) && self.keys@[i] == k);
                self.lemma_slot_of(i);
            }
        }
        post.lemma_view_is(m);
    }

    /// Overwriting the whole entry at an occupied slot with a key the table
    /// does not hold exchanges the old binding for the new one in the map
    /// view.
    #[verifier::spinoff_prover]
    proof fn lemma_view_replace_entry(self, post: Self, p: int, k0: K, v0: V)
        requires
            self.wf_core(),
            post.wf_core(),
            self.agrees_except(post, p),
            0 <= p < self.slots(),
            self.distances@[p] != FREE,
            post.distances@[p] != FREE,
            !self.contains_spec(k0),
            post.keys@[p] == k0,
            post.values@[p] == Some(v0),
        ensures
            post@ == self@.remove(self.keys@[p]).insert(k0, v0),
    {
        let kold = self.keys@[p];
        self.lemma_slot_of(p);
        post.lemma_slot_of(p);
        let m = self@.remove(kold).insert(k0, v0);
        assert forall|k: K| post.contains_spec(k) <==> #[trigger] m.contains_key(k) by {
            if post.contains_spec(k) && k != k0 {
                let i = post.slot_of(k);
                post.lemma_view_at(k);
                assert(i != p);
                assert(self.occupied(i) && self.keys@[i] == k);
                self.lemma_slot_of(i);
                assert(k != kold);
            }
            if m.contains_key(k) && k != k0 {
                self.lemma_view_at(k);
                let i = self.slot_of(k);
                assert(i != p);
                assert(post.occupied(i) && post.keys@[i] == k);
            }
        }
        assert forall|k: K| #[trigger] post.contains_spec(k) implies m[k] == post.values@[post.slot_of(
            k,
        )].unwrap() by {
            if k != k0 {
                let i = post.slot_of(k);
                post.lemma_view_at(k);
                assert(i != p);
                assert(self.occupied(i) && self.keys@[i] == k);
                self.lemma_slot_of(i);
            }
        }
        post.lemma_view_is(m);
    }

    /// Overwriting only the value at an occupied slot rebinds that slot's key
    /// in the map view.
    #[verifier::spinoff_prover]
    proof fn lemma_view_set_value(self, post: Self, p: int, v0: V)
        requires
            self.wf_core(),
            post.wf_core(),
            self.agrees_except(post, p),
            0 <= p < self.slots(),
            self.distances@[p] != FREE,
            post.distances@[p] != FREE,
            post.keys@[p] == self.keys@[p],
            post.values@[p] == Some(v0),
        ensures
            post@ == self@.insert(self.keys@[p], v0),
    {
        let k0 = self.keys@[p];
        self.lemma_slot_of(p);
        post.lemma_slot_of(p);
        let m = self@.insert(k0, v0);
        assert forall|k: K| post.contains_spec(k) <==> #[trigger] m.contains_key(k) by {
            if post.contains_spec(k) && k != k0 {
                let i = post.slot_of(k);
                post.lemma_view_at(k);
                assert(i != p);
                assert(self.occupied(i) && self.keys@[i] == k);
                self.lemma_slot_of(i);
            }
            if m.contains_key(k) && k != k0 {
                self.lemma_view_at(k);
                let i = self.slot_of(k);
                assert(i != p);
                assert(post.occupied(i) && post.keys@[i] == k);
            }
        }
        assert forall|k: K| #[trigger] post.contains_spec(k) implies m[k] == post.values@[post.slot_of(
            k,
        )].unwrap() by {
            if k != k0 {
                let i = post.slot_of(k);
                post.lemma_view_at(k);
                assert(i != p);
                assert(self.occupied(i) && self.keys@[i] == k);
                self.lemma_slot_of(i);
            }
        }
        post.lemma_view_is(m);
    }

    /// Marking an occupied slot free removes exactly its binding from the map
    /// view.
    #[verifier::spinoff_prover]
    proof fn lemma_view_clear_slot(self, post: Self, e: int)
        requires
            self.wf_core(),
            post.wf_core(),
            self.agrees_except(post, e),
            0 <= e < self.slots(),
            self.distances@[e] != FREE,
            post.distances@[e] == FREE,
        ensures
            post@ == self@.remove(self.keys@[e]),
    {
        let k0 = self.keys@[e];
        self.lemma_slot_of(e);
        let m = self@.remove(k0);
        assert forall|k: K| post.contains_spec(k) <==> #[trigger] m.contains_key(k) by {
            if post.contains_spec(k) {
                let i = post.slot_of(k);
                post.lemma_view_at(k);
                assert(i != e);
                assert(self.occupied(i) && self.keys@[i] == k);
                self.lemma_slot_of(i);
                assert(k != k0);
            }
            if m.contains_key(k) {
                self.lemma_view_at(k);
                let i = self.slot_of(k);
                assert(k != k0);
                assert(i != e);
                assert(post.occupied(i) && post.keys@[i] == k);
            }
        }
        assert forall|k: K| #[trigger] post.contains_spec(k) implies m[k] == post.values@[post.slot_of(
            k,
        )].unwrap() by {
            let i = post.slot_of(k);
            post.lemma_view_at(k);
            assert(i != e);
            assert(self.occupied(i) && self.keys@[i] == k);
            self.lemma_slot_of(i);
        }
        post.lemma_view_is(m);
    }

    /// Moving the entry of an occupied slot into a free slot leaves the map
    /// view unchanged.
    #[verifier::spinoff_prover]
    proof fn lemma_view_move(self, post: Self, from: int, to: int)
        requires
            self.wf_core(),
            post.wf_core(),
            self.agrees_except2(post, from, to),
            from != to,
            0 <= from < self.slots(),
            0 <= to < self.slots(),
            self.distances@[from] != FREE,
            self.distances@[to] == FREE,
            post.distances@[from] == FREE,
            post.distances@[to] != FREE,
            post.keys@[to] == self.keys@[from],
            post.values@[to] == self.values@[from],
        ensures
            post@ == self@,
    {
        let m = self@;
        self.lemma_slot_of(from);
        post.lemma_slot_of(to);
        assert forall|k: K| post.contains_spec(k) <==> #[trigger] m.contains_key(k) by {
            if post.contains_spec(k) && k != self.keys@[from] {
                let i = post.slot_of(k);
                post.lemma_view_at(k);
                assert(i != to && i != from);
                assert(self.occupied(i) && self.keys@[i] == k);
                self.lemma_slot_of(i);
            }
            if m.contains_key(k) && k != self.keys@[from] {
                self.lemma_view_at(k);
                let i = self.slot_of(k);
                assert(i != from && i != to);
                assert(post.occupied(i) && post.keys@[i] == k);
            }
        }
        assert forall|k: K| #[trigger] post.contains_spec(k) implies m[k] == post.values@[post.slot_of(
            k,
        )].unwrap() by {
            if k != self.keys@[from] {
                let i = post.slot_of(k);
                post.lemma_view_at(k);
                assert(i != to && i != from);
                assert(self.occupied(i) && self.keys@[i] == k);
                self.lemma_slot_of(i);
            }
        }
        post.lemma_view_is(m);
    }

    /// Overwriting one slot with a well-homed entry (or with a cleared one)
    /// preserves the per-slot invariant, provided a fresh key is not already
    /// held elsewhere.
    #[verifier::spinoff_prover]
    proof fn lemma_wf_core_set_slot(self, post: Self, x: int, knew: K, dnew: Distance, vnew: Option<V>)
        requires
            self.wf_core(),
            0 <= x < self.slots(),
            post.capacity == self.capacity,
            post.distances@ == self.distances@.update(x, dnew),
            post.keys@ == self.keys@.update(x, knew),
            post.values@ == self.values@.update(x, vnew),
            FREE <= dnew < MAX_DISTANCE,
            dnew != FREE ==> vnew is Some,
            dnew == FREE ==> vnew is None,
            dnew != FREE ==> knew.spec_home(self.mask()) == x - dnew && 0 <= x - dnew
                <= self.mask(),
            dnew != FREE ==> !self.contains_spec(knew) || (self.distances@[x] != FREE
                && self.keys@[x] == knew),
        ensures
            post.wf_core(),
    {
        assert(post.mask() == self.mask());
        assert forall|i: int, j: int|
            #![trigger post.keys@[i], post.keys@[j]]
            0 <= i < post.slots() && 0 <= j < post.slots() && i != j && post.distances@[i] != FREE
                && post.distances@[j] != FREE implies post.keys@[i] != post.keys@[j] by {
            if i == x && dnew != FREE {
                if self.keys@[j] == knew {
                    assert(self.occupied(j) && self.keys@[j] == knew);
                    assert(self.contains_spec(knew));
                    assert(self.keys@[x] == knew && self.distances@[x] != FREE);
                    assert(self.keys@[x] != self.keys@[j]);
                }
            } else if j == x && dnew != FREE {
                if self.keys@[i] == knew {
                    assert(self.occupied(i) && self.keys@[i] == knew);
                    assert(self.contains_spec(knew));
                    assert(self.keys@[x] == knew && self.distances@[x] != FREE);
                    assert(self.keys@[x] != self.keys@[i]);
                }
            } else {
                assert(self.keys@[i] != self.keys@[j]);
            }
        }
    }

    /// Pulling an entry one slot earlier into a free slot, its distance
    /// decremented, preserves the per-slot invariant.
    #[verifier::spinoff_prover]
    proof fn lemma_wf_core_move_slot(self, post: Self, from: int)
        requires
            self.wf_core(),
            1 <= from < self.slots(),
            self.distances@[from] >= 1,
            self.distances@[from - 1] == FREE,
            post.capacity == self.capacity,
            post.distances@ == self.distances@.update(from - 1, (self.distances@[from] - 1) as Distance).update(from, FREE),
            post.keys@ == self.keys@.update(from - 1, self.keys@[from]),
            post.values@ == self.values@.update(from - 1, self.values@[from]).update(from, None),
        ensures
            post.wf_core(),
    {
        assert(post.mask() == self.mask());
        let to = from - 1;
        assert(self.keys@[from].spec_home(self.mask()) == from - self.distances@[from]);
        assert forall|i: int, j: int|
            #![trigger post.keys@[i], post.keys@[j]]
            0 <= i < post.slots() && 0 <= j < post.slots() && i != j && post.distances@[i] != FREE
                && post.distances@[j] != FREE implies post.keys@[i] != post.keys@[j] by {
            if i == to {
                assert(j != from && j != to);
                assert(self.keys@[from] != self.keys@[j]);
            } else if j == to {
                assert(i != from && i != to);
                assert(self.keys@[from] != self.keys@[i]);
            } else {
                assert(self.keys@[i] != self.keys@[j]);
            }
        }
    }

    /// Stores an entry at a slot; callers establish the surrounding
    /// invariants.
    fn write(&mut self, index: usize, key: K, value: Option<V>, distance: Distance)
        requires
            index < old(self).distances@.len(),
            index < old(self).keys@.len(),
            index < old(self).values@.len(),
        ensures
            final(self).distances@ == old(self).distances@.update(index as int, distance),
            final(self).keys@ == old(self).keys@.update(index as int, key),
            final(self).values@ == old(self).values@.update(index as int, value),
            final(self).capacity == old(self).capacity,
            final(self).len == old(self).len,
    {
        self.distances[index] = distance;
        self.keys[index] = key;
        self.values[index] = value;
    }

    /// The first free slot at or past `p`; `slots()` if the column holds none.
    pub open spec fn first_free_from(self, p: int) -> int
        decreases self.slots() - p,
    {
        if p < 0 || p >= self.slots() {
            self.slots()
        } else if self.distances@[p] == FREE {
            p
        } else {
            self.first_free_from(p + 1)
        }
    }

    /// Where a back-shift walk starting at `p` ends: the first slot at or
    /// past `p` whose entry sits at its home or which is free; `slots()` if
    /// there is none.
    pub open spec fn back_shift_end(self, p: int) -> int
        decreases self.slots() - p,
    {
        if p < 0 || p >= self.slots() {
            self.slots()
        } else if self.distances@[p] < 1 {
            p
        } else {
            self.back_shift_end(p + 1)
        }
    }

    /// What `first_free_from` picks: the first free slot, everything before
    /// it occupied.
    proof fn lemma_first_free_from(self, p: int)
        requires
            0 <= p <= self.slots(),
        ensures
            p <= self.first_free_from(p) <= self.slots(),
            self.first_free_from(p) < self.slots() ==> self.distances@[self.first_free_from(p)]
                == FREE,
            forall|j: int|
                p <= j < self.first_free_from(p) ==> #[trigger] self.distances@[j] != FREE,
        decreases self.slots() - p,
    {
        if p < self.slots() && self.distances@[p] != FREE {
            self.lemma_first_free_from(p + 1);
        }
    }

    /// Under `fits(p)`, the first free slot lies within the column and only
    /// entries that can still grow a step stand before it.
    proof fn lemma_first_free_within_fits(self, p: int)
        requires
            0 <= p < self.slots(),
            self.fits(p),
        ensures
            p <= self.first_free_from(p) < self.slots(),
            self.distances@[self.first_free_from(p)] == FREE,
            forall|j: int|
                p <= j < self.first_free_from(p) ==> FREE != #[trigger] self.distances@[j]
                    && self.distances@[j] < MAX_DISTANCE - 1,
    {
        self.lemma_first_free_from(p);
        let f2 = choose|f2: int|
            #![trigger self.distances@[f2]]
            {
                &&& p <= f2 < self.slots()
                &&& self.distances@[f2] == FREE
                &&& forall|j: int| p <= j < f2 ==> #[trigger] self.distances@[j] < MAX_DISTANCE - 1
            };
        assert(self.first_free_from(p) <= f2);
    }

    /// Two tables whose distance columns agree from `p` on have the same
    /// first free slot from `p`.
    proof fn lemma_first_free_agrees(self, other: Self, p: int)
        requires
            0 <= p <= self.slots(),
            other.slots() == self.slots(),
            forall|j: int| p <= j < self.slots() ==> #[trigger] other.distances@[j]
                == self.distances@[j],
        ensures
            other.first_free_from(p) == self.first_free_from(p),
        decreases self.slots() - p,
    {
        if p < self.slots() && self.distances@[p] != FREE {
            self.lemma_first_free_agrees(other, p + 1);
        }
    }

    /// Where a back-shift walk that saw only displaced entries so far and now
    /// sees a home-positioned or free slot ends: exactly there.
    proof fn lemma_back_shift_end_at(self, p: int, q: int)
        requires
            0 <= p <= q < self.slots(),
            forall|j: int| p <= j < q ==> #[trigger] self.distances@[j] >= 1,
            self.distances@[q] < 1,
        ensures
            self.back_shift_end(p) == q,
        decreases q - p,
    {
        if p < q {
            self.lemma_back_shift_end_at(p + 1, q);
        }
    }

    /// The slot where a probe walk homed at `h` stops, scanning from `p`: the
    /// first slot whose distance falls below its offset from `h`; `slots()` if
    /// there is none.
    pub open spec fn stop_from(self, h: int, p: int) -> int
        decreases self.slots() - p,
    {
        if p < 0 || p >= self.slots() {
            self.slots()
        } else if self.distances@[p] < p - h {
            p
        } else {
            self.stop_from(h, p + 1)
        }
    }

    /// The insertion point of a key homed at `h`: the first slot from `h` on
    /// whose distance falls below the walk's own.
    pub open spec fn stop_slot(self, h: int) -> int {
        self.stop_from(h, h)
    }

    /// A walk that saw no stop before `q` and stops at `q` has its stop slot
    /// exactly there.
    pub proof fn lemma_stop_from_at(self, h: int, p: int, q: int)
        requires
            0 <= h <= p <= q < self.slots(),
            self.dist_at(q) < q - h,
            forall|x: int| p <= x < q ==> #[trigger] self.dist_at(x) >= x - h,
        ensures
            self.stop_from(h, p) == q,
        decreases q - p,
    {
        if p < q {
            assert(self.dist_at(p) >= p - h);
            self.lemma_stop_from_at(h, p + 1, q);
        }
    }

    /// Two tables whose distance columns agree from `p` on have the same
    /// back-shift end from `p`.
    proof fn lemma_back_shift_agrees(self, other: Self, p: int)
        requires
            0 <= p <= self.slots(),
            other.slots() == self.slots(),
            forall|x: int| p <= x < self.slots() ==> #[trigger] other.distances@[x]
                == self.distances@[x],
        ensures
            other.back_shift_end(p) == self.back_shift_end(p),
        decreases self.slots() - p,
    {
        if p < self.slots() && self.distances@[p] >= 1 {
            self.lemma_back_shift_agrees(other, p + 1);
        }
    }

    /// From slot `p` on, a free slot lies within reach before any entry whose
    /// distance could not grow by one more step: the room an insertion at `p`
    /// needs to displace the cluster past it without exceeding the probe
    /// budget.
    pub open spec fn fits(self, p: int) -> bool {
        exists|f: int|
            #![trigger self.distances@[f]]
            {
                &&& p <= f < self.slots()
                &&& self.distances@[f] == FREE
                &&& forall|j: int| p <= j < f ==> #[trigger] self.distances@[j] < MAX_DISTANCE - 1
            }
    }

    /// Builds a table of `capacity` slots (logical capacity plus the overflow
    /// tail), every slot unoccupied.
    pub fn with_capacity(capacity: usize) -> (r: Self)
        requires
            TAIL_SLOTS + 1 <= capacity <= MAX_CAPACITY + TAIL_SLOTS,
        ensures
            r.wf(),
            r@ == Map::<K, V>::empty(),
            r.capacity == capacity,
            r.len == 0,
    {
        let mut distances: Vec<Distance> = Vec::new();
        let mut keys: Vec<K> = Vec::new();
        let mut values: Vec<Option<V>> = Vec::new();
        let mut i: usize = 0;
        while i < capacity
            invariant
                i <= capacity,
                distances@.len() == i,
                keys@.len() == i,
                values@.len() == i,
                forall|j: int| 0 <= j < i ==> distances@[j] == FREE,
                forall|j: int| 0 <= j < i ==> (#[trigger] values@[j]) is None,
            decreases capacity - i,
        {
            distances.push(FREE);
            keys.push(K::from_u32(0));
            values.push(None);
            i = i + 1;
        }
        let r = Table { distances, keys, values, capacity, len: 0 };
        proof {
            lemma_occupied_count_all_free(r.distances@);
            assert forall|k: K| !r.contains_spec(k) by {
                if r.contains_spec(k) {
                    let j = choose|j: int|
                        #![trigger r.keys@[j]]
                        r.occupied(j) && r.keys@[j] == k;
                    assert(r.distances@[j] == FREE);
                }
            }
            assert(r@ =~= Map::<K, V>::empty());
        }
        r
    }

    /// The number of occupied slots.
    pub fn len(&self) -> (r: usize)
        ensures
            r == self.len,
    {
        self.len
    }

    /// Marks every slot unoccupied and drops the values still present, leaving
    /// an empty table of unchanged capacity.
    pub fn clear(&mut self)
        requires
            old(self).wf(),
        ensures
            final(self).wf(),
            final(self)@ == Map::<K, V>::empty(),
            final(self).capacity == old(self).capacity,
            final(self).len == 0,
    {
        let n = self.distances.len();
        let mut i: usize = 0;
        while i < n
            invariant
                i <= n,
                n == self.distances@.len(),
                self.keys@.len() == n,
                self.values@.len() == n,
                self.capacity == old(self).capacity,
                self.len == old(self).len,
                n == self.capacity,
                forall|j: int| 0 <= j < i ==> self.distances@[j] == FREE,
                forall|j: int| 0 <= j < i ==> (#[trigger] self.values@[j]) is None,
                self.keys@ == old(self).keys@,
            decreases n - i,
        {
            self.distances[i] = FREE;
            self.values[i] = None;
            i = i + 1;
        }
        self.len = 0;
        proof {
            lemma_occupied_count_all_free(self.distances@);
            assert forall|k: K| !self.contains_spec(k) by {
                if self.contains_spec(k) {
                    let j = choose|j: int|
                        #![trigger self.keys@[j]]
                        self.occupied(j) && self.keys@[j] == k;
                    assert(self.distances@[j] == FREE);
                }
            }
            assert(self@ =~= Map::<K, V>::empty());
        }
    }
}

impl<K: IntKey, V> Table<K, V> {
    /// Somewhere within the probe budget past home slot `h` there is a slot
    /// whose distance falls below the walking probe's own, so a probe walk
    /// from `h` stops before its budget runs out whether or not it finds its
    /// key.
    pub open spec fn can_stop(self, h: int) -> bool {
        exists|t: int| 0 <= t < MAX_DISTANCE && #[trigger] self.dist_at(h + t) < t
    }

    /// An occupied slot never sits past the last slot an entry homed at the
    /// top of the logical range may legally reach.
    pub proof fn lemma_occupied_bound(self, e: int)
        requires
            self.wf_core(),
            self.occupied(e),
        ensures
            e <= self.slots() - 2,
            e - self.dist_at(e) <= self.mask(),
    {
        assert(self.keys@[e].spec_home(self.mask()) == e - self.distances@[e]);
    }

    /// The probe chain leading to an occupied slot never thins out: every
    /// slot from the entry's home `h` up to the entry itself is occupied at a
    /// distance at least its offset from `h`. This is the Robin Hood search
    /// property: once a walk sees a distance below its own, its key cannot
    /// appear further on.
    pub proof fn lemma_cluster(self, h: int, j: int, e: int)
        requires
            self.wf(),
            self.occupied(e),
            h == e - self.dist_at(e),
            h <= j <= e,
        ensures
            self.dist_at(j) >= j - h,
        decreases e - j,
    {
        assert(self.keys@[e].spec_home(self.mask()) == e - self.distances@[e]);
        if j < e {
            self.lemma_cluster(h, j + 1, e);
            assert(step_bounded(self.distances@, j + 1));
        }
    }

    /// If a walk from home slot `h` has reached a slot `i` whose distance
    /// falls below `i - h`, and saw no slot holding `key` on the way, then
    /// `key` is nowhere in the table.
    proof fn lemma_not_found(self, key: K, h: int, i: int)
        requires
            self.wf(),
            h == key.spec_home(self.mask()),
            0 <= h <= i < self.slots(),
            self.dist_at(i) < i - h,
            forall|j: int| h <= j < i ==> #[trigger] self.keys@[j] != key,
        ensures
            !self.contains_spec(key),
    {
        if self.contains_spec(key) {
            let e = choose|e: int|
                #![trigger self.keys@[e]]
                self.occupied(e) && self.keys@[e] == key;
            assert(self.keys@[e].spec_home(self.mask()) == e - self.distances@[e]);
            if e >= i {
                self.lemma_cluster(h, i, e);
            }
            assert(false);
        }
    }

    /// If a walk from home slot `h` has crossed its whole probe budget with
    /// every visited slot at least as far from `h` as the walk itself and
    /// none of them holding `key`, then neither of the conditions that lets a
    /// search stop can hold: a well-sized table never exhibits this state.
    proof fn lemma_budget_exhausted(self, key: K, h: int, i: int)
        requires
            self.wf(),
            h == key.spec_home(self.mask()),
            0 <= h,
            i == h + MAX_DISTANCE - 1,
            i < self.slots(),
            forall|j: int| h <= j < i ==> #[trigger] self.dist_at(j) >= j - h,
            forall|j: int| h <= j < i ==> #[trigger] self.keys@[j] != key,
            self.dist_at(i) >= MAX_DISTANCE - 1,
            self.keys@[i] != key,
        ensures
            !self.contains_spec(key),
            !self.can_stop(h),
    {
        if self.contains_spec(key) {
            let e = choose|e: int|
                #![trigger self.keys@[e]]
                self.occupied(e) && self.keys@[e] == key;
            assert(self.keys@[e].spec_home(self.mask()) == e - self.distances@[e]);
            assert(e <= i);
            assert(false);
        }
        if self.can_stop(h) {
            let t = choose|t: int|
                0 <= t < MAX_DISTANCE && #[trigger] self.dist_at(h + t) < t;
            assert(false);
        }
    }

    /// Walks the probe chain of `key` from its home slot `index`. Stops with
    /// `Found` at the slot holding `key`, or with `NotFound` at the first
    /// slot whose distance falls below the walk's own — the correct insertion
    /// point — in which case `key` is nowhere in the table.
    #[verifier::spinoff_prover]
    pub fn search(&self, key: &K, index: usize) -> (r: SearchResult)
        requires
            self.wf(),
            index as int == key.spec_home(self.mask()),
            index <= self.mask(),
            self.contains_spec(*key) || self.can_stop(index as int),
        ensures
            match r {
                SearchResult::Found(i) => {
                    &&& self.occupied(i as int)
                    &&& self.keys@[i as int] == *key
                    &&& self.slot_of(*key) == i as int
                    &&& self.contains_spec(*key)
                },
                SearchResult::NotFound(i, d) => {
                    &&& !self.contains_spec(*key)
                    &&& index <= i < self.slots()
                    &&& d as int == i - index
                    &&& 0 <= d < MAX_DISTANCE
                    &&& self.dist_at(i as int) < d as int
                    &&& forall|j: int| index <= j < i ==> #[trigger] self.dist_at(j) >= j - index
                },
            },
    {
        let mut i: usize = index;
        let mut d: Distance = 0;
        loop
            invariant
                self.wf(),
                index as int == key.spec_home(self.mask()),
                index <= self.mask(),
                self.contains_spec(*key) || self.can_stop(index as int),
                d as int == i - index,
                0 <= d < MAX_DISTANCE,
                forall|j: int| index <= j < i ==> #[trigger] self.dist_at(j) >= j - index,
                forall|j: int| index <= j < i ==> #[trigger] self.keys@[j] != *key,
            decreases MAX_DISTANCE - d,
        {
            proof {
                assert(i < self.slots()) by {
                    assert(i - index <= 126 && index <= self.mask());
                }
            }
            let dist = self.distances[i];
            if dist < d {
                proof {
                    self.lemma_not_found(*key, index as int, i as int);
                }
                return SearchResult::NotFound(i, d);
            }
            if key.eq_key(&self.keys[i]) {
                proof {
                    self.lemma_slot_of(i as int);
                }
                return SearchResult::Found(i);
            }
            proof {
                if d == MAX_DISTANCE - 1 {
                    self.lemma_budget_exhausted(*key, index as int, i as int);
                    assert(false);
                }
            }
            i = i + 1;
            d = d + 1;
        }
    }
}

impl<K: IntKey, V> Table<K, V> {
    /// Carries an entry rightward from `index`, swapping it with any poorer
    /// incumbent, until a free slot takes it: the Robin Hood displacement
    /// loop. Besides the map-view effect, the ensures pin the slot layout:
    /// nothing changes outside `[index, ff]` where `ff` is the first free
    /// slot; the carried distance lands at `index`; past it each distance
    /// becomes its left neighbour's successor; and an incumbent already one
    /// step past its left neighbour keeps its slot.
    #[verifier::spinoff_prover]
    #[verifier::rlimit(100)]
    fn emplace(&mut self, index: usize, key: K, value: Option<V>, distance: Distance)
        requires
            old(self).wf(),
            !old(self).contains_spec(key),
            value is Some,
            1 <= index < old(self).slots(),
            distance as int == index - key.spec_home(old(self).mask()),
            0 <= key.spec_home(old(self).mask()) <= old(self).mask(),
            0 <= distance < MAX_DISTANCE,
            old(self).dist_at(index - 1) >= distance - 1,
            old(self).dist_at(index as int) <= distance as int,
            old(self).fits(index as int),
        ensures
            final(self).wf_core(),
            forall|x: int|
                0 < x < final(self).slots() ==> #[trigger] step_bounded(final(self).distances@, x),
            occupied_count(final(self).distances@) == occupied_count(old(self).distances@) + 1,
            final(self).len == old(self).len,
            final(self).capacity == old(self).capacity,
            final(self)@ == old(self)@.insert(key, value.unwrap()),
            (index as int) <= old(self).first_free_from(index as int) < old(self).slots(),
            old(self).distances@[old(self).first_free_from(index as int)] == FREE,
            forall|j: int|
                0 <= j < index ==> #[trigger] final(self).distances@[j] == old(self).distances@[j],
            forall|j: int|
                0 <= j < index ==> #[trigger] final(self).keys@[j] == old(self).keys@[j],
            forall|j: int|
                0 <= j < index ==> #[trigger] final(self).values@[j] == old(self).values@[j],
            forall|j: int|
                old(self).first_free_from(index as int) < j < old(self).slots()
                    ==> #[trigger] final(self).distances@[j] == old(self).distances@[j],
            forall|j: int|
                old(self).first_free_from(index as int) < j < old(self).slots()
                    ==> #[trigger] final(self).keys@[j] == old(self).keys@[j],
            forall|j: int|
                old(self).first_free_from(index as int) < j < old(self).slots()
                    ==> #[trigger] final(self).values@[j] == old(self).values@[j],
            final(self).distances@[index as int] == distance,
            old(self).distances@[index as int] != distance ==> final(self).keys@[index as int]
                == key && final(self).values@[index as int] == value,
            old(self).distances@[index as int] == distance ==> final(self).keys@[index as int]
                == old(self).keys@[index as int] && final(self).values@[index as int]
                == old(self).values@[index as int],
            forall|j: int|
                index < j <= old(self).first_free_from(index as int)
                    ==> #[trigger] final(self).distances@[j] == old(self).distances@[j - 1] + 1,
            forall|j: int|
                index < j <= old(self).first_free_from(index as int) ==> #[trigger] keeps_stepped_slot(
                    *old(self),
                    *final(self),
                    j,
                ),
    {
        let ghost t0 = *self;
        let mut i: usize = index;
        let mut k: K = key;
        let mut v: Option<V> = value;
        let mut d: Distance = distance;
        let ghost f = t0.first_free_from(index as int);
        proof {
            t0.lemma_first_free_within_fits(index as int);
        }
        loop
            invariant
                t0 == *old(self),
                t0.wf(),
                f == t0.first_free_from(index as int),
                index as int <= f < t0.slots(),
                t0.distances@[f] == FREE,
                forall|j: int|
                    index as int <= j < f ==> FREE != #[trigger] t0.distances@[j]
                        && t0.distances@[j] < MAX_DISTANCE - 1,
                t0.distances@[index as int] <= distance,
                self.wf_core(),
                forall|x: int| 0 < x < self.slots() ==> #[trigger] step_bounded(self.distances@, x),
                occupied_count(self.distances@) == occupied_count(t0.distances@),
                self.len == t0.len,
                self.capacity == t0.capacity,
                !self.contains_spec(k),
                v is Some,
                1 <= index <= i as int <= f,
                d as int == i - k.spec_home(self.mask()),
                0 <= k.spec_home(self.mask()) <= self.mask(),
                0 <= d < MAX_DISTANCE,
                self.dist_at(i - 1) >= d - 1,
                self@.insert(k, v.unwrap()) == t0@.insert(key, value.unwrap()),
                i as int == index ==> d == distance && k == key && v == value,
                i as int > index ==> d as int == t0.distances@[i - 1] + 1,
                forall|j: int|
                    0 <= j < index ==> #[trigger] self.distances@[j] == t0.distances@[j],
                forall|j: int| 0 <= j < index ==> #[trigger] self.keys@[j] == t0.keys@[j],
                forall|j: int| 0 <= j < index ==> #[trigger] self.values@[j] == t0.values@[j],
                forall|j: int|
                    i as int <= j < self.slots() ==> #[trigger] self.distances@[j]
                        == t0.distances@[j],
                forall|j: int|
                    i as int <= j < self.slots() ==> #[trigger] self.keys@[j] == t0.keys@[j],
                forall|j: int|
                    i as int <= j < self.slots() ==> #[trigger] self.values@[j] == t0.values@[j],
                i as int > index ==> self.distances@[index as int] == distance,
                i as int > index && t0.distances@[index as int] != distance
                    ==> self.keys@[index as int] == key && self.values@[index as int] == value,
                i as int > index && t0.distances@[index as int] == distance
                    ==> self.keys@[index as int] == t0.keys@[index as int]
                        && self.values@[index as int] == t0.values@[index as int],
                forall|j: int|
                    index < j < i as int ==> #[trigger] self.distances@[j] == t0.distances@[j - 1]
                        + 1,
                forall|j: int|
                    index < j < i as int ==> #[trigger] keeps_stepped_slot(t0, *self, j),
            decreases f - i,
        {
            let dist = self.distances[i];
            if dist == FREE {
                proof {
                    assert(i as int == f);
                    assert forall|j: int| index < j <= f implies #[trigger] keeps_stepped_slot(
                        t0,
                        *self,
                        j,
                    ) by {
                        if j == f {
                            // the free slot is never one step past its
                            // occupied neighbour
                            assert(t0.distances@[f - 1] != FREE);
                            assert(t0.distances@[f] != t0.distances@[f - 1] + 1);
                        }
                    }
                }
                let ghost pre = *self;
                let ghost kc = k;
                let ghost vc = v;
                self.write(i, k, v, d);
                proof {
                    pre.lemma_wf_core_set_slot(*self, i as int, kc, d, vc);
                    lemma_occupied_count_update(pre.distances@, i as int, d);
                    pre.lemma_view_write_free(*self, i as int, kc, vc.unwrap());
                    assert forall|x: int| 0 < x < self.slots() implies #[trigger] step_bounded(
                        self.distances@,
                        x,
                    ) by {
                        assert(step_bounded(pre.distances@, x));
                        if x == i + 1 && x < self.slots() {
                            assert(pre.distances@[x] <= pre.distances@[i as int] + 1);
                        }
                    }
                    if (index as int) < f {
                        assert(t0.distances@[f] != t0.distances@[f - 1] + 1);
                    }
                    assert forall|j: int| index < j <= f implies #[trigger] keeps_stepped_slot(
                        t0,
                        *self,
                        j,
                    ) by {
                        if j == f {
                            assert(t0.distances@[f - 1] != FREE);
                            assert(t0.distances@[f] != t0.distances@[f - 1] + 1);
                        } else {
                            assert(keeps_stepped_slot(t0, pre, j));
                            assert(self.keys@[j] == pre.keys@[j] && self.values@[j]
                                == pre.values@[j]);
                        }
                    }
                }
                return ;
            }
            if d > dist {
                let ghost pre = *self;
                let ghost kc = k;
                let ghost vc = v;
                let ghost dc = d;
                core::mem::swap(&mut self.distances[i], &mut d);
                core::mem::swap(&mut self.keys[i], &mut k);
                core::mem::swap(&mut self.values[i], &mut v);
                proof {
                    assert(self.distances@ == pre.distances@.update(i as int, dc));
                    assert(self.keys@ == pre.keys@.update(i as int, kc));
                    assert(self.values@ == pre.values@.update(i as int, vc));
                    pre.lemma_wf_core_set_slot(*self, i as int, kc, dc, vc);
                    lemma_occupied_count_update(pre.distances@, i as int, dc);
                    pre.lemma_slot_of(i as int);
                    pre.lemma_view_replace_entry(*self, i as int, kc, vc.unwrap());
                    assert forall|x: int| 0 < x < self.slots() implies #[trigger] step_bounded(
                        self.distances@,
                        x,
                    ) by {
                        assert(step_bounded(pre.distances@, x));
                        if x == i + 1 && x < self.slots() {
                            assert(pre.distances@[x] <= pre.distances@[i as int] + 1);
                        }
                    }
                    // the displaced entry is now the carried one
                    assert(k == pre.keys@[i as int] && v == pre.values@[i as int] && d
                        == pre.distances@[i as int]);
                    assert(!self.contains_spec(k)) by {
                        if self.contains_spec(k) {
                            let j = choose|j: int|
                                #![trigger self.keys@[j]]
                                self.occupied(j) && self.keys@[j] == k;
                            assert(j != i as int);
                            assert(pre.occupied(j) && pre.keys@[j] == k);
                            assert(pre.keys@[j] != pre.keys@[i as int]);
                        }
                    }
                    // the view tracks one displacement step
                    assert(self@.insert(k, v.unwrap()) =~= pre@.insert(kc, vc.unwrap()));
                    assert forall|j: int| index < j <= i as int implies #[trigger] keeps_stepped_slot(
                        t0,
                        *self,
                        j,
                    ) by {
                        if j == i as int {
                            // a swap here means the adjacency equality fails
                            assert(pre.distances@[i as int] == t0.distances@[i as int]);
                            assert(dc as int == t0.distances@[i - 1] + 1);
                            assert(t0.distances@[j] != t0.distances@[j - 1] + 1);
                        } else {
                            assert(keeps_stepped_slot(t0, pre, j));
                            assert(self.keys@[j] == pre.keys@[j] && self.values@[j]
                                == pre.values@[j]);
                        }
                    }
                }
            } else {
                proof {
                    // the walk passes an incumbent exactly one step past its
                    // left neighbour; nothing moves
                    if (i as int) == index {
                        assert(self.distances@[i as int] == distance);
                    } else {
                        assert(step_bounded(t0.distances@, i as int));
                        assert(self.distances@[i as int] == t0.distances@[i - 1] + 1);
                    }
                    assert(self.keys@[i as int] == t0.keys@[i as int] && self.values@[i as int]
                        == t0.values@[i as int]);
                    assert(keeps_stepped_slot(t0, *self, i as int));
                }
            }
            proof {
                assert(i < f) by {
                    assert(self.distances@[f] == t0.distances@[f]);
                }
                assert(d <= dist);
                assert(t0.distances@[i as int] < MAX_DISTANCE - 1);
                assert(d < MAX_DISTANCE - 1);
            }
            d = d + 1;
            i = i + 1;
        }
    }

    /// Writes `key` and `value` directly into the free slot a failed search
    /// reported.
    #[verifier::spinoff_prover]
    fn insert_free(&mut self, index: usize, key: K, value: V, distance: Distance)
        requires
            old(self).wf(),
            !old(self).contains_spec(key),
            0 <= index < old(self).slots(),
            distance as int == index - key.spec_home(old(self).mask()),
            0 <= key.spec_home(old(self).mask()) <= old(self).mask(),
            0 <= distance < MAX_DISTANCE,
            old(self).distances@[index as int] == FREE,
            distance > 0 ==> old(self).dist_at(index - 1) >= distance - 1,
        ensures
            final(self).wf_core(),
            forall|x: int|
                0 < x < final(self).slots() ==> #[trigger] step_bounded(final(self).distances@, x),
            occupied_count(final(self).distances@) == occupied_count(old(self).distances@) + 1,
            final(self).len == old(self).len,
            final(self).capacity == old(self).capacity,
            final(self)@ == old(self)@.insert(key, value),
            final(self).distances@ == old(self).distances@.update(index as int, distance),
            final(self).keys@ == old(self).keys@.update(index as int, key),
            final(self).values@ == old(self).values@.update(index as int, Some(value)),
    {
        let ghost pre = *self;
        self.write(index, key, Some(value), distance);
        proof {
            pre.lemma_wf_core_set_slot(*self, index as int, key, distance, Some(value));
            lemma_occupied_count_update(pre.distances@, index as int, distance);
            pre.lemma_view_write_free(*self, index as int, key, value);
            assert forall|x: int| 0 < x < self.slots() implies #[trigger] step_bounded(
                self.distances@,
                x,
            ) by {
                assert(step_bounded(pre.distances@, x));
                if x == index + 1 && x < self.slots() {
                    assert(pre.distances@[x] <= pre.distances@[index as int] + 1);
                }
            }
        }
    }

    /// Displaces the incumbent at the insertion point with `key` and `value`,
    /// then lets the displacement loop carry the incumbent on.
    #[verifier::spinoff_prover]
    fn insert_displace(&mut self, index: usize, key: K, value: V, distance: Distance)
        requires
            old(self).wf(),
            !old(self).contains_spec(key),
            0 <= index < old(self).slots(),
            distance as int == index - key.spec_home(old(self).mask()),
            0 <= key.spec_home(old(self).mask()) <= old(self).mask(),
            0 <= distance < MAX_DISTANCE,
            old(self).dist_at(index as int) < distance as int,
            old(self).distances@[index as int] != FREE,
            distance > 0 ==> old(self).dist_at(index - 1) >= distance - 1,
            old(self).fits(index as int),
        ensures
            final(self).wf_core(),
            forall|x: int|
                0 < x < final(self).slots() ==> #[trigger] step_bounded(final(self).distances@, x),
            occupied_count(final(self).distances@) == occupied_count(old(self).distances@) + 1,
            final(self).len == old(self).len,
            final(self).capacity == old(self).capacity,
            final(self)@ == old(self)@.insert(key, value),
            (index as int) < old(self).first_free_from(index as int) < old(self).slots(),
            forall|j: int|
                0 <= j < index ==> #[trigger] final(self).distances@[j] == old(self).distances@[j],
            forall|j: int|
                0 <= j < index ==> #[trigger] final(self).keys@[j] == old(self).keys@[j],
            forall|j: int|
                0 <= j < index ==> #[trigger] final(self).values@[j] == old(self).values@[j],
            forall|j: int|
                old(self).first_free_from(index as int) < j < old(self).slots()
                    ==> #[trigger] final(self).distances@[j] == old(self).distances@[j],
            forall|j: int|
                old(self).first_free_from(index as int) < j < old(self).slots()
                    ==> #[trigger] final(self).keys@[j] == old(self).keys@[j],
            forall|j: int|
                old(self).first_free_from(index as int) < j < old(self).slots()
                    ==> #[trigger] final(self).values@[j] == old(self).values@[j],
            final(self).distances@[index as int] == distance,
            final(self).keys@[index as int] == key,
            final(self).values@[index as int] == Some(value),
            forall|j: int|
                index < j <= old(self).first_free_from(index as int)
                    ==> #[trigger] final(self).distances@[j] == old(self).distances@[j - 1] + 1,
            forall|j: int|
                index < j <= old(self).first_free_from(index as int)
                    ==> #[trigger] keeps_stepped_slot(*old(self), *final(self), j),
    {
        let mut k: K = key;
        let mut v: Option<V> = Some(value);
        let mut d: Distance = distance;
        let ghost pre = *self;
        core::mem::swap(&mut self.distances[index], &mut d);
        core::mem::swap(&mut self.keys[index], &mut k);
        core::mem::swap(&mut self.values[index], &mut v);
        proof {
            assert(self.distances@ == pre.distances@.update(index as int, distance));
            assert(self.keys@ == pre.keys@.update(index as int, key));
            pre.lemma_wf_core_set_slot(*self, index as int, key, distance, Some(value));
            lemma_occupied_count_update(pre.distances@, index as int, distance);
            pre.lemma_slot_of(index as int);
            pre.lemma_view_replace_entry(*self, index as int, key, value);
            assert forall|x: int| 0 < x < self.slots() implies #[trigger] step_bounded(
                self.distances@,
                x,
            ) by {
                assert(step_bounded(pre.distances@, x));
                if x == index + 1 && x < self.slots() {
                    assert(pre.distances@[x] <= pre.distances@[index as int] + 1);
                }
            }
            assert(k == pre.keys@[index as int] && v == pre.values@[index as int] && d
                == pre.distances@[index as int]);
            assert(!self.contains_spec(k)) by {
                if self.contains_spec(k) {
                    let j = choose|j: int|
                        #![trigger self.keys@[j]]
                        self.occupied(j) && self.keys@[j] == k;
                    assert(j != index as int);
                    assert(pre.occupied(j) && pre.keys@[j] == k);
                    assert(pre.keys@[j] != pre.keys@[index as int]);
                }
            }
            // room remains past the displaced slot
            assert(self.fits(index as int + 1) && pre.distances@[index as int] < MAX_DISTANCE
                - 1) by {
                let ff = choose|ff: int|
                    #![trigger pre.distances@[ff]]
                    {
                        &&& index as int <= ff < pre.slots()
                        &&& pre.distances@[ff] == FREE
                        &&& forall|j: int|
                            index as int <= j < ff ==> #[trigger] pre.distances@[j] < MAX_DISTANCE
                                - 1
                    };
                assert(ff != index as int);
                assert(self.distances@[ff] == FREE);
                assert(forall|j: int|
                    index as int + 1 <= j < ff ==> #[trigger] self.distances@[j] < MAX_DISTANCE
                        - 1);
            }
            assert(self.len as int == occupied_count(self.distances@));
            // the next slot is at most one step past the displaced entry
            assert(step_bounded(pre.distances@, index as int + 1));
            assert(self.distances@[index as int + 1] == pre.distances@[index as int + 1]);
        }
        let d1 = d + 1;
        let ghost mid = *self;
        let ghost ff = pre.first_free_from(index as int);
        proof {
            assert(mid.dist_at(index as int + 1) <= d1 as int);
            pre.lemma_first_free_within_fits(index as int);
            assert(ff == pre.first_free_from(index as int + 1));
            pre.lemma_first_free_agrees(mid, index as int + 1);
            assert(mid.first_free_from(index as int + 1) == ff);
        }
        self.emplace(index + 1, k, v, d1);
        proof {
            let kd = pre.keys@[index as int];
            let vd = pre.values@[index as int].unwrap();
            assert(self@ == mid@.insert(kd, vd));
            assert(mid@ == pre@.remove(kd).insert(key, value));
            assert(pre@[kd] == vd);
            assert(kd != key);
            assert(pre@.remove(kd).insert(key, value).insert(kd, vd) =~= pre@.insert(key, value));
            // the displacement window, read over the pre-swap table
            assert forall|j: int| 0 <= j < index implies #[trigger] self.distances@[j]
                == pre.distances@[j] && self.keys@[j] == pre.keys@[j] && self.values@[j]
                == pre.values@[j] by {
                assert(self.distances@[j] == mid.distances@[j] && self.keys@[j] == mid.keys@[j]
                    && self.values@[j] == mid.values@[j]);
            }
            assert forall|j: int| ff < j < pre.slots() implies #[trigger] self.distances@[j]
                == pre.distances@[j] && self.keys@[j] == pre.keys@[j] && self.values@[j]
                == pre.values@[j] by {
                assert(self.distances@[j] == mid.distances@[j] && self.keys@[j] == mid.keys@[j]
                    && self.values@[j] == mid.values@[j]);
            }
            assert(self.distances@[index as int] == mid.distances@[index as int]
                && self.keys@[index as int] == mid.keys@[index as int]
                && self.values@[index as int] == mid.values@[index as int]);
            assert forall|j: int| index < j <= ff implies #[trigger] self.distances@[j]
                == pre.distances@[j - 1] + 1 by {
                if j == index as int + 1 {
                    assert(self.distances@[j] == d1);
                } else {
                    assert(self.distances@[j] == mid.distances@[j - 1] + 1);
                }
            }
            assert forall|j: int| index < j <= ff implies #[trigger] keeps_stepped_slot(
                pre,
                *self,
                j,
            ) by {
                if j == index as int + 1 {
                    if pre.distances@[j] == pre.distances@[j - 1] + 1 {
                        // the carried distance equals the incumbent's: the
                        // incumbent stays put
                        assert(mid.distances@[j] == d1);
                        assert(self.keys@[j] == mid.keys@[j] && self.values@[j] == mid.values@[j]);
                    }
                } else {
                    assert(keeps_stepped_slot(mid, *self, j));
                }
            }
        }
    }

    /// Places `key` and `value` at the insertion point a failed search
    /// reported: directly if the slot is free, else by displacing the
    /// incumbent and letting the displacement loop carry it on.
    #[verifier::spinoff_prover]
    pub fn insert(&mut self, index: usize, key: K, value: V, distance: Distance)
        requires
            old(self).wf(),
            !old(self).contains_spec(key),
            0 <= index < old(self).slots(),
            distance as int == index - key.spec_home(old(self).mask()),
            0 <= key.spec_home(old(self).mask()) <= old(self).mask(),
            0 <= distance < MAX_DISTANCE,
            old(self).dist_at(index as int) < distance as int,
            distance > 0 ==> old(self).dist_at(index - 1) >= distance - 1,
            old(self).fits(index as int),
        ensures
            final(self).wf(),
            final(self)@ == old(self)@.insert(key, value),
            final(self).len == old(self).len + 1,
            final(self).capacity == old(self).capacity,
            (index as int) <= old(self).first_free_from(index as int) < old(self).slots(),
            forall|j: int|
                0 <= j < index ==> #[trigger] final(self).distances@[j] == old(self).distances@[j],
            forall|j: int|
                0 <= j < index ==> #[trigger] final(self).keys@[j] == old(self).keys@[j],
            forall|j: int|
                0 <= j < index ==> #[trigger] final(self).values@[j] == old(self).values@[j],
            forall|j: int|
                old(self).first_free_from(index as int) < j < old(self).slots()
                    ==> #[trigger] final(self).distances@[j] == old(self).distances@[j],
            forall|j: int|
                old(self).first_free_from(index as int) < j < old(self).slots()
                    ==> #[trigger] final(self).keys@[j] == old(self).keys@[j],
            forall|j: int|
                old(self).first_free_from(index as int) < j < old(self).slots()
                    ==> #[trigger] final(self).values@[j] == old(self).values@[j],
            final(self).distances@[index as int] == distance,
            final(self).keys@[index as int] == key,
            final(self).values@[index as int] == Some(value),
            forall|j: int|
                index < j <= old(self).first_free_from(index as int)
                    ==> #[trigger] final(self).distances@[j] == old(self).distances@[j - 1] + 1,
            forall|j: int|
                index < j <= old(self).first_free_from(index as int)
                    ==> #[trigger] keeps_stepped_slot(*old(self), *final(self), j),
    {
        proof {
            lemma_occupied_count_le(self.distances@);
        }
        let ghost t0 = *self;
        let dist0 = self.distances[index];
        if dist0 == FREE {
            self.insert_free(index, key, value, distance);
            proof {
                assert(t0.first_free_from(index as int) == index as int);
            }
        } else {
            self.insert_displace(index, key, value, distance);
        }
        let ghost placed = *self;
        self.len = self.len + 1;
        proof {
            assert forall|j: int|
                index < j <= t0.first_free_from(index as int) implies #[trigger] keeps_stepped_slot(
                    t0,
                    *self,
                    j,
                ) by {
                assert(keeps_stepped_slot(t0, placed, j));
            }
        }
    }
}

impl<K: IntKey, V> Table<K, V> {
    /// After the slot at `index` has been freed, pulls each following
    /// displaced entry one slot earlier, its distance decremented, until an
    /// entry at its home position or a free slot ends the chain.
    #[verifier::spinoff_prover]
    fn shift_up(&mut self, index: usize)
        requires
            old(self).wf_core(),
            old(self).len as int == occupied_count(old(self).distances@),
            index as int <= old(self).slots() - 2,
            old(self).distances@[index as int] == FREE,
            forall|x: int|
                0 < x < old(self).slots() && x != index + 1 ==> #[trigger] step_bounded(
                    old(self).distances@,
                    x,
                ),
            index > 0 ==> old(self).dist_at(index + 1) <= old(self).dist_at(index - 1) + 2,
        ensures
            final(self).wf(),
            final(self)@ == old(self)@,
            final(self).len == old(self).len,
            final(self).capacity == old(self).capacity,
            (index as int) < old(self).back_shift_end(index as int + 1) < old(self).slots(),
            forall|j: int|
                0 <= j < index ==> #[trigger] final(self).distances@[j] == old(self).distances@[j],
            forall|j: int|
                0 <= j < index ==> #[trigger] final(self).keys@[j] == old(self).keys@[j],
            forall|j: int|
                0 <= j < index ==> #[trigger] final(self).values@[j] == old(self).values@[j],
            forall|j: int|
                old(self).back_shift_end(index as int + 1) <= j < old(self).slots()
                    ==> #[trigger] final(self).distances@[j] == old(self).distances@[j],
            forall|j: int|
                old(self).back_shift_end(index as int + 1) <= j < old(self).slots()
                    ==> #[trigger] final(self).keys@[j] == old(self).keys@[j],
            forall|j: int|
                old(self).back_shift_end(index as int + 1) <= j < old(self).slots()
                    ==> #[trigger] final(self).values@[j] == old(self).values@[j],
            forall|j: int|
                index <= j < old(self).back_shift_end(index as int + 1) - 1
                    ==> #[trigger] final(self).distances@[j] == old(self).distances@[j + 1] - 1
                        && final(self).keys@[j] == old(self).keys@[j + 1] && final(self).values@[j]
                        == old(self).values@[j + 1],
            final(self).distances@[old(self).back_shift_end(index as int + 1) - 1] == FREE,
            final(self).values@[old(self).back_shift_end(index as int + 1) - 1] is None,
            final(self).keys@[old(self).back_shift_end(index as int + 1) - 1] == old(self).keys@[old(
                self,
            ).back_shift_end(index as int + 1) - 1],
    {
        let ghost t0 = *self;
        let mut j: usize = index;
        loop
            invariant
                t0 == *old(self),
                self.wf_core(),
                self.len == t0.len,
                self.capacity == t0.capacity,
                occupied_count(self.distances@) == occupied_count(t0.distances@),
                self.len as int == occupied_count(self.distances@),
                self@ == t0@,
                index <= j,
                j as int <= self.slots() - 2,
                self.distances@[j as int] == FREE,
                self.values@[j as int] is None,
                self.keys@[j as int] == t0.keys@[j as int],
                forall|x: int|
                    0 < x < self.slots() && x != j + 1 ==> #[trigger] step_bounded(
                        self.distances@,
                        x,
                    ),
                j > 0 ==> self.dist_at(j + 1) <= self.dist_at(j - 1) + 2,
                forall|x: int|
                    0 <= x < index ==> #[trigger] self.distances@[x] == t0.distances@[x],
                forall|x: int| 0 <= x < index ==> #[trigger] self.keys@[x] == t0.keys@[x],
                forall|x: int| 0 <= x < index ==> #[trigger] self.values@[x] == t0.values@[x],
                forall|x: int|
                    (j as int) < x < self.slots() ==> #[trigger] self.distances@[x]
                        == t0.distances@[x],
                forall|x: int|
                    (j as int) < x < self.slots() ==> #[trigger] self.keys@[x] == t0.keys@[x],
                forall|x: int|
                    (j as int) < x < self.slots() ==> #[trigger] self.values@[x] == t0.values@[x],
                forall|x: int|
                    index <= x < j as int ==> #[trigger] self.distances@[x] == t0.distances@[x + 1]
                        - 1 && self.keys@[x] == t0.keys@[x + 1] && self.values@[x]
                        == t0.values@[x + 1],
                forall|x: int| index < x <= j as int ==> #[trigger] t0.distances@[x] >= 1,
            decreases self.slots() - j,
        {
            let jn = j + 1;
            let dn = self.distances[jn];
            if dn < 1 {
                proof {
                    assert(step_bounded(self.distances@, j + 1));
                    assert forall|x: int| 0 < x < self.slots() implies #[trigger] step_bounded(
                        self.distances@,
                        x,
                    ) by {}
                    t0.lemma_back_shift_end_at(index as int + 1, jn as int);
                }
                return ;
            }
            let ghost pre = *self;
            let dmoved = dn - 1;
            self.distances[j] = dmoved;
            self.distances[jn] = FREE;
            let kmoved = self.keys[jn];
            self.keys[j] = kmoved;
            let mut tv: Option<V> = None;
            core::mem::swap(&mut self.values[jn], &mut tv);
            core::mem::swap(&mut self.values[j], &mut tv);
            proof {
                pre.lemma_occupied_bound(jn as int);
                assert(self.distances@ == pre.distances@.update(j as int, dmoved).update(
                    jn as int,
                    FREE,
                ));
                assert(self.keys@ == pre.keys@.update(j as int, pre.keys@[jn as int]));
                assert(self.values@ =~= pre.values@.update(j as int, pre.values@[jn as int]).update(
                    jn as int,
                    None,
                ));
                pre.lemma_wf_core_move_slot(*self, jn as int);
                lemma_occupied_count_update(pre.distances@, j as int, dmoved);
                lemma_occupied_count_update(
                    pre.distances@.update(j as int, dmoved),
                    jn as int,
                    FREE,
                );
                pre.lemma_view_move(*self, jn as int, j as int);
                assert forall|x: int|
                    0 < x < self.slots() && x != jn + 1 implies #[trigger] step_bounded(
                        self.distances@,
                        x,
                    ) by {
                    if x != j && x != jn {
                        assert(step_bounded(pre.distances@, x));
                    }
                }
                if jn + 1 < self.slots() {
                    assert(step_bounded(pre.distances@, jn + 1));
                }
            }
            j = jn;
        }
    }

    /// Removes the entry of an occupied slot and returns its value,
    /// back-shifting the cluster past it to repair the probe chains.
    #[verifier::spinoff_prover]
    pub fn remove(&mut self, index: usize) -> (r: V)
        requires
            old(self).wf(),
            old(self).occupied(index as int),
        ensures
            final(self).wf(),
            final(self)@ == old(self)@.remove(old(self).keys@[index as int]),
            r == old(self)@[old(self).keys@[index as int]],
            final(self).len == old(self).len - 1,
            final(self).capacity == old(self).capacity,
            (index as int) < old(self).back_shift_end(index as int + 1) < old(self).slots(),
            forall|j: int|
                0 <= j < index ==> #[trigger] final(self).distances@[j] == old(self).distances@[j],
            forall|j: int|
                0 <= j < index ==> #[trigger] final(self).keys@[j] == old(self).keys@[j],
            forall|j: int|
                0 <= j < index ==> #[trigger] final(self).values@[j] == old(self).values@[j],
            forall|j: int|
                old(self).back_shift_end(index as int + 1) <= j < old(self).slots()
                    ==> #[trigger] final(self).distances@[j] == old(self).distances@[j],
            forall|j: int|
                old(self).back_shift_end(index as int + 1) <= j < old(self).slots()
                    ==> #[trigger] final(self).keys@[j] == old(self).keys@[j],
            forall|j: int|
                old(self).back_shift_end(index as int + 1) <= j < old(self).slots()
                    ==> #[trigger] final(self).values@[j] == old(self).values@[j],
            forall|j: int|
                index <= j < old(self).back_shift_end(index as int + 1) - 1
                    ==> #[trigger] final(self).distances@[j] == old(self).distances@[j + 1] - 1
                        && final(self).keys@[j] == old(self).keys@[j + 1] && final(self).values@[j]
                        == old(self).values@[j + 1],
            final(self).distances@[old(self).back_shift_end(index as int + 1) - 1] == FREE,
            final(self).values@[old(self).back_shift_end(index as int + 1) - 1] is None,
            final(self).keys@[old(self).back_shift_end(index as int + 1) - 1] == old(self).keys@[old(
                self,
            ).back_shift_end(index as int + 1) - 1],
    {
        proof {
            lemma_occupied_count_pos(self.distances@, index as int);
            self.lemma_slot_of(index as int);
            self.lemma_occupied_bound(index as int);
        }
        let ghost t0 = *self;
        self.len = self.len - 1;
        self.distances[index] = FREE;
        let mut taken: Option<V> = None;
        core::mem::swap(&mut self.values[index], &mut taken);
        proof {
            assert(self.distances@ == t0.distances@.update(index as int, FREE));
            assert(self.values@ == t0.values@.update(index as int, None));
            assert(self.keys@ =~= t0.keys@.update(index as int, t0.keys@[index as int]));
            t0.lemma_wf_core_set_slot(*self, index as int, t0.keys@[index as int], FREE, None);
            lemma_occupied_count_update(t0.distances@, index as int, FREE);
            t0.lemma_view_clear_slot(*self, index as int);
            assert forall|x: int|
                0 < x < self.slots() && x != index + 1 implies #[trigger] step_bounded(
                    self.distances@,
                    x,
                ) by {
                assert(step_bounded(t0.distances@, x));
            }
            if index > 0 {
                assert(step_bounded(t0.distances@, index + 1));
                assert(step_bounded(t0.distances@, index as int));
            }
        }
        proof {
            t0.lemma_back_shift_agrees(*self, index as int + 1);
        }
        self.shift_up(index);
        taken.unwrap()
    }
}

impl<K: IntKey, V> Table<K, V> {
    /// The keys of the occupied slots among the first `n`, in slot order.
    pub open spec fn keys_prefix(self, n: int) -> Seq<K>
        decreases n,
    {
        if n <= 0 {
            Seq::empty()
        } else if self.distances@[n - 1] != FREE {
            self.keys_prefix(n - 1) + seq![self.keys@[n - 1]]
        } else {
            self.keys_prefix(n - 1)
        }
    }

    /// The keys of the occupied slots, in slot order.
    pub open spec fn keys_in_order(self) -> Seq<K> {
        self.keys_prefix(self.slots())
    }

    /// The probe distances of the occupied slots among the first `n`, in slot
    /// order.
    pub open spec fn probes_prefix(self, n: int) -> Seq<usize>
        decreases n,
    {
        if n <= 0 {
            Seq::empty()
        } else if self.distances@[n - 1] != FREE {
            self.probes_prefix(n - 1) + seq![self.distances@[n - 1] as usize]
        } else {
            self.probes_prefix(n - 1)
        }
    }

    /// The probe distances of the occupied slots, in slot order.
    pub open spec fn probes_in_order(self) -> Seq<usize> {
        self.probes_prefix(self.slots())
    }

    /// The values of the occupied slots among the first `n`, in slot order.
    pub open spec fn values_prefix(self, n: int) -> Seq<V>
        decreases n,
    {
        if n <= 0 {
            Seq::empty()
        } else if self.distances@[n - 1] != FREE {
            self.values_prefix(n - 1) + seq![self.values@[n - 1].unwrap()]
        } else {
            self.values_prefix(n - 1)
        }
    }

    /// The values of the occupied slots, in slot order.
    pub open spec fn values_in_order(self) -> Seq<V> {
        self.values_prefix(self.slots())
    }

    /// Lends out the values of the occupied slots, in slot order.
    pub fn values(&self) -> (r: Vec<&V>)
        requires
            self.wf(),
        ensures
            r@.len() == self.values_in_order().len(),
            forall|j: int| 0 <= j < r@.len() ==> *(#[trigger] r@[j]) == self.values_in_order()[j],
    {
        let n = self.distances.len();
        let mut r: Vec<&V> = Vec::new();
        let mut i: usize = 0;
        while i < n
            invariant
                self.wf(),
                i <= n,
                n == self.distances@.len(),
                r@.len() == self.values_prefix(i as int).len(),
                forall|j: int|
                    0 <= j < r@.len() ==> *(#[trigger] r@[j]) == self.values_prefix(i as int)[j],
            decreases n - i,
        {
            if self.distances[i] != FREE {
                r.push(self.values[i].as_ref().unwrap());
            }
            i = i + 1;
        }
        r
    }

    /// The occupied prefix of a column lists one key per occupied slot.
    proof fn lemma_keys_prefix_len(self, n: int)
        requires
            0 <= n <= self.distances@.len(),
        ensures
            self.keys_prefix(n).len() == occupied_count(self.distances@.take(n)),
        decreases n,
    {
        if n > 0 {
            self.lemma_keys_prefix_len(n - 1);
            assert(self.distances@.take(n).drop_last() =~= self.distances@.take(n - 1));
            assert(self.distances@.take(n).last() == self.distances@[n - 1]);
        }
    }

    /// The keys of the occupied slots, in slot order; the list is as long as
    /// the table's occupancy count.
    pub fn keys(&self) -> (r: Vec<K>)
        requires
            self.wf(),
        ensures
            r@ == self.keys_in_order(),
            r@.len() == self.len,
    {
        let n = self.distances.len();
        let mut r: Vec<K> = Vec::new();
        let mut i: usize = 0;
        while i < n
            invariant
                self.wf(),
                i <= n,
                n == self.distances@.len(),
                r@ == self.keys_prefix(i as int),
            decreases n - i,
        {
            if self.distances[i] != FREE {
                r.push(self.keys[i]);
            }
            i = i + 1;
        }
        proof {
            self.lemma_keys_prefix_len(n as int);
            assert(self.distances@.take(n as int) =~= self.distances@);
        }
        r
    }

    /// The probe list of a column prefix is as long as its key list.
    proof fn lemma_probes_prefix_len(self, n: int)
        requires
            0 <= n <= self.distances@.len(),
        ensures
            self.probes_prefix(n).len() == self.keys_prefix(n).len(),
        decreases n,
    {
        if n > 0 {
            self.lemma_probes_prefix_len(n - 1);
        }
    }

    /// The keys listed for the first `n` slots are exactly the keys of the
    /// occupied slots among them.
    proof fn lemma_keys_prefix_contains(self, n: int, k: K)
        requires
            0 <= n <= self.distances@.len(),
            self.keys@.len() == self.distances@.len(),
        ensures
            self.keys_prefix(n).contains(k) <==> exists|i: int|
                #![trigger self.keys@[i]]
                0 <= i < n && self.distances@[i] != FREE && self.keys@[i] == k,
        decreases n,
    {
        if n > 0 {
            self.lemma_keys_prefix_contains(n - 1, k);
            let shorter = self.keys_prefix(n - 1);
            let full = self.keys_prefix(n);
            if full.contains(k) {
                let j = choose|j: int| 0 <= j < full.len() && full[j] == k;
                if j < shorter.len() {
                    assert(shorter[j] == k);
                    assert(shorter.contains(k));
                } else {
                    assert(self.distances@[n - 1] != FREE && self.keys@[n - 1] == k);
                }
            }
            if exists|i: int|
                #![trigger self.keys@[i]]
                0 <= i < n && self.distances@[i] != FREE && self.keys@[i] == k {
                let i = choose|i: int|
                    #![trigger self.keys@[i]]
                    0 <= i < n && self.distances@[i] != FREE && self.keys@[i] == k;
                if i < n - 1 {
                    let j = choose|j: int| 0 <= j < shorter.len() && shorter[j] == k;
                    assert(full[j] == k);
                } else {
                    assert(full.last() == k);
                }
                assert(full.contains(k));
            }
        }
    }

    /// The key-list law: `keys` lists exactly the keys the map view holds.
    pub proof fn lemma_keys_in_order_members(self, k: K)
        requires
            self.wf(),
        ensures
            self.keys_in_order().contains(k) <==> self@.contains_key(k),
    {
        self.lemma_keys_prefix_contains(self.slots(), k);
        self.lemma_view_at(k);
    }

    /// The key and probe lists of a column prefix are built in lockstep: each
    /// position of both comes from one occupied slot.
    proof fn lemma_prefix_pairing(self, n: int, j: int)
        requires
            0 <= n <= self.distances@.len(),
            0 <= j < self.keys_prefix(n).len(),
        ensures
            exists|i: int|
                #![trigger self.keys@[i]]
                {
                    &&& 0 <= i < n
                    &&& self.distances@[i] != FREE
                    &&& self.keys_prefix(n)[j] == self.keys@[i]
                    &&& self.probes_prefix(n)[j] == self.distances@[i] as usize
                },
        decreases n,
    {
        self.lemma_probes_prefix_len(n);
        if n > 0 {
            self.lemma_probes_prefix_len(n - 1);
            if self.distances@[n - 1] != FREE && j == self.keys_prefix(n - 1).len() {
                assert(self.keys_prefix(n)[j] == self.keys@[n - 1]);
                assert(self.probes_prefix(n)[j] == self.distances@[n - 1] as usize);
            } else {
                self.lemma_prefix_pairing(n - 1, j);
                let i = choose|i: int|
                    #![trigger self.keys@[i]]
                    {
                        &&& 0 <= i < n - 1
                        &&& self.distances@[i] != FREE
                        &&& self.keys_prefix(n - 1)[j] == self.keys@[i]
                        &&& self.probes_prefix(n - 1)[j] == self.distances@[i] as usize
                    };
                assert(self.keys_prefix(n)[j] == self.keys@[i]);
                assert(self.probes_prefix(n)[j] == self.distances@[i] as usize);
            }
        }
    }

    /// The diagnostics law: the probe distance listed at each position is the
    /// slot offset of the key listed there from that key's home slot.
    pub proof fn lemma_probes_match_keys(self, j: int)
        requires
            self.wf(),
            0 <= j < self.keys_in_order().len(),
        ensures
            exists|i: int|
                #![trigger self.keys@[i]]
                {
                    &&& self.occupied(i)
                    &&& self.keys_in_order()[j] == self.keys@[i]
                    &&& self.probes_in_order()[j] as int == i - self.keys@[i].spec_home(
                        self.mask(),
                    )
                },
    {
        self.lemma_prefix_pairing(self.slots(), j);
        let i = choose|i: int|
            #![trigger self.keys@[i]]
            {
                &&& 0 <= i < self.slots()
                &&& self.distances@[i] != FREE
                &&& self.keys_prefix(self.slots())[j] == self.keys@[i]
                &&& self.probes_prefix(self.slots())[j] == self.distances@[i] as usize
            };
        assert(self.keys@[i].spec_home(self.mask()) == i - self.distances@[i]);
    }

    /// The key list ignores a free suffix: listing up to `n` equals listing
    /// up to `m` when every slot in between is free.
    pub proof fn lemma_keys_prefix_skip_free(self, m: int, n: int)
        requires
            0 <= m <= n <= self.distances@.len(),
            forall|j: int| m <= j < n ==> #[trigger] self.distances@[j] == FREE,
        ensures
            self.keys_prefix(n) == self.keys_prefix(m),
        decreases n - m,
    {
        if m < n {
            self.lemma_keys_prefix_skip_free(m, n - 1);
        }
    }

    /// The probe list ignores a free suffix.
    pub proof fn lemma_probes_prefix_skip_free(self, m: int, n: int)
        requires
            0 <= m <= n <= self.distances@.len(),
            forall|j: int| m <= j < n ==> #[trigger] self.distances@[j] == FREE,
        ensures
            self.probes_prefix(n) == self.probes_prefix(m),
        decreases n - m,
    {
        if m < n {
            self.lemma_probes_prefix_skip_free(m, n - 1);
        }
    }

    /// `len` counts exactly the occupied slots, so `keys` and `probes` list
    /// one entry per occupied slot.
    pub proof fn lemma_len_counts_occupied(self)
        requires
            self.wf(),
        ensures
            self.len as int == occupied_count(self.distances@),
            self.keys_in_order().len() == self.len,
            self.probes_in_order().len() == self.len,
    {
        self.lemma_keys_prefix_len(self.slots());
        self.lemma_probes_prefix_len(self.slots());
        assert(self.distances@.take(self.slots()) =~= self.distances@);
    }

    /// The probe distances of the occupied slots, in slot order.
    pub fn probes(&self) -> (r: Vec<usize>)
        requires
            self.wf(),
        ensures
            r@ == self.probes_in_order(),
    {
        let n = self.distances.len();
        let mut r: Vec<usize> = Vec::new();
        let mut i: usize = 0;
        while i < n
            invariant
                self.wf(),
                i <= n,
                n == self.distances@.len(),
                r@ == self.probes_prefix(i as int),
            decreases n - i,
        {
            let d = self.distances[i];
            if d != FREE {
                r.push(d as usize);
            }
            i = i + 1;
        }
        r
    }
}

impl<K: IntKey, V> Table<K, V> {
    /// An insertion of a key homed at `h` stays within the probe budget: the
    /// probe walk reaches its insertion point before the budget runs out, and
    /// past that point a free slot lies before any entry whose distance could
    /// not grow by one more step. This is exactly the condition under which
    /// placing a fresh entry homed at `h` does not abort.
    pub open spec fn can_place(self, h: int) -> bool {
        exists|p: int|
            #![trigger self.dist_at(p)]
            {
                &&& h <= p < h + MAX_DISTANCE
                &&& p < self.slots()
                &&& self.dist_at(p) < p - h
                &&& (forall|j: int| h <= j < p ==> #[trigger] self.dist_at(j) >= j - h)
                &&& self.fits(p)
            }
    }

    /// Picks the first slot from `h` on, no later than `j`, that is poorer
    /// than a walk from `h`: the insertion point for a fresh key homed at `h`.
    proof fn lemma_least_stop(self, h: int, j: int) -> (p: int)
        requires
            0 <= h <= j < self.slots(),
            self.dist_at(j) < j - h,
        ensures
            h <= p <= j,
            self.dist_at(p) < p - h,
            forall|j2: int| h <= j2 < p ==> #[trigger] self.dist_at(j2) >= j2 - h,
        decreases j - h,
    {
        if exists|j2: int| h <= j2 < j && #[trigger] self.dist_at(j2) < j2 - h {
            let j2 = choose|j2: int| h <= j2 < j && #[trigger] self.dist_at(j2) < j2 - h;
            self.lemma_least_stop(h, j2)
        } else {
            j
        }
    }

    /// An entry at the largest legal probe distance sits atop a full-budget
    /// chain: the table then holds at least a budget's worth of entries.
    proof fn lemma_max_chain_count(self, j: int)
        requires
            self.wf(),
            0 <= j < self.slots(),
            self.dist_at(j) == MAX_DISTANCE - 1,
        ensures
            occupied_count(self.distances@) >= MAX_DISTANCE,
    {
        let hj = j - self.dist_at(j);
        assert(self.keys@[j].spec_home(self.mask()) == hj && 0 <= hj);
        assert forall|x: int| hj <= x < j + 1 implies #[trigger] self.distances@[x] != FREE by {
            self.lemma_cluster(hj, x, j);
        }
        lemma_occupied_count_window(self.distances@, hj, j + 1);
    }

    /// A table holding fewer entries than the probe budget always has room
    /// below any home slot: some slot in the window is free, and no chain has
    /// grown to the largest legal distance.
    pub proof fn lemma_sparse_has_room(self, h: int)
        requires
            self.wf(),
            0 <= h <= self.mask(),
            self.len < MAX_DISTANCE,
        ensures
            self.fits(h),
    {
        if forall|j: int| h <= j < h + MAX_DISTANCE ==> #[trigger] self.distances@[j] != FREE {
            lemma_occupied_count_window(self.distances@, h, h + MAX_DISTANCE);
            assert(false);
        }
        let fw = choose|j: int| h <= j < h + MAX_DISTANCE && #[trigger] self.distances@[j] == FREE;
        self.lemma_first_free_from(h);
        let f0 = self.first_free_from(h);
        assert(f0 <= fw);
        assert forall|j: int| h <= j < f0 implies #[trigger] self.distances@[j] < MAX_DISTANCE
            - 1 by {
            if self.distances@[j] >= MAX_DISTANCE - 1 {
                self.lemma_max_chain_count(j);
                assert(false);
            }
        }
        assert(self.distances@[f0] == FREE);
    }

    /// A free slot within reach of `h`, with no entry before it already at
    /// the largest legal distance, is enough room to place a key homed at
    /// `h`: a simple sufficient condition for `can_place`.
    pub proof fn lemma_fits_can_place(self, h: int)
        requires
            self.wf(),
            0 <= h <= self.mask(),
            self.fits(h),
        ensures
            self.can_place(h),
    {
        let f = choose|f: int|
            #![trigger self.distances@[f]]
            {
                &&& h <= f < self.slots()
                &&& self.distances@[f] == FREE
                &&& forall|j: int| h <= j < f ==> #[trigger] self.distances@[j] < MAX_DISTANCE - 1
            };
        let stop = if f < h + MAX_DISTANCE {
            f
        } else {
            h + MAX_DISTANCE - 1
        };
        assert(self.dist_at(stop) < stop - h) by {
            if f < h + MAX_DISTANCE {
                assert(self.distances@[f] == FREE);
            } else {
                assert(self.distances@[h + MAX_DISTANCE - 1] < MAX_DISTANCE - 1);
            }
        }
        let p = self.lemma_least_stop(h, stop);
        assert(p <= f) by {
            if f < p {
                assert(self.dist_at(f) >= f - h);
            }
        }
        assert(self.fits(p)) by {
            assert(self.distances@[f] == FREE);
        }
        assert(self.dist_at(p) < p - h);
    }

    /// Room to place a key homed at `h` also bounds its probe walk: within
    /// the budget past `h` some slot is poorer than the walk itself.
    pub proof fn lemma_can_place_can_stop(self, h: int)
        requires
            0 <= h,
            self.can_place(h),
        ensures
            self.can_stop(h),
    {
        let p = choose|p: int|
            #![trigger self.dist_at(p)]
            {
                &&& h <= p < h + MAX_DISTANCE
                &&& p < self.slots()
                &&& self.dist_at(p) < p - h
                &&& (forall|j: int| h <= j < p ==> #[trigger] self.dist_at(j) >= j - h)
                &&& self.fits(p)
            };
        let t = p - h;
        assert(self.dist_at(h + t) < t);
    }

    /// The insertion point a failed probe walk reports is the very point the
    /// room was promised at: room to place a key homed at `h` is room there.
    pub proof fn lemma_place_at_stop(self, h: int, i: int)
        requires
            self.can_place(h),
            0 <= h <= i < self.slots(),
            self.dist_at(i) < i - h,
            forall|j: int| h <= j < i ==> #[trigger] self.dist_at(j) >= j - h,
        ensures
            self.fits(i),
    {
        let p = choose|p: int|
            #![trigger self.dist_at(p)]
            {
                &&& h <= p < h + MAX_DISTANCE
                &&& p < self.slots()
                &&& self.dist_at(p) < p - h
                &&& (forall|j: int| h <= j < p ==> #[trigger] self.dist_at(j) >= j - h)
                &&& self.fits(p)
            };
        if p < i {
            assert(self.dist_at(p) >= p - h);
            assert(false);
        }
        if i < p {
            assert(self.dist_at(i) >= i - h);
            assert(false);
        }
    }

    /// Tests at run time whether a probe walk for `key` from home `index`
    /// terminates: the executable face of the precondition `search` needs.
    #[verifier::spinoff_prover]
    pub fn probe_stops(&self, key: &K, index: usize) -> (r: bool)
        requires
            self.wf(),
            index as int == key.spec_home(self.mask()),
            index <= self.mask(),
        ensures
            r == (self.contains_spec(*key) || self.can_stop(index as int)),
    {
        let mut i: usize = index;
        let mut d: Distance = 0;
        loop
            invariant
                self.wf(),
                index as int == key.spec_home(self.mask()),
                index <= self.mask(),
                d as int == i - index,
                0 <= d < MAX_DISTANCE,
                forall|j: int| index <= j < i ==> #[trigger] self.dist_at(j) >= j - index,
                forall|j: int| index <= j < i ==> #[trigger] self.keys@[j] != *key,
            decreases MAX_DISTANCE - d,
        {
            proof {
                assert(i < self.slots()) by {
                    assert(i - index <= 126 && index <= self.mask());
                }
            }
            let dist = self.distances[i];
            if dist < d {
                proof {
                    assert(self.dist_at(index as int + d) < d);
                }
                return true;
            }
            if key.eq_key(&self.keys[i]) {
                proof {
                    self.lemma_slot_of(i as int);
                }
                return true;
            }
            if d == MAX_DISTANCE - 1 {
                proof {
                    self.lemma_budget_exhausted(*key, index as int, i as int);
                }
                return false;
            }
            i = i + 1;
            d = d + 1;
        }
    }

    /// Tests at run time whether a fresh key homed at `index` has room: the
    /// executable face of `can_place`.
    #[verifier::spinoff_prover]
    #[verifier::rlimit(60)]
    pub fn placement_fits(&self, index: usize) -> (r: bool)
        requires
            self.wf(),
            index <= self.mask(),
        ensures
            r == self.can_place(index as int),
    {
        let mut i: usize = index;
        let mut d: Distance = 0;
        loop
            invariant
                self.wf(),
                index <= self.mask(),
                d as int == i - index,
                0 <= d < MAX_DISTANCE,
                forall|j: int| index <= j < i ==> #[trigger] self.dist_at(j) >= j - index,
            ensures
                index <= i,
                i - index < MAX_DISTANCE,
                (i as int) < self.slots(),
                self.dist_at(i as int) < i - index,
                forall|j: int| index <= j < i ==> #[trigger] self.dist_at(j) >= j - index,
            decreases MAX_DISTANCE - d,
        {
            proof {
                assert(i < self.slots()) by {
                    assert(i - index <= 126 && index <= self.mask());
                }
            }
            let dist = self.distances[i];
            if dist < d {
                break ;
            }
            if d == MAX_DISTANCE - 1 {
                proof {
                    if self.can_place(index as int) {
                        let p = choose|p: int|
                            #![trigger self.dist_at(p)]
                            {
                                &&& index as int <= p < index + MAX_DISTANCE
                                &&& p < self.slots()
                                &&& self.dist_at(p) < p - index
                                &&& (forall|j: int|
                                    index <= j < p ==> #[trigger] self.dist_at(j) >= j - index)
                                &&& self.fits(p)
                            };
                        assert(self.dist_at(p) >= p - index);
                        assert(false);
                    }
                }
                return false;
            }
            i = i + 1;
            d = d + 1;
        }
        // `i` is the least stop; look for room past it
        let ghost p0 = i as int;
        let mut j: usize = i;
        loop
            invariant
                self.wf(),
                index <= self.mask(),
                p0 == i as int,
                index <= i <= j,
                (j as int) < self.slots(),
                i as int - index < MAX_DISTANCE,
                self.dist_at(p0) < p0 - index,
                forall|x: int| index <= x < p0 ==> #[trigger] self.dist_at(x) >= x - index,
                forall|x: int|
                    p0 <= x < j as int ==> FREE != #[trigger] self.distances@[x]
                        && self.distances@[x] < MAX_DISTANCE - 1,
            decreases self.slots() - j,
        {
            let dj = self.distances[j];
            if dj == FREE {
                proof {
                    assert(self.fits(p0)) by {
                        assert(self.distances@[j as int] == FREE);
                    }
                    assert(self.can_place(index as int)) by {
                        assert(self.dist_at(p0) < p0 - index);
                    }
                }
                return true;
            }
            if dj >= MAX_DISTANCE - 1 {
                proof {
                    if self.can_place(index as int) {
                        let p = choose|p: int|
                            #![trigger self.dist_at(p)]
                            {
                                &&& index as int <= p < index + MAX_DISTANCE
                                &&& p < self.slots()
                                &&& self.dist_at(p) < p - index
                                &&& (forall|j2: int|
                                    index <= j2 < p ==> #[trigger] self.dist_at(j2) >= j2 - index)
                                &&& self.fits(p)
                            };
                        assert(p == p0) by {
                            if p < p0 {
                                assert(self.dist_at(p) >= p - index);
                            }
                            if p0 < p {
                                assert(self.dist_at(p0) >= p0 - index);
                            }
                        }
                        let f = choose|f: int|
                            #![trigger self.distances@[f]]
                            {
                                &&& p0 <= f < self.slots()
                                &&& self.distances@[f] == FREE
                                &&& forall|j2: int|
                                    p0 <= j2 < f ==> #[trigger] self.distances@[j2] < MAX_DISTANCE
                                        - 1
                            };
                        assert(f >= j as int + 1) by {
                            assert(self.distances@[j as int] != FREE);
                        }
                        assert(self.distances@[j as int] < MAX_DISTANCE - 1);
                        assert(false);
                    }
                }
                return false;
            }
            proof {
                self.lemma_occupied_bound(j as int);
            }
            j = j + 1;
        }
    }

    /// Swaps in a new value at an occupied slot and returns the old one; the
    /// slot's key is rebound to the new value.
    #[verifier::spinoff_prover]
    pub fn replace_value(&mut self, index: usize, value: V) -> (r: V)
        requires
            old(self).wf(),
            old(self).occupied(index as int),
        ensures
            final(self).wf(),
            final(self)@ == old(self)@.insert(old(self).keys@[index as int], value),
            r == old(self)@[old(self).keys@[index as int]],
            final(self).len == old(self).len,
            final(self).capacity == old(self).capacity,
            final(self).keys@ == old(self).keys@,
            final(self).distances@ == old(self).distances@,
            final(self).values@ == old(self).values@.update(index as int, Some(value)),
    {
        proof {
            self.lemma_slot_of(index as int);
        }
        let ghost pre = *self;
        let mut nv: Option<V> = Some(value);
        core::mem::swap(&mut self.values[index], &mut nv);
        proof {
            assert(self.values@ == pre.values@.update(index as int, Some(value)));
            assert(self.distances@ =~= pre.distances@.update(
                index as int,
                pre.distances@[index as int],
            ));
            assert(self.keys@ =~= pre.keys@.update(index as int, pre.keys@[index as int]));
            pre.lemma_wf_core_set_slot(
                *self,
                index as int,
                pre.keys@[index as int],
                pre.distances@[index as int],
                Some(value),
            );
            pre.lemma_view_set_value(*self, index as int, value);
        }
        nv.unwrap()
    }

    /// Lends out the value of an occupied slot for mutation; whatever the
    /// caller writes through the reference becomes the slot's value, and the
    /// slot's key is rebound to it.
    #[verifier::spinoff_prover]
    pub fn value_mut(&mut self, index: usize) -> (r: &mut V)
        requires
            old(self).wf(),
            old(self).occupied(index as int),
        ensures
            *r == old(self)@[old(self).keys@[index as int]],
            final(self).wf(),
            final(self)@ == old(self)@.insert(old(self).keys@[index as int], *final(r)),
            final(self).len == old(self).len,
            final(self).capacity == old(self).capacity,
            final(self).keys@ == old(self).keys@,
            final(self).distances@ == old(self).distances@,
            final(self).values@ == old(self).values@.update(index as int, Some(*final(r))),
    {
        proof {
            self.lemma_slot_of(index as int);
        }
        let ghost pre = *self;
        match &mut self.values[index] {
            Some(v) => {
                proof {
                    let tfin = after_borrow(*self);
                    let vfin = *final(v);
                    assert(tfin.values@ == pre.values@.update(index as int, Some(vfin)));
                    assert(tfin.distances@ =~= pre.distances@.update(
                        index as int,
                        pre.distances@[index as int],
                    ));
                    assert(tfin.keys@ =~= pre.keys@.update(index as int, pre.keys@[index as int]));
                    pre.lemma_wf_core_set_slot(
                        tfin,
                        index as int,
                        pre.keys@[index as int],
                        pre.distances@[index as int],
                        Some(vfin),
                    );
                    pre.lemma_view_set_value(tfin, index as int, vfin);
                }
                v
            },
            None => {
                proof {
                    assert(false);
                }
                vstd::pervasive::unreached()
            },
        }
    }
}

} // verus!
