//! A first-in-first-out (FIFO) keyed cache.
//!
//! [`FIFOMap`] has a fixed capacity, set at construction, and evicts the
//! oldest-inserted entry when a new key is inserted while the cache is
//! full. Insertion order alone decides eviction: neither lookups nor value
//! updates refresh an entry's position, which distinguishes this policy
//! from a least-recently-used cache.
//!
//! The cache pairs a hash index (key to value) with an order queue of the
//! live keys, oldest first. Removing an arbitrary key scans the queue for
//! its position, so `remove` costs time linear in the number of live keys.

use crate::index::{
    map_index_contains, map_index_get, map_index_insert, map_index_remove,
    map_index_with_capacity, map_index_view, MapIndex,
};
use crate::order::{lemma_order_drop_first, lemma_order_push, lemma_order_remove_at};
use vstd::prelude::*;

verus! {

/// The abstract state of a [`FIFOMap`]: which value each live key is mapped
/// to, the live keys in insertion order (oldest first), and the fixed
/// capacity.
#[verifier::ext_equal]
pub struct MapState {
    /// Value of each live key.
    pub contents: Map<u64, u64>,
    /// Live keys in insertion order, oldest first.
    pub order: Seq<u64>,
    /// Fixed capacity.
    pub cap: nat,
}

/// A well-formed cache state: the capacity is positive and never exceeded,
/// each live key is tracked exactly once, and the index and the order queue
/// agree on the set of live keys.
pub open spec fn map_state_wf(s: MapState) -> bool {
    &&& s.cap >= 1
    &&& s.order.len() <= s.cap
    &&& s.order.no_duplicates()
    &&& s.order.to_set() == s.contents.dom()
}

/// How `insert` acts on the abstract state: a present key has its value
/// replaced in place; a new key becomes the newest entry, after the oldest
/// entry is evicted if the cache is full.
pub open spec fn map_state_insert(s: MapState, key: u64, value: u64) -> MapState {
    if s.contents.contains_key(key) {
        MapState { contents: s.contents.insert(key, value), order: s.order, cap: s.cap }
    } else if s.order.len() < s.cap {
        MapState {
            contents: s.contents.insert(key, value),
            order: s.order.push(key),
            cap: s.cap,
        }
    } else {
        MapState {
            contents: s.contents.remove(s.order[0]).insert(key, value),
            order: s.order.drop_first().push(key),
            cap: s.cap,
        }
    }
}

/// How `remove` acts on the abstract state: a present key is taken out of
/// both structures without disturbing the other entries' relative order; an
/// absent key leaves the state untouched.
pub open spec fn map_state_remove(s: MapState, key: u64) -> MapState {
    if s.contents.contains_key(key) {
        MapState {
            contents: s.contents.remove(key),
            order: s.order.remove_value(key),
            cap: s.cap,
        }
    } else {
        s
    }
}

/// The abstract state of an empty cache with the given capacity.
pub open spec fn map_state_empty(cap: nat) -> MapState {
    MapState { contents: Map::<u64, u64>::empty(), order: Seq::<u64>::empty(), cap }
}

/// Applies `insert` once for each key-value pair of `ops`, front first.
pub open spec fn map_state_insert_all(s: MapState, ops: Seq<(u64, u64)>) -> MapState
    decreases ops.len(),
{
    if ops.len() == 0 {
        s
    } else {
        map_state_insert_all(map_state_insert(s, ops[0].0, ops[0].1), ops.drop_first())
    }
}

/// One cache operation: an insertion or a removal.
pub enum MapOp {
    /// Insert the key with the value.
    Insert(u64, u64),
    /// Remove the key.
    Remove(u64),
}

/// How one operation acts on the abstract state.
pub open spec fn map_state_step(s: MapState, op: MapOp) -> MapState {
    match op {
        MapOp::Insert(key, value) => map_state_insert(s, key, value),
        MapOp::Remove(key) => map_state_remove(s, key),
    }
}

/// Applies the operations in turn, front first.
pub open spec fn map_state_run(s: MapState, ops: Seq<MapOp>) -> MapState
    decreases ops.len(),
{
    if ops.len() == 0 {
        s
    } else {
        map_state_run(map_state_step(s, ops[0]), ops.drop_first())
    }
}

/// The empty cache state is well-formed.
pub proof fn lemma_map_empty_state_wf(cap: nat)
    requires
        cap >= 1,
    ensures
        map_state_wf(map_state_empty(cap)),
{
    assert(map_state_empty(cap).order.to_set() =~= map_state_empty(cap).contents.dom());
}

/// Law: every insertion preserves well-formedness of the cache state; in
/// particular the number of live keys never exceeds the capacity, and the
/// index and the order queue keep agreeing on the set of live keys.
pub proof fn lemma_map_insert_preserves_wf(s: MapState, key: u64, value: u64)
    requires
        map_state_wf(s),
    ensures
        map_state_wf(map_state_insert(s, key, value)),
{
    let t = map_state_insert(s, key, value);
    if s.contents.contains_key(key) {
        assert(s.order.to_set().contains(key));
        assert(t.contents.dom() =~= s.contents.dom());
    } else {
        assert(!s.order.to_set().contains(key));
        assert(!s.order.contains(key));
        if s.order.len() < s.cap {
            lemma_order_push(s.order, key);
            assert(t.contents.dom() =~= s.contents.dom().insert(key));
            assert(t.order.to_set() =~= t.contents.dom());
        } else {
            let oldest = s.order[0];
            lemma_order_drop_first(s.order);
            assert(!s.order.drop_first().contains(key)) by {
                assert(!s.order.drop_first().to_set().contains(key));
            }
            lemma_order_push(s.order.drop_first(), key);
            assert(t.contents.dom() =~= s.contents.dom().remove(oldest).insert(key));
            assert(t.order.to_set() =~= t.contents.dom());
        }
    }
}

/// Law: every removal preserves well-formedness of the cache state.
pub proof fn lemma_map_remove_preserves_wf(s: MapState, key: u64)
    requires
        map_state_wf(s),
    ensures
        map_state_wf(map_state_remove(s, key)),
{
    let t = map_state_remove(s, key);
    if s.contents.contains_key(key) {
        assert(s.order.to_set().contains(key));
        assert(s.order.contains(key));
        let i = choose|i: int| 0 <= i < s.order.len() && s.order[i] == key;
        lemma_order_remove_at(s.order, i);
        assert(t.order == s.order.remove(i));
        assert(t.contents.dom() =~= s.contents.dom().remove(key));
        assert(t.order.to_set() =~= t.contents.dom());
    }
}

/// Law: after any finite sequence of insertions and removals the cache
/// state stays well-formed: the number of live keys never exceeds the
/// capacity, and the key set of the index equals the key set reachable
/// through the order queue.
pub proof fn lemma_map_run_preserves_wf(s: MapState, ops: Seq<MapOp>)
    requires
        map_state_wf(s),
    ensures
        map_state_wf(map_state_run(s, ops)),
    decreases ops.len(),
{
    if ops.len() > 0 {
        match ops[0] {
            MapOp::Insert(key, value) => lemma_map_insert_preserves_wf(s, key, value),
            MapOp::Remove(key) => lemma_map_remove_preserves_wf(s, key),
        }
        lemma_map_run_preserves_wf(map_state_step(s, ops[0]), ops.drop_first());
    }
}

/// Inserting each pair of a sequence in turn is the same as inserting all
/// but the last pair, then the last one.
pub proof fn lemma_map_insert_all_snoc(s: MapState, ops: Seq<(u64, u64)>, op: (u64, u64))
    ensures
        map_state_insert_all(s, ops.push(op)) == map_state_insert(
            map_state_insert_all(s, ops),
            op.0,
            op.1,
        ),
    decreases ops.len(),
{
    if ops.len() == 0 {
        let rest = ops.push(op).drop_first();
        assert(ops.push(op)[0] == op);
        assert(rest =~= Seq::<(u64, u64)>::empty());
        assert(map_state_insert_all(s, ops) == s);
        assert(map_state_insert_all(map_state_insert(s, op.0, op.1), rest) == map_state_insert(
            s,
            op.0,
            op.1,
        ));
    } else {
        let s1 = map_state_insert(s, ops[0].0, ops[0].1);
        assert(ops.push(op)[0] == ops[0]);
        assert(ops.push(op).drop_first() =~= ops.drop_first().push(op));
        lemma_map_insert_all_snoc(s1, ops.drop_first(), op);
        assert(map_state_insert_all(s, ops.push(op)) == map_state_insert_all(
            s1,
            ops.drop_first().push(op),
        ));
        assert(map_state_insert_all(s, ops) == map_state_insert_all(s1, ops.drop_first()));
    }
}

/// Law: inserting distinct fresh keys while there is room for all of them
/// evicts nothing: the new keys are appended to the order queue in
/// insertion order, the entries already present keep their values, and
/// every inserted key is mapped to its value.
pub proof fn lemma_map_insert_all_no_evict(s: MapState, ops: Seq<(u64, u64)>)
    requires
        map_state_wf(s),
        s.order.len() + ops.len() <= s.cap,
        forall|i: int, j: int|
            0 <= i < j < ops.len() ==> (#[trigger] ops[i]).0 != (#[trigger] ops[j]).0,
        forall|i: int| 0 <= i < ops.len() ==> !s.contents.contains_key((#[trigger] ops[i]).0),
    ensures
        map_state_wf(map_state_insert_all(s, ops)),
        map_state_insert_all(s, ops).cap == s.cap,
        map_state_insert_all(s, ops).order == s.order + ops.map_values(|p: (u64, u64)| p.0),
        forall|k: u64|
            #[trigger] s.contents.contains_key(k) ==> map_state_insert_all(
                s,
                ops,
            ).contents.contains_key(k) && map_state_insert_all(s, ops).contents[k]
                == s.contents[k],
        forall|i: int|
            0 <= i < ops.len() ==> map_state_insert_all(s, ops).contents.contains_key(
                (#[trigger] ops[i]).0,
            ) && map_state_insert_all(s, ops).contents[ops[i].0] == ops[i].1,
    decreases ops.len(),
{
    let t = map_state_insert_all(s, ops);
    let keys_of = |p: (u64, u64)| p.0;
    if ops.len() == 0 {
        assert(t.order =~= s.order + ops.map_values(keys_of));
    } else {
        let k0 = ops[0].0;
        let v0 = ops[0].1;
        let s1 = map_state_insert(s, k0, v0);
        lemma_map_insert_preserves_wf(s, k0, v0);
        assert(s.order.len() < s.cap);
        assert(s1.order == s.order.push(k0));
        assert(s1.contents == s.contents.insert(k0, v0));
        let rest = ops.drop_first();
        assert forall|i: int, j: int|
            0 <= i < j < rest.len() implies (#[trigger] rest[i]).0 != (#[trigger] rest[j]).0 by {
            assert(rest[i] == ops[i + 1]);
            assert(rest[j] == ops[j + 1]);
        }
        assert forall|i: int|
            0 <= i < rest.len() implies !s1.contents.contains_key((#[trigger] rest[i]).0) by {
            assert(rest[i] == ops[i + 1]);
            assert(ops[i + 1].0 != k0);
        }
        lemma_map_insert_all_no_evict(s1, rest);
        assert(t == map_state_insert_all(s1, rest));
        assert forall|k: u64|
            #[trigger] s.contents.contains_key(k) implies t.contents.contains_key(k)
            && t.contents[k] == s.contents[k] by {
            assert(k != k0);
            assert(s1.contents.contains_key(k) && s1.contents[k] == s.contents[k]);
        }
        assert forall|i: int|
            0 <= i < ops.len() implies t.contents.contains_key((#[trigger] ops[i]).0)
            && t.contents[ops[i].0] == ops[i].1 by {
            if i == 0 {
                assert(s1.contents.contains_key(k0) && s1.contents[k0] == v0);
            } else {
                assert(rest[i - 1] == ops[i]);
            }
        }
        assert(t.order =~= s.order + ops.map_values(keys_of)) by {
            assert(t.order == s1.order + rest.map_values(keys_of));
            assert forall|i: int| 0 <= i < ops.len() implies ops.map_values(keys_of)[i] == (
            #[trigger] ops[i]).0 by {}
            assert forall|i: int| 0 <= i < rest.len() implies rest.map_values(keys_of)[i] == (
            #[trigger] rest[i]).0 by {}
        }
    }
}

/// Law: after at most `capacity` insertions of distinct keys into an empty
/// cache, every inserted key is retrievable with its value.
pub proof fn lemma_map_fill_within_capacity(cap: nat, ops: Seq<(u64, u64)>)
    requires
        cap >= 1,
        ops.len() <= cap,
        forall|i: int, j: int|
            0 <= i < j < ops.len() ==> (#[trigger] ops[i]).0 != (#[trigger] ops[j]).0,
    ensures
        map_state_wf(map_state_insert_all(map_state_empty(cap), ops)),
        map_state_insert_all(map_state_empty(cap), ops).order == ops.map_values(
            |p: (u64, u64)| p.0,
        ),
        forall|i: int|
            0 <= i < ops.len() ==> map_state_insert_all(map_state_empty(cap), ops).contents.contains_key(
                (#[trigger] ops[i]).0,
            ) && map_state_insert_all(map_state_empty(cap), ops).contents[ops[i].0] == ops[i].1,
{
    lemma_map_empty_state_wf(cap);
    lemma_map_insert_all_no_evict(map_state_empty(cap), ops);
    assert(map_state_insert_all(map_state_empty(cap), ops).order =~= ops.map_values(
        |p: (u64, u64)| p.0,
    ));
}

/// Law: inserting `capacity + 1` distinct keys into an empty cache evicts
/// exactly the first-inserted key; the remaining keys stay live with their
/// values, in their original relative order.
pub proof fn lemma_map_overfill_evicts_oldest(cap: nat, ops: Seq<(u64, u64)>)
    requires
        cap >= 1,
        ops.len() == cap + 1,
        forall|i: int, j: int|
            0 <= i < j < ops.len() ==> (#[trigger] ops[i]).0 != (#[trigger] ops[j]).0,
    ensures
        map_state_wf(map_state_insert_all(map_state_empty(cap), ops)),
        map_state_insert_all(map_state_empty(cap), ops).order == ops.map_values(
            |p: (u64, u64)| p.0,
        ).drop_first(),
        !map_state_insert_all(map_state_empty(cap), ops).contents.contains_key(ops[0].0),
        forall|i: int|
            1 <= i < ops.len() ==> map_state_insert_all(map_state_empty(cap), ops).contents.contains_key(
                (#[trigger] ops[i]).0,
            ) && map_state_insert_all(map_state_empty(cap), ops).contents[ops[i].0] == ops[i].1,
{
    let keys_of = |p: (u64, u64)| p.0;
    let s = map_state_empty(cap);
    let front = ops.drop_last();
    let last = ops.last();
    let t1 = map_state_insert_all(s, front);
    lemma_map_empty_state_wf(cap);
    assert forall|i: int, j: int|
        0 <= i < j < front.len() implies (#[trigger] front[i]).0 != (#[trigger] front[j]).0 by {
        assert(front[i] == ops[i]);
        assert(front[j] == ops[j]);
    }
    lemma_map_insert_all_no_evict(s, front);
    assert(t1.order =~= front.map_values(keys_of));
    assert(t1.order.len() == cap);
    assert(ops =~= front.push(last));
    lemma_map_insert_all_snoc(s, front, last);
    let t = map_state_insert_all(s, ops);
    assert(t == map_state_insert(t1, last.0, last.1));
    assert(!t1.contents.contains_key(last.0)) by {
        if t1.contents.contains_key(last.0) {
            assert(t1.order.to_set().contains(last.0));
            let j = choose|j: int| 0 <= j < t1.order.len() && t1.order[j] == last.0;
            assert(t1.order[j] == (#[trigger] front[j]).0);
            assert(ops[j].0 != ops[cap as int].0);
        }
    }
    assert(t.order == t1.order.drop_first().push(last.0));
    assert(t.order =~= ops.map_values(keys_of).drop_first()) by {
        assert forall|i: int| 0 <= i < ops.len() implies ops.map_values(keys_of)[i] == (
        #[trigger] ops[i]).0 by {}
        assert forall|i: int| 0 <= i < front.len() implies front.map_values(keys_of)[i] == (
        #[trigger] front[i]).0 by {}
    }
    lemma_map_insert_preserves_wf(t1, last.0, last.1);
    let oldest = t1.order[0];
    assert(oldest == ops[0].0);
    assert(t.contents == t1.contents.remove(oldest).insert(last.0, last.1));
    assert(ops[0].0 != last.0);
    assert forall|i: int|
        1 <= i < ops.len() implies t.contents.contains_key((#[trigger] ops[i]).0)
        && t.contents[ops[i].0] == ops[i].1 by {
        if i < cap {
            assert(front[i] == ops[i]);
            assert(t1.contents.contains_key(ops[i].0) && t1.contents[ops[i].0] == ops[i].1);
            assert(ops[0].0 != ops[i].0);
            if ops[i].0 == last.0 {
                assert(ops[i].0 != ops[cap as int].0);
            }
        }
    }
}

/// Law: re-inserting a key that is already present replaces its value and
/// leaves its eviction position untouched — the key is not refreshed to
/// newest, and nothing is evicted.
pub proof fn lemma_map_reinsert_keeps_position(s: MapState, key: u64, value: u64)
    requires
        s.contents.contains_key(key),
    ensures
        map_state_insert(s, key, value).order == s.order,
        map_state_insert(s, key, value).contents == s.contents.insert(key, value),
        map_state_insert(s, key, value).cap == s.cap,
{
}

/// Law: removing a key and immediately inserting it again always succeeds
/// and treats the key as brand-new: afterwards it is the newest entry,
/// mapped to the new value, and occurs nowhere else in the order queue.
pub proof fn lemma_map_remove_then_insert_resets(s: MapState, key: u64, value: u64)
    requires
        map_state_wf(s),
    ensures
        ({
            let t = map_state_insert(map_state_remove(s, key), key, value);
            &&& t.order.len() >= 1
            &&& t.order.last() == key
            &&& !t.order.drop_last().contains(key)
            &&& t.contents.contains_key(key)
            &&& t.contents[key] == value
        }),
{
    let s1 = map_state_remove(s, key);
    lemma_map_remove_preserves_wf(s, key);
    assert(!s1.contents.contains_key(key));
    assert(!s1.order.contains(key)) by {
        if s1.order.contains(key) {
            assert(s1.order.to_set().contains(key));
        }
    }
    let t = map_state_insert(s1, key, value);
    if s1.order.len() < s1.cap {
        assert(t.order == s1.order.push(key));
        assert(t.order.drop_last() =~= s1.order);
    } else {
        assert(t.order == s1.order.drop_first().push(key));
        assert(t.order.drop_last() =~= s1.order.drop_first());
        assert(!s1.order.drop_first().contains(key)) by {
            if s1.order.drop_first().contains(key) {
                let j = choose|j: int|
                    0 <= j < s1.order.drop_first().len() && s1.order.drop_first()[j] == key;
                assert(s1.order[j + 1] == key);
            }
        }
    }
}

/// A first-in-first-out keyed cache with fixed capacity.
///
/// Once `capacity` entries are live, inserting a new key evicts the
/// oldest-inserted entry. Inserting a key that is already present only
/// replaces its value; its eviction position is unchanged.
#[derive(Debug)]
pub struct FIFOMap {
    index: MapIndex,
    order: Vec<u64>,
    cap: usize,
}

impl View for FIFOMap {
    type V = MapState;

    closed spec fn view(&self) -> MapState {
        MapState {
            contents: map_index_view(self.index),
            order: self.order@,
            cap: self.cap as nat,
        }
    }
}

impl FIFOMap {
    /// The cache's invariant, established by `with_capacity` and preserved
    /// by every operation.
    pub open spec fn wf(&self) -> bool {
        map_state_wf(self@)
    }

    /// Creates an empty cache that holds at most `capacity` entries.
    /// The capacity must be positive.
    pub fn with_capacity(capacity: usize) -> (r: Self)
        requires
            capacity >= 1,
        ensures
            r.wf(),
            r@ == map_state_empty(capacity as nat),
    {
        let r = FIFOMap {
            index: map_index_with_capacity(capacity),
            order: Vec::new(),
            cap: capacity,
        };
        proof {
            assert(r@.contents =~= Map::<u64, u64>::empty());
            assert(r@.order.to_set() =~= r@.contents.dom());
            assert(r@ =~= map_state_empty(capacity as nat));
        }
        r
    }

    /// Returns the number of entries currently in the cache.
    pub fn len(&self) -> (r: usize)
        ensures
            r == self@.order.len(),
    {
        self.order.len()
    }

    /// Returns `true` if the cache holds no entry.
    pub fn is_empty(&self) -> (r: bool)
        ensures
            r == (self@.order.len() == 0),
    {
        self.order.len() == 0
    }

    /// Returns the fixed capacity of the cache.
    pub fn capacity(&self) -> (r: usize)
        ensures
            r == self@.cap,
    {
        self.cap
    }

    /// Returns a reference to the value the key is mapped to, or `None` if
    /// the key is not in the cache. The lookup does not change the cache,
    /// nor the key's eviction position.
    pub fn get(&self, key: u64) -> (r: Option<&u64>)
        ensures
            r == (if self@.contents.contains_key(key) {
                Some(&self@.contents[key])
            } else {
                None::<&u64>
            }),
    {
        map_index_get(&self.index, key)
    }

    /// Tells whether the key is in the cache, without changing anything.
    pub fn contains_key(&self, key: u64) -> (r: bool)
        ensures
            r == self@.contents.contains_key(key),
    {
        map_index_contains(&self.index, key)
    }

    /// Evicts the oldest entry. Does nothing if the cache is empty.
    fn remove_first(&mut self)
        requires
            old(self).wf(),
        ensures
            final(self).wf(),
            old(self)@.order.len() == 0 ==> final(self)@ == old(self)@,
            old(self)@.order.len() > 0 ==> final(self)@ == (MapState {
                contents: old(self)@.contents.remove(old(self)@.order[0]),
                order: old(self)@.order.drop_first(),
                cap: old(self)@.cap,
            }),
    {
        let ghost s0 = *self;
        if self.order.len() > 0 {
            let oldest: u64 = self.order[0];
            map_index_remove(&mut self.index, oldest);
            self.order.remove(0);
            proof {
                lemma_order_drop_first(s0@.order);
                assert(self.order@ =~= s0@.order.drop_first());
                assert(self@.order.to_set() =~= self@.contents.dom());
            }
        }
    }

    /// Inserts a key-value pair into the cache.
    /// - If the key is already present, its value is replaced; the key's
    ///   eviction position does not change and nothing is evicted.
    /// - Otherwise the key becomes the newest entry, and if the cache was
    ///   full the oldest entry is evicted first.
    pub fn insert(&mut self, key: u64, value: u64)
        requires
            old(self).wf(),
        ensures
            final(self).wf(),
            final(self)@ == map_state_insert(old(self)@, key, value),
    {
        let ghost s0 = *self;
        if map_index_contains(&self.index, key) {
            map_index_insert(&mut self.index, key, value);
            proof {
                assert(self@ =~= map_state_insert(s0@, key, value));
                lemma_map_insert_preserves_wf(s0@, key, value);
            }
        } else {
            if self.order.len() == self.cap {
                self.remove_first();
            }
            map_index_insert(&mut self.index, key, value);
            self.order.push(key);
            proof {
                assert(self@ =~= map_state_insert(s0@, key, value));
                lemma_map_insert_preserves_wf(s0@, key, value);
            }
        }
    }

    /// Removes the entry of the given key, wherever it sits in the
    /// eviction order, and returns its value; returns `None` and changes
    /// nothing if the key is not in the cache.
    ///
    /// Finding the key's position in the order queue scans it, so this
    /// costs time linear in the number of live keys.
    pub fn remove(&mut self, key: u64) -> (r: Option<u64>)
        requires
            old(self).wf(),
        ensures
            final(self).wf(),
            final(self)@ == map_state_remove(old(self)@, key),
            r == (if old(self)@.contents.contains_key(key) {
                Some(old(self)@.contents[key])
            } else {
                None::<u64>
            }),
    {
        let ghost s0 = *self;
        let r = map_index_remove(&mut self.index, key);
        if r.is_none() {
            proof {
                assert(self@.contents =~= s0@.contents);
                assert(self@ =~= s0@);
            }
            return r;
        }
        let mut i: usize = 0;
        while i < self.order.len() && self.order[i] != key
            invariant
                i <= self.order@.len(),
                forall|j: int| 0 <= j < i ==> self.order@[j] != key,
                self.order@ == s0@.order,
                self@.cap == s0@.cap,
                self@.contents == s0@.contents.remove(key),
                map_state_wf(s0@),
                s0@.contents.contains_key(key),
            decreases self.order@.len() - i,
        {
            i = i + 1;
        }
        proof {
            if i == self.order@.len() {
                assert(s0@.order.to_set().contains(key));
                let j = choose|j: int| 0 <= j < s0@.order.len() && s0@.order[j] == key;
                assert(self.order@[j] != key);
                assert(false);
            }
        }
        self.order.remove(i);
        proof {
            assert(s0@.order[i as int] == key);
            lemma_order_remove_at(s0@.order, i as int);
            assert(self@ =~= map_state_remove(s0@, key));
            lemma_map_remove_preserves_wf(s0@, key);
        }
        r
    }

    /// Returns the live keys, oldest first.
    pub fn keys(&self) -> (r: Vec<u64>)
        ensures
            r@ == self@.order,
    {
        let mut r: Vec<u64> = Vec::new();
        let mut i: usize = 0;
        while i < self.order.len()
            invariant
                i <= self.order@.len(),
                r@ == self.order@.take(i as int),
            decreases self.order@.len() - i,
        {
            r.push(self.order[i]);
            proof {
                assert(r@ =~= self.order@.take(i + 1));
            }
            i = i + 1;
        }
        proof {
            assert(self.order@.take(self.order@.len() as int) =~= self.order@);
        }
        r
    }

    /// Returns the value of each live key, oldest key first.
    pub fn values(&self) -> (r: Vec<u64>)
        requires
            self.wf(),
        ensures
            r@.len() == self@.order.len(),
            forall|i: int| 0 <= i < r@.len() ==> r@[i] == self@.contents[self@.order[i]],
    {
        let mut r: Vec<u64> = Vec::new();
        let mut i: usize = 0;
        while i < self.order.len()
            invariant
                self.wf(),
                i <= self.order@.len(),
                r@.len() == i,
                forall|j: int| 0 <= j < i ==> r@[j] == self@.contents[self@.order[j]],
            decreases self.order@.len() - i,
        {
            let key: u64 = self.order[i];
            proof {
                assert(self@.order.to_set().contains(key));
            }
            let value: u64 = match map_index_get(&self.index, key) {
                Some(v) => *v,
                None => unreached(),
            };
            r.push(value);
            i = i + 1;
        }
        r
    }

    /// Returns the live key-value pairs, oldest key first.
    pub fn iter(&self) -> (r: Vec<(u64, u64)>)
        requires
            self.wf(),
        ensures
            r@.len() == self@.order.len(),
            forall|i: int|
                0 <= i < r@.len() ==> r@[i] == (self@.order[i], self@.contents[self@.order[i]]),
    {
        let mut r: Vec<(u64, u64)> = Vec::new();
        let mut i: usize = 0;
        while i < self.order.len()
            invariant
                self.wf(),
                i <= self.order@.len(),
                r@.len() == i,
                forall|j: int|
                    0 <= j < i ==> r@[j] == (self@.order[j], self@.contents[self@.order[j]]),
            decreases self.order@.len() - i,
        {
            let key: u64 = self.order[i];
            proof {
                assert(self@.order.to_set().contains(key));
            }
            let value: u64 = match map_index_get(&self.index, key) {
                Some(v) => *v,
                None => unreached(),
            };
            r.push((key, value));
            i = i + 1;
        }
        r
    }
}

} // verus!
