//! A first-in-first-out (FIFO) key-only cache.
//!
//! [`FIFOSet`] has a fixed capacity, set at construction, and evicts the
//! oldest-inserted key when a new key is inserted while the cache is full.
//! Inserting a key that is already present does nothing: the key keeps its
//! eviction position and nothing is evicted.
//!
//! The cache pairs a hash index of the keys with an order queue of the same
//! keys, oldest first. The index stores no position handle, so removing an
//! arbitrary key scans the queue for its position: `remove` costs time
//! linear in the number of live keys.

use crate::index::{
    set_index_contains, set_index_insert, set_index_remove, set_index_with_capacity,
    set_index_view, SetIndex,
};
use crate::order::{lemma_order_drop_first, lemma_order_push, lemma_order_remove_at};
use vstd::prelude::*;

verus! {

/// The abstract state of a [`FIFOSet`]: the set of live keys, the same
/// keys in insertion order (oldest first), and the fixed capacity.
#[verifier::ext_equal]
pub struct SetState {
    /// The live keys.
    pub elems: Set<u64>,
    /// Live keys in insertion order, oldest first.
    pub order: Seq<u64>,
    /// Fixed capacity.
    pub cap: nat,
}

/// A well-formed cache state: the capacity is positive and never exceeded,
/// each live key is tracked exactly once, and the index and the order queue
/// agree on the set of live keys.
pub open spec fn set_state_wf(s: SetState) -> bool {
    &&& s.cap >= 1
    &&& s.order.len() <= s.cap
    &&& s.order.no_duplicates()
    &&& s.order.to_set() == s.elems
}

/// How `insert` acts on the abstract state: a present key is left exactly
/// where it is; a new key becomes the newest entry, after the oldest key is
/// evicted if the cache is full.
pub open spec fn set_state_insert(s: SetState, key: u64) -> SetState {
    if s.elems.contains(key) {
        s
    } else if s.order.len() < s.cap {
        SetState { elems: s.elems.insert(key), order: s.order.push(key), cap: s.cap }
    } else {
        SetState {
            elems: s.elems.remove(s.order[0]).insert(key),
            order: s.order.drop_first().push(key),
            cap: s.cap,
        }
    }
}

/// How `remove` acts on the abstract state: a present key is taken out of
/// both structures without disturbing the other keys' relative order; an
/// absent key leaves the state untouched.
pub open spec fn set_state_remove(s: SetState, key: u64) -> SetState {
    if s.elems.contains(key) {
        SetState { elems: s.elems.remove(key), order: s.order.remove_value(key), cap: s.cap }
    } else {
        s
    }
}

/// The abstract state of an empty cache with the given capacity.
pub open spec fn set_state_empty(cap: nat) -> SetState {
    SetState { elems: Set::<u64>::empty(), order: Seq::<u64>::empty(), cap }
}

/// One cache operation: an insertion or a removal.
pub enum SetOp {
    /// Insert the key.
    Insert(u64),
    /// Remove the key.
    Remove(u64),
}

/// How one operation acts on the abstract state.
pub open spec fn set_state_step(s: SetState, op: SetOp) -> SetState {
    match op {
        SetOp::Insert(key) => set_state_insert(s, key),
        SetOp::Remove(key) => set_state_remove(s, key),
    }
}

/// Applies the operations in turn, front first.
pub open spec fn set_state_run(s: SetState, ops: Seq<SetOp>) -> SetState
    decreases ops.len(),
{
    if ops.len() == 0 {
        s
    } else {
        set_state_run(set_state_step(s, ops[0]), ops.drop_first())
    }
}

/// The empty cache state is well-formed.
pub proof fn lemma_set_empty_state_wf(cap: nat)
    requires
        cap >= 1,
    ensures
        set_state_wf(set_state_empty(cap)),
{
    assert(set_state_empty(cap).order.to_set() =~= set_state_empty(cap).elems);
}

/// Law: every insertion preserves well-formedness of the cache state; in
/// particular the number of live keys never exceeds the capacity, and the
/// index and the order queue keep agreeing on the set of live keys.
pub proof fn lemma_set_insert_preserves_wf(s: SetState, key: u64)
    requires
        set_state_wf(s),
    ensures
        set_state_wf(set_state_insert(s, key)),
{
    let t = set_state_insert(s, key);
    if !s.elems.contains(key) {
        assert(!s.order.to_set().contains(key));
        assert(!s.order.contains(key));
        if s.order.len() < s.cap {
            lemma_order_push(s.order, key);
            assert(t.order.to_set() =~= t.elems);
        } else {
            lemma_order_drop_first(s.order);
            assert(!s.order.drop_first().contains(key)) by {
                assert(!s.order.drop_first().to_set().contains(key));
            }
            lemma_order_push(s.order.drop_first(), key);
            assert(t.order.to_set() =~= t.elems);
        }
    }
}

/// Law: every removal preserves well-formedness of the cache state.
pub proof fn lemma_set_remove_preserves_wf(s: SetState, key: u64)
    requires
        set_state_wf(s),
    ensures
        set_state_wf(set_state_remove(s, key)),
{
    let t = set_state_remove(s, key);
    if s.elems.contains(key) {
        assert(s.order.to_set().contains(key));
        assert(s.order.contains(key));
        let i = choose|i: int| 0 <= i < s.order.len() && s.order[i] == key;
        lemma_order_remove_at(s.order, i);
        assert(t.order == s.order.remove(i));
        assert(t.order.to_set() =~= t.elems);
    }
}

/// Law: after any finite sequence of insertions and removals the cache
/// state stays well-formed: the number of live keys never exceeds the
/// capacity, and the key set of the index equals the key set reachable
/// through the order queue.
pub proof fn lemma_set_run_preserves_wf(s: SetState, ops: Seq<SetOp>)
    requires
        set_state_wf(s),
    ensures
        set_state_wf(set_state_run(s, ops)),
    decreases ops.len(),
{
    if ops.len() > 0 {
        match ops[0] {
            SetOp::Insert(key) => lemma_set_insert_preserves_wf(s, key),
            SetOp::Remove(key) => lemma_set_remove_preserves_wf(s, key),
        }
        lemma_set_run_preserves_wf(set_state_step(s, ops[0]), ops.drop_first());
    }
}

/// Applies `insert` once for each key of `keys`, front first.
pub open spec fn set_state_insert_all(s: SetState, keys: Seq<u64>) -> SetState
    decreases keys.len(),
{
    if keys.len() == 0 {
        s
    } else {
        set_state_insert_all(set_state_insert(s, keys[0]), keys.drop_first())
    }
}

/// Inserting each key of a sequence in turn is the same as inserting all
/// but the last key, then the last one.
pub proof fn lemma_set_insert_all_snoc(s: SetState, keys: Seq<u64>, key: u64)
    ensures
        set_state_insert_all(s, keys.push(key)) == set_state_insert(
            set_state_insert_all(s, keys),
            key,
        ),
    decreases keys.len(),
{
    if keys.len() == 0 {
        let rest = keys.push(key).drop_first();
        assert(keys.push(key)[0] == key);
        assert(rest =~= Seq::<u64>::empty());
        assert(set_state_insert_all(s, keys) == s);
        assert(set_state_insert_all(set_state_insert(s, key), rest) == set_state_insert(s, key));
    } else {
        let s1 = set_state_insert(s, keys[0]);
        assert(keys.push(key)[0] == keys[0]);
        assert(keys.push(key).drop_first() =~= keys.drop_first().push(key));
        lemma_set_insert_all_snoc(s1, keys.drop_first(), key);
        assert(set_state_insert_all(s, keys.push(key)) == set_state_insert_all(
            s1,
            keys.drop_first().push(key),
        ));
        assert(set_state_insert_all(s, keys) == set_state_insert_all(s1, keys.drop_first()));
    }
}

/// Law: inserting distinct fresh keys while there is room for all of them
/// evicts nothing: the new keys are appended to the order queue in
/// insertion order and every key present before stays present.
pub proof fn lemma_set_insert_all_no_evict(s: SetState, keys: Seq<u64>)
    requires
        set_state_wf(s),
        s.order.len() + keys.len() <= s.cap,
        keys.no_duplicates(),
        forall|i: int| 0 <= i < keys.len() ==> !s.elems.contains(#[trigger] keys[i]),
    ensures
        set_state_wf(set_state_insert_all(s, keys)),
        set_state_insert_all(s, keys).cap == s.cap,
        set_state_insert_all(s, keys).order == s.order + keys,
    decreases keys.len(),
{
    let t = set_state_insert_all(s, keys);
    if keys.len() == 0 {
        assert(t.order =~= s.order + keys);
    } else {
        let k0 = keys[0];
        let s1 = set_state_insert(s, k0);
        lemma_set_insert_preserves_wf(s, k0);
        assert(s.order.len() < s.cap);
        assert(s1.order == s.order.push(k0));
        assert(s1.elems =~= s.elems.insert(k0));
        let rest = keys.drop_first();
        assert(rest.no_duplicates()) by {
            assert forall|i: int, j: int|
                0 <= i < rest.len() && 0 <= j < rest.len() && i != j implies rest[i] != rest[j] by {
                assert(rest[i] == keys[i + 1]);
                assert(rest[j] == keys[j + 1]);
            }
        }
        assert forall|i: int| 0 <= i < rest.len() implies !s1.elems.contains(
            #[trigger] rest[i],
        ) by {
            assert(rest[i] == keys[i + 1]);
            assert(keys[i + 1] != k0);
        }
        lemma_set_insert_all_no_evict(s1, rest);
        assert(t.order =~= s.order + keys) by {
            assert(t.order == s1.order + rest);
        }
    }
}

/// Law: after at most `capacity` insertions of distinct keys into an empty
/// cache, every inserted key is still in the cache, in insertion order.
pub proof fn lemma_set_fill_within_capacity(cap: nat, keys: Seq<u64>)
    requires
        cap >= 1,
        keys.len() <= cap,
        keys.no_duplicates(),
    ensures
        set_state_wf(set_state_insert_all(set_state_empty(cap), keys)),
        set_state_insert_all(set_state_empty(cap), keys).order == keys,
        forall|i: int|
            0 <= i < keys.len() ==> set_state_insert_all(set_state_empty(cap), keys).elems.contains(
                #[trigger] keys[i],
            ),
{
    lemma_set_empty_state_wf(cap);
    lemma_set_insert_all_no_evict(set_state_empty(cap), keys);
    let t = set_state_insert_all(set_state_empty(cap), keys);
    assert(t.order =~= Seq::<u64>::empty() + keys);
    assert(t.order =~= keys);
    assert forall|i: int| 0 <= i < keys.len() implies t.elems.contains(#[trigger] keys[i]) by {
        assert(t.order.to_set().contains(keys[i]));
    }
}

/// Law: inserting `capacity + 1` distinct keys into an empty cache evicts
/// exactly the first-inserted key; the remaining keys stay live, in their
/// original relative order.
pub proof fn lemma_set_overfill_evicts_oldest(cap: nat, keys: Seq<u64>)
    requires
        cap >= 1,
        keys.len() == cap + 1,
        keys.no_duplicates(),
    ensures
        set_state_wf(set_state_insert_all(set_state_empty(cap), keys)),
        set_state_insert_all(set_state_empty(cap), keys).order == keys.drop_first(),
        !set_state_insert_all(set_state_empty(cap), keys).elems.contains(keys[0]),
        forall|i: int|
            1 <= i < keys.len() ==> set_state_insert_all(set_state_empty(cap), keys).elems.contains(
                #[trigger] keys[i],
            ),
{
    let s = set_state_empty(cap);
    let front = keys.drop_last();
    let last = keys.last();
    lemma_set_empty_state_wf(cap);
    assert(front.no_duplicates()) by {
        assert forall|i: int, j: int|
            0 <= i < front.len() && 0 <= j < front.len() && i != j implies front[i] != front[j] by {
            assert(front[i] == keys[i]);
            assert(front[j] == keys[j]);
        }
    }
    lemma_set_insert_all_no_evict(s, front);
    let t1 = set_state_insert_all(s, front);
    assert(t1.order =~= front);
    assert(t1.order.len() == cap);
    assert(keys =~= front.push(last));
    lemma_set_insert_all_snoc(s, front, last);
    let t = set_state_insert_all(s, keys);
    assert(t == set_state_insert(t1, last));
    lemma_set_insert_preserves_wf(t1, last);
    assert(!t1.elems.contains(last)) by {
        if t1.elems.contains(last) {
            assert(t1.order.to_set().contains(last));
            let j = choose|j: int| 0 <= j < t1.order.len() && t1.order[j] == last;
            assert(keys[j] == last);
            assert(keys[j] != keys[cap as int]);
        }
    }
    assert(t.order == t1.order.drop_first().push(last));
    assert(t.order =~= keys.drop_first());
    let oldest = t1.order[0];
    assert(oldest == keys[0]);
    assert(t.elems =~= t1.elems.remove(oldest).insert(last));
    assert(keys[0] != last) by {
        assert(keys[0] != keys[cap as int]);
    }
    assert forall|i: int| 1 <= i < keys.len() implies t.elems.contains(#[trigger] keys[i]) by {
        if i < cap {
            assert(t1.order.to_set().contains(front[i]));
            assert(t1.elems.contains(keys[i]));
            assert(keys[i] != keys[0]);
        }
    }
}

/// Law: removing a key and immediately inserting it again always succeeds
/// and treats the key as brand-new: afterwards it is the newest entry and
/// occurs nowhere else in the order queue.
pub proof fn lemma_set_remove_then_insert_resets(s: SetState, key: u64)
    requires
        set_state_wf(s),
    ensures
        ({
            let t = set_state_insert(set_state_remove(s, key), key);
            &&& t.order.len() >= 1
            &&& t.order.last() == key
            &&& !t.order.drop_last().contains(key)
            &&& t.elems.contains(key)
        }),
{
    let s1 = set_state_remove(s, key);
    lemma_set_remove_preserves_wf(s, key);
    assert(!s1.elems.contains(key));
    assert(!s1.order.contains(key)) by {
        if s1.order.contains(key) {
            assert(s1.order.to_set().contains(key));
        }
    }
    let t = set_state_insert(s1, key);
    if s1.order.len() < s1.cap {
        assert(t.order == s1.order.push(key));
        assert(t.order.drop_last() =~= s1.order);
    } else {
        assert(t.order == s1.order.drop_first().push(key));
        assert(t.order.drop_last() =~= s1.order.drop_first());
        assert(!s1.order.drop_first().contains(key)) by {
            if s1.order.drop_first().contains(key) {
                let j = choose|j: int|
                    0 <= j < s1.order.drop_first().len() && s1.order.drop_first()[j] == key;
                assert(s1.order[j + 1] == key);
            }
        }
    }
}

/// A first-in-first-out key-only cache with fixed capacity.
///
/// Once `capacity` keys are live, inserting a new key evicts the
/// oldest-inserted key. Inserting a key that is already present does
/// nothing: it is not refreshed to newest.
#[derive(Debug)]
pub struct FIFOSet {
    index: SetIndex,
    order: Vec<u64>,
    cap: usize,
}

impl View for FIFOSet {
    type V = SetState;

    closed spec fn view(&self) -> SetState {
        SetState { elems: set_index_view(self.index), order: self.order@, cap: self.cap as nat }
    }
}

impl FIFOSet {
    /// The cache's invariant, established by `with_capacity` and preserved
    /// by every operation.
    pub open spec fn wf(&self) -> bool {
        set_state_wf(self@)
    }

    /// Creates an empty cache that holds at most `capacity` keys.
    /// The capacity must be positive.
    pub fn with_capacity(capacity: usize) -> (r: Self)
        requires
            capacity >= 1,
        ensures
            r.wf(),
            r@ == set_state_empty(capacity as nat),
    {
        let r = FIFOSet {
            index: set_index_with_capacity(capacity),
            order: Vec::new(),
            cap: capacity,
        };
        proof {
            assert(r@.elems =~= Set::<u64>::empty());
            assert(r@.order.to_set() =~= r@.elems);
            assert(r@ =~= set_state_empty(capacity as nat));
        }
        r
    }

    /// Returns the number of keys currently in the cache.
    pub fn len(&self) -> (r: usize)
        ensures
            r == self@.order.len(),
    {
        self.order.len()
    }

    /// Returns `true` if the cache holds no key.
    pub fn is_empty(&self) -> (r: bool)
        ensures
            r == (self@.order.len() == 0),
    {
        self.order.len() == 0
    }

    /// Returns the fixed capacity of the cache.
    pub fn capacity(&self) -> (r: usize)
        ensures
            r == self@.cap,
    {
        self.cap
    }

    /// Tells whether the key is in the cache, without changing anything.
    pub fn contains(&self, key: u64) -> (r: bool)
        ensures
            r == self@.elems.contains(key),
    {
        set_index_contains(&self.index, key)
    }

    /// Returns the live keys, oldest first.
    pub fn iter(&self) -> (r: Vec<u64>)
        ensures
            r@ == self@.order,
    {
        let mut r: Vec<u64> = Vec::new();
        let mut i: usize = 0;
        while i < self.order.len()
            invariant
                i <= self.order@.len(),
                r@ == self.order@.take(i as int),
            decreases self.order@.len() - i,
        {
            r.push(self.order[i]);
            proof {
                assert(r@ =~= self.order@.take(i + 1));
            }
            i = i + 1;
        }
        proof {
            assert(self.order@.take(self.order@.len() as int) =~= self.order@);
        }
        r
    }

    /// Evicts the oldest key. Does nothing if the cache is empty.
    fn remove_first(&mut self)
        requires
            old(self).wf(),
        ensures
            final(self).wf(),
            old(self)@.order.len() == 0 ==> final(self)@ == old(self)@,
            old(self)@.order.len() > 0 ==> final(self)@ == (SetState {
                elems: old(self)@.elems.remove(old(self)@.order[0]),
                order: old(self)@.order.drop_first(),
                cap: old(self)@.cap,
            }),
    {
        let ghost s0 = *self;
        if self.order.len() > 0 {
            let oldest: u64 = self.order[0];
            set_index_remove(&mut self.index, oldest);
            self.order.remove(0);
            proof {
                lemma_order_drop_first(s0@.order);
                assert(self.order@ =~= s0@.order.drop_first());
                assert(self@.order.to_set() =~= self@.elems);
            }
        }
    }

    /// Inserts a key into the cache.
    /// - If the key is already present, nothing happens: the key keeps its
    ///   eviction position and nothing is evicted.
    /// - Otherwise the key becomes the newest entry, and if the cache was
    ///   full the oldest key is evicted first.
    pub fn insert(&mut self, key: u64)
        requires
            old(self).wf(),
        ensures
            final(self).wf(),
            final(self)@ == set_state_insert(old(self)@, key),
    {
        let ghost s0 = *self;
        if set_index_contains(&self.index, key) {
            return;
        }
        if self.order.len() == self.cap {
            self.remove_first();
        }
        set_index_insert(&mut self.index, key);
        self.order.push(key);
        proof {
            assert(self@ =~= set_state_insert(s0@, key));
            lemma_set_insert_preserves_wf(s0@, key);
        }
    }

    /// Removes a key from the cache, wherever it sits in the eviction
    /// order. Returns `true` if the key was present and was removed,
    /// `false` — with nothing changed — otherwise.
    ///
    /// Finding the key's position in the order queue scans it, so this
    /// costs time linear in the number of live keys.
    pub fn remove(&mut self, key: u64) -> (r: bool)
        requires
            old(self).wf(),
        ensures
            final(self).wf(),
            final(self)@ == set_state_remove(old(self)@, key),
            r == old(self)@.elems.contains(key),
    {
        let ghost s0 = *self;
        let present = set_index_remove(&mut self.index, key);
        if !present {
            proof {
                assert(self@.elems =~= s0@.elems);
                assert(self@ =~= s0@);
            }
            return false;
        }
        let mut i: usize = 0;
        while i < self.order.len() && self.order[i] != key
            invariant
                i <= self.order@.len(),
                forall|j: int| 0 <= j < i ==> self.order@[j] != key,
                self.order@ == s0@.order,
                self@.cap == s0@.cap,
                self@.elems == s0@.elems.remove(key),
                set_state_wf(s0@),
                s0@.elems.contains(key),
            decreases self.order@.len() - i,
        {
            i = i + 1;
        }
        proof {
            if i == self.order@.len() {
                assert(s0@.order.to_set().contains(key));
                let j = choose|j: int| 0 <= j < s0@.order.len() && s0@.order[j] == key;
                assert(self.order@[j] != key);
                assert(false);
            }
        }
        self.order.remove(i);
        proof {
            assert(s0@.order[i as int] == key);
            lemma_order_remove_at(s0@.order, i as int);
            assert(self@ =~= set_state_remove(s0@, key));
            lemma_set_remove_preserves_wf(s0@, key);
        }
        true
    }
}

} // verus!
