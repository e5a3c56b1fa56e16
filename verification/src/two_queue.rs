//! The two-segment (2Q) cache: a key seen once waits in the probationary
//! segment; a key seen again moves to the protected segment. Each segment is
//! a least-recently-used list under its own bound.

use vstd::prelude::*;
use crate::error::ConfigError;
use crate::lru::{LRUCache, ABSENT, reported};
use crate::model::{
    distinct_keys, has_key, key_seq, lookup, rank_of, value_of, moved_to_front, put_bounded,
    with_front, without_key, lemma_put_bounded, lemma_moved_to_front, lemma_without_key,
};

verus! {

/// One operation on a 2Q cache.
pub enum TwoQOp {
    /// `get(key)`.
    Get(i32),
    /// `put(key, value)`.
    Put(i32, i32),
}

/// The state of a 2Q cache as two lists, each most recently used first.
pub struct TwoQState {
    /// The keys seen once.
    pub probationary: Seq<(i32, i32)>,
    /// The keys seen again.
    pub protected: Seq<(i32, i32)>,
    /// The bound of each segment.
    pub capacity: nat,
}

impl TwoQState {
    /// Each segment has distinct keys and is within the bound, which is
    /// positive, and no key is in both segments.
    pub open spec fn inv(self) -> bool {
        &&& self.capacity > 0
        &&& distinct_keys(self.probationary)
        &&& distinct_keys(self.protected)
        &&& self.probationary.len() <= self.capacity
        &&& self.protected.len() <= self.capacity
        &&& forall|k: i32| !(has_key(self.probationary, k) && has_key(self.protected, k))
    }

    /// One of the segments holds `key`.
    pub open spec fn holds(self, key: i32) -> bool {
        has_key(self.probationary, key) || has_key(self.protected, key)
    }

    /// The state with nothing in either segment.
    pub open spec fn empty(capacity: nat) -> TwoQState {
        TwoQState { probationary: Seq::empty(), protected: Seq::empty(), capacity }
    }

    /// The state after a read of `key`: a probationary key moves to the
    /// front of the protected segment, a protected key moves to the front of
    /// its segment, and an absent key changes nothing.
    pub open spec fn get(self, key: i32) -> TwoQState {
        if has_key(self.probationary, key) {
            TwoQState {
                probationary: without_key(self.probationary, key),
                protected: put_bounded(
                    self.protected,
                    self.capacity,
                    key,
                    value_of(self.probationary, key),
                ),
                capacity: self.capacity,
            }
        } else {
            TwoQState {
                probationary: self.probationary,
                protected: moved_to_front(self.protected, key),
                capacity: self.capacity,
            }
        }
    }

    /// What a read of `key` returns: its value in whichever segment holds
    /// it, or `ABSENT`.
    pub open spec fn answer(self, key: i32) -> i32 {
        if has_key(self.probationary, key) {
            value_of(self.probationary, key)
        } else {
            reported(lookup(self.protected, key))
        }
    }

    /// The state after a write of `(key, value)`: a probationary key moves
    /// to the front of the protected segment with the new value, a protected
    /// key is updated and moved to the front, and a new key enters the
    /// probationary segment.
    pub open spec fn put(self, key: i32, value: i32) -> TwoQState {
        if has_key(self.probationary, key) {
            TwoQState {
                probationary: without_key(self.probationary, key),
                protected: put_bounded(self.protected, self.capacity, key, value),
                capacity: self.capacity,
            }
        } else if has_key(self.protected, key) {
            TwoQState {
                probationary: self.probationary,
                protected: with_front(self.protected, key, value),
                capacity: self.capacity,
            }
        } else {
            TwoQState {
                probationary: put_bounded(self.probationary, self.capacity, key, value),
                protected: self.protected,
                capacity: self.capacity,
            }
        }
    }

    /// A read keeps the invariant: both segments stay within the bound and
    /// stay disjoint.
    pub proof fn lemma_get_keeps_inv(self, key: i32)
        requires
            self.inv(),
        ensures
            self.get(key).inv(),
    {
        let after = self.get(key);
        lemma_without_key(self.probationary, key);
        lemma_moved_to_front(self.protected, key);
        lemma_put_bounded(self.protected, self.capacity, key, value_of(self.probationary, key));
        assert forall|k: i32| !(has_key(after.probationary, k) && has_key(after.protected, k)) by {
            if has_key(after.probationary, k) && has_key(after.protected, k) {
                assert(has_key(self.probationary, k));
                assert(has_key(self.protected, k));
            }
        }
    }

    /// A write keeps the invariant: both segments stay within the bound and
    /// stay disjoint.
    pub proof fn lemma_put_keeps_inv(self, key: i32, value: i32)
        requires
            self.inv(),
        ensures
            self.put(key, value).inv(),
    {
        let after = self.put(key, value);
        lemma_without_key(self.probationary, key);
        lemma_put_bounded(self.protected, self.capacity, key, value);
        lemma_put_bounded(self.probationary, self.capacity, key, value);
        assert forall|k: i32| !(has_key(after.probationary, k) && has_key(after.protected, k)) by {
            if has_key(after.probationary, k) && has_key(after.protected, k) {
                assert(k == key || has_key(self.probationary, k));
                assert(k == key || has_key(self.protected, k));
            }
        }
    }

    /// The state after `op`.
    pub open spec fn step(self, op: TwoQOp) -> TwoQState {
        match op {
            TwoQOp::Get(key) => self.get(key),
            TwoQOp::Put(key, value) => self.put(key, value),
        }
    }

    /// The state after the operations `ops`, made in order.
    pub open spec fn run(self, ops: Seq<TwoQOp>) -> TwoQState
        decreases ops.len(),
    {
        if ops.len() == 0 {
            self
        } else {
            self.run(ops.drop_last()).step(ops.last())
        }
    }

    /// The state after writes of the pairs `writes`, made in order.
    pub open spec fn put_all(self, writes: Seq<(i32, i32)>) -> TwoQState
        decreases writes.len(),
    {
        if writes.len() == 0 {
            self
        } else {
            self.put_all(writes.drop_last()).put(writes.last().0, writes.last().1)
        }
    }

    /// Capacity bound and segment isolation: whatever reads and writes are
    /// made, each segment stays within the bound and no key is in both.
    pub proof fn lemma_run_keeps_inv(self, ops: Seq<TwoQOp>)
        requires
            self.inv(),
        ensures
            self.run(ops).inv(),
        decreases ops.len(),
    {
        if ops.len() > 0 {
            self.lemma_run_keeps_inv(ops.drop_last());
            let before = self.run(ops.drop_last());
            match ops.last() {
                TwoQOp::Get(key) => before.lemma_get_keeps_inv(key),
                TwoQOp::Put(key, value) => before.lemma_put_keeps_inv(key, value),
            }
        }
    }

    /// A key that the cache does not hold enters the probationary segment,
    /// at its front, and the protected segment is left as it is.
    pub proof fn lemma_new_key_is_probationary(self, key: i32, value: i32)
        requires
            self.inv(),
            !self.holds(key),
        ensures
            self.put(key, value).probationary[0] == (key, value),
            lookup(self.put(key, value).probationary, key) == Some(value),
            self.put(key, value).protected == self.protected,
    {
        lemma_put_bounded(self.probationary, self.capacity, key, value);
    }

    /// A read of a probationary key moves it to the front of the protected
    /// segment, with its value, and returns that value.
    pub proof fn lemma_read_protects(self, key: i32)
        requires
            self.inv(),
            has_key(self.probationary, key),
        ensures
            !has_key(self.get(key).probationary, key),
            self.get(key).protected[0] == (key, value_of(self.probationary, key)),
            lookup(self.get(key).protected, key) == Some(value_of(self.probationary, key)),
            self.answer(key) == value_of(self.probationary, key),
    {
        lemma_without_key(self.probationary, key);
        lemma_put_bounded(self.protected, self.capacity, key, value_of(self.probationary, key));
    }

    /// A write to a probationary key moves it to the front of the protected
    /// segment, with the new value.
    pub proof fn lemma_write_protects(self, key: i32, value: i32)
        requires
            self.inv(),
            has_key(self.probationary, key),
        ensures
            !has_key(self.put(key, value).probationary, key),
            self.put(key, value).protected[0] == (key, value),
            lookup(self.put(key, value).protected, key) == Some(value),
    {
        lemma_without_key(self.probationary, key);
        lemma_put_bounded(self.protected, self.capacity, key, value);
    }

    /// A key written for the first time and then read or written again is
    /// in the protected segment and no longer in the probationary one.
    pub proof fn lemma_second_access_protects(self, key: i32, first: i32, second: i32)
        requires
            self.inv(),
            !self.holds(key),
        ensures
            has_key(self.put(key, first).probationary, key),
            !has_key(self.put(key, first).protected, key),
            has_key(self.put(key, first).get(key).protected, key),
            !has_key(self.put(key, first).get(key).probationary, key),
            self.put(key, first).answer(key) == first,
            lookup(self.put(key, first).put(key, second).protected, key) == Some(second),
            !has_key(self.put(key, first).put(key, second).probationary, key),
    {
        let once = self.put(key, first);
        self.lemma_put_keeps_inv(key, first);
        self.lemma_new_key_is_probationary(key, first);
        once.lemma_read_protects(key);
        once.lemma_write_protects(key, second);
    }

    /// Filling the probationary segment never evicts from the protected
    /// one: writes of keys that the cache does not hold, each key once,
    /// leave the protected segment as it is, however many they are.
    pub proof fn lemma_new_keys_leave_protected(self, writes: Seq<(i32, i32)>)
        requires
            self.inv(),
            distinct_keys(writes),
            forall|i: int| 0 <= i < writes.len() ==> !self.holds((#[trigger] writes[i]).0),
        ensures
            self.put_all(writes).inv(),
            self.put_all(writes).protected == self.protected,
            forall|k: i32|
                has_key(self.put_all(writes).probationary, k) ==> has_key(self.probationary, k)
                    || has_key(writes, k),
        decreases writes.len(),
    {
        if writes.len() > 0 {
            let earlier = writes.drop_last();
            let (key, value) = writes.last();
            let n = writes.len() - 1;
            assert forall|i: int| 0 <= i < earlier.len() implies #[trigger] earlier[i]
                == writes[i] by {}
            assert forall|a: int, b: int| 0 <= a < b < earlier.len() implies earlier[a].0
                != earlier[b].0 by {
                assert(writes[a].0 != writes[b].0);
            }
            self.lemma_new_keys_leave_protected(earlier);
            let before = self.put_all(earlier);
            assert(!has_key(earlier, key)) by {
                if has_key(earlier, key) {
                    assert(writes[rank_of(earlier, key)].0 == writes[n].0);
                }
            }
            assert(writes[n].0 == key);
            assert(!has_key(before.probationary, key));
            before.lemma_put_keeps_inv(key, value);
            before.lemma_new_key_is_probationary(key, value);
            lemma_put_bounded(before.probationary, before.capacity, key, value);
            assert forall|k: i32| has_key(before.put(key, value).probationary, k) implies has_key(
                self.probationary,
                k,
            ) || has_key(writes, k) by {
                if k == key {
                    assert(writes[n].0 == key);
                } else {
                    assert(has_key(before.probationary, k));
                    if has_key(earlier, k) {
                        assert(writes[rank_of(earlier, k)].0 == k);
                    }
                }
            }
        }
    }
}

/// A 2Q cache of `i32` keys and values.
pub struct TwoQCache {
    /// The probationary segment.
    lru1: LRUCache,
    /// The protected segment.
    lru2: LRUCache,
    cap: usize,
}

impl View for TwoQCache {
    type V = TwoQState;

    open spec fn view(&self) -> TwoQState {
        self.state()
    }
}

impl TwoQCache {
    /// The two segments and their bound.
    pub closed spec fn state(&self) -> TwoQState {
        TwoQState { probationary: self.lru1@, protected: self.lru2@, capacity: self.cap as nat }
    }

    /// The representation is sound.
    pub closed spec fn wf(&self) -> bool {
        &&& self.lru1.wf()
        &&& self.lru2.wf()
        &&& self.lru1.capacity() == self.cap
        &&& self.lru2.capacity() == self.cap
        &&& forall|k: i32| !(has_key(self.lru1@, k) && has_key(self.lru2@, k))
    }

    /// A sound cache satisfies the invariant of its state.
    pub proof fn lemma_inv(&self)
        requires
            self.wf(),
        ensures
            self@.inv(),
    {
        self.lru1.lemma_bounded();
        self.lru2.lemma_bounded();
    }

    /// An empty cache whose segments hold `capacity` entries each. A
    /// capacity that is not positive is refused.
    pub fn new(capacity: i32) -> (r: Result<Self, ConfigError>)
        ensures
            match r {
                Ok(cache) => capacity > 0 && cache.wf() && cache@ == TwoQState::empty(
                    capacity as nat,
                ),
                Err(e) => capacity <= 0 && e == ConfigError::InvalidCapacity,
            },
    {
        let lru1 = match LRUCache::new(capacity) {
            Ok(c) => c,
            Err(e) => {
                return Err(e);
            },
        };
        let lru2 = match LRUCache::new(capacity) {
            Ok(c) => c,
            Err(e) => {
                return Err(e);
            },
        };
        let cache = TwoQCache { lru1, lru2, cap: capacity as usize };
        assert(forall|k: i32| !has_key(Seq::<(i32, i32)>::empty(), k));
        Ok(cache)
    }

    /// The value under `key`, or `ABSENT`. A probationary key moves to the
    /// protected segment; a protected key becomes the most recently used of
    /// its segment.
    pub fn get(&mut self, key: i32) -> (value: i32)
        requires
            old(self).wf(),
        ensures
            final(self).wf(),
            final(self)@ == old(self)@.get(key),
            value == old(self)@.answer(key),
    {
        proof {
            self.lemma_inv();
            self@.lemma_get_keeps_inv(key);
        }
        if self.lru1.contains(key) {
            let value: i32 = match self.lru1.remove(key) {
                Some(v) => v,
                None => ABSENT,
            };
            self.lru2.put(key, value);
            value
        } else if self.lru2.contains(key) {
            self.lru2.get(key)
        } else {
            ABSENT
        }
    }

    /// Stores `value` under `key`. A new key enters the probationary
    /// segment; a key already held ends up at the front of the protected
    /// segment.
    pub fn put(&mut self, key: i32, value: i32)
        requires
            old(self).wf(),
        ensures
            final(self).wf(),
            final(self)@ == old(self)@.put(key, value),
    {
        proof {
            self.lemma_inv();
            self@.lemma_put_keeps_inv(key, value);
        }
        if self.lru1.contains(key) {
            self.lru1.remove(key);
            self.lru2.put(key, value);
        } else if self.lru2.contains(key) {
            self.lru2.put(key, value);
        } else {
            self.lru1.put(key, value);
        }
    }

    /// The keys of the probationary segment, most recently used first.
    pub fn probationary_keys(&self) -> (out: Vec<i32>)
        requires
            self.wf(),
        ensures
            out@ == key_seq(self@.probationary),
    {
        self.lru1.keys()
    }

    /// The keys of the protected segment, most recently used first.
    pub fn protected_keys(&self) -> (out: Vec<i32>)
        requires
            self.wf(),
        ensures
            out@ == key_seq(self@.protected),
    {
        self.lru2.keys()
    }
}

} // verus!
