//! The frequency-gated cache: a least-recently-used list of values beside a
//! second, separately bounded list of access counters. A read moves a key to
//! the front of the value list only once its counter has reached the
//! threshold, so that keys read once do not push out keys read often.

use vstd::prelude::*;
use std::hash::Hash;
use vstd::std_specs::hash::obeys_key_model;
use crate::error::ConfigError;
use crate::list::RecencyList;
use crate::model::{
    distinct_keys, has_key, key_seq, lookup, moved_to_front, put_bounded, lemma_put_bounded,
    lemma_moved_to_front, lemma_without_tail,
};

verus! {

/// One operation on a frequency-gated cache.
pub enum GatedOp<K, V> {
    /// `get(k)`.
    Get(K),
    /// `put(k, v)`.
    Put(K, V),
}

/// The state of a frequency-gated cache.
pub struct GatedState<K, V> {
    /// The values, most recently promoted or written first.
    pub values: Seq<(K, V)>,
    /// The access counters, most recently read key first.
    pub counts: Seq<(K, usize)>,
    /// The bound of the value list.
    pub capacity: nat,
    /// The bound of the counter list.
    pub counter_capacity: nat,
    /// The number of recorded reads from which a read promotes.
    pub threshold: nat,
}

impl<K, V> GatedState<K, V> {
    /// Both lists have distinct keys and are within their bounds; the bounds
    /// and the threshold are positive.
    pub open spec fn inv(self) -> bool {
        &&& self.capacity > 0
        &&& self.counter_capacity > 0
        &&& self.threshold > 0
        &&& distinct_keys(self.values)
        &&& distinct_keys(self.counts)
        &&& self.values.len() <= self.capacity
        &&& self.counts.len() <= self.counter_capacity
    }

    /// The state with no value and no counter.
    pub open spec fn empty(capacity: nat, counter_capacity: nat, threshold: nat) -> GatedState<
        K,
        V,
    > {
        GatedState {
            values: Seq::empty(),
            counts: Seq::empty(),
            capacity,
            counter_capacity,
            threshold,
        }
    }

    /// The recorded number of reads of `k`; zero where no counter is kept.
    pub open spec fn count_of(self, k: K) -> usize {
        match lookup(self.counts, k) {
            Some(c) => c,
            None => 0,
        }
    }

    /// The counter of `k` after one more read. It stops at `usize::MAX`.
    pub open spec fn bumped(self, k: K) -> usize {
        if self.count_of(k) < usize::MAX {
            (self.count_of(k) + 1) as usize
        } else {
            usize::MAX
        }
    }

    /// The state after a write of `(k, v)`: a bounded write to the value
    /// list; the counters are left alone.
    pub open spec fn put(self, k: K, v: V) -> GatedState<K, V> {
        GatedState {
            values: put_bounded(self.values, self.capacity, k, v),
            counts: self.counts,
            capacity: self.capacity,
            counter_capacity: self.counter_capacity,
            threshold: self.threshold,
        }
    }

    /// The state after a read of `k`: its counter goes up by one and to the
    /// front of the counter list, by a bounded write; the value list moves
    /// `k` to the front where the new count has reached the threshold.
    pub open spec fn get(self, k: K) -> GatedState<K, V> {
        GatedState {
            values: if self.bumped(k) >= self.threshold {
                moved_to_front(self.values, k)
            } else {
                self.values
            },
            counts: put_bounded(self.counts, self.counter_capacity, k, self.bumped(k)),
            capacity: self.capacity,
            counter_capacity: self.counter_capacity,
            threshold: self.threshold,
        }
    }

    /// A write keeps the invariant.
    pub proof fn lemma_put_keeps_inv(self, k: K, v: V)
        requires
            self.inv(),
        ensures
            self.put(k, v).inv(),
    {
        lemma_put_bounded(self.values, self.capacity, k, v);
    }

    /// A read keeps the invariant.
    pub proof fn lemma_get_keeps_inv(self, k: K)
        requires
            self.inv(),
        ensures
            self.get(k).inv(),
    {
        lemma_put_bounded(self.counts, self.counter_capacity, k, self.bumped(k));
        lemma_moved_to_front(self.values, k);
    }

    /// The state after `op`.
    pub open spec fn step(self, op: GatedOp<K, V>) -> GatedState<K, V> {
        match op {
            GatedOp::Get(k) => self.get(k),
            GatedOp::Put(k, v) => self.put(k, v),
        }
    }

    /// The state after the operations `ops`, made in order.
    pub open spec fn run(self, ops: Seq<GatedOp<K, V>>) -> GatedState<K, V>
        decreases ops.len(),
    {
        if ops.len() == 0 {
            self
        } else {
            self.run(ops.drop_last()).step(ops.last())
        }
    }

    /// The state after `n` reads of `k` in a row.
    pub open spec fn reads(self, k: K, n: nat) -> GatedState<K, V>
        decreases n,
    {
        if n == 0 {
            self
        } else {
            self.reads(k, (n - 1) as nat).get(k)
        }
    }

    /// Capacity bound: whatever reads and writes are made, the value list
    /// and the counter list each stay within their own bound.
    pub proof fn lemma_run_keeps_inv(self, ops: Seq<GatedOp<K, V>>)
        requires
            self.inv(),
        ensures
            self.run(ops).inv(),
        decreases ops.len(),
    {
        if ops.len() > 0 {
            self.lemma_run_keeps_inv(ops.drop_last());
            let before = self.run(ops.drop_last());
            match ops.last() {
                GatedOp::Get(k) => before.lemma_get_keeps_inv(k),
                GatedOp::Put(k, v) => before.lemma_put_keeps_inv(k, v),
            }
        }
    }

    /// The two lists are evicted apart: a write changes no counter, and a
    /// read changes the value list in its order only, never in what it
    /// holds.
    pub proof fn lemma_lists_evict_apart(self, k: K, v: V)
        requires
            self.inv(),
        ensures
            self.put(k, v).counts == self.counts,
            self.get(k).values.len() == self.values.len(),
            forall|j: K| lookup(self.get(k).values, j) == lookup(self.values, j),
    {
        lemma_moved_to_front(self.values, k);
    }

    /// A read records itself: afterwards the counter of the key is one
    /// more than before, up to `usize::MAX`.
    pub proof fn lemma_read_counts(self, k: K)
        requires
            self.inv(),
        ensures
            self.get(k).count_of(k) == self.bumped(k),
            self.get(k).counts[0] == (k, self.bumped(k)),
    {
        lemma_put_bounded(self.counts, self.counter_capacity, k, self.bumped(k));
    }

    /// Frequency gating: of the reads of a key that has no counter yet, made
    /// in a row, those before the threshold leave the value list as it is,
    /// and the one that reaches the threshold moves the key to the front.
    pub proof fn lemma_gate(self, k: K, n: nat)
        requires
            self.inv(),
            self.count_of(k) == 0,
            n <= self.threshold,
            n <= usize::MAX,
        ensures
            self.reads(k, n).inv(),
            self.reads(k, n).threshold == self.threshold,
            self.reads(k, n).count_of(k) == n,
            n < self.threshold ==> self.reads(k, n).values == self.values,
            n == self.threshold ==> self.reads(k, n).values == moved_to_front(self.values, k),
        decreases n,
    {
        if n > 0 {
            let m = (n - 1) as nat;
            self.lemma_gate(k, m);
            let before = self.reads(k, m);
            before.lemma_get_keeps_inv(k);
            before.lemma_read_counts(k);
            assert(before.bumped(k) == n);
        }
    }

    /// With the threshold two, the first read of a key leaves the value list
    /// as it is, so that a key behind another stays behind it, and the
    /// second read moves the key to the front.
    pub proof fn lemma_second_read_promotes(self, k: K)
        requires
            self.inv(),
            self.threshold == 2,
            self.count_of(k) == 0,
            has_key(self.values, k),
        ensures
            self.get(k).values == self.values,
            self.get(k).get(k).values == moved_to_front(self.values, k),
            self.get(k).get(k).values[0].0 == k,
    {
        self.lemma_gate(k, 1);
        self.lemma_gate(k, 2);
        assert(self.reads(k, 1) == self.get(k)) by {
            assert(self.reads(k, 0) == self);
        }
        assert(self.reads(k, 2) == self.get(k).get(k));
        lemma_moved_to_front(self.values, k);
    }
}

/// A frequency-gated cache from keys `K` to values `V`.
pub struct LruCache<K, V> {
    values: RecencyList<K, V>,
    capacity: usize,
    counts: RecencyList<K, usize>,
    capacity2: usize,
    k: usize,
}

impl<K, V> View for LruCache<K, V> {
    type V = GatedState<K, V>;

    open spec fn view(&self) -> GatedState<K, V> {
        self.state()
    }
}

impl<K, V> LruCache<K, V> {
    /// The two lists, their bounds and the threshold.
    pub closed spec fn state(&self) -> GatedState<K, V> {
        GatedState {
            values: self.values@,
            counts: self.counts@,
            capacity: self.capacity as nat,
            counter_capacity: self.capacity2 as nat,
            threshold: self.k as nat,
        }
    }

    /// The representation is sound.
    pub closed spec fn wf(&self) -> bool {
        &&& self.values.wf()
        &&& self.counts.wf()
        &&& self.capacity > 0
        &&& self.capacity2 > 0
        &&& self.k > 0
        &&& self.values@.len() <= self.capacity
        &&& self.counts@.len() <= self.capacity2
    }

    /// A sound cache satisfies the invariant of its state.
    pub proof fn lemma_inv(&self)
        requires
            self.wf(),
        ensures
            self@.inv(),
    {
        self.values.lemma_distinct();
        self.counts.lemma_distinct();
    }
}

impl<K: Hash + Eq + Copy, V> LruCache<K, V> {
    /// An empty cache for `capacity` values and `capacity2` counters, which
    /// promotes a key from its `k`-th recorded read on. A zero in any of the
    /// three is refused; the first one found, in that order, names the error.
    pub fn new(capacity: usize, capacity2: usize, k: usize) -> (r: Result<Self, ConfigError>)
        requires
            obeys_key_model::<K>(),
        ensures
            match r {
                Ok(cache) => capacity > 0 && capacity2 > 0 && k > 0 && cache.wf() && cache@
                    == GatedState::<K, V>::empty(capacity as nat, capacity2 as nat, k as nat),
                Err(e) => e == (if capacity == 0 {
                    ConfigError::InvalidCapacity
                } else if capacity2 == 0 {
                    ConfigError::InvalidCounterCapacity
                } else {
                    ConfigError::InvalidThreshold
                }) && (capacity == 0 || capacity2 == 0 || k == 0),
            },
    {
        if capacity == 0 {
            return Err(ConfigError::InvalidCapacity);
        }
        if capacity2 == 0 {
            return Err(ConfigError::InvalidCounterCapacity);
        }
        if k == 0 {
            return Err(ConfigError::InvalidThreshold);
        }
        Ok(
            LruCache {
                values: RecencyList::new(),
                capacity,
                counts: RecencyList::new(),
                capacity2,
                k,
            },
        )
    }

    /// Stores `v` under `k` at the front of the value list and returns the
    /// value it replaces. Where the key is new and the value list is full,
    /// the least recently used value leaves first. The counters are left
    /// alone.
    pub fn put(&mut self, k: K, v: V) -> (r: Option<V>)
        requires
            old(self).wf(),
        ensures
            final(self).wf(),
            final(self)@ == old(self)@.put(k, v),
            r == lookup(old(self)@.values, k),
    {
        proof {
            self.values.lemma_distinct();
            lemma_put_bounded(self.values@, self.capacity as nat, k, v);
        }
        if !self.values.contains_key(&k) && self.values.len() >= self.capacity {
            proof {
                lemma_without_tail(self.values@);
            }
            self.values.evict_tail();
        }
        self.values.insert_front(k, v)
    }

    /// Records `count` as the counter of `k`, at the front of the counter
    /// list. Where the key has no counter yet and the counter list is full,
    /// the least recently read counter leaves first.
    fn put2(&mut self, k: K, count: usize) -> (r: Option<usize>)
        requires
            old(self).wf(),
        ensures
            final(self).wf(),
            final(self).values == old(self).values,
            final(self).capacity == old(self).capacity,
            final(self).capacity2 == old(self).capacity2,
            final(self).k == old(self).k,
            final(self).counts@ == put_bounded(
                old(self).counts@,
                old(self).capacity2 as nat,
                k,
                count,
            ),
            r == lookup(old(self).counts@, k),
    {
        proof {
            self.counts.lemma_distinct();
            lemma_put_bounded(self.counts@, self.capacity2 as nat, k, count);
        }
        if !self.counts.contains_key(&k) && self.counts.len() >= self.capacity2 {
            proof {
                lemma_without_tail(self.counts@);
            }
            self.counts.evict_tail();
        }
        self.counts.insert_front(k, count)
    }

    /// Reads the value under `k` and counts the read. The counter of `k`
    /// goes up by one, or starts at one, also where the cache holds no value
    /// for `k`. Where the new count has reached the threshold, `k` moves to
    /// the front of the value list; below it, the value list stays as it is.
    pub fn get(&mut self, k: &K) -> (r: Option<&V>)
        requires
            old(self).wf(),
        ensures
            final(self).wf(),
            final(self)@ == old(self)@.get(*k),
            match r {
                Some(v) => lookup(old(self)@.values, *k) == Some(*v),
                None => lookup(old(self)@.values, *k) is None,
            },
    {
        let count: usize = match self.counts.peek(k) {
            Some(c) => if *c < usize::MAX {
                *c + 1
            } else {
                *c
            },
            None => 1,
        };
        self.put2(*k, count);
        proof {
            self.values.lemma_distinct();
            lemma_moved_to_front(self.values@, *k);
        }
        if count >= self.k {
            self.values.touch(k);
        }
        self.values.peek(k)
    }

    /// The keys of the value list, from the front.
    pub fn keys(&self) -> (out: Vec<K>)
        requires
            self.wf(),
        ensures
            out@ == key_seq(self@.values),
    {
        self.values.keys()
    }

    /// The keys of the counter list, most recently read first.
    pub fn counted_keys(&self) -> (out: Vec<K>)
        requires
            self.wf(),
        ensures
            out@ == key_seq(self@.counts),
    {
        self.counts.keys()
    }

    /// The recorded number of reads of `k`; zero where no counter is kept.
    pub fn count(&self, k: &K) -> (n: usize)
        requires
            self.wf(),
        ensures
            n == self@.count_of(*k),
    {
        match self.counts.peek(k) {
            Some(c) => *c,
            None => 0,
        }
    }

    /// The number of values held.
    pub fn len(&self) -> (n: usize)
        requires
            self.wf(),
        ensures
            n == self@.values.len(),
    {
        self.values.len()
    }
}

} // verus!
