//! The plain least-recently-used cache: one recency list under a capacity.

use vstd::prelude::*;
use crate::error::ConfigError;
use crate::list::RecencyList;
use crate::model::{
    distinct_keys, has_key, key_seq, lookup, moved_to_front, put_bounded, without_key,
    lemma_put_bounded, lemma_moved_to_front, lemma_without_key, lemma_without_tail,
};

verus! {

/// What `get` answers for a key that the cache does not hold.
pub const ABSENT: i32 = -1;

/// What a lookup that found `found` reports: the value, or `ABSENT`.
pub open spec fn reported(found: Option<i32>) -> i32 {
    match found {
        Some(v) => v,
        None => ABSENT,
    }
}

/// A cache of `i32` keys and values that holds at most `capacity` entries
/// and, when full, gives up the least recently used one.
pub struct LRUCache {
    list: RecencyList<i32, i32>,
    cap: usize,
}

impl View for LRUCache {
    type V = Seq<(i32, i32)>;

    /// The entries, most recently used first.
    open spec fn view(&self) -> Seq<(i32, i32)> {
        self.entries()
    }
}

impl LRUCache {
    /// The entries, most recently used first.
    pub closed spec fn entries(&self) -> Seq<(i32, i32)> {
        self.list@
    }

    /// The largest number of entries that the cache holds.
    pub closed spec fn capacity(&self) -> nat {
        self.cap as nat
    }

    /// The representation is sound.
    pub closed spec fn wf(&self) -> bool {
        &&& self.list.wf()
        &&& self.cap > 0
        &&& self.list@.len() <= self.cap
    }

    /// A sound cache has distinct keys and is within its capacity, which is
    /// positive.
    pub proof fn lemma_bounded(&self)
        requires
            self.wf(),
        ensures
            distinct_keys(self@),
            self@.len() <= self.capacity(),
            self.capacity() > 0,
    {
        self.list.lemma_distinct();
    }

    /// An empty cache for `capacity` entries. A capacity that is not positive
    /// is refused.
    pub fn new(capacity: i32) -> (r: Result<Self, ConfigError>)
        ensures
            match r {
                Ok(cache) => capacity > 0 && cache.wf() && cache@ == Seq::<(i32, i32)>::empty()
                    && cache.capacity() == capacity,
                Err(e) => capacity <= 0 && e == ConfigError::InvalidCapacity,
            },
    {
        if capacity <= 0 {
            return Err(ConfigError::InvalidCapacity);
        }
        Ok(LRUCache { list: RecencyList::new(), cap: capacity as usize })
    }

    /// The number of entries.
    pub fn len(&self) -> (n: usize)
        requires
            self.wf(),
        ensures
            n == self@.len(),
    {
        self.list.len()
    }

    /// Whether the cache holds `key`; the order does not change.
    pub fn contains(&self, key: i32) -> (b: bool)
        requires
            self.wf(),
        ensures
            b == has_key(self@, key),
    {
        self.list.contains_key(&key)
    }

    /// The value under `key`, which becomes the most recently used entry;
    /// `ABSENT` where the cache does not hold `key`.
    pub fn get(&mut self, key: i32) -> (value: i32)
        requires
            old(self).wf(),
        ensures
            final(self).wf(),
            final(self).capacity() == old(self).capacity(),
            final(self)@ == moved_to_front(old(self)@, key),
            value == reported(lookup(old(self)@, key)),
    {
        proof {
            self.list.lemma_distinct();
            lemma_moved_to_front(self.list@, key);
        }
        self.list.touch(&key);
        match self.list.peek(&key) {
            Some(v) => *v,
            None => ABSENT,
        }
    }

    /// Stores `value` under `key` as the most recently used entry. Where the
    /// key is new and the cache is full, the least recently used entry
    /// leaves first.
    pub fn put(&mut self, key: i32, value: i32)
        requires
            old(self).wf(),
        ensures
            final(self).wf(),
            final(self).capacity() == old(self).capacity(),
            final(self)@ == put_bounded(old(self)@, old(self).capacity(), key, value),
    {
        proof {
            self.list.lemma_distinct();
            lemma_put_bounded(self.list@, self.cap as nat, key, value);
        }
        if !self.list.contains_key(&key) && self.list.len() >= self.cap {
            proof {
                lemma_without_tail(self.list@);
            }
            self.list.evict_tail();
        }
        self.list.insert_front(key, value);
    }

    /// Takes the entry for `key` out of the cache and returns its value.
    pub fn remove(&mut self, key: i32) -> (r: Option<i32>)
        requires
            old(self).wf(),
        ensures
            final(self).wf(),
            final(self).capacity() == old(self).capacity(),
            final(self)@ == without_key(old(self)@, key),
            r == lookup(old(self)@, key),
    {
        proof {
            self.list.lemma_distinct();
            lemma_without_key(self.list@, key);
        }
        self.list.remove(&key)
    }

    /// The keys, most recently used first.
    pub fn keys(&self) -> (out: Vec<i32>)
        requires
            self.wf(),
        ensures
            out@ == key_seq(self@),
    {
        self.list.keys()
    }
}

} // verus!
