//! The recency list: entries linked from the most recently used to the least
//! recently used, held in an arena of slots, with a hash index from each key
//! to the slot of its entry.
//!
//! A slot is named by its position in the arena, which never changes while
//! the entry lives. Links are slot numbers, so unlinking an entry rewrites at
//! most three slots, and a freed slot is handed out again by the free list.

use vstd::prelude::*;
use std::collections::HashMap;
use std::hash::Hash;
use vstd::std_specs::hash::obeys_key_model;
use crate::model::{
    key_seq, distinct_keys, has_key, rank_of, lookup, without_key, moved_to_front, with_front,
    without_tail, lemma_rank_at, lemma_without_key,
};

verus! {

/// One entry of a recency list: a key, its value, and the slots of the
/// neighbouring entries.
pub struct Node<K, V> {
    pub k: K,
    pub v: V,
    pub prev: Option<usize>,
    pub next: Option<usize>,
}

impl<K, V> Node<K, V> {
    /// An entry that is linked to nothing yet.
    pub fn new(k: K, v: V) -> (node: Self)
        ensures
            node.k == k,
            node.v == v,
            node.prev is None,
            node.next is None,
    {
        Node { k, v, prev: None, next: None }
    }
}

/// The slot `s` of the arena holds an entry.
spec fn occupied<K, V>(slots: Seq<Option<Node<K, V>>>, s: int) -> bool {
    0 <= s < slots.len() && slots[s] is Some
}

/// Two arenas hold the same keys and values in the same slots.
spec fn same_payload<K, V>(a: Seq<Option<Node<K, V>>>, b: Seq<Option<Node<K, V>>>) -> bool {
    &&& a.len() == b.len()
    &&& forall|s: int|
        0 <= s < a.len() ==> ((#[trigger] a[s]) is Some <==> b[s] is Some) && (a[s] is Some
            ==> a[s]->0.k == b[s]->0.k && a[s]->0.v == b[s]->0.v)
}

/// The entry at position `i` of `order` holds the links to its neighbours
/// in `order`.
spec fn linked_at<K, V>(slots: Seq<Option<Node<K, V>>>, order: Seq<usize>, i: int) -> bool {
    &&& occupied(slots, order[i] as int)
    &&& slots[order[i] as int]->0.prev == (if i == 0 {
        None
    } else {
        Some(order[i - 1])
    })
    &&& slots[order[i] as int]->0.next == (if i == order.len() - 1 {
        None
    } else {
        Some(order[i + 1])
    })
}

/// The entries in the slots `order`, read in that order, are linked into one
/// chain that starts at `head` and ends at `tail`: following `next` from the
/// head visits `order`, and following `prev` from the tail visits it in
/// reverse.
spec fn chained<K, V>(
    slots: Seq<Option<Node<K, V>>>,
    order: Seq<usize>,
    head: Option<usize>,
    tail: Option<usize>,
) -> bool {
    &&& order.no_duplicates()
    &&& forall|i: int| 0 <= i < order.len() ==> #[trigger] linked_at(slots, order, i)
    &&& head == (if order.len() == 0 {
        None
    } else {
        Some(order[0])
    })
    &&& tail == (if order.len() == 0 {
        None
    } else {
        Some(order[order.len() - 1])
    })
}

/// The entry `node` with `link` as its predecessor.
spec fn with_prev<K, V>(node: Node<K, V>, link: Option<usize>) -> Node<K, V> {
    Node { k: node.k, v: node.v, prev: link, next: node.next }
}

/// The entry `node` with `link` as its successor.
spec fn with_next<K, V>(node: Node<K, V>, link: Option<usize>) -> Node<K, V> {
    Node { k: node.k, v: node.v, prev: node.prev, next: link }
}

/// Sets the predecessor link of the entry in slot `s`.
fn set_prev<K, V>(slots: &mut Vec<Option<Node<K, V>>>, s: usize, link: Option<usize>)
    requires
        occupied(old(slots)@, s as int),
    ensures
        final(slots)@ == old(slots)@.update(
            s as int,
            Some(with_prev(old(slots)@[s as int]->0, link)),
        ),
{
    match &mut slots[s] {
        Some(node) => {
            node.prev = link;
        },
        None => {},
    }
}

/// Sets the successor link of the entry in slot `s`.
fn set_next<K, V>(slots: &mut Vec<Option<Node<K, V>>>, s: usize, link: Option<usize>)
    requires
        occupied(old(slots)@, s as int),
    ensures
        final(slots)@ == old(slots)@.update(
            s as int,
            Some(with_next(old(slots)@[s as int]->0, link)),
        ),
{
    match &mut slots[s] {
        Some(node) => {
            node.next = link;
        },
        None => {},
    }
}

/// What `remove` at a position does to a sequence without duplicates.
proof fn lemma_remove_at(o: Seq<usize>, pos: int)
    requires
        o.no_duplicates(),
        0 <= pos < o.len(),
    ensures
        o.remove(pos).len() == o.len() - 1,
        o.remove(pos).no_duplicates(),
        !o.remove(pos).contains(o[pos]),
        forall|t: usize| t != o[pos] ==> o.remove(pos).contains(t) == o.contains(t),
        forall|i: int|
            0 <= i < o.len() - 1 ==> #[trigger] o.remove(pos)[i] == o[if i < pos {
                i
            } else {
                i + 1
            }],
{
    let r = o.remove(pos);
    assert forall|i: int| 0 <= i < o.len() - 1 implies #[trigger] r[i] == o[if i < pos {
        i
    } else {
        i + 1
    }] by {}
    assert forall|a: int, b: int| 0 <= a < r.len() && 0 <= b < r.len() && a != b implies r[a]
        != r[b] by {
        assert(r[a] == o[if a < pos { a } else { a + 1 }]);
        assert(r[b] == o[if b < pos { b } else { b + 1 }]);
    }
    if r.contains(o[pos]) {
        let a = r.index_of(o[pos]);
        assert(0 <= a < r.len() && r[a] == o[pos]);
        assert(r[a] == o[if a < pos { a } else { a + 1 }]);
    }
    assert forall|t: usize| t != o[pos] implies r.contains(t) == o.contains(t) by {
        if r.contains(t) {
            let a = r.index_of(t);
            assert(0 <= a < r.len() && r[a] == t);
            assert(r[a] == o[if a < pos { a } else { a + 1 }]);
        }
        if o.contains(t) {
            let a = o.index_of(t);
            assert(0 <= a < o.len() && o[a] == t);
            assert(r[if a < pos { a } else { a - 1 }] == o[a]);
        }
    }
}

/// The arena and the chain through it. `order` names the chained slots from
/// the head to the tail.
struct Chain<K, V> {
    slots: Vec<Option<Node<K, V>>>,
    head: Option<usize>,
    tail: Option<usize>,
    order: Ghost<Seq<usize>>,
}

impl<K, V> Chain<K, V> {
    spec fn wf(&self) -> bool {
        chained(self.slots@, self.order@, self.head, self.tail)
    }

    /// Takes the entry in slot `s` out of the chain: its neighbours are
    /// linked to each other, and the head and the tail follow where `s` was
    /// one of them. The slot keeps the entry.
    fn erase(&mut self, s: usize)
        requires
            old(self).wf(),
            old(self).order@.contains(s),
        ensures
            final(self).wf(),
            final(self).order@ == old(self).order@.remove(old(self).order@.index_of(s)),
            same_payload(final(self).slots@, old(self).slots@),
    {
        let ghost order = self.order@;
        let ghost before = self.slots@;
        let ghost pos = order.index_of(s);
        assert(0 <= pos < order.len() && order[pos] == s);
        assert(linked_at(before, order, pos));
        let (prev, next) = match &self.slots[s] {
            Some(node) => (node.prev, node.next),
            None => (None, None),
        };
        match prev {
            Some(p) => {
                assert(linked_at(before, order, pos - 1));
                set_next(&mut self.slots, p, next);
            },
            None => {
                self.head = next;
            },
        }
        match next {
            Some(n) => {
                assert(linked_at(before, order, pos + 1));
                set_prev(&mut self.slots, n, prev);
            },
            None => {
                self.tail = prev;
            },
        }
        set_prev(&mut self.slots, s, None);
        set_next(&mut self.slots, s, None);
        proof {
            let after = order.remove(pos);
            self.order@ = after;
            let slots = self.slots@;
            lemma_remove_at(order, pos);
            assert forall|i: int| 0 <= i < after.len() implies #[trigger] linked_at(
                slots,
                after,
                i,
            ) by {
                assert(linked_at(before, order, if i < pos { i } else { i + 1 }));
                if i > 0 {
                    assert(after[i - 1] == order[if i - 1 < pos { i - 1 } else { i }]);
                }
                if i < after.len() - 1 {
                    assert(after[i + 1] == order[if i + 1 < pos { i + 1 } else { i + 2 }]);
                }
            }
        }
    }

    /// Links the entry in slot `s`, which is in no chain, in as the new head.
    fn insert(&mut self, s: usize)
        requires
            old(self).wf(),
            occupied(old(self).slots@, s as int),
            !old(self).order@.contains(s),
        ensures
            final(self).wf(),
            final(self).order@ == seq![s] + old(self).order@,
            same_payload(final(self).slots@, old(self).slots@),
    {
        let ghost order = self.order@;
        let ghost before = self.slots@;
        match self.head {
            Some(h) => {
                assert(linked_at(before, order, 0));
                set_prev(&mut self.slots, h, Some(s));
                set_next(&mut self.slots, s, Some(h));
                set_prev(&mut self.slots, s, None);
                self.head = Some(s);
            },
            None => {
                set_prev(&mut self.slots, s, None);
                set_next(&mut self.slots, s, None);
                self.head = Some(s);
                self.tail = Some(s);
            },
        }
        proof {
            let after = seq![s] + order;
            self.order@ = after;
            let slots = self.slots@;
            assert(after[0] == s);
            assert forall|i: int| 1 <= i < after.len() implies #[trigger] after[i] == order[i
                - 1] by {}
            assert forall|i: int| 0 <= i < after.len() implies #[trigger] linked_at(
                slots,
                after,
                i,
            ) by {
                if i > 0 {
                    assert(linked_at(before, order, i - 1));
                    if i > 1 {
                        assert(after[i - 1] == order[i - 2]);
                    }
                    if i < after.len() - 1 {
                        assert(after[i + 1] == order[i]);
                    }
                } else if after.len() > 1 {
                    assert(after[1] == order[0]);
                }
            }
            assert forall|a: int, b: int|
                0 <= a < after.len() && 0 <= b < after.len() && a != b implies after[a]
                != after[b] by {
                if a > 0 {
                    assert(after[a] == order[a - 1]);
                }
                if b > 0 {
                    assert(after[b] == order[b - 1]);
                }
            }
        }
    }
}

/// The keys and values of the chain, read from the head.
spec fn listing<K, V>(slots: Seq<Option<Node<K, V>>>, order: Seq<usize>) -> Seq<(K, V)> {
    Seq::new(order.len(), |i: int| (slots[order[i] as int]->0.k, slots[order[i] as int]->0.v))
}

/// The index maps exactly the keys of the chained entries, each to the slot
/// of its entry, and every entry of the arena is in the chain.
spec fn indexed<K, V>(
    slots: Seq<Option<Node<K, V>>>,
    order: Seq<usize>,
    index: Map<K, usize>,
) -> bool {
    &&& forall|k: K| #[trigger]
        index.contains_key(k) ==> occupied(slots, index[k] as int) && slots[index[k] as int]->0.k
            == k
    &&& forall|i: int|
        0 <= i < order.len() ==> index.contains_key(slots[#[trigger] order[i] as int]->0.k)
            && index[slots[order[i] as int]->0.k] == order[i]
    &&& forall|s: usize| #[trigger] occupied(slots, s as int) ==> order.contains(s)
}

/// The free list names empty slots, each once, and together with the chain
/// accounts for the whole arena.
spec fn spare<K, V>(slots: Seq<Option<Node<K, V>>>, order: Seq<usize>, free: Seq<usize>) -> bool {
    &&& free.no_duplicates()
    &&& forall|j: int|
        0 <= j < free.len() ==> !occupied(slots, #[trigger] free[j] as int) && free[j]
            < slots.len()
    &&& order.len() + free.len() == slots.len()
}

/// A recency list with its index: key-value entries ordered from the most
/// recently used to the least recently used, no key twice, with lookup,
/// move-to-front and removal at any position in constant time.
pub struct RecencyList<K, V> {
    chain: Chain<K, V>,
    free: Vec<usize>,
    index: HashMap<K, usize>,
    len: usize,
}

impl<K, V> View for RecencyList<K, V> {
    type V = Seq<(K, V)>;

    /// The entries from the head (most recently used) to the tail.
    open spec fn view(&self) -> Seq<(K, V)> {
        self.entries()
    }
}

impl<K, V> RecencyList<K, V> {
    /// The entries as the chain links them, from the head to the tail.
    pub closed spec fn entries(&self) -> Seq<(K, V)> {
        listing(self.chain.slots@, self.chain.order@)
    }

    /// The keys that the index knows.
    pub closed spec fn index_keys(&self) -> Set<K> {
        self.index@.dom()
    }

    /// The representation is sound: the links form one chain from the head
    /// to the tail, the index and the chain hold the same keys, and every
    /// slot of the arena is either chained or free.
    pub closed spec fn wf(&self) -> bool {
        &&& obeys_key_model::<K>()
        &&& self.chain.wf()
        &&& indexed(self.chain.slots@, self.chain.order@, self.index@)
        &&& spare(self.chain.slots@, self.chain.order@, self.free@)
        &&& self.len == self.chain.order@.len()
    }

    /// How the index and the list answer for one key.
    proof fn lemma_slot_of(&self, k: K)
        requires
            self.wf(),
        ensures
            distinct_keys(self@),
            has_key(self@, k) == self.index@.contains_key(k),
            self.index@.contains_key(k) ==> {
                let s = self.index@[k];
                let pos = self.chain.order@.index_of(s);
                &&& 0 <= pos < self.chain.order@.len()
                &&& self.chain.order@[pos] == s
                &&& rank_of(self@, k) == pos
                &&& occupied(self.chain.slots@, s as int)
                &&& self@[pos] == (k, self.chain.slots@[s as int]->0.v)
            },
    {
        let order = self.chain.order@;
        let slots = self.chain.slots@;
        let view = self@;
        assert forall|a: int, b: int| 0 <= a < b < view.len() implies view[a].0 != view[b].0 by {
            assert(view[a].0 == slots[order[a] as int]->0.k);
            assert(view[b].0 == slots[order[b] as int]->0.k);
            assert(order[a] != order[b]);
        }
        if has_key(view, k) {
            let i = rank_of(view, k);
            assert(slots[order[i] as int]->0.k == k);
        }
        if self.index@.contains_key(k) {
            let s = self.index@[k];
            assert(occupied(slots, s as int));
            assert(order.contains(s));
            let pos = order.index_of(s);
            assert(view[pos].0 == k);
            lemma_rank_at(view, pos);
        }
    }

    /// No key occurs twice in a sound list.
    pub proof fn lemma_distinct(&self)
        requires
            self.wf(),
        ensures
            distinct_keys(self@),
    {
        if self@.len() > 0 {
            self.lemma_slot_of(self@[0].0);
        }
    }

    /// Index-list consistency: a key is in the index exactly if an entry
    /// with that key is in the list, and then at one position only; so the
    /// index and the list have the same size.
    pub proof fn lemma_index_matches_list(&self)
        requires
            self.wf(),
        ensures
            forall|k: K| self.index_keys().contains(k) <==> has_key(self@, k),
            forall|i: int, j: int|
                0 <= i < self@.len() && 0 <= j < self@.len() && self@[i].0 == self@[j].0 ==> i
                    == j,
            self.index_keys().finite(),
            self.index_keys().len() == self@.len(),
    {
        self.lemma_distinct();
        assert forall|k: K| self.index_keys().contains(k) <==> has_key(self@, k) by {
            self.lemma_slot_of(k);
        }
        assert forall|i: int, j: int|
            0 <= i < self@.len() && 0 <= j < self@.len() && self@[i].0 == self@[j].0 implies i
            == j by {
            if i < j {
                assert(self@[i].0 != self@[j].0);
            } else if j < i {
                assert(self@[j].0 != self@[i].0);
            }
        }
        let ks = key_seq(self@);
        assert forall|i: int, j: int| 0 <= i < ks.len() && 0 <= j < ks.len() && i != j implies ks[i]
            != ks[j] by {
            assert(ks[i] == self@[i].0 && ks[j] == self@[j].0);
        }
        ks.unique_seq_to_set();
        assert forall|k: K| ks.to_set().contains(k) <==> self.index_keys().contains(k) by {
            if ks.contains(k) {
                let i = ks.index_of(k);
                assert(ks[i] == k && self@[i].0 == k);
            }
            if has_key(self@, k) {
                assert(ks[rank_of(self@, k)] == k);
            }
        }
        assert(ks.to_set() =~= self.index_keys());
    }
}

impl<K: Hash + Eq + Copy, V> RecencyList<K, V> {
    /// An empty list.
    pub fn new() -> (list: Self)
        requires
            obeys_key_model::<K>(),
        ensures
            list.wf(),
            list@ == Seq::<(K, V)>::empty(),
    {
        let list = RecencyList {
            chain: Chain { slots: Vec::new(), head: None, tail: None, order: Ghost(Seq::empty()) },
            free: Vec::new(),
            index: HashMap::new(),
            len: 0,
        };
        assert(list@ =~= Seq::<(K, V)>::empty());
        list
    }

    /// The number of entries.
    pub fn len(&self) -> (n: usize)
        requires
            self.wf(),
        ensures
            n == self@.len(),
    {
        self.len
    }

    /// Whether the list holds no entry.
    pub fn is_empty(&self) -> (b: bool)
        requires
            self.wf(),
        ensures
            b == (self@.len() == 0),
    {
        self.len == 0
    }

    /// Whether the list holds an entry for `k`; the order does not change.
    pub fn contains_key(&self, k: &K) -> (b: bool)
        requires
            self.wf(),
        ensures
            b == has_key(self@, *k),
    {
        proof {
            self.lemma_slot_of(*k);
        }
        self.index.contains_key(k)
    }

    /// The value stored under `k`; the order does not change.
    pub fn peek(&self, k: &K) -> (r: Option<&V>)
        requires
            self.wf(),
        ensures
            match r {
                Some(v) => lookup(self@, *k) == Some(*v),
                None => lookup(self@, *k) is None,
            },
    {
        proof {
            self.lemma_slot_of(*k);
        }
        match self.index.get(k) {
            Some(s) => match &self.chain.slots[*s] {
                Some(node) => Some(&node.v),
                None => None,
            },
            None => None,
        }
    }

    /// Moves the entry for `k` to the head; changes nothing where `k` is
    /// absent.
    pub fn touch(&mut self, k: &K)
        requires
            old(self).wf(),
        ensures
            final(self).wf(),
            final(self)@ == moved_to_front(old(self)@, *k),
    {
        proof {
            self.lemma_slot_of(*k);
        }
        let found: Option<usize> = match self.index.get(k) {
            Some(s) => Some(*s),
            None => None,
        };
        if let Some(s) = found {
            let ghost order = self.chain.order@;
            let ghost before = self.chain.slots@;
            let ghost pos = order.index_of(s);
            self.chain.erase(s);
            proof {
                lemma_remove_at(order, pos);
            }
            self.chain.insert(s);
            proof {
                let after = self.chain.order@;
                let slots = self.chain.slots@;
                let rest = order.remove(pos);
                assert(after[0] == s);
                assert forall|i: int| 1 <= i < after.len() implies #[trigger] after[i] == order[if i
                    - 1 < pos {
                    i - 1
                } else {
                    i
                }] by {
                    assert(after[i] == rest[i - 1]);
                }
                assert forall|t: usize| #[trigger] occupied(slots, t as int) implies after.contains(
                    t,
                ) by {
                    assert(occupied(before, t as int));
                    if t != s {
                        let a = rest.index_of(t);
                        assert(after[a + 1] == rest[a]);
                    }
                }
                assert forall|j: int| 0 <= j < self.free@.len() implies !occupied(
                    slots,
                    #[trigger] self.free@[j] as int,
                ) by {
                    assert(!occupied(before, self.free@[j] as int));
                }
                assert(self@ =~= moved_to_front(old(self)@, *k));
            }
        }
    }

    /// Takes the entry in the chained slot `s` out of the chain, the arena
    /// and the index, frees the slot, and hands the entry back.
    fn release(&mut self, s: usize) -> (node: Node<K, V>)
        requires
            old(self).wf(),
            old(self).chain.order@.contains(s),
        ensures
            final(self).wf(),
            final(self)@ == old(self)@.remove(old(self).chain.order@.index_of(s)),
            (node.k, node.v) == old(self)@[old(self).chain.order@.index_of(s)],
    {
        let ghost order = self.chain.order@;
        let ghost before = self.chain.slots@;
        let ghost before_index = self.index@;
        let ghost before_free = self.free@;
        let ghost pos = order.index_of(s);
        proof {
            lemma_remove_at(order, pos);
        }
        self.chain.erase(s);
        let ghost erased = self.chain.slots@;
        let node = self.chain.slots[s].take().unwrap();
        self.index.remove(&node.k);
        self.free.push(s);
        self.len = self.len - 1;
        proof {
            let after = self.chain.order@;
            let slots = self.chain.slots@;
            let free = self.free@;
            assert forall|i: int| 0 <= i < after.len() implies #[trigger] linked_at(
                slots,
                after,
                i,
            ) by {
                assert(linked_at(erased, after, i));
            }
            assert forall|j: K| #[trigger] self.index@.contains_key(j) implies occupied(
                slots,
                self.index@[j] as int,
            ) && slots[self.index@[j] as int]->0.k == j by {
                assert(before_index.contains_key(j));
                assert(occupied(before, before_index[j] as int));
            }
            assert forall|i: int| 0 <= i < after.len() implies self.index@.contains_key(
                slots[#[trigger] after[i] as int]->0.k,
            ) && self.index@[slots[after[i] as int]->0.k] == after[i] by {
                assert(after[i] == order[if i < pos { i } else { i + 1 }]);
            }
            assert forall|t: usize| #[trigger] occupied(slots, t as int) implies after.contains(
                t,
            ) by {
                assert(occupied(before, t as int));
                assert(order.contains(t));
            }
            assert forall|a: int, b: int|
                0 <= a < free.len() && 0 <= b < free.len() && a != b implies free[a]
                != free[b] by {
                if a < before_free.len() {
                    assert(!occupied(before, before_free[a] as int));
                }
                if b < before_free.len() {
                    assert(!occupied(before, before_free[b] as int));
                }
            }
            assert forall|j: int| 0 <= j < free.len() implies !occupied(
                slots,
                #[trigger] free[j] as int,
            ) && free[j] < slots.len() by {
                if j < before_free.len() {
                    assert(!occupied(before, before_free[j] as int));
                }
            }
            let want = old(self)@.remove(pos);
            assert forall|i: int| 0 <= i < want.len() implies self@[i] == want[i] by {
                assert(after[i] == order[if i < pos { i } else { i + 1 }]);
            }
            assert(self@ =~= want);
        }
        node
    }

    /// Takes the entry for `k` out of the list and returns its value;
    /// changes nothing and returns `None` where `k` is absent.
    pub fn remove(&mut self, k: &K) -> (r: Option<V>)
        requires
            old(self).wf(),
        ensures
            final(self).wf(),
            final(self)@ == without_key(old(self)@, *k),
            r == lookup(old(self)@, *k),
    {
        proof {
            self.lemma_slot_of(*k);
        }
        let found: Option<usize> = match self.index.get(k) {
            Some(s) => Some(*s),
            None => None,
        };
        match found {
            Some(s) => {
                let node = self.release(s);
                Some(node.v)
            },
            None => None,
        }
    }

    /// Takes the least recently used entry out of the list and returns it;
    /// returns `None` where the list is empty.
    pub fn evict_tail(&mut self) -> (r: Option<(K, V)>)
        requires
            old(self).wf(),
        ensures
            final(self).wf(),
            final(self)@ == without_tail(old(self)@),
            r == (if old(self)@.len() > 0 {
                Some(old(self)@.last())
            } else {
                None
            }),
    {
        match self.chain.tail {
            Some(s) => {
                let ghost order = self.chain.order@;
                let ghost last = order.len() - 1;
                assert(order[last] == s);
                assert(old(self)@.remove(last) =~= old(self)@.drop_last());
                let node = self.release(s);
                Some((node.k, node.v))
            },
            None => None,
        }
    }

    /// Makes `(k, v)` the head of the list. An earlier entry for `k` leaves
    /// the list, and its value is returned.
    pub fn insert_front(&mut self, k: K, v: V) -> (r: Option<V>)
        requires
            old(self).wf(),
        ensures
            final(self).wf(),
            final(self)@ == with_front(old(self)@, k, v),
            r == lookup(old(self)@, k),
    {
        proof {
            self.lemma_distinct();
            lemma_without_key(self@, k);
        }
        let replaced = self.remove(&k);
        proof {
            self.lemma_slot_of(k);
        }
        let ghost rest = self@;
        let ghost order = self.chain.order@;
        let ghost before = self.chain.slots@;
        let ghost before_free = self.free@;
        let ghost before_index = self.index@;
        assert(forall|i: int| 0 <= i < order.len() ==> #[trigger] linked_at(before, order, i));
        let s: usize = match self.free.pop() {
            Some(s) => {
                assert(s == before_free[before_free.len() - 1]);
                self.chain.slots[s] = Some(Node::new(k, v));
                s
            },
            None => {
                self.chain.slots.push(Some(Node::new(k, v)));
                self.chain.slots.len() - 1
            },
        };
        proof {
            let filled = self.chain.slots@;
            assert(!occupied(before, s as int));
            assert(!order.contains(s)) by {
                if order.contains(s) {
                    assert(linked_at(before, order, order.index_of(s)));
                }
            }
            assert forall|i: int| 0 <= i < order.len() implies #[trigger] linked_at(
                filled,
                order,
                i,
            ) by {
                assert(linked_at(before, order, i));
            }
        }
        self.index.insert(k, s);
        self.chain.insert(s);
        assert(self.len < self.chain.slots.len());
        self.len = self.len + 1;
        proof {
            let after = self.chain.order@;
            let slots = self.chain.slots@;
            let free = self.free@;
            assert(after[0] == s);
            assert forall|i: int| 1 <= i < after.len() implies #[trigger] after[i] == order[i
                - 1] by {}
            assert forall|j: K| #[trigger] self.index@.contains_key(j) implies occupied(
                slots,
                self.index@[j] as int,
            ) && slots[self.index@[j] as int]->0.k == j by {
                if j != k {
                    assert(before_index.contains_key(j));
                    assert(occupied(before, before_index[j] as int));
                }
            }
            assert forall|i: int| 0 <= i < after.len() implies self.index@.contains_key(
                slots[#[trigger] after[i] as int]->0.k,
            ) && self.index@[slots[after[i] as int]->0.k] == after[i] by {
                if i > 0 {
                    assert(linked_at(before, order, i - 1));
                    assert(before_index.contains_key(before[order[i - 1] as int]->0.k));
                }
            }
            assert forall|t: usize| #[trigger] occupied(slots, t as int) implies after.contains(
                t,
            ) by {
                if t != s {
                    assert(occupied(before, t as int));
                    let a = order.index_of(t);
                    assert(after[a + 1] == order[a]);
                }
            }
            assert forall|a: int, b: int|
                0 <= a < free.len() && 0 <= b < free.len() && a != b implies free[a]
                != free[b] by {
                assert(free[a] == before_free[a] && free[b] == before_free[b]);
            }
            assert forall|j: int| 0 <= j < free.len() implies !occupied(
                slots,
                #[trigger] free[j] as int,
            ) && free[j] < slots.len() by {
                assert(free[j] == before_free[j]);
                assert(!occupied(before, before_free[j] as int));
                if before_free.len() > free.len() {
                    assert(before_free[j] != before_free[before_free.len() - 1]);
                }
            }
            let want = with_front(old(self)@, k, v);
            assert forall|i: int| 0 <= i < want.len() implies self@[i] == want[i] by {
                if i > 0 {
                    assert(linked_at(before, order, i - 1));
                    assert(rest[i - 1] == want[i]);
                }
            }
            assert(self@ =~= want);
        }
        replaced
    }

    /// Releases every entry, one at a time from the tail, and leaves the
    /// list empty.
    pub fn clear(&mut self)
        requires
            old(self).wf(),
        ensures
            final(self).wf(),
            final(self)@ == Seq::<(K, V)>::empty(),
    {
        while !self.is_empty()
            invariant
                self.wf(),
            decreases self@.len(),
        {
            self.evict_tail();
        }
        assert(self@ =~= Seq::<(K, V)>::empty());
    }

    /// The keys as a walk along the `next` links finds them, from the head
    /// to the tail.
    pub fn keys(&self) -> (out: Vec<K>)
        requires
            self.wf(),
        ensures
            out@ == key_seq(self@),
    {
        let ghost order = self.chain.order@;
        let ghost slots = self.chain.slots@;
        let mut out: Vec<K> = Vec::new();
        let mut cur: Option<usize> = self.chain.head;
        let ghost mut pos: int = 0;
        while cur.is_some()
            invariant
                self.wf(),
                order == self.chain.order@,
                slots == self.chain.slots@,
                0 <= pos <= order.len(),
                cur == (if pos < order.len() {
                    Some(order[pos])
                } else {
                    None
                }),
                out@ == key_seq(self@).subrange(0, pos),
            decreases order.len() - pos,
        {
            let s: usize = cur.unwrap();
            assert(linked_at(slots, order, pos));
            match &self.chain.slots[s] {
                Some(node) => {
                    out.push(node.k);
                    cur = node.next;
                },
                None => {
                    cur = None;
                },
            }
            proof {
                assert(key_seq(self@)[pos] == slots[order[pos] as int]->0.k);
                assert(out@ =~= key_seq(self@).subrange(0, pos + 1));
                pos = pos + 1;
            }
        }
        assert(out@ =~= key_seq(self@));
        out
    }

    /// The keys as a walk along the `prev` links finds them, from the tail
    /// to the head: the keys of `keys`, in reverse.
    pub fn keys_from_tail(&self) -> (out: Vec<K>)
        requires
            self.wf(),
        ensures
            out@ == key_seq(self@).reverse(),
    {
        let ghost order = self.chain.order@;
        let ghost slots = self.chain.slots@;
        let ghost n = order.len() as int;
        let mut out: Vec<K> = Vec::new();
        let mut cur: Option<usize> = self.chain.tail;
        let ghost mut done: int = 0;
        while cur.is_some()
            invariant
                self.wf(),
                order == self.chain.order@,
                slots == self.chain.slots@,
                n == order.len(),
                0 <= done <= n,
                cur == (if done < n {
                    Some(order[n - 1 - done])
                } else {
                    None
                }),
                out@ == key_seq(self@).reverse().subrange(0, done),
            decreases n - done,
        {
            let s: usize = cur.unwrap();
            assert(linked_at(slots, order, n - 1 - done));
            match &self.chain.slots[s] {
                Some(node) => {
                    out.push(node.k);
                    cur = node.prev;
                },
                None => {
                    cur = None;
                },
            }
            proof {
                assert(key_seq(self@)[n - 1 - done] == slots[order[n - 1 - done] as int]->0.k);
                assert(key_seq(self@).reverse()[done] == key_seq(self@)[n - 1 - done]);
                assert(out@ =~= key_seq(self@).reverse().subrange(0, done + 1));
                done = done + 1;
            }
        }
        assert(out@ =~= key_seq(self@).reverse());
        out
    }
}

} // verus!
