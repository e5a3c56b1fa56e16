//! Histories of list operations, and the law that ties the order of a
//! recency list to the time at which each key was last inserted or touched.

use vstd::prelude::*;
use crate::model::{
    distinct_keys, has_key, rank_of, moved_to_front, with_front, without_key, without_tail,
    lemma_rank_of_held, lemma_without_key, lemma_moved_to_front, lemma_with_front,
    lemma_without_tail,
};

verus! {

/// One operation on a recency list.
pub enum ListOp<K, V> {
    /// `insert_front(k, v)`.
    InsertFront(K, V),
    /// `touch(k)`.
    Touch(K),
    /// `remove(k)`.
    Remove(K),
    /// `evict_tail()`.
    EvictTail,
}

/// What `op` makes of the list `s`.
pub open spec fn apply<K, V>(s: Seq<(K, V)>, op: ListOp<K, V>) -> Seq<(K, V)> {
    match op {
        ListOp::InsertFront(k, v) => with_front(s, k, v),
        ListOp::Touch(k) => moved_to_front(s, k),
        ListOp::Remove(k) => without_key(s, k),
        ListOp::EvictTail => without_tail(s),
    }
}

/// The list that the operations `ops`, run in order on an empty list, leave.
pub open spec fn replay<K, V>(ops: Seq<ListOp<K, V>>) -> Seq<(K, V)>
    decreases ops.len(),
{
    if ops.len() == 0 {
        Seq::empty()
    } else {
        apply(replay(ops.drop_last()), ops.last())
    }
}

/// `op` inserts or touches the key `k`.
pub open spec fn uses<K, V>(op: ListOp<K, V>, k: K) -> bool {
    match op {
        ListOp::InsertFront(j, _) => j == k,
        ListOp::Touch(j) => j == k,
        ListOp::Remove(_) => false,
        ListOp::EvictTail => false,
    }
}

/// The position in `ops` of the last operation that inserts or touches `k`;
/// `-1` where there is none.
pub open spec fn last_use<K, V>(ops: Seq<ListOp<K, V>>, k: K) -> int
    decreases ops.len(),
{
    if ops.len() == 0 {
        -1
    } else if uses(ops.last(), k) {
        ops.len() - 1
    } else {
        last_use(ops.drop_last(), k)
    }
}

/// The entries of `s` are ordered by the last use of their keys in `ops`,
/// the latest first, and each key has been used.
pub open spec fn ordered_by_last_use<K, V>(s: Seq<(K, V)>, ops: Seq<ListOp<K, V>>) -> bool {
    &&& forall|i: int| 0 <= i < s.len() ==> 0 <= last_use(ops, (#[trigger] s[i]).0)
    &&& forall|i: int, j: int|
        0 <= i < j < s.len() ==> last_use(ops, (#[trigger] s[i]).0) > last_use(
            ops,
            (#[trigger] s[j]).0,
        )
}

/// The last use of a key lies inside the history, or is `-1`.
pub proof fn lemma_last_use_bounds<K, V>(ops: Seq<ListOp<K, V>>, k: K)
    ensures
        -1 <= last_use(ops, k) < ops.len(),
    decreases ops.len(),
{
    if ops.len() > 0 && !uses(ops.last(), k) {
        lemma_last_use_bounds(ops.drop_last(), k);
    }
}

/// Taking a key out of a list ordered by last use leaves it so ordered.
proof fn lemma_removal_keeps_order<K, V>(s: Seq<(K, V)>, k: K, ops: Seq<ListOp<K, V>>)
    requires
        ordered_by_last_use(s, ops),
    ensures
        ordered_by_last_use(without_key(s, k), ops),
{
    if has_key(s, k) {
        lemma_rank_of_held(s, k);
        let r = rank_of(s, k);
        let t = s.remove(r);
        assert forall|i: int| 0 <= i < t.len() implies #[trigger] t[i] == s[if i < r {
            i
        } else {
            i + 1
        }] by {}
    }
}

/// One more operation that uses no key of the list leaves the list ordered
/// by last use.
proof fn lemma_unused_keeps_order<K, V>(s: Seq<(K, V)>, ops: Seq<ListOp<K, V>>)
    requires
        ops.len() > 0,
        ordered_by_last_use(s, ops.drop_last()),
        forall|i: int| 0 <= i < s.len() ==> !uses(ops.last(), (#[trigger] s[i]).0),
    ensures
        ordered_by_last_use(s, ops),
{
}

/// An entry whose key the last operation uses, put before a list that is
/// ordered by last use and does not hold that key, gives a list ordered by
/// last use.
proof fn lemma_front_is_latest<K, V>(rest: Seq<(K, V)>, head: (K, V), ops: Seq<ListOp<K, V>>)
    requires
        ops.len() > 0,
        uses(ops.last(), head.0),
        ordered_by_last_use(rest, ops.drop_last()),
        !has_key(rest, head.0),
    ensures
        ordered_by_last_use(seq![head] + rest, ops),
{
    let t = seq![head] + rest;
    assert forall|i: int| 1 <= i < t.len() implies #[trigger] t[i] == rest[i - 1] by {}
    assert forall|i: int| 0 <= i < rest.len() implies last_use(ops, (#[trigger] rest[i]).0)
        == last_use(ops.drop_last(), rest[i].0) && last_use(ops, rest[i].0) < ops.len() - 1 by {
        lemma_last_use_bounds(ops.drop_last(), rest[i].0);
    }
    assert forall|i: int| 0 <= i < t.len() implies 0 <= last_use(ops, (#[trigger] t[i]).0) by {
        if i > 0 {
            assert(t[i] == rest[i - 1]);
        }
    }
    assert forall|i: int, j: int| 0 <= i < j < t.len() implies last_use(
        ops,
        (#[trigger] t[i]).0,
    ) > last_use(ops, (#[trigger] t[j]).0) by {
        assert(t[j] == rest[j - 1]);
        if i > 0 {
            assert(t[i] == rest[i - 1]);
        }
    }
}

/// Recency ordering: whatever operations have run, the list read from head
/// to tail names its keys in the order of their last insertion or touch,
/// the latest first, and no key twice.
pub proof fn lemma_recency_order<K, V>(ops: Seq<ListOp<K, V>>)
    ensures
        distinct_keys(replay(ops)),
        ordered_by_last_use(replay(ops), ops),
    decreases ops.len(),
{
    if ops.len() > 0 {
        let before = ops.drop_last();
        let s = replay(before);
        lemma_recency_order(before);
        lemma_without_tail(s);
        match ops.last() {
            ListOp::InsertFront(k, v) => {
                lemma_with_front(s, k, v);
                lemma_without_key(s, k);
                lemma_removal_keeps_order(s, k, before);
                lemma_front_is_latest(without_key(s, k), (k, v), ops);
            },
            ListOp::Touch(k) => {
                lemma_moved_to_front(s, k);
                if has_key(s, k) {
                    lemma_rank_of_held(s, k);
                    lemma_without_key(s, k);
                    lemma_removal_keeps_order(s, k, before);
                    lemma_front_is_latest(without_key(s, k), s[rank_of(s, k)], ops);
                } else {
                    lemma_unused_keeps_order(s, ops);
                }
            },
            ListOp::Remove(k) => {
                lemma_without_key(s, k);
                lemma_removal_keeps_order(s, k, before);
                lemma_unused_keeps_order(without_key(s, k), ops);
            },
            ListOp::EvictTail => {
                if s.len() > 0 {
                    lemma_removal_keeps_order(s, s.last().0, before);
                    lemma_unused_keeps_order(without_tail(s), ops);
                }
            },
        }
    }
}

} // verus!
