//! The mathematical model of a recency list: a sequence of key-value pairs,
//! most recently used first, in which no key occurs twice.

use vstd::prelude::*;

verus! {

/// The keys of `s`, in list order.
pub open spec fn key_seq<K, V>(s: Seq<(K, V)>) -> Seq<K> {
    s.map_values(|e: (K, V)| e.0)
}

/// No key occurs twice in `s`.
pub open spec fn distinct_keys<K, V>(s: Seq<(K, V)>) -> bool {
    forall|i: int, j: int| 0 <= i < j < s.len() ==> (#[trigger] s[i]).0 != (#[trigger] s[j]).0
}

/// Some entry of `s` has the key `k`.
pub open spec fn has_key<K, V>(s: Seq<(K, V)>, k: K) -> bool {
    exists|i: int| 0 <= i < s.len() && (#[trigger] s[i]).0 == k
}

/// The position of the entry with key `k`, counted from the most recently
/// used end. Meaningful only where `has_key(s, k)`.
pub open spec fn rank_of<K, V>(s: Seq<(K, V)>, k: K) -> int {
    choose|i: int| 0 <= i < s.len() && (#[trigger] s[i]).0 == k
}

/// The value stored under `k`. Meaningful only where `has_key(s, k)`.
pub open spec fn value_of<K, V>(s: Seq<(K, V)>, k: K) -> V {
    s[rank_of(s, k)].1
}

/// The value stored under `k`, if any.
pub open spec fn lookup<K, V>(s: Seq<(K, V)>, k: K) -> Option<V> {
    if has_key(s, k) {
        Some(value_of(s, k))
    } else {
        None
    }
}

/// `s` with the entry for `k` taken out; the other entries keep their order.
pub open spec fn without_key<K, V>(s: Seq<(K, V)>, k: K) -> Seq<(K, V)> {
    if has_key(s, k) {
        s.remove(rank_of(s, k))
    } else {
        s
    }
}

/// `s` with the entry for `k` moved to the most recently used end; `s`
/// itself where `k` is absent.
pub open spec fn moved_to_front<K, V>(s: Seq<(K, V)>, k: K) -> Seq<(K, V)> {
    if has_key(s, k) {
        seq![s[rank_of(s, k)]] + s.remove(rank_of(s, k))
    } else {
        s
    }
}

/// `s` with `(k, v)` as the most recently used entry, replacing any earlier
/// entry for `k`.
pub open spec fn with_front<K, V>(s: Seq<(K, V)>, k: K, v: V) -> Seq<(K, V)> {
    seq![(k, v)] + without_key(s, k)
}

/// `s` without its least recently used entry; `s` itself where it is empty.
pub open spec fn without_tail<K, V>(s: Seq<(K, V)>) -> Seq<(K, V)> {
    if s.len() > 0 {
        s.drop_last()
    } else {
        s
    }
}

/// The effect of a write of `(k, v)` on a list bounded by `cap`: an entry for
/// `k` is replaced and moved to the front; a new key enters at the front,
/// after the least recently used entry has left where the list is full.
pub open spec fn put_bounded<K, V>(s: Seq<(K, V)>, cap: nat, k: K, v: V) -> Seq<(K, V)> {
    if has_key(s, k) {
        with_front(s, k, v)
    } else if s.len() >= cap {
        seq![(k, v)] + without_tail(s)
    } else {
        seq![(k, v)] + s
    }
}

/// Where `k` is the key at position `i` of a list with distinct keys, `i` is
/// its rank and `s[i].1` its value.
pub proof fn lemma_rank_at<K, V>(s: Seq<(K, V)>, i: int)
    requires
        distinct_keys(s),
        0 <= i < s.len(),
    ensures
        has_key(s, s[i].0),
        rank_of(s, s[i].0) == i,
        value_of(s, s[i].0) == s[i].1,
{
    let r = rank_of(s, s[i].0);
    assert(0 <= r < s.len() && s[r].0 == s[i].0);
    if r < i {
        assert(s[r].0 != s[i].0);
    } else if i < r {
        assert(s[i].0 != s[r].0);
    }
}

/// A key that a list holds has a rank inside the list, and stands there.
pub proof fn lemma_rank_of_held<K, V>(s: Seq<(K, V)>, k: K)
    requires
        has_key(s, k),
    ensures
        0 <= rank_of(s, k) < s.len(),
        s[rank_of(s, k)].0 == k,
{
}

/// Taking a key out keeps the keys distinct, removes exactly that key and
/// leaves every other key with its value.
pub proof fn lemma_without_key<K, V>(s: Seq<(K, V)>, k: K)
    requires
        distinct_keys(s),
    ensures
        distinct_keys(without_key(s, k)),
        !has_key(without_key(s, k), k),
        without_key(s, k).len() == (if has_key(s, k) {
            s.len() - 1
        } else {
            s.len() as int
        }),
        forall|j: K| j != k ==> has_key(without_key(s, k), j) == has_key(s, j),
        forall|j: K|
            j != k && has_key(s, j) ==> value_of(without_key(s, k), j) == value_of(s, j),
{
    if has_key(s, k) {
        lemma_rank_of_held(s, k);
        let r = rank_of(s, k);
        let t = s.remove(r);
        assert(t == without_key(s, k));
        assert forall|i: int| 0 <= i < t.len() implies #[trigger] t[i] == s[if i < r {
            i
        } else {
            i + 1
        }] by {}
        assert(distinct_keys(t)) by {
            assert forall|a: int, b: int| 0 <= a < b < t.len() implies t[a].0 != t[b].0 by {
                let a1 = if a < r { a } else { a + 1 };
                let b1 = if b < r { b } else { b + 1 };
                assert(s[a1].0 != s[b1].0);
            }
        }
        assert(!has_key(t, k)) by {
            if has_key(t, k) {
                lemma_rank_of_held(t, k);
                let a = rank_of(t, k);
                let a1 = if a < r { a } else { a + 1 };
                assert(s[a1].0 == s[r].0);
            }
        }
        assert forall|j: K| j != k implies has_key(t, j) == has_key(s, j) by {
            if has_key(t, j) {
                lemma_rank_of_held(t, j);
                let a = rank_of(t, j);
                let a1 = if a < r { a } else { a + 1 };
                assert(s[a1].0 == j);
            }
            if has_key(s, j) {
                lemma_rank_of_held(s, j);
                let a = rank_of(s, j);
                let a1 = if a < r { a } else { a - 1 };
                assert(t[a1].0 == j);
            }
        }
        assert forall|j: K| j != k && has_key(s, j) implies value_of(t, j) == value_of(s, j) by {
            lemma_rank_of_held(s, j);
            let a = rank_of(s, j);
            let a1 = if a < r { a } else { a - 1 };
            assert(t[a1] == s[a]);
            lemma_rank_at(t, a1);
        }
    } else {
        assert(without_key(s, k) == s);
    }
}

/// Moving a key to the front keeps the keys distinct and keeps every key
/// with its value.
pub proof fn lemma_moved_to_front<K, V>(s: Seq<(K, V)>, k: K)
    requires
        distinct_keys(s),
    ensures
        distinct_keys(moved_to_front(s, k)),
        moved_to_front(s, k).len() == s.len(),
        has_key(s, k) ==> moved_to_front(s, k)[0] == (k, value_of(s, k)),
        forall|j: K| has_key(moved_to_front(s, k), j) == has_key(s, j),
        forall|j: K| lookup(moved_to_front(s, k), j) == lookup(s, j),
        without_key(moved_to_front(s, k), k) == without_key(s, k),
{
    if has_key(s, k) {
        lemma_rank_of_held(s, k);
        lemma_without_key(s, k);
        let r = rank_of(s, k);
        let rest = s.remove(r);
        let t = seq![s[r]] + rest;
        assert(t == moved_to_front(s, k));
        assert(rest == without_key(s, k));
        lemma_pushed_front(rest, k, s[r].1);
        assert(t =~= seq![(k, s[r].1)] + rest);
        assert forall|j: K| has_key(t, j) == has_key(s, j) by {}
        assert forall|j: K| lookup(t, j) == lookup(s, j) by {
            if j != k && has_key(s, j) {
                assert(value_of(rest, j) == value_of(s, j));
            }
        }
    }
}

/// What a new first entry does to a list that does not hold its key.
pub proof fn lemma_pushed_front<K, V>(s: Seq<(K, V)>, k: K, v: V)
    requires
        distinct_keys(s),
        !has_key(s, k),
    ensures
        distinct_keys(seq![(k, v)] + s),
        has_key(seq![(k, v)] + s, k),
        rank_of(seq![(k, v)] + s, k) == 0,
        value_of(seq![(k, v)] + s, k) == v,
        without_key(seq![(k, v)] + s, k) == s,
        forall|j: K| has_key(seq![(k, v)] + s, j) == (j == k || has_key(s, j)),
        forall|j: K|
            j != k && has_key(s, j) ==> value_of(seq![(k, v)] + s, j) == value_of(s, j),
{
    let t = seq![(k, v)] + s;
    assert(t[0] == (k, v));
    assert forall|i: int| 1 <= i < t.len() implies #[trigger] t[i] == s[i - 1] by {}
    assert(distinct_keys(t)) by {
        assert forall|a: int, b: int| 0 <= a < b < t.len() implies t[a].0 != t[b].0 by {
            if a > 0 {
                assert(t[a].0 == s[a - 1].0);
            }
            if b > 0 {
                assert(t[b].0 == s[b - 1].0);
            }
        }
    }
    lemma_rank_at(t, 0);
    assert(t.remove(0) =~= s);
    assert forall|j: K| has_key(t, j) == (j == k || has_key(s, j)) by {
        if has_key(t, j) && j != k {
            lemma_rank_of_held(t, j);
            let a = rank_of(t, j);
            assert(s[a - 1].0 == j);
        }
        if has_key(s, j) {
            lemma_rank_of_held(s, j);
            let a = rank_of(s, j);
            assert(t[a + 1].0 == j);
        }
    }
    assert forall|j: K| j != k && has_key(s, j) implies value_of(t, j) == value_of(s, j) by {
        lemma_rank_of_held(s, j);
        let a = rank_of(s, j);
        assert(t[a + 1] == s[a]);
        lemma_rank_at(t, a + 1);
    }
}

/// Writing `(k, v)` at the front keeps the keys distinct; the list then
/// holds `k` with `v`, and every other key as before.
pub proof fn lemma_with_front<K, V>(s: Seq<(K, V)>, k: K, v: V)
    requires
        distinct_keys(s),
    ensures
        distinct_keys(with_front(s, k, v)),
        with_front(s, k, v).len() == without_key(s, k).len() + 1,
        with_front(s, k, v)[0] == (k, v),
        lookup(with_front(s, k, v), k) == Some(v),
        forall|j: K| has_key(with_front(s, k, v), j) == (j == k || has_key(s, j)),
        forall|j: K| j != k ==> lookup(with_front(s, k, v), j) == lookup(s, j),
        without_key(with_front(s, k, v), k) == without_key(s, k),
{
    lemma_without_key(s, k);
    lemma_pushed_front(without_key(s, k), k, v);
}

/// Dropping the least recently used entry keeps the keys distinct and
/// keeps every other key with its value.
pub proof fn lemma_without_tail<K, V>(s: Seq<(K, V)>)
    requires
        distinct_keys(s),
    ensures
        distinct_keys(without_tail(s)),
        s.len() > 0 ==> without_tail(s) == without_key(s, s.last().0),
        s.len() > 0 ==> without_tail(s).len() == s.len() - 1,
        forall|j: K| has_key(without_tail(s), j) ==> has_key(s, j),
        forall|j: K|
            has_key(without_tail(s), j) ==> value_of(without_tail(s), j) == value_of(s, j),
        forall|j: K| has_key(s, j) && j != s.last().0 ==> has_key(without_tail(s), j),
{
    if s.len() > 0 {
        let n = s.len() - 1;
        lemma_rank_at(s, n);
        assert(s.remove(n) =~= s.drop_last());
        lemma_without_key(s, s.last().0);
    }
}

/// A bounded write keeps the keys distinct and the list within its bound,
/// and puts the written entry first.
pub proof fn lemma_put_bounded<K, V>(s: Seq<(K, V)>, cap: nat, k: K, v: V)
    requires
        distinct_keys(s),
        s.len() <= cap,
        cap > 0,
    ensures
        distinct_keys(put_bounded(s, cap, k, v)),
        put_bounded(s, cap, k, v).len() <= cap,
        put_bounded(s, cap, k, v)[0] == (k, v),
        lookup(put_bounded(s, cap, k, v), k) == Some(v),
        forall|j: K| has_key(put_bounded(s, cap, k, v), j) ==> j == k || has_key(s, j),
        forall|j: K|
            j != k && has_key(put_bounded(s, cap, k, v), j) ==> lookup(
                put_bounded(s, cap, k, v),
                j,
            ) == lookup(s, j),
        has_key(s, k) || s.len() < cap ==> forall|j: K|
            has_key(s, j) ==> has_key(put_bounded(s, cap, k, v), j),
{
    if has_key(s, k) {
        lemma_with_front(s, k, v);
    } else if s.len() >= cap {
        lemma_without_tail(s);
        lemma_pushed_front(without_tail(s), k, v);
    } else {
        lemma_pushed_front(s, k, v);
    }
}

/// The list after the bounded writes `writes`, made in order.
pub open spec fn put_all<K, V>(s: Seq<(K, V)>, cap: nat, writes: Seq<(K, V)>) -> Seq<(K, V)>
    decreases writes.len(),
{
    if writes.len() == 0 {
        s
    } else {
        put_bounded(put_all(s, cap, writes.drop_last()), cap, writes.last().0, writes.last().1)
    }
}

/// Capacity bound: whatever is written, and however often, a bounded list
/// never holds more entries than its bound, nor a key twice.
pub proof fn lemma_capacity_bound<K, V>(s: Seq<(K, V)>, cap: nat, writes: Seq<(K, V)>)
    requires
        distinct_keys(s),
        s.len() <= cap,
        cap > 0,
    ensures
        distinct_keys(put_all(s, cap, writes)),
        put_all(s, cap, writes).len() <= cap,
    decreases writes.len(),
{
    if writes.len() > 0 {
        lemma_capacity_bound(s, cap, writes.drop_last());
        lemma_put_bounded(
            put_all(s, cap, writes.drop_last()),
            cap,
            writes.last().0,
            writes.last().1,
        );
    }
}

} // verus!
