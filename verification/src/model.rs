//! The cache as a mathematical object, and the laws that hold of it.
//!
//! A cache is modelled by the sequence of its entries, each a key and a value,
//! from most recently used to least recently used. The position of an entry in
//! that sequence is its recency rank; rank 0 is the most recent. The functions
//! here say what `get` and `insert` do to that sequence; the cache's own
//! contracts refer to them.

use vstd::prelude::*;

verus! {

/// Some entry of `entries` has the key `key`.
pub open spec fn has_key<T>(entries: Seq<(Seq<u8>, T)>, key: Seq<u8>) -> bool {
    exists|i: int| 0 <= i < entries.len() && #[trigger] entries[i].0 == key
}

/// The recency rank of `key`: the position of an entry with that key. It is
/// meaningful where `has_key(entries, key)` holds.
pub open spec fn rank_of<T>(entries: Seq<(Seq<u8>, T)>, key: Seq<u8>) -> int {
    choose|i: int| 0 <= i < entries.len() && #[trigger] entries[i].0 == key
}

/// No two entries share a key.
pub open spec fn distinct_keys<T>(entries: Seq<(Seq<u8>, T)>) -> bool {
    forall|i: int, j: int|
        0 <= i < j < entries.len() ==> #[trigger] entries[i].0 != #[trigger] entries[j].0
}

/// The entries of a cache of the given capacity: no key twice, and no more
/// entries than the capacity, which is positive.
pub open spec fn valid<T>(entries: Seq<(Seq<u8>, T)>, capacity: nat) -> bool {
    &&& distinct_keys(entries)
    &&& 0 < capacity
    &&& entries.len() <= capacity
}

/// The set of keys that `entries` holds.
pub open spec fn key_set<T>(entries: Seq<(Seq<u8>, T)>) -> Set<Seq<u8>> {
    Set::new(|key: Seq<u8>| has_key(entries, key))
}

/// What `get(key)` returns: the value stored under `key`, if there is one.
pub open spec fn get_result<T>(entries: Seq<(Seq<u8>, T)>, key: Seq<u8>) -> Option<T> {
    if has_key(entries, key) {
        Some(entries[rank_of(entries, key)].1)
    } else {
        None
    }
}

/// The entries after `get(key)`: on a hit the entry moves to the front and
/// the others keep their order; on a miss nothing changes.
pub open spec fn after_get<T>(entries: Seq<(Seq<u8>, T)>, key: Seq<u8>) -> Seq<(Seq<u8>, T)> {
    if has_key(entries, key) {
        let rank = rank_of(entries, key);
        seq![entries[rank]] + entries.remove(rank)
    } else {
        entries
    }
}

/// What `insert(key, value)` returns: the value that `key` had before; or,
/// for a new key put into a full cache, the value of the evicted entry, which
/// is the last one; or nothing.
pub open spec fn insert_result<T>(entries: Seq<(Seq<u8>, T)>, capacity: nat, key: Seq<u8>) -> Option<T> {
    if has_key(entries, key) {
        Some(entries[rank_of(entries, key)].1)
    } else if entries.len() >= capacity && entries.len() > 0 {
        Some(entries.last().1)
    } else {
        None
    }
}

/// The entries after `insert(key, value)`: the new entry stands at the front.
/// An entry that had the same key is gone; otherwise, if the cache was full,
/// the last entry is gone. The remaining entries keep their order.
pub open spec fn after_insert<T>(entries: Seq<(Seq<u8>, T)>, capacity: nat, key: Seq<u8>, value: T) -> Seq<
    (Seq<u8>, T),
> {
    if has_key(entries, key) {
        seq![(key, value)] + entries.remove(rank_of(entries, key))
    } else if entries.len() >= capacity && entries.len() > 0 {
        seq![(key, value)] + entries.drop_last()
    } else {
        seq![(key, value)] + entries
    }
}

/// Where no key occurs twice, the rank of a key is the one position at which
/// it stands.
pub proof fn lemma_rank_unique<T>(entries: Seq<(Seq<u8>, T)>, i: int)
    requires
        distinct_keys(entries),
        0 <= i < entries.len(),
    ensures
        has_key(entries, entries[i].0),
        rank_of(entries, entries[i].0) == i,
{
    let key = entries[i].0;
    assert(has_key(entries, key));
    let r = rank_of(entries, key);
    if r < i {
        assert(entries[r].0 != entries[i].0);
    } else if i < r {
        assert(entries[i].0 != entries[r].0);
    }
}

/// `get` keeps the entries valid and does not change their number.
pub proof fn lemma_get_keeps_valid<T>(entries: Seq<(Seq<u8>, T)>, capacity: nat, key: Seq<u8>)
    requires
        valid(entries, capacity),
    ensures
        valid(after_get(entries, key), capacity),
        after_get(entries, key).len() == entries.len(),
        key_set(after_get(entries, key)) == key_set(entries),
{
    let after = after_get(entries, key);
    if has_key(entries, key) {
        let rank = rank_of(entries, key);
        assert forall|i: int, j: int| 0 <= i < j < after.len() implies #[trigger] after[i].0 != #[trigger] after[j].0 by {
            let from = |p: int| if p == 0 { rank } else if p <= rank { p - 1 } else { p };
            assert(after[i] == entries[from(i)]);
            assert(after[j] == entries[from(j)]);
            if from(i) < from(j) {
                assert(entries[from(i)].0 != entries[from(j)].0);
            } else {
                assert(entries[from(j)].0 != entries[from(i)].0);
            }
        }
        assert forall|k: Seq<u8>| has_key(after, k) <==> has_key(entries, k) by {
            if has_key(after, k) {
                let p = rank_of(after, k);
                let q = if p == 0 { rank } else if p <= rank { p - 1 } else { p };
                assert(after[p] == entries[q]);
                assert(entries[q].0 == k);
            }
            if has_key(entries, k) {
                let q = rank_of(entries, k);
                let p = if q == rank { 0 } else if q < rank { q + 1 } else { q };
                assert(after[p] == entries[q]);
                assert(after[p].0 == k);
            }
        }
    }
    assert(key_set(after) =~= key_set(entries));
}

/// `insert` keeps the entries valid: afterwards no key occurs twice and the
/// capacity is not exceeded.
pub proof fn lemma_insert_keeps_valid<T>(entries: Seq<(Seq<u8>, T)>, capacity: nat, key: Seq<u8>, value: T)
    requires
        valid(entries, capacity),
    ensures
        valid(after_insert(entries, capacity, key, value), capacity),
{
    let after = after_insert(entries, capacity, key, value);
    assert forall|i: int, j: int| 0 <= i < j < after.len() implies #[trigger] after[i].0 != #[trigger] after[j].0 by {
        if has_key(entries, key) {
            let rank = rank_of(entries, key);
            let q = if j <= rank { j - 1 } else { j };
            assert(after[j] == entries[q]);
            if i == 0 {
                if q < rank {
                    assert(entries[q].0 != entries[rank].0);
                } else {
                    assert(entries[rank].0 != entries[q].0);
                }
            } else {
                let p = if i <= rank { i - 1 } else { i };
                assert(after[i] == entries[p]);
                assert(entries[p].0 != entries[q].0);
            }
        } else {
            assert(after[j] == entries[j - 1]);
            if i > 0 {
                assert(after[i] == entries[i - 1]);
                assert(entries[i - 1].0 != entries[j - 1].0);
            }
        }
    }
}

/// Recency law for `get`: after a hit the key has rank 0 and its value is
/// unchanged, and any two other keys stand in the same order as before.
pub proof fn lemma_get_refreshes<T>(entries: Seq<(Seq<u8>, T)>, key: Seq<u8>, a: Seq<u8>, b: Seq<u8>)
    requires
        distinct_keys(entries),
        has_key(entries, key),
        has_key(entries, a),
        has_key(entries, b),
        a != key,
        b != key,
    ensures
        after_get(entries, key)[0] == (key, get_result(entries, key)->0),
        has_key(after_get(entries, key), a),
        has_key(after_get(entries, key), b),
        get_result(after_get(entries, key), a) == get_result(entries, a),
        rank_of(entries, a) < rank_of(entries, b) <==> rank_of(after_get(entries, key), a) < rank_of(
            after_get(entries, key),
            b,
        ),
{
    let after = after_get(entries, key);
    let rank = rank_of(entries, key);
    lemma_get_keeps_valid(entries, entries.len(), key);
    let ra = rank_of(entries, a);
    let rb = rank_of(entries, b);
    let pa = if ra < rank { ra + 1 } else { ra };
    let pb = if rb < rank { rb + 1 } else { rb };
    assert(after[pa] == entries[ra]);
    assert(after[pb] == entries[rb]);
    lemma_rank_unique(after, pa);
    lemma_rank_unique(after, pb);
}

/// Recency law for `insert` on a present key: afterwards the key has rank 0
/// and carries the new value, the number of entries is unchanged, and any two
/// other keys keep their values and stand in the same order as before.
pub proof fn lemma_update_refreshes<T>(
    entries: Seq<(Seq<u8>, T)>,
    capacity: nat,
    key: Seq<u8>,
    value: T,
    a: Seq<u8>,
    b: Seq<u8>,
)
    requires
        valid(entries, capacity),
        has_key(entries, key),
        has_key(entries, a),
        has_key(entries, b),
        a != key,
        b != key,
    ensures
        after_insert(entries, capacity, key, value)[0] == (key, value),
        after_insert(entries, capacity, key, value).len() == entries.len(),
        insert_result(entries, capacity, key) == get_result(entries, key),
        has_key(after_insert(entries, capacity, key, value), a),
        has_key(after_insert(entries, capacity, key, value), b),
        get_result(after_insert(entries, capacity, key, value), a) == get_result(entries, a),
        rank_of(entries, a) < rank_of(entries, b) <==> rank_of(after_insert(entries, capacity, key, value), a)
            < rank_of(after_insert(entries, capacity, key, value), b),
{
    let after = after_insert(entries, capacity, key, value);
    let rank = rank_of(entries, key);
    lemma_insert_keeps_valid(entries, capacity, key, value);
    let ra = rank_of(entries, a);
    let rb = rank_of(entries, b);
    let pa = if ra < rank { ra + 1 } else { ra };
    let pb = if rb < rank { rb + 1 } else { rb };
    assert(after[pa] == entries[ra]);
    assert(after[pb] == entries[rb]);
    lemma_rank_unique(after, pa);
    lemma_rank_unique(after, pb);
}

/// Eviction law: `insert` of a new key into a full cache removes the key
/// that was least recently used, and no other. The evicted value is returned,
/// and every other entry moves back by one rank.
pub proof fn lemma_insert_evicts_last<T>(entries: Seq<(Seq<u8>, T)>, capacity: nat, key: Seq<u8>, value: T)
    requires
        valid(entries, capacity),
        !has_key(entries, key),
        entries.len() == capacity,
    ensures
        insert_result(entries, capacity, key) == Some(entries.last().1),
        after_insert(entries, capacity, key, value).len() == capacity,
        after_insert(entries, capacity, key, value)[0] == (key, value),
        !has_key(after_insert(entries, capacity, key, value), entries.last().0),
        forall|i: int|
            0 <= i < entries.len() - 1 ==> #[trigger] after_insert(entries, capacity, key, value)[i + 1]
                == entries[i],
        key_set(after_insert(entries, capacity, key, value)) == key_set(entries).remove(
            entries.last().0,
        ).insert(key),
{
    let after = after_insert(entries, capacity, key, value);
    let evicted = entries.last().0;
    assert(has_key(entries, evicted));
    lemma_insert_keeps_valid(entries, capacity, key, value);
    assert(!has_key(after, evicted)) by {
        if has_key(after, evicted) {
            let p = rank_of(after, evicted);
            assert(p > 0);
            assert(after[p] == entries[p - 1]);
            assert(entries[p - 1].0 != entries[entries.len() - 1].0);
        }
    }
    assert forall|k: Seq<u8>| has_key(after, k) <==> (k == key || (has_key(entries, k) && k != evicted)) by {
        if has_key(after, k) {
            let p = rank_of(after, k);
            if p > 0 {
                assert(after[p] == entries[p - 1]);
                assert(entries[p - 1].0 == k);
            }
        }
        if k == key {
            assert(after[0].0 == k);
        }
        if has_key(entries, k) && k != evicted {
            let q = rank_of(entries, k);
            assert(after[q + 1] == entries[q]);
            assert(after[q + 1].0 == k);
        }
    }
    assert(key_set(after) =~= key_set(entries).remove(evicted).insert(key));
}

/// `insert` of a new key into a cache that is not full evicts nothing: the
/// new entry takes rank 0 and every other entry moves back by one rank.
pub proof fn lemma_insert_without_eviction<T>(
    entries: Seq<(Seq<u8>, T)>,
    capacity: nat,
    key: Seq<u8>,
    value: T,
)
    requires
        valid(entries, capacity),
        !has_key(entries, key),
        entries.len() < capacity,
    ensures
        insert_result(entries, capacity, key) is None,
        after_insert(entries, capacity, key, value) == seq![(key, value)] + entries,
        key_set(after_insert(entries, capacity, key, value)) == key_set(entries).insert(key),
{
    let after = after_insert(entries, capacity, key, value);
    assert forall|k: Seq<u8>| has_key(after, k) <==> (k == key || has_key(entries, k)) by {
        if has_key(after, k) {
            let p = rank_of(after, k);
            if p > 0 {
                assert(after[p] == entries[p - 1]);
                assert(entries[p - 1].0 == k);
            }
        }
        if k == key {
            assert(after[0].0 == k);
        }
        if has_key(entries, k) {
            let q = rank_of(entries, k);
            assert(after[q + 1] == entries[q]);
            assert(after[q + 1].0 == k);
        }
    }
    assert(key_set(after) =~= key_set(entries).insert(key));
}

/// Round trip: `insert(key, value)` followed at once by `get(key)` returns
/// `value`.
pub proof fn lemma_insert_then_get<T>(entries: Seq<(Seq<u8>, T)>, capacity: nat, key: Seq<u8>, value: T)
    requires
        valid(entries, capacity),
    ensures
        get_result(after_insert(entries, capacity, key, value), key) == Some(value),
{
    let after = after_insert(entries, capacity, key, value);
    lemma_insert_keeps_valid(entries, capacity, key, value);
    assert(after[0] == (key, value));
    lemma_rank_unique(after, 0);
}

/// A miss changes nothing: `get` of an absent key returns nothing and leaves
/// the entries as they were, so that whatever follows behaves as if the call
/// had not been made.
pub proof fn lemma_miss_changes_nothing<T>(entries: Seq<(Seq<u8>, T)>, key: Seq<u8>)
    requires
        !has_key(entries, key),
    ensures
        get_result(entries, key) is None,
        after_get(entries, key) == entries,
{
}

} // verus!
