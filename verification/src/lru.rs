//! A fixed-capacity cache from byte-sequence keys to values that evicts the
//! least recently used entry when it is full.
//!
//! The cache keeps a recency list of its entries and an index from each key to
//! the handle of its entry in that list. Every operation changes both
//! together, so that they never disagree.

use crate::index::KeyIndex;
pub use crate::list::{Iter, LinkedList, Node};
use crate::model::{
    after_get, after_insert, distinct_keys, get_result, has_key, insert_result, lemma_rank_unique, rank_of, valid,
};
use vstd::prelude::*;
use vstd::slice::slice_to_vec;

verus! {

/// One entry of the cache: a key and the value stored under it. Its view is
/// the pair of the key's bytes and the value.
pub struct LRUEntry<T> {
    key: Vec<u8>,
    value: T,
}

impl<T> View for LRUEntry<T> {
    type V = (Seq<u8>, T);

    closed spec fn view(&self) -> (Seq<u8>, T) {
        (self.key@, self.value)
    }
}

impl<T> LRUEntry<T> {
    /// An entry that stores `value` under a copy of `key`.
    pub fn new(key: &[u8], value: T) -> (entry: Self)
        ensures
            entry@ == (key@, value),
    {
        Self { key: slice_to_vec(key), value }
    }

    /// The key of this entry.
    pub fn key(&self) -> (key: &[u8])
        ensures
            key@ == self@.0,
    {
        self.key.as_slice()
    }

    /// The value of this entry.
    pub fn value(&self) -> (value: &T)
        ensures
            *value == self@.1,
    {
        &self.value
    }
}

/// Why a cache could not be made.
#[derive(Debug, Clone, Copy, PartialEq, Eq)]
pub enum ConfigError {
    /// The capacity was zero: such a cache could hold nothing.
    ZeroCapacity,
}

/// A cache that holds at most `capacity` entries. Its view is the sequence of
/// its entries from most recently used to least recently used.
pub struct LRUCache<T> {
    map: KeyIndex,
    list: LinkedList<LRUEntry<T>>,
    capacity: usize,
}

impl<T> View for LRUCache<T> {
    type V = Seq<(Seq<u8>, T)>;

    closed spec fn view(&self) -> Seq<(Seq<u8>, T)> {
        self.list@.map_values(|entry: LRUEntry<T>| entry@)
    }
}

impl<T> LRUCache<T> {
    /// The largest number of entries that the cache holds.
    pub closed spec fn spec_capacity(&self) -> usize {
        self.capacity
    }

    /// The index: for each key of the cache, the handle of its node in the
    /// recency list.
    pub closed spec fn index(&self) -> Map<Seq<u8>, usize> {
        self.map@
    }

    /// The handles of the nodes of the recency list, position by position.
    pub closed spec fn handles(&self) -> Seq<usize> {
        self.list.handles()
    }

    /// Well-formedness: list and index are each well-formed and hold the same
    /// keys, the index names for each key the node that carries it, and the
    /// capacity is positive and not exceeded.
    pub closed spec fn wf(&self) -> bool {
        &&& self.map.wf()
        &&& self.list.wf()
        &&& 0 < self.capacity
        &&& self.list@.len() <= self.capacity
        &&& self.map@.dom().len() == self.list@.len()
        &&& forall|i: int|
            0 <= i < self.list@.len() ==> {
                &&& self.map@.contains_key(#[trigger] self.list@[i]@.0)
                &&& self.map@[self.list@[i]@.0] == self.list.handles()[i]
            }
        &&& forall|key: Seq<u8>| #[trigger] self.map@.contains_key(key) ==> has_key(self@, key)
    }

    /// In every well-formed cache the list is as long as the index is large,
    /// and neither exceeds the capacity, which is positive. No key occurs
    /// twice.
    pub proof fn lemma_sizes_agree(&self)
        requires
            self.wf(),
        ensures
            self.index().dom().finite(),
            self.handles().len() == self@.len(),
            self@.len() == self.index().dom().len(),
            self@.len() <= self.capacity(),
            valid(self@, self.capacity() as nat),
    {
        self.map.lemma_finite();
        self.list.lemma_handles_distinct();
        self.lemma_keys_distinct();
    }

    /// In every well-formed cache the index holds exactly the keys of the
    /// list, the list holds each of them exactly once, and the index names the
    /// handle of the node that carries the key.
    pub proof fn lemma_index_agrees(&self)
        requires
            self.wf(),
        ensures
            forall|key: Seq<u8>| self.index().contains_key(key) <==> has_key(self@, key),
            distinct_keys(self@),
            forall|i: int|
                0 <= i < self@.len() ==> rank_of(self@, #[trigger] self@[i].0) == i && self.index()[self@[i].0]
                    == self.handles()[i],
            self.handles().no_duplicates(),
    {
        self.list.lemma_handles_distinct();
        self.lemma_keys_distinct();
        assert forall|i: int| 0 <= i < self@.len() implies rank_of(self@, #[trigger] self@[i].0) == i
            && self.index()[self@[i].0] == self.handles()[i] by {
            lemma_rank_unique(self@, i);
            assert(self@[i].0 == self.list@[i]@.0);
        }
        assert forall|key: Seq<u8>| has_key(self@, key) implies self.index().contains_key(key) by {
            let i = rank_of(self@, key);
            assert(self@[i].0 == self.list@[i]@.0);
        }
    }

    proof fn lemma_keys_distinct(&self)
        requires
            self.wf(),
        ensures
            distinct_keys(self@),
    {
        self.list.lemma_handles_distinct();
        assert forall|i: int, j: int| 0 <= i < j < self@.len() implies #[trigger] self@[i].0 != #[trigger] self@[j].0 by {
            assert(self@[i].0 == self.list@[i]@.0);
            assert(self@[j].0 == self.list@[j]@.0);
            assert(self.list.handles()[i] != self.list.handles()[j]);
        }
    }

    /// The position in the list of the node that the index names for a key.
    proof fn lemma_handle_rank(&self, key: Seq<u8>)
        requires
            self.wf(),
            self.map@.contains_key(key),
        ensures
            has_key(self@, key),
            0 <= rank_of(self@, key) < self.list@.len(),
            self.list.handles().contains(self.map@[key]),
            self.list.handles().index_of(self.map@[key]) == rank_of(self@, key),
            self.list@[rank_of(self@, key)]@.0 == key,
    {
        self.list.lemma_handles_distinct();
        let rank = rank_of(self@, key);
        assert(self@[rank].0 == self.list@[rank]@.0);
        let handles = self.list.handles();
        assert(handles[rank] == self.map@[key]);
        let at = handles.index_of(self.map@[key]);
        assert(at == rank);
    }

    /// An empty cache that holds at most `capacity` entries.
    pub fn new(capacity: usize) -> (cache: Self)
        requires
            capacity > 0,
        ensures
            cache.wf(),
            cache@ == Seq::<(Seq<u8>, T)>::empty(),
            cache.capacity() == capacity,
    {
        let cache = Self { map: KeyIndex::new(), list: LinkedList::new(), capacity };
        assert(cache@ =~= Seq::<(Seq<u8>, T)>::empty());
        cache
    }

    /// An empty cache that holds at most `capacity` entries, or an error where
    /// `capacity` is zero.
    pub fn try_new(capacity: usize) -> (made: Result<Self, ConfigError>)
        ensures
            capacity == 0 <==> made is Err,
            made is Err ==> made->Err_0 == ConfigError::ZeroCapacity,
            made is Ok ==> made->Ok_0.wf() && made->Ok_0@ == Seq::<(Seq<u8>, T)>::empty() && made->Ok_0.capacity()
                == capacity,
    {
        if capacity == 0 {
            Err(ConfigError::ZeroCapacity)
        } else {
            Ok(Self::new(capacity))
        }
    }

    /// The largest number of entries that the cache holds.
    #[verifier::when_used_as_spec(spec_capacity)]
    pub fn capacity(&self) -> (capacity: usize)
        ensures
            capacity == self.spec_capacity(),
    {
        self.capacity
    }

    /// The number of entries in the cache.
    pub fn len(&self) -> (n: usize)
        requires
            self.wf(),
        ensures
            n == self@.len(),
    {
        self.list.len()
    }

    /// A traversal of the entries from most recently used to least recently
    /// used. It changes nothing.
    pub fn iter(&self) -> (iter: Iter<'_, LRUEntry<T>>)
        requires
            self.wf(),
        ensures
            iter.wf(),
            iter@.map_values(|entry: LRUEntry<T>| entry@) == self@,
    {
        self.list.iter()
    }

    /// Looks `key` up. On a hit the entry becomes the most recently used one
    /// and its value is returned; on a miss nothing changes.
    pub fn get(&mut self, key: &[u8]) -> (value: Option<&T>)
        requires
            old(self).wf(),
        ensures
            final(self).wf(),
            final(self).capacity() == old(self).capacity(),
            final(self)@ == after_get(old(self)@, key@),
            match value {
                Some(value) => get_result(old(self)@, key@) == Some(*value),
                None => get_result(old(self)@, key@) is None,
            },
    {
        let ghost before = *self;
        match self.map.get(key) {
            Some(handle) => {
                proof {
                    before.lemma_handle_rank(key@);
                }
                self.list.reinsert_front(handle);
                proof {
                    let rank = rank_of(before@, key@);
                    assert(self@ =~= after_get(before@, key@));
                    self.lemma_moved_to_front(before, rank);
                    self.list.lemma_handles_distinct();
                    assert(self.list.handles()[0] == handle);
                    assert(self.list.handles().index_of(handle) == 0);
                    assert(self.list@[0] == before.list@[rank]);
                    assert(before@[rank] == before.list@[rank]@);
                }
                let entry = self.list.get(handle);
                Some(entry.value())
            },
            None => {
                proof {
                    if has_key(before@, key@) {
                        let rank = rank_of(before@, key@);
                        assert(before@[rank].0 == before.list@[rank]@.0);
                    }
                }
                None
            },
        }
    }

    /// After the node at position `rank` has moved to the front and nothing
    /// else has changed, the cache is well-formed again.
    proof fn lemma_moved_to_front(&self, before: Self, rank: int)
        requires
            before.wf(),
            0 <= rank < before.list@.len(),
            self.list.wf(),
            self.map == before.map,
            self.capacity == before.capacity,
            self.list@ == seq![before.list@[rank]] + before.list@.remove(rank),
            self.list.handles() == seq![before.list.handles()[rank]] + before.list.handles().remove(rank),
        ensures
            self.wf(),
    {
        before.list.lemma_handles_distinct();
        let from = |p: int| if p == 0 { rank } else if p <= rank { p - 1 } else { p };
        assert forall|i: int| 0 <= i < self.list@.len() implies {
            &&& self.map@.contains_key(#[trigger] self.list@[i]@.0)
            &&& self.map@[self.list@[i]@.0] == self.list.handles()[i]
        } by {
            assert(self.list@[i] == before.list@[from(i)]);
            assert(self.list.handles()[i] == before.list.handles()[from(i)]);
        }
        assert forall|key: Seq<u8>| #[trigger] self.map@.contains_key(key) implies has_key(self@, key) by {
            assert(has_key(before@, key));
            let q = rank_of(before@, key);
            let p = if q == rank { 0 } else if q < rank { q + 1 } else { q };
            assert(self.list@[p] == before.list@[q]);
            assert(self@[p].0 == key);
        }
    }

    /// Stores `value` under `key` and makes that entry the most recently used
    /// one. Returns the value that `key` had before; or, where `key` is new
    /// and the cache was full, the value of the least recently used entry,
    /// which is evicted; or nothing.
    pub fn insert(&mut self, key: &[u8], value: T) -> (displaced: Option<T>)
        requires
            old(self).wf(),
        ensures
            final(self).wf(),
            final(self).capacity() == old(self).capacity(),
            final(self)@ == after_insert(old(self)@, old(self).capacity() as nat, key@, value),
            displaced == insert_result(old(self)@, old(self).capacity() as nat, key@),
    {
        let ghost before = *self;
        let new_node = Node::new(LRUEntry::new(key, value));
        proof {
            before.map.lemma_finite();
            before.list.lemma_handles_distinct();
        }
        match self.map.get(key) {
            Some(handle) => {
                proof {
                    before.lemma_handle_rank(key@);
                }
                let ghost rank = rank_of(before@, key@);
                let replaced = self.list.remove(handle);
                let ghost removed = self.list;
                let new_handle = self.list.insert_front_raw(new_node);
                self.map.insert(key, new_handle);
                proof {
                    assert(self@ =~= after_insert(before@, before.capacity as nat, key@, value));
                    assert(before.map@.dom().insert(key@) =~= before.map@.dom());
                    let from = |p: int| if p <= rank { p - 1 } else { p };
                    assert forall|i: int| 0 <= i < self.list@.len() implies {
                        &&& self.map@.contains_key(#[trigger] self.list@[i]@.0)
                        &&& self.map@[self.list@[i]@.0] == self.list.handles()[i]
                    } by {
                        if i > 0 {
                            assert(self.list@[i] == removed@[i - 1]);
                            assert(removed@[i - 1] == before.list@[from(i)]);
                            assert(self.list.handles()[i] == before.list.handles()[from(i)]);
                            assert(before@[from(i)].0 == before.list@[from(i)]@.0);
                            lemma_rank_unique(before@, rank);
                            before.lemma_keys_distinct();
                            lemma_rank_unique(before@, from(i));
                        }
                    }
                    assert forall|k: Seq<u8>| #[trigger] self.map@.contains_key(k) implies has_key(self@, k) by {
                        if k == key@ {
                            assert(self@[0].0 == k);
                        } else {
                            assert(has_key(before@, k));
                            let q = rank_of(before@, k);
                            let p = if q < rank { q + 1 } else { q };
                            assert(self@[p] == before@[q]);
                            assert(self@[p].0 == k);
                        }
                    }
                }
                Some(replaced.value)
            },
            None => {
                proof {
                    if has_key(before@, key@) {
                        let r = rank_of(before@, key@);
                        assert(before@[r].0 == before.list@[r]@.0);
                    }
                }
                let mut displaced = None;
                if self.list.len() >= self.capacity {
                    if let Some(entry) = self.list.remove_tail() {
                        proof {
                            let last = before.list@.len() - 1;
                            assert(before@[last].0 == before.list@[last]@.0);
                            assert(before.map@.contains_key(entry@.0));
                        }
                        self.map.remove(entry.key.as_slice());
                        displaced = Some(entry.value);
                    }
                }
                let ghost evicted = *self;
                proof {
                    assert(evicted.map@.dom().len() == evicted.list@.len());
                    assert(!evicted.map@.contains_key(key@));
                    assert forall|i: int| 0 <= i < evicted.list@.len() implies {
                        &&& evicted.map@.contains_key(#[trigger] evicted.list@[i]@.0)
                        &&& evicted.map@[evicted.list@[i]@.0] == evicted.list.handles()[i]
                    } by {
                        assert(evicted.list@[i] == before.list@[i]);
                        if displaced is Some {
                            before.lemma_keys_distinct();
                            let last = before.list@.len() - 1;
                            assert(before@[i].0 == before.list@[i]@.0);
                            assert(before@[last].0 == before.list@[last]@.0);
                            assert(before@[i].0 != before@[last].0);
                        }
                    }
                }
                let new_handle = self.list.insert_front_raw(new_node);
                self.map.insert(key, new_handle);
                proof {
                    assert(self@ =~= after_insert(before@, before.capacity as nat, key@, value));
                    assert forall|i: int| 0 <= i < self.list@.len() implies {
                        &&& self.map@.contains_key(#[trigger] self.list@[i]@.0)
                        &&& self.map@[self.list@[i]@.0] == self.list.handles()[i]
                    } by {
                        if i > 0 {
                            assert(self.list@[i] == evicted.list@[i - 1]);
                            assert(self.list.handles()[i] == evicted.list.handles()[i - 1]);
                        }
                    }
                    assert forall|k: Seq<u8>| #[trigger] self.map@.contains_key(k) implies has_key(self@, k) by {
                        if k == key@ {
                            assert(self@[0].0 == k);
                        } else {
                            assert(before.map@.contains_key(k));
                            assert(has_key(before@, k));
                            let q = rank_of(before@, k);
                            assert(before@[q].0 == before.list@[q]@.0);
                            assert(q < evicted.list@.len());
                            assert(self@[q + 1] == before@[q]);
                            assert(self@[q + 1].0 == k);
                        }
                    }
                }
                displaced
            },
        }
    }
}

} // verus!
