//! The cache index: a hash mapping from byte-sequence keys to list handles.
//!
//! Keys are hashed with 64-bit FNV-1a. The table is keyed by that hash; each
//! of its buckets holds the keys that share a hash, beside their handles, and
//! a lookup compares keys byte for byte within the bucket. The hash is not
//! keyed: keys chosen to collide make a lookup as slow as a scan of their
//! bucket, but never wrong.

use std::collections::HashMap;
use vstd::prelude::*;
use vstd::slice::slice_to_vec;

verus! {

/// The FNV-1a offset basis for 64-bit hashes.
pub const FNV_OFFSET: u64 = 0xcbf2_9ce4_8422_2325;

/// The FNV-1a prime for 64-bit hashes.
pub const FNV_PRIME: u64 = 0x0000_0100_0000_01b3;

/// The 64-bit FNV-1a hash of `key`: starting from the offset basis, each byte
/// in turn is xor-ed in and the result multiplied by the prime, modulo 2^64.
pub open spec fn key_hash(key: Seq<u8>) -> u64
    decreases key.len(),
{
    if key.len() == 0 {
        FNV_OFFSET
    } else {
        (key_hash(key.drop_last()) ^ (key.last() as u64)).wrapping_mul(FNV_PRIME)
    }
}

/// Computes the 64-bit FNV-1a hash of `key`.
pub fn hash_key(key: &[u8]) -> (hash: u64)
    ensures
        hash == key_hash(key@),
{
    let mut hash: u64 = FNV_OFFSET;
    let mut i: usize = 0;
    while i < key.len()
        invariant
            i <= key@.len(),
            hash == key_hash(key@.take(i as int)),
        decreases key@.len() - i,
    {
        proof {
            assert(key@.take(i + 1).drop_last() =~= key@.take(i as int));
        }
        hash = (hash ^ (key[i] as u64)).wrapping_mul(FNV_PRIME);
        i += 1;
    }
    proof {
        assert(key@.take(i as int) =~= key@);
    }
    hash
}

/// Whether two byte sequences are equal, byte for byte.
pub fn bytes_equal(a: &[u8], b: &[u8]) -> (equal: bool)
    ensures
        equal <==> a@ == b@,
{
    if a.len() != b.len() {
        return false;
    }
    let mut i: usize = 0;
    while i < a.len()
        invariant
            a@.len() == b@.len(),
            i <= a@.len(),
            forall|j: int| 0 <= j < i ==> a@[j] == b@[j],
        decreases a@.len() - i,
    {
        if a[i] != b[i] {
            return false;
        }
        i += 1;
    }
    assert(a@ =~= b@);
    true
}

/// The position of `key` in `bucket`, if it has one.
fn find_in_bucket(bucket: &Vec<(Vec<u8>, usize)>, key: &[u8]) -> (found: Option<usize>)
    ensures
        match found {
            Some(i) => i < bucket@.len() && bucket@[i as int].0@ == key@,
            None => forall|j: int| 0 <= j < bucket@.len() ==> bucket@[j].0@ != key@,
        },
{
    let mut i: usize = 0;
    while i < bucket.len()
        invariant
            i <= bucket@.len(),
            forall|j: int| 0 <= j < i ==> bucket@[j].0@ != key@,
        decreases bucket@.len() - i,
    {
        if bytes_equal(bucket[i].0.as_slice(), key) {
            return Some(i);
        }
        i += 1;
    }
    None
}

/// A mapping from keys to handles. Its view is that mapping, with each key
/// taken as its sequence of bytes.
pub struct KeyIndex {
    buckets: HashMap<u64, Vec<(Vec<u8>, usize)>>,
    entries: Ghost<Map<Seq<u8>, usize>>,
}

impl View for KeyIndex {
    type V = Map<Seq<u8>, usize>;

    closed spec fn view(&self) -> Map<Seq<u8>, usize> {
        self.entries@
    }
}

/// Every entry of `bucket` hashes to `hash` and is recorded in `entries`, and
/// no key stands in the bucket twice.
spec fn bucket_agrees(bucket: Seq<(Vec<u8>, usize)>, hash: u64, entries: Map<Seq<u8>, usize>) -> bool {
    &&& forall|i: int|
        0 <= i < bucket.len() ==> {
            &&& key_hash(#[trigger] bucket[i].0@) == hash
            &&& entries.contains_key(bucket[i].0@)
            &&& entries[bucket[i].0@] == bucket[i].1
        }
    &&& forall|i: int, j: int|
        0 <= i < j < bucket.len() ==> #[trigger] bucket[i].0@ != #[trigger] bucket[j].0@
}

/// `bucket` holds an entry for `key`.
spec fn bucket_has(bucket: Seq<(Vec<u8>, usize)>, key: Seq<u8>) -> bool {
    exists|i: int| 0 <= i < bucket.len() && #[trigger] bucket[i].0@ == key
}

impl KeyIndex {
    /// Well-formedness: the buckets hold exactly the entries of the view, each
    /// under the hash of its key.
    pub closed spec fn wf(&self) -> bool {
        &&& self.entries@.dom().finite()
        &&& forall|hash: u64| #[trigger]
            self.buckets@.contains_key(hash) ==> bucket_agrees(self.buckets@[hash]@, hash, self.entries@)
        &&& forall|key: Seq<u8>| #[trigger]
            self.entries@.contains_key(key) ==> {
                &&& self.buckets@.contains_key(key_hash(key))
                &&& bucket_has(self.buckets@[key_hash(key)]@, key)
            }
    }

    /// A well-formed index holds finitely many keys.
    pub proof fn lemma_finite(&self)
        requires
            self.wf(),
        ensures
            self@.dom().finite(),
    {
    }

    /// An index without entries.
    pub fn new() -> (index: Self)
        ensures
            index.wf(),
            index@ == Map::<Seq<u8>, usize>::empty(),
    {
        Self { buckets: HashMap::new(), entries: Ghost(Map::empty()) }
    }

    /// The handle recorded for `key`, if there is one.
    pub fn get(&self, key: &[u8]) -> (handle: Option<usize>)
        requires
            self.wf(),
        ensures
            handle == (if self@.contains_key(key@) {
                Some(self@[key@])
            } else {
                None
            }),
    {
        let hash = hash_key(key);
        match self.buckets.get(&hash) {
            Some(bucket) => {
                match find_in_bucket(bucket, key) {
                    Some(i) => Some(bucket[i].1),
                    None => None,
                }
            },
            None => None,
        }
    }

    /// Records `handle` for `key` and returns the handle that `key` had before,
    /// if it had one.
    pub fn insert(&mut self, key: &[u8], handle: usize) -> (before: Option<usize>)
        requires
            old(self).wf(),
        ensures
            final(self).wf(),
            final(self)@ == old(self)@.insert(key@, handle),
            before == (if old(self)@.contains_key(key@) {
                Some(old(self)@[key@])
            } else {
                None
            }),
    {
        let ghost prior = *self;
        let hash = hash_key(key);
        let mut bucket = match self.buckets.remove(&hash) {
            Some(bucket) => bucket,
            None => Vec::new(),
        };
        let ghost prior_bucket = bucket@;
        let before = match find_in_bucket(&bucket, key) {
            Some(i) => {
                let before = bucket[i].1;
                bucket[i].1 = handle;
                Some(before)
            },
            None => {
                bucket.push((slice_to_vec(key), handle));
                None
            },
        };
        let ghost new_bucket = bucket@;
        self.buckets.insert(hash, bucket);
        proof {
            self.entries = Ghost(prior.entries@.insert(key@, handle));
            let entries = self.entries@;
            assert(bucket_agrees(new_bucket, hash, entries)) by {
                if prior.buckets@.contains_key(hash) {
                    assert(bucket_agrees(prior_bucket, hash, prior.entries@));
                }
            }
            assert forall|other: u64| #[trigger] self.buckets@.contains_key(other) implies bucket_agrees(
                self.buckets@[other]@,
                other,
                entries,
            ) by {
                if other != hash {
                    assert(prior.buckets@.contains_key(other));
                    assert(bucket_agrees(prior.buckets@[other]@, other, prior.entries@));
                }
            }
            assert forall|k: Seq<u8>| #[trigger] entries.contains_key(k) implies self.buckets@.contains_key(
                key_hash(k),
            ) && bucket_has(self.buckets@[key_hash(k)]@, k) by {
                if k == key@ {
                    match before {
                        Some(_) => {
                            let i = choose|i: int| 0 <= i < new_bucket.len() && new_bucket[i].0@ == key@;
                            assert(new_bucket[i].0@ == k);
                        },
                        None => {
                            assert(new_bucket[new_bucket.len() - 1].0@ == k);
                        },
                    }
                } else {
                    assert(prior.entries@.contains_key(k));
                    if key_hash(k) == hash {
                        let i = choose|i: int| 0 <= i < prior_bucket.len() && #[trigger] prior_bucket[i].0@ == k;
                        assert(new_bucket[i].0@ == k);
                    } else {
                        assert(prior.buckets@.contains_key(key_hash(k)));
                    }
                }
            }
        }
        before
    }

    /// Forgets `key` and returns the handle that it had, if it had one.
    pub fn remove(&mut self, key: &[u8]) -> (before: Option<usize>)
        requires
            old(self).wf(),
        ensures
            final(self).wf(),
            final(self)@ == old(self)@.remove(key@),
            before == (if old(self)@.contains_key(key@) {
                Some(old(self)@[key@])
            } else {
                None
            }),
    {
        let ghost prior = *self;
        let hash = hash_key(key);
        let mut bucket = match self.buckets.remove(&hash) {
            Some(bucket) => bucket,
            None => {
                proof {
                    assert(self.entries@.remove(key@) =~= self.entries@);
                }
                return None;
            },
        };
        let ghost prior_bucket = bucket@;
        assert(bucket_agrees(prior_bucket, hash, prior.entries@));
        let found = find_in_bucket(&bucket, key);
        let before = match found {
            Some(i) => {
                let entry = bucket.swap_remove(i);
                Some(entry.1)
            },
            None => None,
        };
        let ghost new_bucket = bucket@;
        if bucket.len() > 0 {
            self.buckets.insert(hash, bucket);
        }
        proof {
            self.entries = Ghost(prior.entries@.remove(key@));
            let entries = self.entries@;
            if before is None {
                assert(!prior.entries@.contains_key(key@)) by {
                    if prior.entries@.contains_key(key@) {
                        assert(bucket_has(prior_bucket, key@));
                    }
                }
                assert(entries =~= prior.entries@);
            }
            assert(bucket_agrees(new_bucket, hash, entries));
            assert forall|other: u64| #[trigger] self.buckets@.contains_key(other) implies bucket_agrees(
                self.buckets@[other]@,
                other,
                entries,
            ) by {
                if other != hash {
                    assert(prior.buckets@.contains_key(other));
                    assert(bucket_agrees(prior.buckets@[other]@, other, prior.entries@));
                }
            }
            assert forall|k: Seq<u8>| #[trigger] entries.contains_key(k) implies self.buckets@.contains_key(
                key_hash(k),
            ) && bucket_has(self.buckets@[key_hash(k)]@, k) by {
                assert(prior.entries@.contains_key(k));
                if key_hash(k) == hash {
                    let i = choose|i: int| 0 <= i < prior_bucket.len() && #[trigger] prior_bucket[i].0@ == k;
                    match found {
                        Some(at) => {
                            if i == prior_bucket.len() - 1 {
                                assert(new_bucket[at as int].0@ == k);
                            } else {
                                assert(new_bucket[i].0@ == k);
                            }
                        },
                        None => {
                            assert(new_bucket[i].0@ == k);
                        },
                    }
                } else {
                    assert(prior.buckets@.contains_key(key_hash(k)));
                }
            }
        }
        before
    }
}

} // verus!
