//! A table keyed by 32-byte hashes.
//!
//! Block and transaction hashes are uniformly spread already, so the table
//! keeps its entries in buckets by the first eight bytes of the key and
//! tells the keys of one bucket apart by comparing them whole.

use crate::hash;
use std::collections::HashMap;
use vstd::prelude::*;

verus! {

broadcast use vstd::std_specs::hash::group_hash_axioms;

/// The value that `bucket` holds for `key`: that of the last entry under
/// that key.
pub open spec fn bucket_lookup<V>(bucket: Seq<(hash::Hash, V)>, key: hash::Hash) -> Option<V>
    decreases bucket.len(),
{
    if bucket.len() == 0 {
        None
    } else if bucket.last().0 == key {
        Some(bucket.last().1)
    } else {
        bucket_lookup(bucket.drop_last(), key)
    }
}

/// No two entries of `bucket` have the same key.
pub open spec fn bucket_distinct<V>(bucket: Seq<(hash::Hash, V)>) -> bool {
    forall|i: int, j: int|
        0 <= i < j < bucket.len() ==> (#[trigger] bucket[i]).0 != (#[trigger] bucket[j]).0
}

/// A bucket without an entry under `key` holds no value for it.
proof fn lemma_lookup_none<V>(bucket: Seq<(hash::Hash, V)>, key: hash::Hash)
    requires
        forall|i: int| 0 <= i < bucket.len() ==> (#[trigger] bucket[i]).0 != key,
    ensures
        bucket_lookup(bucket, key).is_none(),
    decreases bucket.len(),
{
    if bucket.len() > 0 {
        let front = bucket.drop_last();
        assert forall|i: int| 0 <= i < front.len() implies (#[trigger] front[i]).0 != key by {
            assert(front[i] == bucket[i]);
        }
        lemma_lookup_none(front, key);
    }
}

/// A bucket holds a value for the key of each of its entries: with
/// distinct keys, the value of that entry.
proof fn lemma_lookup_entry<V>(bucket: Seq<(hash::Hash, V)>, i: int)
    requires
        0 <= i < bucket.len(),
    ensures
        bucket_lookup(bucket, bucket[i].0).is_some(),
        bucket_distinct(bucket) ==> bucket_lookup(bucket, bucket[i].0) == Some(bucket[i].1),
    decreases bucket.len(),
{
    if i < bucket.len() - 1 {
        let front = bucket.drop_last();
        assert(front[i] == bucket[i]);
        if bucket_distinct(bucket) {
            assert(bucket[i].0 != bucket[bucket.len() - 1].0);
            assert forall|a: int, b: int| 0 <= a < b < front.len() implies (#[trigger] front[a]).0 != (
            #[trigger] front[b]).0 by {
                assert(front[a] == bucket[a] && front[b] == bucket[b]);
            }
        }
        lemma_lookup_entry(front, i);
    }
}

/// Without one of its entries, a bucket of distinct keys holds nothing for
/// the key of that entry and what it held for every other key.
proof fn lemma_lookup_remove<V>(bucket: Seq<(hash::Hash, V)>, i: int, key: hash::Hash)
    requires
        0 <= i < bucket.len(),
        bucket_distinct(bucket),
    ensures
        bucket_distinct(bucket.remove(i)),
        bucket_lookup(bucket.remove(i), key) == (if key == bucket[i].0 {
            None
        } else {
            bucket_lookup(bucket, key)
        }),
    decreases bucket.len(),
{
    let removed = bucket.remove(i);
    assert forall|a: int, b: int| 0 <= a < b < removed.len() implies (#[trigger] removed[a]).0 != (
    #[trigger] removed[b]).0 by {
        let a0 = if a < i {
            a
        } else {
            a + 1
        };
        let b0 = if b < i {
            b
        } else {
            b + 1
        };
        assert(removed[a] == bucket[a0] && removed[b] == bucket[b0]);
    }
    if key == bucket[i].0 {
        assert forall|a: int| 0 <= a < removed.len() implies (#[trigger] removed[a]).0 != key by {
            let a0 = if a < i {
                a
            } else {
                a + 1
            };
            assert(removed[a] == bucket[a0]);
            if a0 < i {
                assert(bucket[a0].0 != bucket[i].0);
            } else {
                assert(bucket[i].0 != bucket[a0].0);
            }
        }
        lemma_lookup_none(removed, key);
    } else if i == bucket.len() - 1 {
        assert(removed =~= bucket.drop_last());
    } else {
        let front = bucket.drop_last();
        assert(removed.last() == bucket.last());
        assert(removed.drop_last() =~= front.remove(i));
        assert(front[i] == bucket[i]);
        assert forall|a: int, b: int| 0 <= a < b < front.len() implies (#[trigger] front[a]).0 != (
        #[trigger] front[b]).0 by {
            assert(front[a] == bucket[a] && front[b] == bucket[b]);
        }
        lemma_lookup_remove(front, i, key);
    }
}

/// With one more entry under a new key, a bucket of distinct keys holds the
/// new value for that key and what it held for every other key.
proof fn lemma_lookup_push<V>(bucket: Seq<(hash::Hash, V)>, key: hash::Hash, value: V)
    requires
        bucket_distinct(bucket),
        bucket_lookup(bucket, key).is_none(),
    ensures
        bucket_distinct(bucket.push((key, value))),
        forall|other: hash::Hash|
            #[trigger] bucket_lookup(bucket.push((key, value)), other) == (if other == key {
                Some(value)
            } else {
                bucket_lookup(bucket, other)
            }),
{
    let pushed = bucket.push((key, value));
    assert(pushed.drop_last() =~= bucket);
    assert forall|a: int, b: int| 0 <= a < b < pushed.len() implies (#[trigger] pushed[a]).0 != (
    #[trigger] pushed[b]).0 by {
        assert(pushed[a] == bucket[a]);
        if b == bucket.len() {
            lemma_lookup_entry(bucket, a);
        } else {
            assert(pushed[b] == bucket[b]);
        }
    }
}

/// A table from hashes to values of type `V`.
pub struct HashTable<V> {
    buckets: HashMap<u64, Vec<(hash::Hash, V)>>,
}

impl<V> View for HashTable<V> {
    type V = Map<hash::Hash, V>;

    closed spec fn view(&self) -> Map<hash::Hash, V> {
        Map::new(
            |key: hash::Hash|
                self.buckets@.contains_key(key.w0) && bucket_lookup(
                    self.buckets@[key.w0]@,
                    key,
                ).is_some(),
            |key: hash::Hash| bucket_lookup(self.buckets@[key.w0]@, key).unwrap(),
        )
    }
}

/// The position of `key` in `bucket`.
fn position<V>(bucket: &Vec<(hash::Hash, V)>, key: &hash::Hash) -> (r: Option<usize>)
    ensures
        match r {
            Some(i) => i < bucket@.len() && bucket@[i as int].0 == *key,
            None => forall|j: int| 0 <= j < bucket@.len() ==> (#[trigger] bucket@[j]).0 != *key,
        },
{
    let mut i: usize = 0;
    while i < bucket.len()
        invariant
            i <= bucket@.len(),
            forall|j: int| 0 <= j < i ==> (#[trigger] bucket@[j]).0 != *key,
        decreases bucket@.len() - i,
    {
        if bucket[i].0 == *key {
            return Some(i);
        }
        i = i + 1;
    }
    None
}

impl<V> HashTable<V> {
    /// The invariant of the table: no key is held twice, and the table
    /// holds finitely many keys.
    pub closed spec fn wf(&self) -> bool {
        &&& forall|word: u64| #[trigger]
            self.buckets@.contains_key(word) ==> bucket_distinct(self.buckets@[word]@)
        &&& self@.dom().finite()
    }

    /// A table holds finitely many keys.
    pub proof fn lemma_finite(&self)
        requires
            self.wf(),
        ensures
            self@.dom().finite(),
    {
    }

    /// The empty table.
    pub fn new() -> (t: Self)
        ensures
            t.wf(),
            t@ == Map::<hash::Hash, V>::empty(),
    {
        let t = HashTable { buckets: HashMap::new() };
        proof {
            assert(t@ =~= Map::<hash::Hash, V>::empty());
        }
        t
    }

    /// Whether the table holds a value for `key`.
    pub fn contains_key(&self, key: &hash::Hash) -> (r: bool)
        requires
            self.wf(),
        ensures
            r == self@.contains_key(*key),
    {
        match self.buckets.get(&key.w0) {
            None => false,
            Some(bucket) => {
                match position(bucket, key) {
                    Some(i) => {
                        proof {
                            lemma_lookup_entry(bucket@, i as int);
                        }
                        true
                    },
                    None => {
                        proof {
                            lemma_lookup_none(bucket@, *key);
                        }
                        false
                    },
                }
            },
        }
    }

    /// The value that the table holds for `key`.
    pub fn get(&self, key: &hash::Hash) -> (r: Option<&V>)
        requires
            self.wf(),
        ensures
            match r {
                Some(value) => self@.contains_key(*key) && *value == self@[*key],
                None => !self@.contains_key(*key),
            },
    {
        match self.buckets.get(&key.w0) {
            None => None,
            Some(bucket) => {
                match position(bucket, key) {
                    Some(i) => {
                        proof {
                            lemma_lookup_entry(bucket@, i as int);
                        }
                        Some(&bucket[i].1)
                    },
                    None => {
                        proof {
                            lemma_lookup_none(bucket@, *key);
                        }
                        None
                    },
                }
            },
        }
    }

    /// Takes the value for `key` out of the table, if there is one.
    pub fn remove(&mut self, key: &hash::Hash) -> (r: Option<V>)
        requires
            old(self).wf(),
        ensures
            final(self).wf(),
            final(self)@ == old(self)@.remove(*key),
            r == (if old(self)@.contains_key(*key) {
                Some(old(self)@[*key])
            } else {
                None
            }),
    {
        let ghost before = self.buckets@;
        let mut bucket = match self.buckets.remove(&key.w0) {
            Some(b) => b,
            None => {
                proof {
                    assert(self@ =~= old(self)@.remove(*key));
                }
                return None;
            },
        };
        let ghost held = bucket@;
        match position(&bucket, key) {
            None => {
                self.buckets.insert(key.w0, bucket);
                proof {
                    lemma_lookup_none(held, *key);
                    assert(self.buckets@ =~= before);
                    assert(self@ =~= old(self)@.remove(*key));
                }
                None
            },
            Some(i) => {
                let entry = bucket.remove(i);
                proof {
                    lemma_lookup_entry(held, i as int);
                    assert forall|other: hash::Hash|
                        bucket_lookup(held.remove(i as int), other) == (if other == *key {
                            None
                        } else {
                            bucket_lookup(held, other)
                        }) by {
                        lemma_lookup_remove(held, i as int, other);
                    }
                    lemma_lookup_remove(held, i as int, *key);
                }
                if bucket.len() > 0 {
                    self.buckets.insert(key.w0, bucket);
                }
                proof {
                    assert(self@ =~= old(self)@.remove(*key));
                }
                Some(entry.1)
            },
        }
    }

    /// Puts `value` under `key` and returns the value that was there.
    pub fn insert(&mut self, key: hash::Hash, value: V) -> (r: Option<V>)
        requires
            old(self).wf(),
        ensures
            final(self).wf(),
            final(self)@ == old(self)@.insert(key, value),
            r == (if old(self)@.contains_key(key) {
                Some(old(self)@[key])
            } else {
                None
            }),
    {
        let previous = self.remove(&key);
        let ghost before = self.buckets@;
        let ghost middle = self@;
        let mut bucket = match self.buckets.remove(&key.w0) {
            Some(b) => b,
            None => Vec::new(),
        };
        let ghost held = bucket@;
        proof {
            assert(!middle.contains_key(key));
            assert(bucket_lookup(held, key).is_none());
            if !before.contains_key(key.w0) {
                assert(bucket_distinct(held));
            }
            lemma_lookup_push(held, key, value);
        }
        bucket.push((key, value));
        self.buckets.insert(key.w0, bucket);
        proof {
            assert(self@ =~= middle.insert(key, value)) by {
                assert forall|other: hash::Hash| #[trigger]
                    self@.contains_key(other) == middle.insert(key, value).contains_key(
                        other,
                    ) by {
                    if other.w0 == key.w0 {
                        assert(bucket_lookup(held.push((key, value)), other) == (if other
                            == key {
                            Some(value)
                        } else {
                            bucket_lookup(held, other)
                        }));
                    }
                }
                assert forall|other: hash::Hash| #[trigger]
                    self@.contains_key(other) implies self@[other] == middle.insert(
                    key,
                    value,
                )[other] by {
                    if other.w0 == key.w0 {
                        assert(bucket_lookup(held.push((key, value)), other) == (if other
                            == key {
                            Some(value)
                        } else {
                            bucket_lookup(held, other)
                        }));
                    }
                }
            }
            assert(middle.insert(key, value) =~= old(self)@.insert(key, value));
        }
        previous
    }
}

} // verus!
