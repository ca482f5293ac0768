//! The cache as a mathematical value.
//!
//! A cache is described by the keys it holds, listed from the most recently
//! used to the least recently used, the value stored under each of them, its
//! capacity, and the number of entries it has evicted. Every contract of the
//! executable cache is stated over this description.

use vstd::prelude::*;

verus! {

/// The abstract state of a bounded recency cache.
#[verifier::reject_recursive_types(K)]
pub struct CacheState<K, V> {
    /// The largest number of entries the cache may hold.
    pub capacity: nat,
    /// The live keys, most recently used first.
    pub order: Seq<K>,
    /// The value stored under each live key.
    pub values: Map<K, V>,
    /// How many entries have been evicted since construction.
    pub evictions: nat,
}

/// One call on a cache: a lookup of a key, or a store of a value under a key.
pub enum Access<K, V> {
    Get(K),
    Put(K, V),
}

impl<K, V> CacheState<K, V> {
    /// The state of a freshly constructed cache.
    pub open spec fn empty(capacity: nat) -> Self {
        CacheState { capacity, order: Seq::empty(), values: Map::empty(), evictions: 0 }
    }

    /// The number of live entries.
    pub open spec fn len(self) -> nat {
        self.order.len()
    }

    /// The capacity is positive and bounds the number of entries, no key
    /// occurs twice in the recency order, and the keys in the order are
    /// exactly the keys that have a value.
    pub open spec fn well_formed(self) -> bool {
        &&& 0 < self.capacity
        &&& self.order.len() <= self.capacity
        &&& self.order.no_duplicates()
        &&& forall|i: int|
            0 <= i < self.order.len() ==> self.values.contains_key(#[trigger] self.order[i])
        &&& forall|key: K| #[trigger] self.values.contains_key(key) ==> self.order.contains(key)
    }

    /// Whether `key` has a live entry.
    pub open spec fn contains_key(self, key: K) -> bool {
        self.values.contains_key(key)
    }

    /// The value stored under `key`, if any.
    pub open spec fn lookup(self, key: K) -> Option<V> {
        if self.values.contains_key(key) {
            Some(self.values[key])
        } else {
            None
        }
    }

    /// The position of `key` in the recency order: 0 for the most recently
    /// used key. Meaningful only when `key` has a live entry.
    pub open spec fn rank(self, key: K) -> int
        recommends
            self.contains_key(key),
    {
        self.order.index_of(key)
    }

    /// The state after an access to `key`: a live key moves to the front of
    /// the recency order, and a miss changes nothing.
    pub open spec fn promote(self, key: K) -> Self {
        if self.contains_key(key) {
            CacheState { order: seq![key] + self.order.remove(self.rank(key)), ..self }
        } else {
            self
        }
    }

    /// The state after dropping the least recently used entry, which counts
    /// as one eviction. An empty state stays as it is.
    pub open spec fn evict(self) -> Self {
        if self.order.len() == 0 {
            self
        } else {
            CacheState {
                order: self.order.drop_last(),
                values: self.values.remove(self.order.last()),
                evictions: self.evictions + 1,
                ..self
            }
        }
    }

    /// The state after storing `value` under `key`.
    ///
    /// A live key keeps its entry, which takes the new value and moves to the
    /// front. A new key gets a new entry at the front; if the cache was full,
    /// the least recently used entry is evicted first.
    pub open spec fn put(self, key: K, value: V) -> Self {
        if self.contains_key(key) {
            CacheState {
                order: seq![key] + self.order.remove(self.rank(key)),
                values: self.values.insert(key, value),
                ..self
            }
        } else {
            let room = if self.order.len() < self.capacity {
                self
            } else {
                self.evict()
            };
            CacheState {
                order: seq![key] + room.order,
                values: room.values.insert(key, value),
                ..room
            }
        }
    }

    /// The state after one call.
    pub open spec fn after(self, access: Access<K, V>) -> Self {
        match access {
            Access::Get(key) => self.promote(key),
            Access::Put(key, value) => self.put(key, value),
        }
    }

    /// The state after a sequence of calls, made first to last.
    pub open spec fn after_all(self, accesses: Seq<Access<K, V>>) -> Self
        decreases accesses.len(),
    {
        if accesses.len() == 0 {
            self
        } else {
            self.after_all(accesses.drop_last()).after(accesses.last())
        }
    }

    /// The keys of `pairs` differ from one another and none of them has a
    /// live entry.
    pub open spec fn distinct_new_keys(self, pairs: Seq<(K, V)>) -> bool {
        &&& forall|i: int| 0 <= i < pairs.len() ==> !self.contains_key((#[trigger] pairs[i]).0)
        &&& forall|i: int, j: int|
            0 <= i < j < pairs.len() ==> (#[trigger] pairs[i]).0 != (#[trigger] pairs[j]).0
    }

    /// The keys of `pairs`, from the last pair to the first.
    pub open spec fn newest_first(pairs: Seq<(K, V)>) -> Seq<K> {
        Seq::new(pairs.len(), |i: int| pairs[pairs.len() - 1 - i].0)
    }

    /// The state after storing each pair of `pairs` in turn, first to last.
    pub open spec fn put_all(self, pairs: Seq<(K, V)>) -> Self
        decreases pairs.len(),
    {
        if pairs.len() == 0 {
            self
        } else {
            self.put_all(pairs.drop_last()).put(pairs.last().0, pairs.last().1)
        }
    }
}

} // verus!
