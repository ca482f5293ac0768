//! The cache itself: a hash index over an arena of slots that are threaded
//! into a doubly linked recency list.

use crate::model::CacheState;
use std::collections::HashMap;
use std::hash::Hash;
use vstd::prelude::*;
use vstd::std_specs::hash::obeys_key_model;

verus! {

/// What the cache asks of its key type.
///
/// Two keys are equal to `==` exactly when they are the same value, hashing
/// a key always gives the same hash, and a clone of a key is that same key.
/// The integer types and `bool` meet this. For any other key type it is the
/// caller's claim, and nothing the cache promises holds without it.
pub open spec fn key_model<K: Clone>() -> bool {
    &&& obeys_key_model::<K>()
    &&& forall|a: K, b: K| #[trigger] cloned(a, b) ==> a == b
}

/// One slot of the arena: an entry and its neighbours in the recency list.
struct CacheNode<K, V> {
    key: K,
    value: V,
    prev: Option<usize>,
    next: Option<usize>,
}

/// A key-value cache of fixed capacity that evicts the least recently used
/// entry when a new key arrives and the cache is full.
///
/// Slots live in `nodes` and are never moved, so the hash index can refer to
/// them by position. A slot whose entry was evicted stays behind unused.
pub struct LruCache<K, V> {
    capacity: usize,
    map: HashMap<K, usize>,
    nodes: Vec<CacheNode<K, V>>,
    head: Option<usize>,
    tail: Option<usize>,
    eviction_count: u64,
    /// The slots in use, from the head of the recency list to its tail.
    order: Ghost<Seq<usize>>,
}

/// The slot at position `i` of `order`, or nothing past either end.
spec fn slot_at(order: Seq<usize>, i: int) -> Option<usize> {
    if 0 <= i < order.len() {
        Some(order[i])
    } else {
        None
    }
}

/// A cache stands for its capacity, its eviction count, the keys of the
/// slots in use, read off in recency order, and the value that the hash
/// index leads to from each key.
impl<K, V> View for LruCache<K, V> {
    type V = CacheState<K, V>;

    closed spec fn view(&self) -> CacheState<K, V> {
        CacheState {
            capacity: self.capacity as nat,
            order: Seq::new(self.order@.len(), |i: int| self.nodes[self.order@[i] as int].key),
            values: Map::new(
                |k: K| self.map@.contains_key(k),
                |k: K| self.nodes[self.map@[k] as int].value,
            ),
            evictions: self.eviction_count as nat,
        }
    }
}

impl<K, V> LruCache<K, V> {
    /// The recency list is threaded through the slots exactly as `order`
    /// says: `head` and `tail` are its ends, and each slot in use points to
    /// the slots before and after it.
    spec fn linked(&self) -> bool {
        let order = self.order@;
        &&& order.no_duplicates()
        &&& self.head == slot_at(order, 0)
        &&& self.tail == slot_at(order, order.len() - 1)
        &&& forall|i: int| 0 <= i < order.len() ==> #[trigger] self.linked_at(i)
    }

    /// The slot at position `i` of `order` exists and points to the slots at
    /// positions `i - 1` and `i + 1`.
    spec fn linked_at(&self, i: int) -> bool {
        let order = self.order@;
        &&& order[i] < self.nodes.len()
        &&& self.nodes[order[i] as int].prev == slot_at(order, i - 1)
        &&& self.nodes[order[i] as int].next == slot_at(order, i + 1)
    }

    /// The hash index knows exactly the keys of the slots in use, each under
    /// the position of its slot.
    spec fn indexed(&self) -> bool {
        let order = self.order@;
        &&& self.map@.len() == order.len()
        &&& forall|i: int| 0 <= i < order.len() ==> #[trigger] self.indexed_at(i)
        &&& forall|k: K| #[trigger]
            self.map@.contains_key(k) ==> {
                &&& order.contains(self.map@[k])
                &&& self.nodes[self.map@[k] as int].key == k
            }
    }

    /// The key of the slot at position `i` of `order` leads back to that
    /// slot.
    spec fn indexed_at(&self, i: int) -> bool {
        let key = self.nodes[self.order@[i] as int].key;
        &&& self.map@.contains_key(key)
        &&& self.map@[key] == self.order@[i]
    }

    /// Same slots, same keys and values, same index and counters as `other`;
    /// only the links may differ.
    spec fn same_contents(&self, other: &Self) -> bool {
        &&& self.capacity == other.capacity
        &&& self.map == other.map
        &&& self.eviction_count == other.eviction_count
        &&& self.nodes.len() == other.nodes.len()
        &&& forall|j: int|
            0 <= j < self.nodes.len() ==> {
                &&& (#[trigger] self.nodes[j]).key == other.nodes[j].key
                &&& self.nodes[j].value == other.nodes[j].value
            }
    }
}

impl<K: Clone + Eq + Hash, V> LruCache<K, V> {
    /// The representation invariant. `new` establishes it and every method
    /// keeps it.
    ///
    /// The capacity is positive and bounds the number of slots in use. Every
    /// slot is either in use or was left behind by an eviction, so the
    /// eviction count never outgrows the arena. The recency list and the
    /// hash index both cover exactly the slots in use.
    pub closed spec fn wf(&self) -> bool {
        &&& key_model::<K>()
        &&& 0 < self.capacity
        &&& self.order@.len() <= self.capacity
        &&& self.nodes.len() == self.order@.len() + self.eviction_count
        &&& self.linked()
        &&& self.indexed()
    }

    /// Creates an empty cache that holds up to `capacity` entries.
    ///
    /// `capacity` must be positive, and stays what it is for as long as the
    /// cache lives.
    pub fn new(capacity: usize) -> (cache: Self)
        requires
            capacity > 0,
            key_model::<K>(),
        ensures
            cache.wf(),
            cache@ == CacheState::<K, V>::empty(capacity as nat),
    {
        let cache = LruCache {
            capacity,
            map: HashMap::new(),
            nodes: Vec::new(),
            head: None,
            tail: None,
            eviction_count: 0,
            order: Ghost(Seq::empty()),
        };
        assert(cache@.order =~= Seq::empty());
        assert(cache@.values =~= Map::empty());
        cache
    }

    /// Looks `key` up. A hit makes the entry the most recently used one; a
    /// miss changes nothing.
    pub fn get(&mut self, key: &K) -> (result: Option<&V>)
        requires
            old(self).wf(),
        ensures
            final(self).wf(),
            final(self)@.well_formed(),
            final(self)@ == old(self)@.promote(*key),
            final(self)@.len() <= final(self)@.capacity,
            match result {
                Some(value) => old(self)@.lookup(*key) == Some(*value),
                None => old(self)@.lookup(*key) == None::<V>,
            },
    {
        if let Some(slot) = self.map.get(key) {
            let idx = *slot;
            let ghost p = self.order@.index_of(idx);
            proof {
                self.lemma_state();
                assert(self.linked_at(p));
            }
            self.move_to_front(idx);
            proof {
                self.lemma_promoted(old(self), p);
                self.lemma_state();
            }
            Some(&self.nodes[idx].value)
        } else {
            proof {
                self.lemma_state();
            }
            None
        }
    }

    /// Stores `value` under `key` and makes that entry the most recently
    /// used one.
    ///
    /// A key that is already present keeps its entry and takes the new value.
    /// A new key evicts the least recently used entry first if the cache is
    /// full.
    pub fn put(&mut self, key: K, value: V)
        requires
            old(self).wf(),
        ensures
            final(self).wf(),
            final(self)@.well_formed(),
            final(self)@ == old(self)@.put(key, value),
            final(self)@.len() <= final(self)@.capacity,
    {
        if let Some(slot) = self.map.get(&key) {
            let idx = *slot;
            let ghost p = self.order@.index_of(idx);
            proof {
                self.lemma_state();
                assert(self.linked_at(p));
            }
            self.nodes[idx].value = value;
            let ghost updated = *self;
            proof {
                updated.lemma_value_replaced(old(self), p, value);
            }
            self.move_to_front(idx);
            proof {
                self.lemma_promoted(&updated, p);
                self.lemma_state();
            }
            return ;
        }
        if self.map.len() >= self.capacity {
            self.evict_lru();
        }
        let ghost room = *self;
        proof {
            assert(room@ == old(self)@ || room@ == old(self)@.evict());
            assert(!room@.contains_key(key));
            assert(room@.order.len() == room.order@.len());
            assert(old(self)@.order.len() == old(self).order@.len());
        }
        let idx = self.nodes.len();
        let stored = key.clone();
        assert(cloned(key, stored));
        self.nodes.push(CacheNode { key: stored, value, prev: None, next: self.head });
        if let Some(old_head) = self.head {
            assert(room.linked_at(0));
            self.nodes[old_head].prev = Some(idx);
        }
        self.head = Some(idx);
        if self.tail.is_none() {
            self.tail = Some(idx);
        }
        self.map.insert(key, idx);
        self.order = Ghost(seq![idx] + room.order@);
        proof {
            self.lemma_inserted(&room, key, value);
            self.lemma_state();
        }
    }

    /// Returns the number of entries in the cache.
    pub fn len(&self) -> (n: usize)
        requires
            self.wf(),
        ensures
            n == self@.len(),
            n <= self@.capacity,
    {
        self.map.len()
    }

    /// Returns true if the cache holds no entry.
    pub fn is_empty(&self) -> (empty: bool)
        requires
            self.wf(),
        ensures
            empty == (self@.len() == 0),
    {
        self.map.is_empty()
    }

    /// Returns the number of entries evicted since the cache was created.
    pub fn eviction_count(&self) -> (n: u64)
        ensures
            n == self@.evictions,
    {
        self.eviction_count
    }

    /// The state of a well-formed cache is well-formed: it holds no key
    /// twice and no more entries than its capacity, which is positive.
    pub proof fn lemma_well_formed(&self)
        requires
            self.wf(),
        ensures
            self@.well_formed(),
    {
        self.lemma_state();
    }

    /// Makes the slot `idx` the head of the recency list.
    fn move_to_front(&mut self, idx: usize)
        requires
            old(self).linked(),
            old(self).order@.contains(idx),
        ensures
            final(self).linked(),
            final(self).order@ == seq![idx] + old(self).order@.remove(
                old(self).order@.index_of(idx),
            ),
            final(self).same_contents(old(self)),
    {
        let ghost p = self.order@.index_of(idx);
        assert(self.linked_at(p));
        if self.head == Some(idx) {
            assert(self.order@ =~= seq![idx] + self.order@.remove(p));
            return ;
        }
        self.detach(idx);
        let ghost rest = *self;
        self.nodes[idx].prev = None;
        self.nodes[idx].next = self.head;
        if let Some(old_head) = self.head {
            assert(rest.linked_at(0));
            self.nodes[old_head].prev = Some(idx);
        }
        self.head = Some(idx);
        self.order = Ghost(seq![idx] + rest.order@);
        proof {
            assert forall|i: int| 0 <= i < self.order@.len() implies #[trigger] self.linked_at(
                i,
            ) by {
                if i > 0 {
                    assert(rest.linked_at(i - 1));
                }
            }
        }
    }

    /// Takes the slot `idx` out of the recency list and joins its
    /// neighbours.
    fn detach(&mut self, idx: usize)
        requires
            old(self).linked(),
            old(self).order@.contains(idx),
        ensures
            final(self).linked(),
            final(self).order@ == old(self).order@.remove(old(self).order@.index_of(idx)),
            final(self).same_contents(old(self)),
    {
        let ghost order = self.order@;
        let ghost p = order.index_of(idx);
        assert(self.linked_at(p));
        let prev = self.nodes[idx].prev;
        let next = self.nodes[idx].next;
        if let Some(before) = prev {
            assert(self.linked_at(p - 1));
            self.nodes[before].next = next;
        }
        if let Some(after) = next {
            assert(old(self).linked_at(p + 1));
            self.nodes[after].prev = prev;
        }
        if self.tail == Some(idx) {
            self.tail = prev;
        }
        if self.head == Some(idx) {
            self.head = next;
        }
        self.order = Ghost(order.remove(p));
        proof {
            assert forall|i: int| 0 <= i < self.order@.len() implies #[trigger] self.linked_at(
                i,
            ) by {
                let j = if i < p { i } else { i + 1 };
                assert(old(self).linked_at(j));
            }
        }
    }

    /// Evicts the least recently used entry, if there is one.
    fn evict_lru(&mut self)
        requires
            old(self).wf(),
        ensures
            final(self).wf(),
            final(self)@ == old(self)@.evict(),
    {
        if let Some(tail_idx) = self.tail {
            let ghost order = self.order@;
            let ghost last = order.len() - 1;
            assert(self.linked_at(last));
            assert(self.indexed_at(last));
            let key = self.nodes[tail_idx].key.clone();
            assert(cloned(self.nodes[tail_idx as int].key, key));
            self.detach(tail_idx);
            let ghost mid = *self;
            self.map.remove(&key);
            self.eviction_count += 1;
            proof {
                assert(self.order@ =~= order.drop_last());
                assert forall|i: int| 0 <= i < self.order@.len() implies #[trigger] self.linked_at(
                    i,
                ) by {
                    assert(mid.linked_at(i));
                }
                assert forall|i: int| 0 <= i < self.order@.len() implies #[trigger]
                    self.indexed_at(i) by {
                    assert(old(self).indexed_at(i));
                    assert(old(self).linked_at(i));
                }
                assert forall|k: K| #[trigger] self.map@.contains_key(k) implies {
                    &&& self.order@.contains(self.map@[k])
                    &&& self.nodes[self.map@[k] as int].key == k
                } by {
                    let i = order.index_of(self.map@[k]);
                    assert(old(self).linked_at(i));
                    assert(self.order@[i] == self.map@[k]);
                }
                assert forall|i: int| 0 <= i < self.order@.len() implies #[trigger] self@.order[i]
                    == old(self)@.order[i] by {
                    assert(old(self).linked_at(i));
                }
                assert(self@.order =~= old(self)@.order.drop_last());
                assert forall|k: K| #[trigger] self.map@.contains_key(k) implies self@.values[k]
                    == old(self)@.values[k] by {
                    assert(old(self).linked_at(order.index_of(self.map@[k])));
                }
                assert(self@.values =~= old(self)@.values.remove(old(self)@.order.last()));
            }
        }
    }

    /// Replacing the value in the slot at position `p` of `order` changes
    /// that entry's value and nothing else.
    proof fn lemma_value_replaced(&self, before: &Self, p: int, value: V)
        requires
            before.linked(),
            before.indexed(),
            0 <= p < before.order@.len(),
            self.capacity == before.capacity,
            self.map == before.map,
            self.head == before.head,
            self.tail == before.tail,
            self.eviction_count == before.eviction_count,
            self.order == before.order,
            self.nodes@ == before.nodes@.update(
                before.order@[p] as int,
                CacheNode { value, ..before.nodes[before.order@[p] as int] },
            ),
        ensures
            self.linked(),
            self.indexed(),
            self@.order == before@.order,
            self@.values == before@.values.insert(before@.order[p], value),
    {
        assert(before.linked_at(p));
        assert forall|i: int| 0 <= i < self.order@.len() implies #[trigger] self.linked_at(i) by {
            assert(before.linked_at(i));
        }
        assert forall|i: int| 0 <= i < self.order@.len() implies #[trigger] self.indexed_at(i) by {
            assert(before.linked_at(i));
            assert(before.indexed_at(i));
        }
        assert forall|k: K| #[trigger] self.map@.contains_key(k) implies {
            &&& self.order@.contains(self.map@[k])
            &&& self.nodes[self.map@[k] as int].key == k
        } by {
            assert(before.linked_at(before.order@.index_of(self.map@[k])));
        }
        assert forall|i: int| 0 <= i < self.order@.len() implies #[trigger] self@.order[i]
            == before@.order[i] by {
            assert(before.linked_at(i));
        }
        assert(self@.order =~= before@.order);
        assert(before.indexed_at(p));
        assert forall|k: K| #[trigger] self.map@.contains_key(k) implies self@.values[k] == (if k
            == before@.order[p] {
            value
        } else {
            before@.values[k]
        }) by {
            assert(before.linked_at(before.order@.index_of(self.map@[k])));
        }
        assert(self@.values =~= before@.values.insert(before@.order[p], value));
    }

    /// Moving the slot at position `p` of `order` to the front moves its
    /// entry to the front and keeps the hash index right.
    proof fn lemma_promoted(&self, before: &Self, p: int)
        requires
            before.linked(),
            before.indexed(),
            0 <= p < before.order@.len(),
            self.order@ == seq![before.order@[p]] + before.order@.remove(p),
            self.same_contents(before),
        ensures
            self.indexed(),
            self@.order == seq![before@.order[p]] + before@.order.remove(p),
            self@.values == before@.values,
    {
        let keys = seq![before@.order[p]] + before@.order.remove(p);
        assert forall|i: int| 0 <= i < self.order@.len() implies #[trigger] self.indexed_at(i) by {
            let j = if i == 0 { p } else if i <= p { i - 1 } else { i };
            assert(before.indexed_at(j));
            assert(before.linked_at(j));
        }
        assert forall|i: int| 0 <= i < self.order@.len() implies #[trigger] self@.order[i]
            == keys[i] by {
            let j = if i == 0 { p } else if i <= p { i - 1 } else { i };
            assert(before.linked_at(j));
        }
        assert forall|k: K| #[trigger] self.map@.contains_key(k) implies {
            &&& self.order@.contains(self.map@[k])
            &&& self.nodes[self.map@[k] as int].key == k
        } by {
            let j = before.order@.index_of(self.map@[k]);
            assert(before.linked_at(j));
            let i = if j == p { 0 } else if j < p { j + 1 } else { j };
            assert(self.order@[i] == self.map@[k]);
        }
        assert(self@.order =~= keys);
        assert forall|k: K| #[trigger] self.map@.contains_key(k) implies self@.values[k]
            == before@.values[k] by {
            assert(before.linked_at(before.order@.index_of(self.map@[k])));
        }
        assert(self@.values =~= before@.values);
    }

    /// Linking a fresh slot for a new key in at the front puts its entry at
    /// the front of the state.
    proof fn lemma_inserted(&self, before: &Self, key: K, value: V)
        requires
            before.wf(),
            before.order@.len() < before.capacity,
            !before.map@.contains_key(key),
            self.capacity == before.capacity,
            self.eviction_count == before.eviction_count,
            self.order@ == seq![before.nodes.len() as usize] + before.order@,
            self.map@ == before.map@.insert(key, before.nodes.len() as usize),
            self.head == Some(before.nodes.len() as usize),
            self.tail == (if before.tail is None {
                self.head
            } else {
                before.tail
            }),
            self.nodes.len() == before.nodes.len() + 1,
            self.nodes[before.nodes.len() as int].key == key,
            self.nodes[before.nodes.len() as int].value == value,
            self.nodes[before.nodes.len() as int].prev == None::<usize>,
            self.nodes[before.nodes.len() as int].next == before.head,
            forall|j: int|
                0 <= j < before.nodes.len() ==> {
                    &&& (#[trigger] self.nodes[j]).key == before.nodes[j].key
                    &&& self.nodes[j].value == before.nodes[j].value
                    &&& self.nodes[j].next == before.nodes[j].next
                    &&& self.nodes[j].prev == (if before.head == Some(j as usize) {
                        self.head
                    } else {
                        before.nodes[j].prev
                    })
                },
        ensures
            self.wf(),
            self@ == (CacheState {
                order: seq![key] + before@.order,
                values: before@.values.insert(key, value),
                ..before@
            }),
    {
        assert forall|i: int| 0 <= i < before.order@.len() implies before.order@[i]
            < before.nodes.len() by {
            assert(before.linked_at(i));
        }
        assert forall|i: int| 0 <= i < self.order@.len() implies #[trigger] self.linked_at(i) by {
            if i > 0 {
                assert(before.linked_at(i - 1));
            }
        }
        assert forall|i: int| 0 <= i < self.order@.len() implies #[trigger] self.indexed_at(i) by {
            if i > 0 {
                assert(before.indexed_at(i - 1));
            }
        }
        assert forall|k: K| #[trigger] self.map@.contains_key(k) implies {
            &&& self.order@.contains(self.map@[k])
            &&& self.nodes[self.map@[k] as int].key == k
        } by {
            if k == key {
                assert(self.order@[0] == self.map@[k]);
            } else {
                let j = before.order@.index_of(before.map@[k]);
                assert(self.order@[j + 1] == self.map@[k]);
            }
        }
        assert(self@.order =~= seq![key] + before@.order);
        assert(self@.values =~= before@.values.insert(key, value));
    }

    /// On a well-formed cache the state is well-formed, and a live key
    /// stands in the recency order where its slot stands among the slots in
    /// use.
    proof fn lemma_state(&self)
        requires
            self.wf(),
        ensures
            self@.well_formed(),
            forall|k: K| #[trigger]
                self.map@.contains_key(k) ==> {
                    &&& 0 <= self@.rank(k) < self.order@.len()
                    &&& self.order@[self@.rank(k)] == self.map@[k]
                },
    {
        let order = self.order@;
        let keys = self@.order;
        assert forall|i: int, j: int| 0 <= i < keys.len() && 0 <= j < keys.len() && i
            != j implies keys[i] != keys[j] by {
            assert(self.indexed_at(i));
            assert(self.indexed_at(j));
        }
        assert forall|i: int| 0 <= i < keys.len() implies self@.values.contains_key(
            #[trigger] keys[i],
        ) by {
            assert(self.indexed_at(i));
        }
        assert forall|k: K| #[trigger] self.map@.contains_key(k) implies {
            &&& keys.contains(k)
            &&& 0 <= self@.rank(k) < order.len()
            &&& order[self@.rank(k)] == self.map@[k]
        } by {
            let p = order.index_of(self.map@[k]);
            assert(keys[p] == k);
            let r = self@.rank(k);
            assert(self.indexed_at(r));
        }
    }
}

} // verus!
