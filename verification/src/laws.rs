//! Laws of the cache, proved over its abstract state.
//!
//! The executable methods promise the state that `put` and `promote`
//! describe, so what is proved here of those two holds of every cache.

use crate::model::{Access, CacheState};
use vstd::prelude::*;

verus! {

/// A lookup keeps a well-formed state well-formed. It changes neither the
/// number of entries, nor the capacity, nor the eviction count, nor the value
/// found under any key.
pub proof fn lemma_promote_preserves<K, V>(state: CacheState<K, V>, key: K)
    requires
        state.well_formed(),
    ensures
        state.promote(key).well_formed(),
        state.promote(key).capacity == state.capacity,
        state.promote(key).len() == state.len(),
        state.promote(key).evictions == state.evictions,
        state.promote(key).values == state.values,
{
    let after = state.promote(key);
    if state.contains_key(key) {
        let r = state.rank(key);
        assert forall|i: int| 0 <= i < after.order.len() implies #[trigger] after.order[i]
            == state.order[origin(r, i)] by {}
        assert forall|other: K| #[trigger] after.values.contains_key(other) implies after.order.contains(
            other,
        ) by {
            let j = state.order.index_of(other);
            let i = if j == r { 0 } else if j < r { j + 1 } else { j };
            assert(after.order[i] == other);
        }
    }
}

/// A store keeps a well-formed state well-formed and leaves the capacity as
/// it was, so the number of entries stays within it. It evicts at most one
/// entry. Afterwards the key is the most recently used one and holds the
/// value.
pub proof fn lemma_put_preserves<K, V>(state: CacheState<K, V>, key: K, value: V)
    requires
        state.well_formed(),
    ensures
        state.put(key, value).well_formed(),
        state.put(key, value).capacity == state.capacity,
        state.put(key, value).len() <= state.capacity,
        state.evictions <= state.put(key, value).evictions <= state.evictions + 1,
        state.put(key, value).order[0] == key,
        state.put(key, value).lookup(key) == Some(value),
{
    let after = state.put(key, value);
    assert(after.order[0] == key);
    if state.contains_key(key) {
        let r = state.rank(key);
        assert forall|i: int| 0 < i < after.order.len() implies #[trigger] after.order[i]
            == state.order[origin(r, i)] by {}
        assert forall|other: K| #[trigger] after.values.contains_key(other) implies after.order.contains(
            other,
        ) by {
            let j = state.order.index_of(other);
            let i = if j == r { 0 } else if j < r { j + 1 } else { j };
            assert(after.order[i] == other);
        }
    } else {
        assert forall|i: int| 0 < i < after.order.len() implies #[trigger] after.order[i]
            == state.order[i - 1] by {}
        assert forall|other: K| #[trigger] after.values.contains_key(other) implies after.order.contains(
            other,
        ) by {
            if other != key {
                let j = state.order.index_of(other);
                assert(after.order[j + 1] == other);
            }
        }
    }
}

/// Storing under a key that is already live replaces its value and nothing
/// else: the number of entries, the eviction count and the value under every
/// other key stay as they were.
pub proof fn lemma_put_existing<K, V>(state: CacheState<K, V>, key: K, value: V)
    requires
        state.well_formed(),
        state.contains_key(key),
    ensures
        state.put(key, value).lookup(key) == Some(value),
        state.put(key, value).len() == state.len(),
        state.put(key, value).evictions == state.evictions,
        forall|other: K|
            other != key ==> #[trigger] state.put(key, value).lookup(other) == state.lookup(other),
{
}

/// Storing under a new key adds an entry. If the cache was full, the least
/// recently used entry is evicted to make room, which is counted; the value
/// under every other key stays as it was.
pub proof fn lemma_put_new<K, V>(state: CacheState<K, V>, key: K, value: V)
    requires
        state.well_formed(),
        !state.contains_key(key),
    ensures
        ({
            let after = state.put(key, value);
            let full = state.len() == state.capacity;
            &&& after.lookup(key) == Some(value)
            &&& after.len() == if full { state.len() } else { state.len() + 1 }
            &&& after.evictions == if full { state.evictions + 1 } else { state.evictions }
            &&& forall|other: K|
                other != key ==> #[trigger] after.lookup(other) == if full && other
                    == state.order.last() {
                    None
                } else {
                    state.lookup(other)
                }
        }),
{
}

/// With capacity 1 a store under a new key leaves that entry alone in the
/// cache: whatever was there before is evicted.
pub proof fn lemma_capacity_one<K, V>(state: CacheState<K, V>, key: K, value: V)
    requires
        state.well_formed(),
        state.capacity == 1,
        !state.contains_key(key),
    ensures
        state.put(key, value).order == seq![key],
        state.put(key, value).values == Map::<K, V>::empty().insert(key, value),
        state.put(key, value).evictions == state.evictions + state.len(),
{
    let after = state.put(key, value);
    lemma_put_preserves(state, key, value);
    assert(after.order =~= seq![key]);
    assert forall|other: K| #[trigger] after.values.contains_key(other) implies other == key by {
        assert(after.order[after.order.index_of(other)] == other);
    }
    assert(after.values =~= Map::<K, V>::empty().insert(key, value));
}

/// Two lookups of one key in a row find the same value, and the second
/// changes nothing at all. Neither changes the number of entries or the
/// eviction count.
pub proof fn lemma_get_twice<K, V>(state: CacheState<K, V>, key: K)
    requires
        state.well_formed(),
    ensures
        state.promote(key).lookup(key) == state.lookup(key),
        state.promote(key).promote(key) == state.promote(key),
        state.promote(key).len() == state.len(),
        state.promote(key).evictions == state.evictions,
{
    let once = state.promote(key);
    lemma_promote_preserves(state, key);
    if state.contains_key(key) {
        assert(once.order[0] == key);
        assert(once.rank(key) == 0);
        assert(once.promote(key).order =~= once.order);
    }
}

/// No sequence of calls takes a well-formed state out of the well-formed
/// ones or changes the capacity: the number of entries never exceeds it.
/// The eviction count never goes down.
pub proof fn lemma_len_bounded<K, V>(state: CacheState<K, V>, accesses: Seq<Access<K, V>>)
    requires
        state.well_formed(),
    ensures
        state.after_all(accesses).well_formed(),
        state.after_all(accesses).capacity == state.capacity,
        state.after_all(accesses).len() <= state.capacity,
        state.after_all(accesses).evictions >= state.evictions,
    decreases accesses.len(),
{
    if accesses.len() > 0 {
        lemma_len_bounded(state, accesses.drop_last());
        let before = state.after_all(accesses.drop_last());
        match accesses.last() {
            Access::Get(key) => lemma_promote_preserves(before, key),
            Access::Put(key, value) => lemma_put_preserves(before, key, value),
        }
    }
}

/// Storing distinct new keys stacks them in front of the old ones, the last
/// stored first, and evicts from the far end exactly what no longer fits.
/// Every key that is left holds its value: a new key the value it was stored
/// with, an old key the value it had.
pub proof fn lemma_put_all_new<K, V>(state: CacheState<K, V>, pairs: Seq<(K, V)>)
    requires
        state.well_formed(),
        state.distinct_new_keys(pairs),
    ensures
        ({
            let after = state.put_all(pairs);
            let stacked = CacheState::<K, V>::newest_first(pairs) + state.order;
            let kept = if stacked.len() <= state.capacity {
                stacked.len() as int
            } else {
                state.capacity as int
            };
            &&& after.well_formed()
            &&& after.capacity == state.capacity
            &&& after.order == stacked.take(kept)
            &&& after.evictions == state.evictions + stacked.len() - kept
            &&& forall|i: int|
                0 <= i < pairs.len() && after.contains_key((#[trigger] pairs[i]).0)
                    ==> after.values[pairs[i].0] == pairs[i].1
            &&& forall|key: K|
                state.contains_key(key) && #[trigger] after.contains_key(key) ==> after.values[key]
                    == state.values[key]
        }),
    decreases pairs.len(),
{
    let stacked = CacheState::<K, V>::newest_first(pairs) + state.order;
    let kept = if stacked.len() <= state.capacity {
        stacked.len() as int
    } else {
        state.capacity as int
    };
    if pairs.len() == 0 {
        assert(state.order =~= stacked.take(kept));
    } else {
        let earlier = pairs.drop_last();
        let (key, value) = pairs.last();
        assert forall|i: int| 0 <= i < earlier.len() implies #[trigger] earlier[i] == pairs[i] by {}
        lemma_put_all_new(state, earlier);
        let before = state.put_all(earlier);
        let stacked_before = CacheState::<K, V>::newest_first(earlier) + state.order;
        assert(stacked =~= seq![key] + stacked_before);
        if before.contains_key(key) {
            let i = before.rank(key);
            assert(before.order[i] == stacked_before[i]);
            if i < earlier.len() {
                assert(stacked_before[i] == earlier[earlier.len() - 1 - i].0);
                assert(pairs[earlier.len() - 1 - i].0 != pairs[pairs.len() - 1].0);
            } else {
                assert(stacked_before[i] == state.order[i - earlier.len()]);
            }
        }
        lemma_put_preserves(before, key, value);
        let after = state.put_all(pairs);
        assert(after.order =~= stacked.take(kept));
        assert forall|i: int|
            0 <= i < pairs.len() && after.contains_key((#[trigger] pairs[i]).0) implies after.values[pairs[i].0]
            == pairs[i].1 by {
            if i < earlier.len() {
                assert(earlier[i] == pairs[i]);
            }
        }
        assert forall|other: K|
            state.contains_key(other) && #[trigger] after.contains_key(other) implies after.values[other]
            == state.values[other] by {
            assert(before.contains_key(other));
        }
    }
}

/// Starting empty, storing one more distinct key than the capacity evicts
/// exactly the key stored first: it is gone, every later key is still
/// there with its value, and the eviction count is 1.
pub proof fn lemma_overflow_evicts_first<K, V>(capacity: nat, pairs: Seq<(K, V)>)
    requires
        capacity > 0,
        pairs.len() == capacity + 1,
        forall|i: int, j: int|
            0 <= i < j < pairs.len() ==> (#[trigger] pairs[i]).0 != (#[trigger] pairs[j]).0,
    ensures
        ({
            let after = CacheState::<K, V>::empty(capacity).put_all(pairs);
            &&& after.evictions == 1
            &&& after.len() == capacity
            &&& after.lookup(pairs[0].0) == None::<V>
            &&& forall|i: int|
                0 < i < pairs.len() ==> after.lookup((#[trigger] pairs[i]).0) == Some(pairs[i].1)
        }),
{
    let start = CacheState::<K, V>::empty(capacity);
    let after = start.put_all(pairs);
    lemma_put_all_new(start, pairs);
    assert forall|i: int| 0 <= i < after.order.len() implies #[trigger] after.order[i]
        == pairs[capacity - i].0 by {}
    if after.contains_key(pairs[0].0) {
        let i = after.rank(pairs[0].0);
        assert(pairs[capacity - i].0 != pairs[0].0);
    }
    assert forall|i: int| 0 < i < pairs.len() implies after.lookup((#[trigger] pairs[i]).0)
        == Some(pairs[i].1) by {
        assert(after.order[capacity - i] == pairs[i].0);
    }
}

/// A key that was just looked up survives the storing of distinct new keys,
/// as long as they are fewer than the capacity, and keeps its value.
pub proof fn lemma_recent_key_survives<K, V>(state: CacheState<K, V>, key: K, pairs: Seq<(K, V)>)
    requires
        state.well_formed(),
        state.contains_key(key),
        state.distinct_new_keys(pairs),
        pairs.len() < state.capacity,
    ensures
        state.promote(key).put_all(pairs).contains_key(key),
        state.promote(key).put_all(pairs).lookup(key) == state.lookup(key),
{
    let touched = state.promote(key);
    let after = touched.put_all(pairs);
    lemma_promote_preserves(state, key);
    lemma_put_all_new(touched, pairs);
    assert(after.order[pairs.len() as int] == touched.order[0]);
    assert(after.contains_key(key));
    assert(after.values[key] == touched.values[key]);
}

/// A key that is not looked up is gone once as many distinct new keys as
/// the capacity, or more, have been stored.
pub proof fn lemma_idle_key_evicted<K, V>(state: CacheState<K, V>, key: K, pairs: Seq<(K, V)>)
    requires
        state.well_formed(),
        state.contains_key(key),
        state.distinct_new_keys(pairs),
        pairs.len() >= state.capacity,
    ensures
        !state.put_all(pairs).contains_key(key),
{
    let after = state.put_all(pairs);
    lemma_put_all_new(state, pairs);
    if after.contains_key(key) {
        let i = after.rank(key);
        assert(after.order[i] == pairs[pairs.len() - 1 - i].0);
    }
}

/// Where the key at position `i` stood before the key at position `r` was
/// moved to the front.
spec fn origin(r: int, i: int) -> int {
    if i == 0 {
        r
    } else if i <= r {
        i - 1
    } else {
        i
    }
}

} // verus!
