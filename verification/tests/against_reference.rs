use lru_cache::LruCache;

/// A list of entries kept in recency order, most recent first: slow, and
/// plain enough to be right by inspection.
struct Reference {
    capacity: usize,
    entries: Vec<(u16, u32)>,
    evictions: u64,
}

impl Reference {
    fn get(&mut self, key: u16) -> Option<u32> {
        let at = self.entries.iter().position(|entry| entry.0 == key)?;
        let entry = self.entries.remove(at);
        self.entries.insert(0, entry);
        Some(entry.1)
    }

    fn put(&mut self, key: u16, value: u32) {
        if let Some(at) = self.entries.iter().position(|entry| entry.0 == key) {
            self.entries.remove(at);
        } else if self.entries.len() == self.capacity {
            self.entries.pop();
            self.evictions += 1;
        }
        self.entries.insert(0, (key, value));
    }
}

fn next(seed: &mut u64) -> u64 {
    *seed = seed.wrapping_mul(6364136223846793005).wrapping_add(1442695040888963407);
    *seed >> 33
}

fn run_against_reference(capacity: usize, keys: u64, steps: u32, mut seed: u64) {
    let mut cache = LruCache::new(capacity);
    let mut reference = Reference { capacity, entries: Vec::new(), evictions: 0 };
    for step in 0..steps {
        let key = (next(&mut seed) % keys) as u16;
        if next(&mut seed) % 2 == 0 {
            assert_eq!(cache.get(&key).copied(), reference.get(key));
        } else {
            cache.put(key, step);
            reference.put(key, step);
        }
        assert_eq!(cache.len(), reference.entries.len());
        assert_eq!(cache.is_empty(), reference.entries.is_empty());
        assert_eq!(cache.eviction_count(), reference.evictions);
    }
    // Reading from the least recent entry up leaves the recency order as it
    // is at the end, and checks every entry on the way.
    let order: Vec<(u16, u32)> = reference.entries.iter().rev().copied().collect();
    for (key, value) in order {
        assert_eq!(cache.get(&key), Some(&value));
    }
    for key in 0..keys as u16 {
        let expected = reference.entries.iter().find(|entry| entry.0 == key).map(|entry| entry.1);
        assert_eq!(cache.get(&key).copied(), expected);
    }
}

#[test]
fn agrees_with_reference_small_capacity() {
    run_against_reference(1, 4, 2000, 1);
    run_against_reference(2, 5, 2000, 2);
    run_against_reference(3, 5, 2000, 3);
}

#[test]
fn agrees_with_reference_more_keys_than_room() {
    run_against_reference(8, 40, 5000, 11);
    run_against_reference(16, 17, 5000, 12);
}

#[test]
fn agrees_with_reference_room_for_every_key() {
    run_against_reference(32, 10, 3000, 21);
}
