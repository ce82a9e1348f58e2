use gameserver::cache::LruCache;
use gameserver::model::Access;
use std::cell::Cell;
use std::rc::Rc;

/// The cache as a list, most recently used first: what the tests hold the
/// real one against.
struct Reference {
    capacity: usize,
    entries: Vec<(u32, u64)>,
}

impl Reference {
    fn new(capacity: usize) -> Self {
        Reference { capacity, entries: Vec::new() }
    }

    fn read(&mut self, key: u32) -> Option<u64> {
        let at = self.entries.iter().position(|e| e.0 == key)?;
        let entry = self.entries.remove(at);
        self.entries.insert(0, entry);
        Some(entry.1)
    }

    fn write(&mut self, key: u32, created: Option<u64>, add: u64) -> Access {
        if let Some(at) = self.entries.iter().position(|e| e.0 == key) {
            let entry = self.entries.remove(at);
            self.entries.insert(0, (entry.0, entry.1.wrapping_add(add)));
            return Access::Refreshed;
        }
        match created {
            None => Access::Declined,
            Some(value) => {
                if self.capacity > 0 {
                    if self.entries.len() == self.capacity {
                        self.entries.pop();
                    }
                    self.entries.insert(0, (key, value.wrapping_add(add)));
                }
                Access::Created
            }
        }
    }
}

fn next(state: &mut u64) -> u64 {
    *state = state.wrapping_mul(6364136223846793005).wrapping_add(1442695040888963407);
    *state >> 33
}

fn run_against_reference(capacity: usize, keys: u64, steps: usize, seed: u64) {
    let mut cache: LruCache<u32, u64> = LruCache::new(capacity);
    let mut reference = Reference::new(capacity);
    let mut state = seed;
    for _ in 0..steps {
        let key = (next(&mut state) % keys) as u32;
        match next(&mut state) % 4 {
            0 => {
                let got = cache.access_refresh(&key, |v| v.copied());
                assert_eq!(got, Some(reference.read(key)));
            }
            1 => {
                let add = next(&mut state) % 5;
                let got = cache.access_refresh_mut_with_create(
                    &key,
                    || None,
                    |v| *v = v.wrapping_add(add),
                );
                assert_eq!(got, reference.write(key, None, add));
            }
            _ => {
                let value = next(&mut state) % 1000;
                let add = next(&mut state) % 5;
                let got = cache.access_refresh_mut_with_create(
                    &key,
                    || Some(value),
                    |v| *v = v.wrapping_add(add),
                );
                assert_eq!(got, reference.write(key, Some(value), add));
            }
        }
        assert_eq!(cache.len(), reference.entries.len());
        assert!(cache.len() <= capacity);
    }
    // What is left, read from the least recently used on, so that no read
    // disturbs the places of those not yet read.
    for entry in reference.entries.clone().iter().rev() {
        assert_eq!(cache.access_refresh(&entry.0, |v| v.copied()), Some(Some(entry.1)));
    }
    assert_eq!(cache.len(), reference.entries.len());
}

#[test]
fn agrees_with_reference_on_small_capacities() {
    for capacity in 0..6 {
        run_against_reference(capacity, 8, 3000, 17 + capacity as u64);
    }
}

#[test]
fn agrees_with_reference_when_keys_outnumber_capacity() {
    run_against_reference(16, 64, 20000, 99);
    run_against_reference(50, 60, 20000, 7);
}

#[test]
fn agrees_with_reference_when_everything_fits() {
    run_against_reference(32, 20, 5000, 3);
}

#[test]
fn new_cache_is_empty() {
    let cache: LruCache<u32, u64> = LruCache::new(1000);
    assert_eq!(cache.len(), 0);
    assert_eq!(cache.capacity(), 1000);
}

#[test]
fn capacity_is_never_exceeded() {
    let mut cache: LruCache<u32, u64> = LruCache::new(3);
    for key in 0..100u32 {
        cache.access_refresh_mut_with_create(&key, || Some(0), |_| ());
        assert!(cache.len() <= 3);
        assert_eq!(cache.len(), std::cmp::min(key as usize + 1, 3));
    }
}

#[test]
fn eviction_removes_exactly_the_least_recent() {
    let mut cache: LruCache<u32, u64> = LruCache::new(4);
    for key in [10u32, 20, 30, 40] {
        cache.access_refresh_mut_with_create(&key, || Some(key as u64), |_| ());
    }
    // Recency, most recent first: 40 30 20 10.
    cache.access_refresh_mut_with_create(&50, || Some(50), |_| ());
    // 50 40 30 20: only 10 is gone.
    assert_eq!(cache.len(), 4);
    assert_eq!(cache.access_refresh(&10, |v| v.copied()), Some(None));
    for key in [20u32, 30, 40, 50] {
        assert_eq!(cache.access_refresh(&key, |v| v.copied()), Some(Some(key as u64)));
    }
}

#[test]
fn eviction_follows_recency_not_insertion() {
    let mut cache: LruCache<u32, u64> = LruCache::new(3);
    for key in [1u32, 2, 3] {
        cache.access_refresh_mut_with_create(&key, || Some(0), |_| ());
    }
    // 3 2 1; touch 1 by a write and 2 by a read: 2 1 3.
    assert_eq!(cache.access_refresh_mut_with_create(&1, || None, |_| ()), Access::Refreshed);
    assert_eq!(cache.access_refresh(&2, |v| v.is_some()), Some(true));
    cache.access_refresh_mut_with_create(&4, || Some(0), |_| ());
    // 4 2 1: 3 is gone.
    cache.access_refresh_mut_with_create(&5, || Some(0), |_| ());
    // 5 4 2: 1 is gone.
    assert_eq!(cache.access_refresh(&3, |v| v.is_some()), Some(false));
    assert_eq!(cache.access_refresh(&1, |v| v.is_some()), Some(false));
    assert_eq!(cache.access_refresh(&2, |v| v.is_some()), Some(true));
    assert_eq!(cache.access_refresh(&4, |v| v.is_some()), Some(true));
    assert_eq!(cache.access_refresh(&5, |v| v.is_some()), Some(true));
}

#[test]
fn refreshed_key_survives_the_next_insertion() {
    let mut cache: LruCache<u32, u64> = LruCache::new(2);
    cache.access_refresh_mut_with_create(&1, || Some(1), |_| ());
    cache.access_refresh_mut_with_create(&2, || Some(2), |_| ());
    cache.access_refresh(&1, |_| ());
    cache.access_refresh_mut_with_create(&3, || Some(3), |_| ());
    assert_eq!(cache.access_refresh(&1, |v| v.copied()), Some(Some(1)));
}

#[test]
fn absent_read_changes_nothing() {
    let mut cache: LruCache<u32, u64> = LruCache::new(2);
    cache.access_refresh_mut_with_create(&1, || Some(1), |_| ());
    cache.access_refresh_mut_with_create(&2, || Some(2), |_| ());
    assert_eq!(cache.access_refresh(&9, |v| v.copied()), Some(None));
    assert_eq!(cache.len(), 2);
    // 1 is still the least recently used.
    cache.access_refresh_mut_with_create(&3, || Some(3), |_| ());
    assert_eq!(cache.access_refresh(&1, |v| v.copied()), Some(None));
    assert_eq!(cache.access_refresh(&2, |v| v.copied()), Some(Some(2)));
}

#[test]
fn declined_creation_changes_nothing() {
    let mut cache: LruCache<u32, u64> = LruCache::new(2);
    cache.access_refresh_mut_with_create(&1, || Some(1), |_| ());
    cache.access_refresh_mut_with_create(&2, || Some(2), |_| ());
    let mutated = Cell::new(0);
    let got = cache.access_refresh_mut_with_create(&9, || None, |_| mutated.set(mutated.get() + 1));
    assert_eq!(got, Access::Declined);
    assert_eq!(mutated.get(), 0);
    assert_eq!(cache.len(), 2);
    cache.access_refresh_mut_with_create(&3, || Some(3), |_| ());
    assert_eq!(cache.access_refresh(&9, |v| v.copied()), Some(None));
    assert_eq!(cache.access_refresh(&1, |v| v.copied()), Some(None));
    assert_eq!(cache.access_refresh(&2, |v| v.copied()), Some(Some(2)));
}

#[test]
fn functions_are_called_as_often_as_stated() {
    let mut cache: LruCache<u32, u64> = LruCache::new(2);
    let created = Cell::new(0);
    let mutated = Cell::new(0);
    let read = Cell::new(0);
    // Absent key: one creation, one mutation.
    cache.access_refresh_mut_with_create(
        &1,
        || {
            created.set(created.get() + 1);
            Some(10)
        },
        |v| {
            mutated.set(mutated.get() + 1);
            *v += 1;
        },
    );
    assert_eq!((created.get(), mutated.get()), (1, 1));
    // Live key: no creation, one mutation.
    cache.access_refresh_mut_with_create(
        &1,
        || {
            created.set(created.get() + 1);
            Some(10)
        },
        |v| {
            mutated.set(mutated.get() + 1);
            *v += 1;
        },
    );
    assert_eq!((created.get(), mutated.get()), (1, 2));
    // One read each, for a live and for an absent key.
    let live = cache.access_refresh(&1, |v| {
        read.set(read.get() + 1);
        v.copied()
    });
    assert_eq!(live, Some(Some(12)));
    assert_eq!(read.get(), 1);
    let absent = cache.access_refresh(&2, |v| {
        read.set(read.get() + 1);
        v.copied()
    });
    assert_eq!(absent, Some(None));
    assert_eq!(read.get(), 2);
}

#[test]
fn capacity_zero_retains_nothing() {
    let mut cache: LruCache<u32, u64> = LruCache::new(0);
    let seen = Cell::new(0);
    let got = cache.access_refresh_mut_with_create(
        &1,
        || Some(41),
        |v| {
            *v += 1;
            seen.set(*v);
        },
    );
    assert_eq!(got, Access::Created);
    assert_eq!(seen.get(), 42);
    assert_eq!(cache.len(), 0);
    assert_eq!(cache.access_refresh(&1, |v| v.copied()), Some(None));
    assert_eq!(cache.access_refresh_mut_with_create(&1, || None, |_| ()), Access::Declined);
    assert_eq!(cache.access_refresh_mut_with_create(&1, || Some(1), |_| ()), Access::Created);
    assert_eq!(cache.len(), 0);
}

#[test]
fn capacity_one_keeps_the_last_key() {
    let mut cache: LruCache<u32, u64> = LruCache::new(1);
    for key in 0..10u32 {
        assert_eq!(
            cache.access_refresh_mut_with_create(&key, || Some(key as u64), |_| ()),
            Access::Created
        );
        assert_eq!(cache.len(), 1);
        assert_eq!(cache.access_refresh(&key, |v| v.copied()), Some(Some(key as u64)));
        if key > 0 {
            assert_eq!(cache.access_refresh(&(key - 1), |v| v.copied()), Some(None));
        }
    }
}

#[test]
fn evicted_value_is_dropped() {
    let mut cache: LruCache<u32, Rc<()>> = LruCache::new(1);
    let first = Rc::new(());
    let held = first.clone();
    cache.access_refresh_mut_with_create(&1, move || Some(first), |_| ());
    assert_eq!(Rc::strong_count(&held), 2);
    cache.access_refresh_mut_with_create(&2, || Some(Rc::new(())), |_| ());
    assert_eq!(Rc::strong_count(&held), 1);
}

#[test]
fn keys_may_be_strings() {
    let mut cache: LruCache<String, Vec<u8>> = LruCache::new(2);
    let a = String::from("a");
    let b = String::from("b");
    let c = String::from("c");
    cache.access_refresh_mut_with_create(&a, || Some(vec![1]), |v| v.push(2));
    cache.access_refresh_mut_with_create(&b, || Some(vec![3]), |_| ());
    cache.access_refresh_mut_with_create(&a, || None, |v| v.push(4));
    cache.access_refresh_mut_with_create(&c, || Some(vec![5]), |_| ());
    assert_eq!(cache.access_refresh(&a, |v| v.cloned()), Some(Some(vec![1, 2, 4])));
    assert_eq!(cache.access_refresh(&b, |v| v.cloned()), Some(None));
    assert_eq!(cache.access_refresh(&c, |v| v.cloned()), Some(Some(vec![5])));
}
