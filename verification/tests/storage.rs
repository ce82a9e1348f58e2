use gameserver::lru_storage::LRUStorage;
use gameserver::model::Access;
use std::sync::atomic::{AtomicUsize, Ordering};
use std::sync::Arc;

fn shared<T: Send + Sync>(_: &T) {}

#[test]
fn storage_is_shareable() {
    let storage: LRUStorage<u32, u64> = LRUStorage::new(4);
    shared(&storage);
}

#[test]
fn len_stays_within_capacity() {
    let storage: LRUStorage<u32, u64> = LRUStorage::new(5);
    assert_eq!(storage.len(), 0);
    for key in 0..50u32 {
        storage.access_refresh_mut_with_create(&key, || Some(0), |_| ());
        assert!(storage.len() <= 5);
    }
    assert_eq!(storage.len(), 5);
}

#[test]
fn zero_capacity_storage_passes_through() {
    let storage: LRUStorage<u32, u64> = LRUStorage::new(0);
    assert_eq!(
        storage.access_refresh_mut_with_create(&1, || Some(1), |v| *v += 1),
        Access::Created
    );
    assert_eq!(storage.len(), 0);
    assert_eq!(storage.access_refresh(&1, |v| v.copied()), Some(None));
}

#[test]
fn declined_creation_leaves_storage_alone() {
    let storage: LRUStorage<u32, u64> = LRUStorage::new(2);
    assert_eq!(storage.access_refresh_mut_with_create(&1, || None, |_| ()), Access::Declined);
    assert_eq!(storage.len(), 0);
}

fn runtime(workers: usize) -> rocket::tokio::runtime::Runtime {
    rocket::tokio::runtime::Builder::new_multi_thread().worker_threads(workers).build().unwrap()
}

#[test]
fn concurrent_creation_makes_one_entry() {
    let storage: Arc<LRUStorage<u32, u64>> = Arc::new(LRUStorage::new(8));
    let created = Arc::new(AtomicUsize::new(0));
    let tasks: u64 = 8;
    let rounds: u64 = 500;
    let runtime = runtime(4);
    let mut handles = Vec::new();
    for _ in 0..tasks {
        let storage = storage.clone();
        let created = created.clone();
        handles.push(runtime.spawn_blocking(move || {
            for _ in 0..rounds {
                storage.access_refresh_mut_with_create(
                    &7,
                    || {
                        created.fetch_add(1, Ordering::SeqCst);
                        Some(0)
                    },
                    |v| *v += 1,
                );
            }
        }));
    }
    for handle in handles {
        runtime.block_on(handle).unwrap();
    }
    assert_eq!(created.load(Ordering::SeqCst), 1);
    assert_eq!(storage.len(), 1);
    assert_eq!(storage.access_refresh(&7, |v| v.copied()), Some(Some(tasks * rounds)));
}

#[test]
fn concurrent_callers_keep_the_bound() {
    let storage: Arc<LRUStorage<u32, u64>> = Arc::new(LRUStorage::new(16));
    let runtime = runtime(4);
    let mut handles = Vec::new();
    for t in 0..4u32 {
        let storage = storage.clone();
        handles.push(runtime.spawn_blocking(move || {
            for i in 0..2000u32 {
                let key = (i * 7 + t * 13) % 40;
                storage.access_refresh_mut_with_create(&key, || Some(0), |v| *v += 1);
                storage.access_refresh(&((key + 1) % 40), |v| v.copied());
                assert!(storage.len() <= 16);
            }
        }));
    }
    for handle in handles {
        runtime.block_on(handle).unwrap();
    }
    assert_eq!(storage.len(), 16);
}
