//! The cache shared between concurrent callers.
//!
//! One lock guards the whole cache, so that the index and the recency list
//! never part ways: every operation takes the lock, works on the cache as
//! its single owner, and gives the lock back. The functions that callers
//! hand in run while the lock is held. They must not call back into the
//! same storage, which would wait for its own lock forever, and they must
//! not unwind, which would leave the lock taken.

use crate::cache::{key_model, LruCache};
use crate::model::{Access, LruModel};
use std::hash::Hash;
use vstd::prelude::*;
use vstd::rwlock::{RwLock, RwLockPredicate};

verus! {

/// What the lock admits: a well-formed cache of the one fixed capacity.
struct Bounded {
    capacity: usize,
}

impl<K: Eq + Hash + Clone, V> RwLockPredicate<LruCache<K, V>> for Bounded {
    closed spec fn inv(self, cache: LruCache<K, V>) -> bool {
        cache.wf() && cache@.capacity == self.capacity
    }
}

/// A bounded cache with least-recently-used eviction whose operations take
/// `&self` and may be called from many threads at once.
pub struct LRUStorage<K: Eq + Hash + Clone, V> {
    capacity: usize,
    inner: RwLock<LruCache<K, V>, Bounded>,
}

impl<K: Eq + Hash + Clone, V> LRUStorage<K, V> {
    #[verifier::type_invariant]
    spec fn guarded(self) -> bool {
        self.inner.pred().capacity == self.capacity
    }

    /// The largest number of entries that the storage retains.
    pub closed spec fn capacity(&self) -> nat {
        self.capacity as nat
    }

    /// Whether `m` is a state that the storage may be in.
    pub open spec fn admits(&self, m: LruModel<K, V>) -> bool {
        m.wf() && m.capacity == self.capacity()
    }

    /// An empty storage that will hold at most `capacity` entries. With
    /// capacity zero it retains nothing.
    pub fn new(capacity: usize) -> (storage: Self)
        requires
            key_model::<K>(),
        ensures
            storage.capacity() == capacity,
    {
        let cache = LruCache::new(capacity);
        LRUStorage { capacity, inner: RwLock::new(cache, Ghost(Bounded { capacity })) }
    }

    /// The number of live entries at some moment during the call.
    pub fn len(&self) -> (n: usize)
        ensures
            n <= self.capacity(),
    {
        proof {
            use_type_invariant(self);
        }
        let handle = self.inner.acquire_read();
        let n = handle.borrow().len();
        handle.release_read();
        n
    }

    /// Read with refresh, as one step with respect to all other callers:
    /// what [`LruCache::access_refresh`] does to the state that the storage
    /// is in when the lock is taken.
    pub fn access_refresh<R, F: FnOnce(Option<&V>) -> R>(&self, key: &K, read_fn: F) -> (res:
        Option<R>)
        requires
            forall|seen: Option<&V>| call_requires(read_fn, (seen,)),
        ensures
            res matches Some(r) && exists|before: LruModel<K, V>|
                self.admits(before) && #[trigger] before.read_gives(*key, read_fn, r),
    {
        proof {
            use_type_invariant(self);
        }
        let (mut cache, handle) = self.inner.acquire_write();
        let ghost before = cache@;
        proof {
            cache.lemma_view_wf();
        }
        let res = cache.access_refresh(key, read_fn);
        handle.release_write(cache);
        proof {
            assert(self.admits(before) && before.read_gives(*key, read_fn, res->0));
        }
        res
    }

    /// Create or refresh, then mutate, as one step with respect to all
    /// other callers: what [`LruCache::access_refresh_mut_with_create`] does
    /// to the state that the storage is in when the lock is taken. Of two
    /// callers that bring the same absent key, the first to take the lock
    /// creates the entry and the second refreshes it.
    pub fn access_refresh_mut_with_create<C: FnOnce() -> Option<V>, M: FnOnce(&mut V)>(
        &self,
        key: &K,
        create_fn: C,
        mutate_fn: M,
    ) -> (res: Access)
        requires
            call_requires(create_fn, ()),
            forall|r: &mut V| call_requires(mutate_fn, (r,)),
        ensures
            exists|before: LruModel<K, V>|
                {
                    &&& #[trigger] self.admits(before)
                    &&& match res {
                        Access::Refreshed => {
                            &&& before.get(*key) matches Some(v)
                            &&& exists|r: &mut V|
                                *r == v && #[trigger] call_ensures(mutate_fn, (r,), ())
                        },
                        Access::Created => {
                            &&& !before.contains_key(*key)
                            &&& exists|r: &mut V|
                                call_ensures(create_fn, (), Some(*r)) && #[trigger] call_ensures(
                                    mutate_fn,
                                    (r,),
                                    (),
                                )
                        },
                        Access::Declined => {
                            &&& !before.contains_key(*key)
                            &&& call_ensures(create_fn, (), None)
                        },
                    }
                },
    {
        proof {
            use_type_invariant(self);
        }
        let (mut cache, handle) = self.inner.acquire_write();
        let ghost before = cache@;
        proof {
            cache.lemma_view_wf();
        }
        let res = cache.access_refresh_mut_with_create(key, create_fn, mutate_fn);
        handle.release_write(cache);
        proof {
            assert(self.admits(before));
        }
        res
    }
}

} // verus!
