//! The cache for a single owner: an arena of slots threaded into a doubly
//! linked recency list, and a hash index from key to slot.

use crate::model::{Access, LruModel};
use std::collections::HashMap;
use std::hash::Hash;
use vstd::pervasive::strictly_cloned;
use vstd::prelude::*;
use vstd::std_specs::hash::obeys_key_model;

verus! {

broadcast use vstd::std_specs::hash::group_hash_axioms;

/// What the cache asks of its key type: hashing and equality agree with
/// mathematical equality, and a clone equals what it was cloned from.
pub open spec fn key_model<K: Clone>() -> bool {
    &&& obeys_key_model::<K>()
    &&& forall|a: K, b: K| #[trigger] strictly_cloned(a, b) ==> a == b
}

/// One entry with its links: `prev` leads towards the most recently used
/// entry, `next` towards the least recently used.
struct Slot<K, V> {
    key: K,
    value: V,
    prev: Option<usize>,
    next: Option<usize>,
}

/// A bounded map from keys to values that evicts the least recently used
/// entry when a new key arrives at a full cache.
pub struct LruCache<K, V> {
    capacity: usize,
    slots: Vec<Slot<K, V>>,
    index: HashMap<K, usize>,
    head: Option<usize>,
    tail: Option<usize>,
    /// The slots in recency order, most recently used first.
    order: Ghost<Seq<usize>>,
}

/// The slot at place `p` of `order` points at its two neighbours.
spec fn link_ok<K, V>(slots: Seq<Slot<K, V>>, order: Seq<usize>, p: int) -> bool {
    let s = order[p] as int;
    &&& slots[s].prev == (if p == 0 {
        None
    } else {
        Some(order[p - 1])
    })
    &&& slots[s].next == (if p == order.len() - 1 {
        None
    } else {
        Some(order[p + 1])
    })
}

/// `order` lists every slot once, and the links, `head` and `tail` follow it.
spec fn chained<K, V>(
    slots: Seq<Slot<K, V>>,
    order: Seq<usize>,
    head: Option<usize>,
    tail: Option<usize>,
) -> bool {
    &&& order.len() == slots.len()
    &&& order.no_duplicates()
    &&& forall|p: int| 0 <= p < order.len() ==> (#[trigger] order[p]) < slots.len()
    &&& forall|s: usize| s < slots.len() ==> #[trigger] order.contains(s)
    &&& forall|p: int| 0 <= p < order.len() ==> #[trigger] link_ok(slots, order, p)
    &&& head == (if order.len() == 0 {
        None
    } else {
        Some(order[0])
    })
    &&& tail == (if order.len() == 0 {
        None
    } else {
        Some(order[order.len() - 1])
    })
}

/// `index` maps exactly the keys of the slots, each to its slot.
spec fn indexed<K, V>(slots: Seq<Slot<K, V>>, index: Map<K, usize>) -> bool {
    &&& forall|s: int|
        0 <= s < slots.len() ==> index.contains_key((#[trigger] slots[s]).key)
            && index[slots[s].key] == s
    &&& forall|k: K| #[trigger]
        index.contains_key(k) ==> index[k] < slots.len() && slots[index[k] as int].key == k
}

/// The entries of the slots, read in recency order.
spec fn entries_of<K, V>(slots: Seq<Slot<K, V>>, order: Seq<usize>) -> Seq<(K, V)> {
    Seq::new(order.len(), |p: int| (slots[order[p] as int].key, slots[order[p] as int].value))
}

impl<K, V> View for LruCache<K, V> {
    type V = LruModel<K, V>;

    closed spec fn view(&self) -> LruModel<K, V> {
        LruModel {
            capacity: self.capacity as nat,
            entries: entries_of(self.slots@, self.order@),
        }
    }
}

impl<K: Eq + Hash + Clone, V> LruCache<K, V> {
    /// The representation invariant.
    pub closed spec fn wf(&self) -> bool {
        &&& key_model::<K>()
        &&& self.slots.len() <= self.capacity
        &&& chained(self.slots@, self.order@, self.head, self.tail)
        &&& indexed(self.slots@, self.index@)
    }

    /// The place of slot `s` in the recency order.
    spec fn rank(&self, s: usize) -> int {
        self.order@.index_of(s)
    }

    /// A well-formed cache shows a well-formed state.
    pub proof fn lemma_view_wf(&self)
        requires
            self.wf(),
        ensures
            self@.wf(),
    {
        let m = self@;
        assert forall|i: int, j: int| 0 <= i < j < m.entries.len() implies #[trigger] m.key_at(i)
            != #[trigger] m.key_at(j) by {
            let si = self.order@[i];
            let sj = self.order@[j];
            assert(si != sj);
            assert(self.slots@[si as int].key == m.key_at(i));
            assert(self.slots@[sj as int].key == m.key_at(j));
        }
    }

    /// An empty cache that will hold at most `capacity` entries.
    pub fn new(capacity: usize) -> (cache: Self)
        requires
            key_model::<K>(),
        ensures
            cache.wf(),
            cache@.wf(),
            cache@ == LruModel::<K, V>::empty(capacity as nat),
    {
        let cache = LruCache {
            capacity,
            slots: Vec::new(),
            index: HashMap::new(),
            head: None,
            tail: None,
            order: Ghost(Seq::empty()),
        };
        assert(cache@.entries =~= Seq::<(K, V)>::empty());
        proof {
            cache.lemma_view_wf();
        }
        cache
    }

    /// The number of live entries.
    pub fn len(&self) -> (n: usize)
        requires
            self.wf(),
        ensures
            n == self@.len(),
            n <= self@.capacity,
    {
        self.slots.len()
    }

    /// The largest number of entries that the cache retains.
    pub fn capacity(&self) -> (c: usize)
        ensures
            c == self@.capacity,
    {
        self.capacity
    }

    /// The slot that holds `key`, if the key is live.
    fn find(&self, key: &K) -> (found: Option<usize>)
        requires
            self.wf(),
        ensures
            match found {
                Some(s) => {
                    &&& s < self.slots.len()
                    &&& self.slots[s as int].key == *key
                    &&& self@.contains_key(*key)
                    &&& 0 <= self.rank(s) < self.order@.len()
                    &&& self.order@[self.rank(s)] == s
                    &&& self.rank(s) == self@.position(*key)
                    &&& self@.get(*key) == Some(self.slots[s as int].value)
                },
                None => !self@.contains_key(*key) && self@.get(*key) is None,
            },
    {
        proof {
            self.lemma_view_wf();
        }
        match self.index.get(key) {
            Some(s) => {
                proof {
                    assert(self.index@.contains_key(*key));
                    assert(self.order@.contains(*s));
                    let p = self.rank(*s);
                    assert(self@.key_at(p) == *key);
                    self@.lemma_position(*key, p);
                }
                Some(*s)
            },
            None => {
                proof {
                    if self@.contains_key(*key) {
                        let p = self@.position(*key);
                        let s = self.order@[p] as int;
                        assert(self.slots@[s].key == *key);
                        assert(self.index@.contains_key(self.slots@[s].key));
                    }
                }
                None
            },
        }
    }

    /// Moves slot `s` to the front of the recency list.
    fn promote(&mut self, s: usize)
        requires
            old(self).wf(),
            s < old(self).slots.len(),
        ensures
            final(self).wf(),
            final(self)@ == old(self)@.promote(old(self).rank(s)),
            final(self).slots.len() == old(self).slots.len(),
            forall|i: int|
                0 <= i < old(self).slots.len() ==> (#[trigger] final(self).slots[i]).key == old(
                    self,
                ).slots[i].key && final(self).slots[i].value == old(self).slots[i].value,
    {
        let ghost before = *self;
        let ghost o = self.order@;
        let ghost n = o.len() as int;
        let ghost p = self.rank(s);
        proof {
            assert(o.contains(s));
            assert(0 <= p < n && o[p] == s);
            assert(link_ok(before.slots@, o, p));
            assert(link_ok(before.slots@, o, 0));
        }
        let prev = self.slots[s].prev;
        let next = self.slots[s].next;
        match prev {
            None => {
                proof {
                    assert(p == 0);
                    assert(self@.entries =~= before@.promote(p).entries);
                }
            },
            Some(before_s) => {
                proof {
                    assert(p > 0);
                    assert(before_s == o[p - 1]);
                    assert(link_ok(before.slots@, o, p - 1));
                    if p < n - 1 {
                        assert(link_ok(before.slots@, o, p + 1));
                    }
                }
                let first = self.head;
                self.slots[before_s].next = next;
                match next {
                    Some(after_s) => {
                        self.slots[after_s].prev = prev;
                    },
                    None => {
                        self.tail = prev;
                    },
                }
                self.slots[s].prev = None;
                self.slots[s].next = first;
                match first {
                    Some(h) => {
                        self.slots[h].prev = Some(s);
                    },
                    None => {},
                }
                self.head = Some(s);
                self.order = Ghost(seq![s] + o.remove(p));
                proof {
                    let o2 = self.order@;
                    let now = self.slots@;
                    let was = before.slots@;
                    assert(o2.len() == n);
                    assert(o2[0] == s);
                    assert forall|q: int| 1 <= q <= p implies o2[q] == o[q - 1] by {}
                    assert forall|q: int| p < q < n implies o2[q] == o[q] by {}
                    assert forall|a: int, b: int|
                        0 <= a < n && 0 <= b < n && a != b implies o2[a] != o2[b] by {
                        let sa = if a == 0 { p } else if a <= p { a - 1 } else { a };
                        let sb = if b == 0 { p } else if b <= p { b - 1 } else { b };
                        assert(o2[a] == o[sa]);
                        assert(o2[b] == o[sb]);
                    }
                    assert forall|x: usize| x < now.len() implies #[trigger] o2.contains(x) by {
                        assert(o.contains(x));
                        let q = o.index_of(x);
                        let d = if q == p { 0 } else if q < p { q + 1 } else { q };
                        assert(o2[d] == x);
                    }
                    assert forall|q: int| 0 <= q < n implies #[trigger] link_ok(now, o2, q) by {
                        let src = if q == 0 { p } else if q <= p { q - 1 } else { q };
                        assert(o2[q] == o[src]);
                        assert(link_ok(was, o, src));
                        if src > 0 {
                            assert(link_ok(was, o, src - 1));
                        }
                        if src < n - 1 {
                            assert(link_ok(was, o, src + 1));
                        }
                    }
                    assert(chained(now, o2, self.head, self.tail));
                    assert(indexed(now, self.index@));
                    assert(self@.entries =~= before@.promote(p).entries);
                }
            },
        }
    }

    /// Links a new entry in front of a cache that has room for it.
    fn push_front(&mut self, key: &K, value: V)
        requires
            old(self).wf(),
            !old(self)@.contains_key(*key),
            old(self).slots.len() < old(self).capacity,
        ensures
            final(self).wf(),
            final(self)@ == old(self)@.insert(*key, value),
            final(self)@.entries.len() > 0,
    {
        let ghost before = *self;
        let ghost o = self.order@;
        let n = self.slots.len();
        proof {
            if n > 0 {
                assert(link_ok(before.slots@, o, 0));
            }
            if self.index@.contains_key(*key) {
                let s = self.index@[*key];
                assert(o.contains(s));
                assert(before@.key_at(o.index_of(s)) == *key);
            }
        }
        let slot_key = key.clone();
        let index_key = key.clone();
        assert(strictly_cloned(*key, slot_key));
        assert(strictly_cloned(*key, index_key));
        let first = self.head;
        self.slots.push(Slot { key: slot_key, value, prev: None, next: first });
        match first {
            Some(h) => {
                self.slots[h].prev = Some(n);
            },
            None => {
                self.tail = Some(n);
            },
        }
        self.head = Some(n);
        self.index.insert(index_key, n);
        self.order = Ghost(seq![n] + o);
        proof {
            let o2 = self.order@;
            let now = self.slots@;
            let was = before.slots@;
            assert forall|q: int| 1 <= q <= n implies o2[q] == o[q - 1] by {}
            assert forall|x: usize| x < now.len() implies #[trigger] o2.contains(x) by {
                if x == n {
                    assert(o2[0] == x);
                } else {
                    assert(o.contains(x));
                    assert(o2[o.index_of(x) + 1] == x);
                }
            }
            assert forall|q: int| 0 <= q <= n implies #[trigger] link_ok(now, o2, q) by {
                if q > 0 {
                    assert(link_ok(was, o, q - 1));
                }
            }
            assert(chained(now, o2, self.head, self.tail));
            assert forall|x: int| 0 <= x < now.len() implies self.index@.contains_key(
                (#[trigger] now[x]).key,
            ) && self.index@[now[x].key] == x by {
                if x < n {
                    assert(before.index@.contains_key(was[x].key));
                }
            }
            assert(indexed(now, self.index@));
            assert(self@.entries =~= before@.insert(*key, value).entries);
        }
    }

    /// Gives the slot of the least recently used entry to a new entry and
    /// moves it to the front: the old entry is dropped.
    fn recycle_tail(&mut self, key: &K, value: V)
        requires
            old(self).wf(),
            !old(self)@.contains_key(*key),
            old(self).slots.len() == old(self).capacity,
            old(self).capacity > 0,
        ensures
            final(self).wf(),
            final(self)@ == old(self)@.insert(*key, value),
            final(self)@.entries.len() > 0,
    {
        let ghost before = *self;
        let ghost o = self.order@;
        let ghost n = o.len() as int;
        proof {
            if self.index@.contains_key(*key) {
                let s = self.index@[*key];
                assert(o.contains(s));
                assert(before@.key_at(o.index_of(s)) == *key);
            }
        }
        let last = match self.tail {
            Some(t) => t,
            None => 0,
        };
        assert(last == o[n - 1]);
        let slot_key = key.clone();
        let index_key = key.clone();
        assert(strictly_cloned(*key, slot_key));
        assert(strictly_cloned(*key, index_key));
        self.index.remove(&self.slots[last].key);
        self.slots[last].key = slot_key;
        self.slots[last].value = value;
        self.index.insert(index_key, last);
        proof {
            let now = self.slots@;
            let was = before.slots@;
            assert forall|q: int| 0 <= q < n implies #[trigger] link_ok(now, o, q) by {
                assert(link_ok(was, o, q));
            }
            assert(chained(now, o, self.head, self.tail));
            assert forall|x: int| 0 <= x < now.len() implies self.index@.contains_key(
                (#[trigger] now[x]).key,
            ) && self.index@[now[x].key] == x by {
                if x != last {
                    assert(before.index@.contains_key(was[x].key));
                    assert(before.index@.contains_key(was[last as int].key));
                }
            }
            assert(indexed(now, self.index@));
            assert(self.wf());
            assert(o.index_of(last) == n - 1) by {
                let r = o.index_of(last);
                assert(o.contains(last));
                assert(0 <= r < n && o[r] == last);
            }
        }
        let ghost middle = *self;
        self.promote(last);
        proof {
            assert(middle@.entries =~= before@.entries.update(n - 1, (*key, value)));
            assert(self@.entries =~= before@.insert(*key, value).entries);
        }
    }

    /// Hands the value of the most recently used entry to `mutate_fn`.
    fn mutate_front<M: FnOnce(&mut V)>(&mut self, mutate_fn: M)
        requires
            old(self).wf(),
            old(self)@.entries.len() > 0,
            forall|r: &mut V| *r == old(self)@.entries[0].1 ==> call_requires(mutate_fn, (r,)),
        ensures
            final(self).wf(),
            exists|r: &mut V|
                {
                    &&& *r == old(self)@.entries[0].1
                    &&& #[trigger] call_ensures(mutate_fn, (r,), ())
                    &&& final(self)@ == old(self)@.with_front(*final(r))
                },
    {
        let ghost before = *self;
        let ghost o = self.order@;
        let first = match self.head {
            Some(h) => h,
            None => 0,
        };
        assert(first == o[0]);
        mutate_fn(&mut self.slots[first].value);
        proof {
            let now = self.slots@;
            let was = before.slots@;
            assert forall|q: int| 0 <= q < o.len() implies #[trigger] link_ok(now, o, q) by {
                assert(link_ok(was, o, q));
            }
            assert(chained(now, o, self.head, self.tail));
            assert forall|x: int| 0 <= x < now.len() implies self.index@.contains_key(
                (#[trigger] now[x]).key,
            ) && self.index@[now[x].key] == x by {
                assert(before.index@.contains_key(was[x].key));
            }
            assert(indexed(now, self.index@));
            assert(self@.entries =~= before@.with_front(now[first as int].value).entries);
        }
    }

    /// Read with refresh. `read_fn` is called once: with the value stored
    /// for `key`, which thereby becomes the most recently used, or with
    /// `None` where the key is absent, and then nothing changes.
    pub fn access_refresh<R, F: FnOnce(Option<&V>) -> R>(&mut self, key: &K, read_fn: F) -> (res:
        Option<R>)
        requires
            old(self).wf(),
            old(self)@.admits_read(*key, read_fn),
        ensures
            final(self).wf(),
            final(self)@.wf(),
            final(self)@ == old(self)@.read(*key),
            res matches Some(r) && old(self)@.read_gives(*key, read_fn, r),
    {
        let res = match self.find(key) {
            Some(s) => {
                self.promote(s);
                Some(read_fn(Some(&self.slots[s].value)))
            },
            None => Some(read_fn(None)),
        };
        proof {
            self.lemma_view_wf();
        }
        res
    }

    /// Create or refresh, then mutate. A live key is made the most recently
    /// used and its value handed to `mutate_fn`. For an absent key
    /// `create_fn` is called: what it creates is inserted in front, after
    /// the least recently used entry has left a full cache, and then handed
    /// to `mutate_fn`; where it creates nothing, nothing changes and
    /// `mutate_fn` is not called. A cache of capacity zero retains nothing:
    /// the created value is mutated and dropped.
    pub fn access_refresh_mut_with_create<C: FnOnce() -> Option<V>, M: FnOnce(&mut V)>(
        &mut self,
        key: &K,
        create_fn: C,
        mutate_fn: M,
    ) -> (res: Access)
        requires
            old(self).wf(),
            old(self)@.admits_write(*key, create_fn, mutate_fn),
        ensures
            final(self).wf(),
            final(self)@.wf(),
            match res {
                Access::Refreshed => {
                    &&& old(self)@.get(*key) matches Some(v)
                    &&& exists|r: &mut V|
                        {
                            &&& *r == v
                            &&& #[trigger] call_ensures(mutate_fn, (r,), ())
                            &&& final(self)@ == old(self)@.refresh(*key).with_front(*final(r))
                        }
                },
                Access::Created => {
                    &&& !old(self)@.contains_key(*key)
                    &&& exists|r: &mut V|
                        {
                            &&& call_ensures(create_fn, (), Some(*r))
                            &&& #[trigger] call_ensures(mutate_fn, (r,), ())
                            &&& final(self)@ == old(self)@.insert(*key, *final(r))
                        }
                },
                Access::Declined => {
                    &&& !old(self)@.contains_key(*key)
                    &&& call_ensures(create_fn, (), None)
                    &&& final(self)@ == old(self)@
                },
            },
    {
        let ghost before = *self;
        let res = match self.find(key) {
            Some(s) => {
                self.promote(s);
                proof {
                    before.lemma_view_wf();
                    before@.lemma_promote(before.rank(s));
                }
                self.mutate_front(mutate_fn);
                Access::Refreshed
            },
            None => {
                match create_fn() {
                    None => Access::Declined,
                    Some(value) => {
                        if self.capacity == 0 {
                            let mut passing = value;
                            mutate_fn(&mut passing);
                        } else {
                            if self.slots.len() < self.capacity {
                                self.push_front(key, value);
                            } else {
                                self.recycle_tail(key, value);
                            }
                            let ghost middle = *self;
                            self.mutate_front(mutate_fn);
                            proof {
                                assert forall|u: V|
                                    middle@.with_front(u).entries =~= before@.insert(
                                        *key,
                                        u,
                                    ).entries by {}
                            }
                        }
                        Access::Created
                    },
                }
            },
        };
        proof {
            self.lemma_view_wf();
        }
        res
    }
}

} // verus!
