//! The abstract state of the cache and the transitions between such states.

use vstd::prelude::*;

verus! {

/// Which of its three courses a create-or-refresh took.
#[derive(Clone, Copy, Debug, PartialEq, Eq, Structural)]
pub enum Access {
    /// The key was live: its entry was refreshed and mutated.
    Refreshed,
    /// The key was absent and a value was created for it.
    Created,
    /// The key was absent and no value was created.
    Declined,
}

/// What a cache holds: at most `capacity` entries, the most recently used
/// first and the least recently used last.
pub struct LruModel<K, V> {
    pub capacity: nat,
    pub entries: Seq<(K, V)>,
}

impl<K, V> LruModel<K, V> {
    /// The cache of the given capacity that holds nothing.
    pub open spec fn empty(capacity: nat) -> Self {
        LruModel { capacity, entries: Seq::empty() }
    }

    /// The number of live entries.
    pub open spec fn len(self) -> nat {
        self.entries.len()
    }

    /// The key at place `i` of the recency order.
    pub open spec fn key_at(self, i: int) -> K {
        self.entries[i].0
    }

    /// No more entries than the capacity allows, and no key twice.
    pub open spec fn wf(self) -> bool {
        &&& self.entries.len() <= self.capacity
        &&& forall|i: int, j: int|
            0 <= i < j < self.entries.len() ==> #[trigger] self.key_at(i) != #[trigger] self.key_at(
                j,
            )
    }

    /// Whether an entry for `key` is live.
    pub open spec fn contains_key(self, key: K) -> bool {
        exists|i: int| 0 <= i < self.entries.len() && #[trigger] self.key_at(i) == key
    }

    /// The place of `key` in the recency order; meaningful when the key is live.
    pub open spec fn position(self, key: K) -> int {
        choose|i: int| 0 <= i < self.entries.len() && #[trigger] self.key_at(i) == key
    }

    /// The value stored for `key`, if an entry for it is live.
    pub open spec fn get(self, key: K) -> Option<V> {
        if self.contains_key(key) {
            Some(self.entries[self.position(key)].1)
        } else {
            None
        }
    }

    /// Whether one more entry would exceed the capacity.
    pub open spec fn is_full(self) -> bool {
        self.entries.len() >= self.capacity
    }

    /// The entry at place `i` moved to the front, the others keeping their order.
    pub open spec fn promote(self, i: int) -> Self {
        LruModel { entries: seq![self.entries[i]] + self.entries.remove(i), ..self }
    }

    /// `key` made the most recently used, if it is live; else nothing changes.
    pub open spec fn refresh(self, key: K) -> Self {
        if self.contains_key(key) {
            self.promote(self.position(key))
        } else {
            self
        }
    }

    /// The value of the most recently used entry replaced by `value`.
    pub open spec fn with_front(self, value: V) -> Self {
        if self.entries.len() > 0 {
            LruModel { entries: self.entries.update(0, (self.entries[0].0, value)), ..self }
        } else {
            self
        }
    }

    /// A new entry put in front. A full cache first loses its least recently
    /// used entry; a cache of capacity zero retains nothing.
    pub open spec fn insert(self, key: K, value: V) -> Self {
        if self.capacity == 0 {
            self
        } else if self.entries.len() < self.capacity {
            LruModel { entries: seq![(key, value)] + self.entries, ..self }
        } else {
            LruModel { entries: seq![(key, value)] + self.entries.drop_last(), ..self }
        }
    }

    /// The state after a read of `key`.
    pub open spec fn read(self, key: K) -> Self {
        self.refresh(key)
    }

    /// The state after a create-or-refresh of `key`: `created` is what the
    /// creation would give for an absent key, `updated` the value that the
    /// mutation leaves behind.
    pub open spec fn write(self, key: K, created: Option<V>, updated: V) -> Self {
        if self.contains_key(key) {
            self.refresh(key).with_front(updated)
        } else if created is Some {
            self.insert(key, updated)
        } else {
            self
        }
    }

    /// Whether `read_fn` may be called with what a read of `key` shows it.
    pub open spec fn admits_read<R, F: FnOnce(Option<&V>) -> R>(self, key: K, read_fn: F) -> bool {
        match self.get(key) {
            Some(v) => call_requires(read_fn, (Some(&v),)),
            None => call_requires(read_fn, (None,)),
        }
    }

    /// Whether `r` is what `read_fn` may return for a read of `key`: it was
    /// shown the stored value, or `None` for an absent key.
    pub open spec fn read_gives<R, F: FnOnce(Option<&V>) -> R>(
        self,
        key: K,
        read_fn: F,
        r: R,
    ) -> bool {
        match self.get(key) {
            Some(v) => call_ensures(read_fn, (Some(&v),), r),
            None => call_ensures(read_fn, (None,), r),
        }
    }

    /// Whether the two functions may be called as a create-or-refresh of
    /// `key` calls them: `mutate_fn` on the stored value of a live key;
    /// for an absent key `create_fn`, and `mutate_fn` on whatever it creates.
    pub open spec fn admits_write<C: FnOnce() -> Option<V>, M: FnOnce(&mut V)>(
        self,
        key: K,
        create_fn: C,
        mutate_fn: M,
    ) -> bool {
        match self.get(key) {
            Some(v) => forall|r: &mut V| *r == v ==> call_requires(mutate_fn, (r,)),
            None => {
                &&& call_requires(create_fn, ())
                &&& forall|r: &mut V|
                    call_ensures(create_fn, (), Some(*r)) ==> call_requires(mutate_fn, (r,))
            },
        }
    }

    /// In a well-formed state a key found at place `i` has that place.
    pub proof fn lemma_position(self, key: K, i: int)
        requires
            self.wf(),
            0 <= i < self.entries.len(),
            self.key_at(i) == key,
        ensures
            self.contains_key(key),
            self.position(key) == i,
            self.get(key) == Some(self.entries[i].1),
    {
        let p = self.position(key);
        assert(0 <= p < self.entries.len() && self.key_at(p) == key);
        if p < i {
            assert(self.key_at(p) != self.key_at(i));
        } else if i < p {
            assert(self.key_at(i) != self.key_at(p));
        }
    }

    /// Promotion keeps the state well formed and only permutes the entries.
    pub proof fn lemma_promote(self, i: int)
        requires
            self.wf(),
            0 <= i < self.entries.len(),
        ensures
            self.promote(i).wf(),
            self.promote(i).len() == self.len(),
            self.promote(i).entries[0] == self.entries[i],
            forall|j: int| 0 <= j < i ==> self.promote(i).entries[j + 1] == self.entries[j],
            forall|j: int|
                i < j < self.entries.len() ==> self.promote(i).entries[j] == self.entries[j],
            forall|k: K| self.promote(i).contains_key(k) <==> self.contains_key(k),
            forall|k: K| self.promote(i).get(k) == self.get(k),
    {
        let m = self.promote(i);
        let n = self.entries.len() as int;
        assert(m.entries.len() == n);
        // Where each place of the promoted order comes from.
        let src = |j: int| if j == 0 { i } else if j <= i { j - 1 } else { j };
        assert forall|j: int| 0 <= j < n implies m.entries[j] == self.entries[src(j)] by {}
        assert forall|a: int, b: int| 0 <= a < b < n implies #[trigger] m.key_at(a)
            != #[trigger] m.key_at(b) by {
            let sa = src(a);
            let sb = src(b);
            assert(m.key_at(a) == self.key_at(sa));
            assert(m.key_at(b) == self.key_at(sb));
            if sa < sb {
                assert(self.key_at(sa) != self.key_at(sb));
            } else {
                assert(self.key_at(sb) != self.key_at(sa));
            }
        }
        assert forall|k: K| m.contains_key(k) <==> self.contains_key(k) by {
            if m.contains_key(k) {
                let j = m.position(k);
                assert(self.key_at(src(j)) == k);
            }
            if self.contains_key(k) {
                let j = self.position(k);
                let d = if j == i { 0 } else if j < i { j + 1 } else { j };
                assert(m.key_at(d) == k);
            }
        }
        assert forall|k: K| m.get(k) == self.get(k) by {
            if self.contains_key(k) {
                let j = self.position(k);
                let d = if j == i { 0 } else if j < i { j + 1 } else { j };
                assert(m.key_at(d) == k);
                m.lemma_position(k, d);
            }
        }
    }

    /// A refresh keeps the state well formed, its keys and their values; a
    /// live key comes to the front.
    pub proof fn lemma_refresh(self, key: K)
        requires
            self.wf(),
        ensures
            self.refresh(key).wf(),
            self.refresh(key).capacity == self.capacity,
            self.refresh(key).len() == self.len(),
            self.contains_key(key) ==> self.refresh(key).entries[0] == self.entries[self.position(
                key,
            )],
            !self.contains_key(key) ==> self.refresh(key) == self,
            forall|k: K| self.refresh(key).contains_key(k) <==> self.contains_key(k),
            forall|k: K| self.refresh(key).get(k) == self.get(k),
    {
        if self.contains_key(key) {
            self.lemma_promote(self.position(key));
        }
    }

    /// Replacing the front value keeps the state well formed and its keys
    /// in place.
    pub proof fn lemma_with_front(self, value: V)
        requires
            self.wf(),
        ensures
            self.with_front(value).wf(),
            self.with_front(value).capacity == self.capacity,
            self.with_front(value).len() == self.len(),
            forall|i: int|
                0 <= i < self.len() ==> self.with_front(value).key_at(i) == self.key_at(i),
            forall|i: int|
                0 < i < self.len() ==> self.with_front(value).entries[i] == self.entries[i],
            self.len() > 0 ==> self.with_front(value).entries[0] == (self.key_at(0), value),
            forall|k: K| self.with_front(value).contains_key(k) <==> self.contains_key(k),
    {
        let m = self.with_front(value);
        assert forall|i: int| 0 <= i < self.len() implies m.key_at(i) == self.key_at(i) by {}
        assert forall|i: int, j: int| 0 <= i < j < m.entries.len() implies #[trigger] m.key_at(i)
            != #[trigger] m.key_at(j) by {
            assert(self.key_at(i) != self.key_at(j));
        }
        assert forall|k: K| m.contains_key(k) <==> self.contains_key(k) by {
            if m.contains_key(k) {
                assert(self.key_at(m.position(k)) == k);
            }
            if self.contains_key(k) {
                assert(m.key_at(self.position(k)) == k);
            }
        }
    }

    /// Inserting an absent key keeps the state well formed. With room left
    /// every entry stays; a full cache loses its last entry and no other.
    pub proof fn lemma_insert(self, key: K, value: V)
        requires
            self.wf(),
            !self.contains_key(key),
        ensures
            self.insert(key, value).wf(),
            self.insert(key, value).capacity == self.capacity,
            self.capacity == 0 ==> self.insert(key, value) == self,
            self.capacity > 0 ==> self.insert(key, value).entries[0] == (key, value),
            self.capacity > 0 && !self.is_full() ==> self.insert(key, value).entries.drop_first()
                == self.entries,
            self.capacity > 0 && self.is_full() ==> self.insert(key, value).entries.drop_first()
                == self.entries.drop_last(),
    {
        let m = self.insert(key, value);
        if self.capacity > 0 {
            let kept = if self.is_full() {
                self.entries.drop_last()
            } else {
                self.entries
            };
            assert(m.entries =~= seq![(key, value)] + kept);
            assert(m.entries.drop_first() =~= kept);
            assert forall|i: int, j: int| 0 <= i < j < m.entries.len() implies #[trigger] m.key_at(
                i,
            ) != #[trigger] m.key_at(j) by {
                assert(m.key_at(j) == self.key_at(j - 1));
                if i == 0 {
                    assert(m.key_at(0) == key);
                } else {
                    assert(m.key_at(i) == self.key_at(i - 1));
                }
            }
        }
    }
}

} // verus!
