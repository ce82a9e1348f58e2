//! What holds of every cache, stated over the abstract state and proved
//! from the definitions of its transitions.

use crate::model::LruModel;
use vstd::prelude::*;

verus! {

/// One operation on the cache, reduced to what decides its effect on the
/// state.
pub enum Op<K, V> {
    /// A read with refresh of `key`.
    Read { key: K },
    /// A create-or-refresh of `key`, where creation yields `created` for
    /// an absent key and the mutation leaves `updated` behind.
    Write { key: K, created: Option<V>, updated: V },
}

impl<K, V> Op<K, V> {
    /// The key that the operation accesses.
    pub open spec fn key(self) -> K {
        match self {
            Op::Read { key } => key,
            Op::Write { key, .. } => key,
        }
    }
}

/// Whether some operation of `ops` accesses `key`.
pub open spec fn accessed<K, V>(ops: Seq<Op<K, V>>, key: K) -> bool {
    exists|i: int| 0 <= i < ops.len() && (#[trigger] ops[i]).key() == key
}

impl<K, V> LruModel<K, V> {
    /// The state after one operation.
    pub open spec fn step(self, op: Op<K, V>) -> Self {
        match op {
            Op::Read { key } => self.read(key),
            Op::Write { key, created, updated } => self.write(key, created, updated),
        }
    }

    /// The state after the operations of `ops`, first to last.
    pub open spec fn run(self, ops: Seq<Op<K, V>>) -> Self
        decreases ops.len(),
    {
        if ops.len() == 0 {
            self
        } else {
            self.run(ops.drop_last()).step(ops.last())
        }
    }

    /// Every key in front of `key` has been accessed by `ops`; where
    /// `key` is gone, every live key has.
    pub open spec fn overtaken_only_by(self, key: K, ops: Seq<Op<K, V>>) -> bool {
        forall|i: int|
            0 <= i < self.len() && (self.contains_key(key) ==> i < self.position(key))
                ==> accessed(ops, #[trigger] self.key_at(i))
    }
}

/// Each course of a create-or-refresh is one `Write` step: a refresh with
/// a new front value for a live key, an insertion for an absent key with
/// a value created, no change for an absent key without one.
pub proof fn law_write_covers_every_course<K, V>(
    m: LruModel<K, V>,
    key: K,
    created: V,
    updated: V,
)
    ensures
        m.contains_key(key) ==> m.step(Op::Write { key, created: None, updated }) == m.refresh(
            key,
        ).with_front(updated),
        !m.contains_key(key) ==> m.step(Op::Write { key, created: Some(created), updated })
            == m.insert(key, updated),
        !m.contains_key(key) ==> m.step(Op::Write { key, created: None, updated }) == m,
        m.step(Op::Read { key }) == m.read(key),
{
}

/// One operation keeps a well-formed state well formed and its capacity
/// fixed: never more entries than the capacity, never a key twice.
pub proof fn law_step_keeps_well_formed<K, V>(m: LruModel<K, V>, op: Op<K, V>)
    requires
        m.wf(),
    ensures
        m.step(op).wf(),
        m.step(op).capacity == m.capacity,
        m.step(op).len() <= m.capacity,
{
    match op {
        Op::Read { key } => {
            m.lemma_refresh(key);
        },
        Op::Write { key, created, updated } => {
            m.lemma_refresh(key);
            if m.contains_key(key) {
                m.refresh(key).lemma_with_front(updated);
            } else if created is Some {
                m.lemma_insert(key, updated);
            }
        },
    }
}

/// Capacity invariant and no duplication: after any sequence of
/// operations on a well-formed cache there are at most `capacity` live
/// entries, and no key has two of them.
pub proof fn law_capacity_invariant<K, V>(m: LruModel<K, V>, ops: Seq<Op<K, V>>)
    requires
        m.wf(),
    ensures
        m.run(ops).wf(),
        m.run(ops).capacity == m.capacity,
        m.run(ops).len() <= m.capacity,
        forall|i: int, j: int|
            0 <= i < j < m.run(ops).len() ==> m.run(ops).key_at(i) != m.run(ops).key_at(j),
    decreases ops.len(),
{
    if ops.len() > 0 {
        law_capacity_invariant(m, ops.drop_last());
        law_step_keeps_well_formed(m.run(ops.drop_last()), ops.last());
    }
}

/// Eviction correctness: inserting a new key into a full cache removes
/// the entry that was least recently used and no other, and leaves the
/// remaining entries in their order behind the new one. With room left
/// nothing is removed.
pub proof fn law_eviction<K, V>(m: LruModel<K, V>, key: K, value: V)
    requires
        m.wf(),
        m.capacity > 0,
        !m.contains_key(key),
    ensures
        m.insert(key, value).entries[0] == (key, value),
        m.is_full() ==> {
            &&& m.insert(key, value).len() == m.len()
            &&& m.insert(key, value).entries.drop_first() == m.entries.drop_last()
            &&& !m.insert(key, value).contains_key(m.entries.last().0)
            &&& forall|k: K|
                m.insert(key, value).contains_key(k) <==> k == key || (m.contains_key(k) && k
                    != m.entries.last().0)
            &&& forall|k: K|
                #![trigger m.insert(key, value).get(k)]
                k != key && k != m.entries.last().0 ==> m.insert(key, value).get(k) == m.get(k)
        },
        !m.is_full() ==> {
            &&& m.insert(key, value).len() == m.len() + 1
            &&& m.insert(key, value).entries.drop_first() == m.entries
            &&& forall|k: K| m.insert(key, value).contains_key(k) <==> k == key || m.contains_key(k)
            &&& forall|k: K|
                #![trigger m.insert(key, value).get(k)]
                k != key ==> m.insert(key, value).get(k) == m.get(k)
        },
{
    let after = m.insert(key, value);
    let n = m.len() as int;
    m.lemma_insert(key, value);
    // How far the old entries reach into the new state.
    let kept = if m.is_full() { n - 1 } else { n };
    assert(after.len() == kept + 1);
    assert forall|i: int| 0 <= i < kept implies after.entries[i + 1] == m.entries[i] by {
        assert(after.entries.drop_first()[i] == after.entries[i + 1]);
    }
    assert(after.key_at(0) == key);
    assert forall|k: K| after.contains_key(k) <==> k == key || (m.contains_key(k) && m.position(k)
        < kept) by {
        if after.contains_key(k) {
            let j = after.position(k);
            if j > 0 {
                assert(after.entries[(j - 1) + 1] == m.entries[j - 1]);
                m.lemma_position(k, j - 1);
            }
        }
        if m.contains_key(k) && m.position(k) < kept {
            assert(after.key_at(m.position(k) + 1) == k);
        }
    }
    assert forall|k: K| k != key && (m.contains_key(k) ==> m.position(k) < kept) implies after.get(
        k,
    ) == m.get(k) by {
        if m.contains_key(k) {
            let j = m.position(k);
            assert(after.key_at(j + 1) == k);
            after.lemma_position(k, j + 1);
        }
    }
    if m.is_full() {
        let lru = m.entries.last().0;
        assert(lru == m.key_at(n - 1));
        m.lemma_position(lru, n - 1);
        assert forall|k: K| m.contains_key(k) && k != lru implies m.position(k) < kept by {
            let j = m.position(k);
            assert(m.key_at(j) == k);
        }
        assert forall|k: K| m.contains_key(k) && m.position(k) < kept implies k != lru by {}
    } else {
        assert forall|k: K| m.contains_key(k) implies m.position(k) < kept by {}
    }
}

/// Recency update: an access to a live key, by a read or by a
/// create-or-refresh, makes it the most recently used and removes nothing.
pub proof fn law_access_moves_to_front<K, V>(
    m: LruModel<K, V>,
    key: K,
    created: Option<V>,
    updated: V,
)
    requires
        m.wf(),
        m.contains_key(key),
    ensures
        m.read(key).key_at(0) == key,
        m.read(key).entries[0].1 == m.get(key)->0,
        m.read(key).len() == m.len(),
        forall|k: K| m.read(key).get(k) == m.get(k),
        m.write(key, created, updated).entries[0] == (key, updated),
        m.write(key, created, updated).len() == m.len(),
        forall|k: K|
            #![trigger m.write(key, created, updated).get(k)]
            k != key ==> m.write(key, created, updated).get(k) == m.get(k),
{
    let p = m.position(key);
    m.lemma_refresh(key);
    let r = m.refresh(key);
    assert(r.key_at(0) == m.key_at(p));
    r.lemma_with_front(updated);
    let w = r.with_front(updated);
    assert forall|k: K| k != key implies w.get(k) == m.get(k) by {
        if r.contains_key(k) {
            let j = r.position(k);
            assert(r.key_at(j) == k);
            assert(j > 0);
            assert(w.key_at(j) == k);
            w.lemma_position(k, j);
        }
    }
}

/// Recency update: the key accessed last is not the one that the next
/// insertion evicts, as long as the cache holds another entry.
pub proof fn law_fresh_key_outlives_insertion<K, V>(
    m: LruModel<K, V>,
    key: K,
    other: K,
    value: V,
)
    requires
        m.wf(),
        m.contains_key(key),
        m.len() >= 2,
        !m.contains_key(other),
    ensures
        m.read(key).insert(other, value).contains_key(key),
        m.read(key).insert(other, value).get(key) == m.get(key),
{
    m.lemma_refresh(key);
    let r = m.read(key);
    assert(r.key_at(0) == m.key_at(m.position(key)));
    r.lemma_insert(other, value);
    let after = r.insert(other, value);
    assert(after.entries.drop_first()[0] == after.entries[1]);
    assert(after.key_at(1) == key);
    after.lemma_position(key, 1);
    r.lemma_position(key, 0);
}

/// Recency update, over time: once `key` is the most recently used, an
/// entry stands in front of it only if its key was accessed since, and
/// `key` is evicted only once every key that is then live was accessed
/// since.
pub proof fn law_evicted_only_when_overtaken<K, V>(m: LruModel<K, V>, key: K, ops: Seq<Op<K, V>>)
    requires
        m.wf(),
        m.len() > 0,
        m.key_at(0) == key,
    ensures
        m.run(ops).overtaken_only_by(key, ops),
    decreases ops.len(),
{
    if ops.len() == 0 {
        m.lemma_position(key, 0);
    } else {
        let past = ops.drop_last();
        let op = ops.last();
        let s = m.run(past);
        let t = s.step(op);
        law_evicted_only_when_overtaken(m, key, past);
        law_capacity_invariant(m, past);
        law_step_keeps_well_formed(s, op);
        assert forall|k: K| accessed(past, k) implies accessed(ops, k) by {
            let i = choose|i: int| 0 <= i < past.len() && (#[trigger] past[i]).key() == k;
            assert(ops[i].key() == k);
        }
        assert(accessed(ops, op.key())) by {
            assert(ops[ops.len() - 1].key() == op.key());
        }
        lemma_step_overtakes(s, t, op, key, past, ops);
    }
}

/// One step of [`law_evicted_only_when_overtaken`].
proof fn lemma_step_overtakes<K, V>(
    s: LruModel<K, V>,
    t: LruModel<K, V>,
    op: Op<K, V>,
    key: K,
    past: Seq<Op<K, V>>,
    ops: Seq<Op<K, V>>,
)
    requires
        s.wf(),
        t == s.step(op),
        t.wf(),
        s.overtaken_only_by(key, past),
        forall|k: K| accessed(past, k) ==> accessed(ops, k),
        accessed(ops, op.key()),
    ensures
        t.overtaken_only_by(key, ops),
{
    let a = op.key();
    let n = s.len() as int;
    // The keys of `t` are those of `u`, place by place.
    let u = if s.contains_key(a) {
        s.refresh(a)
    } else {
        t
    };
    s.lemma_refresh(a);
    match op {
        Op::Read { key: _ } => {},
        Op::Write { key: _, created, updated } => {
            if s.contains_key(a) {
                u.lemma_with_front(updated);
            }
        },
    }
    assert(t.len() == u.len());
    assert forall|i: int| 0 <= i < t.len() implies t.key_at(i) == u.key_at(i) by {}
    assert forall|i: int|
        0 <= i < t.len() && (t.contains_key(key) ==> i < t.position(key)) implies accessed(
        ops,
        #[trigger] t.key_at(i),
    ) by {
        if t.contains_key(key) {
            let q = t.position(key);
            assert(t.key_at(q) == key);
        }
        if s.contains_key(a) {
            // The entry of `a` went from place `p` to the front.
            let p = s.position(a);
            s.lemma_promote(p);
            assert(u == s.promote(p));
            if i == 0 {
                assert(u.entries[0] == s.entries[p]);
                assert(t.key_at(0) == a);
            } else {
                let src = if i <= p { i - 1 } else { i };
                assert(u.entries[i] == s.entries[src]) by {
                    if i <= p {
                        assert(u.entries[(i - 1) + 1] == s.entries[i - 1]);
                    }
                }
                assert(t.key_at(i) == s.key_at(src));
                if s.contains_key(key) {
                    let q = s.position(key);
                    assert(s.key_at(q) == key);
                    let d = if q == p { 0 } else if q < p { q + 1 } else { q };
                    assert(u.entries[d] == s.entries[q]) by {
                        if q < p {
                            assert(u.entries[q + 1] == s.entries[q]);
                        }
                    }
                    assert(t.key_at(d) == key);
                    t.lemma_position(key, d);
                    assert(src < q);
                }
                assert(accessed(past, s.key_at(src)));
            }
        } else if t != s {
            // A new entry for `a` stands in front of what was kept.
            let value = t.entries[0].1;
            assert(t == s.insert(a, value));
            s.lemma_insert(a, value);
            if i == 0 {
                assert(t.key_at(0) == a);
            } else {
                assert(t.entries.drop_first()[i - 1] == t.entries[i]);
                assert(t.key_at(i) == s.key_at(i - 1));
                if s.contains_key(key) {
                    let q = s.position(key);
                    assert(s.key_at(q) == key);
                    if q + 1 < t.len() {
                        assert(t.entries.drop_first()[q] == t.entries[q + 1]);
                        assert(t.key_at(q + 1) == key);
                        t.lemma_position(key, q + 1);
                    }
                    assert(i - 1 < q);
                }
                assert(accessed(past, s.key_at(i - 1)));
            }
        } else {
            assert(accessed(past, s.key_at(i)));
        }
    }
}

/// No duplication: of two create-or-refresh operations that bring the
/// same absent key one after the other, the first creates the entry and
/// the second finds it: one entry for the key, holding what the second
/// mutation left.
pub proof fn law_second_writer_refreshes<K, V>(
    m: LruModel<K, V>,
    key: K,
    first: V,
    first_updated: V,
    second: Option<V>,
    second_updated: V,
)
    requires
        m.wf(),
        m.capacity > 0,
        !m.contains_key(key),
    ensures
        ({
            let one = m.write(key, Some(first), first_updated);
            let two = one.write(key, second, second_updated);
            &&& one.contains_key(key)
            &&& one.entries[0] == (key, first_updated)
            &&& two == one.with_front(second_updated)
            &&& two.len() == one.len()
            &&& two.entries[0] == (key, second_updated)
            &&& forall|i: int| 0 < i < two.len() ==> two.key_at(i) != key
        }),
{
    let one = m.write(key, Some(first), first_updated);
    m.lemma_insert(key, first_updated);
    assert(one.key_at(0) == key);
    one.lemma_position(key, 0);
    assert(one.promote(0).entries =~= one.entries);
    let two = one.write(key, second, second_updated);
    one.lemma_with_front(second_updated);
    assert forall|i: int| 0 < i < two.len() implies two.key_at(i) != key by {
        assert(two.key_at(0) == key);
    }
}

/// Absence is non-mutating: a read of an absent key, and a
/// create-or-refresh of an absent key whose creation declines, leave the
/// number of entries and the recency order as they were.
pub proof fn law_absence_is_non_mutating<K, V>(m: LruModel<K, V>, key: K, updated: V)
    requires
        !m.contains_key(key),
    ensures
        m.read(key) == m,
        m.write(key, None, updated) == m,
{
}

} // verus!
