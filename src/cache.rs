//! A bounded least-recently-used map, used in front of note lookups and
//! note searches.

use vstd::prelude::*;

use crate::model::{NoteData, NoteId, NoteSearch};

verus! {

/// A key that a cache can compare.
pub trait CacheKey: Copy {
    fn same(&self, other: &Self) -> (r: bool)
        ensures
            r == (*self == *other),
    ;
}

/// A value that a cache can hand out copies of.
pub trait CacheValue: Sized + View {
    fn duplicate_value(&self) -> (r: Self)
        ensures
            r@ == self@,
    ;
}

impl CacheKey for NoteId {
    fn same(&self, other: &Self) -> (r: bool) {
        *self == *other
    }
}

impl CacheKey for NoteSearch {
    fn same(&self, other: &Self) -> (r: bool) {
        *self == *other
    }
}

impl CacheValue for NoteData {
    fn duplicate_value(&self) -> (r: Self) {
        self.duplicate()
    }
}

impl CacheValue for Vec<NoteId> {
    fn duplicate_value(&self) -> (r: Self) {
        self.clone()
    }
}

/// Entries from least to most recently used.
pub struct Cache<K, V> {
    size: usize,
    entries: Vec<(K, V)>,
}

/// Where a key stands among entries, or -1.
pub open spec fn key_pos<K, W>(s: Seq<(K, W)>, k: K) -> int {
    if exists|i: int| 0 <= i < s.len() && s[i].0 == k {
        choose|i: int| 0 <= i < s.len() && s[i].0 == k
    } else {
        -1
    }
}

/// Whether the keys of the entries are distinct.
pub open spec fn keys_distinct<K, W>(s: Seq<(K, W)>) -> bool {
    forall|i: int, j: int| 0 <= i < j < s.len() ==> s[i].0 != s[j].0
}

/// The entries after storing a value: the key's old entry gone, or else the
/// least recently used one when the cache is full, and the new entry last.
pub open spec fn stored<K, W>(s: Seq<(K, W)>, size: nat, k: K, w: W) -> Seq<(K, W)> {
    let p = key_pos(s, k);
    if p >= 0 {
        s.remove(p).push((k, w))
    } else if s.len() >= size && s.len() > 0 {
        s.drop_first().push((k, w))
    } else {
        s.push((k, w))
    }
}

impl<K: CacheKey, V: CacheValue> View for Cache<K, V> {
    type V = Seq<(K, V::V)>;

    closed spec fn view(&self) -> Seq<(K, V::V)> {
        self.entries@.map_values(|e: (K, V)| (e.0, e.1@))
    }
}

impl<K: CacheKey, V: CacheValue> Cache<K, V> {
    /// The number of entries kept before the least recently used one goes.
    pub closed spec fn capacity(&self) -> nat {
        self.size as nat
    }

    /// The invariant: distinct keys, no more entries than the capacity
    /// (one at least).
    pub open spec fn wf(&self) -> bool {
        &&& keys_distinct(self@)
        &&& self@.len() <= self.capacity() || self@.len() <= 1
    }

    /// An empty cache of this capacity.
    pub fn new(size: usize) -> (r: Self)
        ensures
            r.wf(),
            r@.len() == 0,
            r.capacity() == size,
    {
        let r = Cache { size, entries: Vec::new() };
        assert(r@ =~= Seq::empty());
        r
    }

    /// Where a key stands.
    fn find(&self, key: &K) -> (r: Option<usize>)
        requires
            self.wf(),
        ensures
            match r {
                Some(i) => i < self@.len() && self@[i as int].0 == *key && key_pos(self@, *key) == i,
                None => key_pos(self@, *key) == -1,
            },
    {
        let mut i: usize = 0;
        while i < self.entries.len()
            invariant
                self.wf(),
                i <= self@.len(),
                self@.len() == self.entries@.len(),
                forall|k: int| 0 <= k < i ==> self@[k].0 != *key,
            decreases self@.len() - i,
        {
            if self.entries[i].0.same(key) {
                proof {
                    let j = key_pos(self@, *key);
                    if j != i {
                        if j < i {
                            assert(self@[j].0 != self@[i as int].0);
                        } else {
                            assert(self@[i as int].0 != self@[j].0);
                        }
                    }
                }
                return Some(i);
            }
            i = i + 1;
        }
        None
    }

    /// Removes the entry at a position and hands it back.
    fn take_at(&mut self, i: usize) -> (r: (K, V))
        requires
            old(self).wf(),
            i < old(self)@.len(),
        ensures
            final(self).wf(),
            final(self)@ == old(self)@.remove(i as int),
            (r.0, r.1@) == old(self)@[i as int],
            final(self).capacity() == old(self).capacity(),
    {
        let ghost before = self@;
        let e = self.entries.remove(i);
        assert(self@ =~= before.remove(i as int));
        assert forall|a: int, b: int| 0 <= a < b < self@.len() implies self@[a].0 != self@[b].0 by {
            let a0 = if a < i { a } else { a + 1 };
            let b0 = if b < i { b } else { b + 1 };
            assert(self@[a] == before[a0] && self@[b] == before[b0]);
        }
        e
    }

    /// The value under a key, made the most recently used.
    pub fn get(&mut self, key: &K) -> (r: Option<V>)
        requires
            old(self).wf(),
        ensures
            final(self).wf(),
            final(self).capacity() == old(self).capacity(),
            key_pos(old(self)@, *key) == -1 ==> r is None && final(self)@ == old(self)@,
            key_pos(old(self)@, *key) >= 0 ==> r is Some && r->Some_0@ == old(self)@[key_pos(
                old(self)@,
                *key,
            )].1 && final(self)@ == old(self)@.remove(key_pos(old(self)@, *key)).push(
                old(self)@[key_pos(old(self)@, *key)],
            ),
    {
        match self.find(key) {
            None => None,
            Some(i) => {
                let ghost before = self@;
                let e = self.take_at(i);
                let v = e.1.duplicate_value();
                let ghost mid = self@;
                self.entries.push(e);
                assert(self@ =~= mid.push(before[i as int]));
                assert forall|a: int, b: int| 0 <= a < b < self@.len() implies self@[a].0 != self@[b].0 by {
                    if b == mid.len() {
                        let a0 = if a < i { a } else { a + 1 };
                        assert(mid[a] == before[a0]);
                        assert(before[a0].0 != before[i as int].0);
                    }
                }
                Some(v)
            },
        }
    }

    /// Stores a value under a key as the most recently used, evicting the
    /// least recently used entry when a new key finds the cache full.
    pub fn insert(&mut self, key: K, value: V)
        requires
            old(self).wf(),
        ensures
            final(self).wf(),
            final(self).capacity() == old(self).capacity(),
            final(self)@ == stored(old(self)@, old(self).capacity(), key, value@),
    {
        let ghost before = self@;
        match self.find(&key) {
            Some(i) => {
                let _ = self.take_at(i);
            },
            None => {
                if self.entries.len() >= self.size && self.entries.len() > 0 {
                    let _ = self.take_at(0);
                    assert(before.remove(0) =~= before.drop_first());
                }
            },
        }
        let ghost mid = self@;
        self.entries.push((key, value));
        assert(self@ =~= mid.push((key, value@)));
        assert forall|a: int, b: int| 0 <= a < b < self@.len() implies self@[a].0 != self@[b].0 by {
            if b == mid.len() {
                if key_pos(before, key) >= 0 {
                    let p = key_pos(before, key);
                    let a0 = if a < p { a } else { a + 1 };
                    assert(mid[a] == before[a0]);
                    assert(before[a0].0 != before[p].0);
                } else {
                    if before.len() >= self.size && before.len() > 0 {
                        assert(mid[a] == before[a + 1]);
                    } else {
                        assert(mid[a] == before[a]);
                    }
                }
            }
        }
    }

    /// Removes the entry under a key, leaving the order of the others.
    pub fn invalidate_key(&mut self, key: &K) -> (r: Option<V>)
        requires
            old(self).wf(),
        ensures
            final(self).wf(),
            final(self).capacity() == old(self).capacity(),
            key_pos(old(self)@, *key) == -1 ==> r is None && final(self)@ == old(self)@,
            key_pos(old(self)@, *key) >= 0 ==> r is Some && r->Some_0@ == old(self)@[key_pos(
                old(self)@,
                *key,
            )].1 && final(self)@ == old(self)@.remove(key_pos(old(self)@, *key)),
            key_pos(final(self)@, *key) == -1,
    {
        match self.find(key) {
            None => None,
            Some(i) => {
                let ghost before = self@;
                let e = self.take_at(i);
                assert forall|k: int| 0 <= k < self@.len() implies self@[k].0 != *key by {
                    let k0 = if k < i { k } else { k + 1 };
                    assert(self@[k] == before[k0]);
                    assert(before[k0].0 != before[i as int].0);
                }
                Some(e.1)
            },
        }
    }

    /// Removes the least recently used entry.
    pub fn remove_oldest(&mut self) -> (r: Option<V>)
        requires
            old(self).wf(),
        ensures
            final(self).wf(),
            final(self).capacity() == old(self).capacity(),
            old(self)@.len() == 0 ==> r is None && final(self)@ == old(self)@,
            old(self)@.len() > 0 ==> r is Some && r->Some_0@ == old(self)@[0].1 && final(self)@
                == old(self)@.drop_first(),
    {
        if self.entries.len() == 0 {
            None
        } else {
            let e = self.take_at(0);
            assert(old(self)@.remove(0) =~= old(self)@.drop_first());
            Some(e.1)
        }
    }

    /// Removes every entry.
    pub fn clear(&mut self)
        requires
            old(self).wf(),
        ensures
            final(self).wf(),
            final(self).capacity() == old(self).capacity(),
            final(self)@.len() == 0,
    {
        self.entries = Vec::new();
        assert(self@ =~= Seq::empty());
    }
}

} // verus!
