//! A string-keyed table that keeps first-insertion order.
//!
//! Each key appears at most once. Inserting an existing key replaces its
//! value in place; inserting a new key appends it. The table is the
//! replacement for a hash map wherever the callers also need a stable,
//! deterministic order of entries.

use crate::strutil::str_eq;
use vstd::prelude::*;

verus! {

pub struct StringTable<V> {
    entries: Vec<(String, V)>,
}

/// The first position of `k` in `keys`, or the length when it is absent.
pub open spec fn key_index(keys: Seq<Seq<char>>, k: Seq<char>) -> int
    decreases keys.len(),
{
    if keys.len() == 0 {
        0
    } else if keys.first() == k {
        0
    } else {
        1 + key_index(keys.drop_first(), k)
    }
}

/// The first position is the position: where `k` sits at `i` with no earlier
/// occurrence, `key_index` finds exactly `i`.
proof fn lemma_key_index(keys: Seq<Seq<char>>, k: Seq<char>, i: int)
    requires
        0 <= i < keys.len(),
        keys[i] == k,
        forall|j: int| 0 <= j < i ==> keys[j] != k,
    ensures
        key_index(keys, k) == i,
    decreases i,
{
    if i == 0 {
    } else {
        assert(keys.first() != k);
        lemma_key_index(keys.drop_first(), k, i - 1);
    }
}

/// Where `k` occurs at all, `key_index` lands on its first occurrence.
proof fn lemma_key_index_props(keys: Seq<Seq<char>>, k: Seq<char>)
    requires
        exists|i: int| 0 <= i < keys.len() && keys[i] == k,
    ensures
        0 <= key_index(keys, k) < keys.len(),
        keys[key_index(keys, k)] == k,
        forall|j: int| 0 <= j < key_index(keys, k) ==> keys[j] != k,
    decreases keys.len(),
{
    if keys.first() == k {
    } else {
        let w = choose|i: int| 0 <= i < keys.len() && keys[i] == k;
        assert(keys.drop_first()[w - 1] == k);
        lemma_key_index_props(keys.drop_first(), k);
        assert forall|j: int| 0 <= j < key_index(keys, k) implies keys[j] != k by {
            if j > 0 {
                assert(keys.drop_first()[j - 1] != k);
            }
        }
    }
}

impl<V> StringTable<V> {
    /// The keys, in first-insertion order.
    pub closed spec fn keys(&self) -> Seq<Seq<char>> {
        Seq::new(self.entries@.len(), |i: int| self.entries@[i].0@)
    }

    /// The values, position by position alongside `keys`.
    pub closed spec fn vals(&self) -> Seq<V> {
        Seq::new(self.entries@.len(), |i: int| self.entries@[i].1)
    }

    /// Each key appears at most once.
    pub closed spec fn well_formed(&self) -> bool {
        forall|i: int, j: int|
            0 <= i < j < self.entries@.len() ==> self.entries@[i].0@ != self.entries@[j].0@
    }

    pub open spec fn contains_key(&self, k: Seq<char>) -> bool {
        exists|i: int| 0 <= i < self.keys().len() && self.keys()[i] == k
    }

    /// The position of a key the table holds: the first place it appears.
    pub open spec fn index_of(&self, k: Seq<char>) -> int {
        key_index(self.keys(), k)
    }

    /// The value stored under a key the table holds.
    pub open spec fn value_of(&self, k: Seq<char>) -> V {
        self.vals()[self.index_of(k)]
    }

    /// A key the table holds sits at its `index_of` position, and at no
    /// earlier one.
    pub proof fn lemma_index_props(&self, k: Seq<char>)
        requires
            self.contains_key(k),
        ensures
            0 <= self.index_of(k) < self.keys().len(),
            self.keys()[self.index_of(k)] == k,
            forall|j: int| 0 <= j < self.index_of(k) ==> self.keys()[j] != k,
    {
        lemma_key_index_props(self.keys(), k);
    }

    pub fn new() -> (t: Self)
        ensures
            t.well_formed(),
            t.keys() == Seq::<Seq<char>>::empty(),
            t.vals() == Seq::<V>::empty(),
    {
        let t = StringTable { entries: Vec::new() };
        proof {
            assert(t.keys() =~= Seq::<Seq<char>>::empty());
            assert(t.vals() =~= Seq::<V>::empty());
        }
        t
    }

    pub fn len(&self) -> (r: usize)
        ensures
            r == self.keys().len(),
            r == self.vals().len(),
    {
        self.entries.len()
    }

    pub fn is_empty(&self) -> (r: bool)
        ensures
            r == (self.keys().len() == 0),
    {
        self.entries.len() == 0
    }

    pub fn key_at(&self, i: usize) -> (r: &String)
        requires
            i < self.keys().len(),
        ensures
            r@ == self.keys()[i as int],
    {
        &self.entries[i].0
    }

    pub fn value_at(&self, i: usize) -> (r: &V)
        requires
            i < self.vals().len(),
        ensures
            *r == self.vals()[i as int],
    {
        &self.entries[i].1
    }

    fn find(&self, key: &str) -> (r: Option<usize>)
        requires
            self.well_formed(),
        ensures
            match r {
                Some(i) => i < self.keys().len() && self.keys()[i as int] == key@
                    && self.contains_key(key@) && self.index_of(key@) == i,
                None => !self.contains_key(key@),
            },
    {
        let mut i: usize = 0;
        while i < self.entries.len()
            invariant
                self.well_formed(),
                i <= self.entries@.len(),
                forall|k: int| 0 <= k < i ==> self.keys()[k] != key@,
            decreases self.entries@.len() - i,
        {
            if str_eq(self.entries[i].0.as_str(), key) {
                proof {
                    assert(self.keys()[i as int] == key@);
                    lemma_key_index(self.keys(), key@, i as int);
                }
                return Some(i);
            }
            i = i + 1;
        }
        None
    }

    pub fn get(&self, key: &str) -> (r: Option<&V>)
        requires
            self.well_formed(),
        ensures
            match r {
                Some(v) => self.contains_key(key@) && *v == self.value_of(key@),
                None => !self.contains_key(key@),
            },
    {
        match self.find(key) {
            Some(i) => Some(&self.entries[i].1),
            None => None,
        }
    }

    /// A mutable borrow of the value under `key`: the table afterwards holds
    /// whatever the caller left behind the borrow, in the same place.
    pub fn get_mut(&mut self, key: &str) -> (r: Option<&mut V>)
        requires
            old(self).well_formed(),
        ensures
            match r {
                Some(v) => {
                    &&& old(self).contains_key(key@)
                    &&& *v == old(self).value_of(key@)
                    &&& final(self).well_formed()
                    &&& final(self).keys() =~= old(self).keys()
                    &&& final(self).vals() =~= old(self).vals().update(
                        old(self).index_of(key@),
                        *final(v),
                    )
                },
                None => !old(self).contains_key(key@) && *final(self) == *old(self),
            },
    {
        match self.find(key) {
            Some(i) => {
                let entry = &mut self.entries[i];
                let value = &mut entry.1;
                Some(value)
            },
            None => None,
        }
    }

    /// Stores `value` under `key`: in place for a key already held, appended
    /// for a new one. Every other entry keeps its place and value.
    pub fn insert(&mut self, key: &str, value: V)
        requires
            old(self).well_formed(),
        ensures
            final(self).well_formed(),
            old(self).contains_key(key@) ==> final(self).keys() == old(self).keys() && final(self).vals() == old(self).vals().update(old(self).index_of(key@), value),
            !old(self).contains_key(key@) ==> final(self).keys() == old(self).keys().push(key@)
                && final(self).vals() == old(self).vals().push(value),
            final(self).contains_key(key@),
            final(self).value_of(key@) == value,
            forall|k2: Seq<char>|
                k2 != key@ ==> final(self).contains_key(k2) == old(self).contains_key(k2) && (old(self).contains_key(k2) ==> final(self).value_of(k2) == old(self).value_of(k2)),
    {
        let ghost pre = *self;
        let stored = (String::from_str(key), value);
        match self.find(key) {
            Some(i) => {
                self.entries.set(i, stored);
                proof {
                    Self::lemma_after_set(pre, *self, i as int, key@);
                }
            },
            None => {
                self.entries.push(stored);
                proof {
                    Self::lemma_after_push(pre, *self, key@);
                }
            },
        }
    }

    /// Removes the entry under `key`, handing its value back; later entries
    /// move up one place.
    pub fn remove(&mut self, key: &str) -> (r: Option<V>)
        requires
            old(self).well_formed(),
        ensures
            final(self).well_formed(),
            match r {
                Some(v) => {
                    &&& old(self).contains_key(key@)
                    &&& v == old(self).value_of(key@)
                    &&& final(self).keys() == old(self).keys().remove(old(self).index_of(key@))
                    &&& final(self).vals() == old(self).vals().remove(old(self).index_of(key@))
                    &&& !final(self).contains_key(key@)
                    &&& forall|k2: Seq<char>|
                        k2 != key@ ==> final(self).contains_key(k2) == old(self).contains_key(k2)
                            && (old(self).contains_key(k2) ==> final(self).value_of(k2) == old(self).value_of(k2))
                },
                None => !old(self).contains_key(key@) && *final(self) == *old(self),
            },
    {
        let ghost pre = *self;
        match self.find(key) {
            Some(i) => {
                let kv = self.entries.remove(i);
                proof {
                    Self::lemma_after_remove(pre, *self, i as int, key@);
                }
                Some(kv.1)
            },
            None => None,
        }
    }

    pub fn clear(&mut self)
        ensures
            final(self).well_formed(),
            final(self).keys() == Seq::<Seq<char>>::empty(),
            final(self).vals() == Seq::<V>::empty(),
    {
        self.entries.clear();
        proof {
            assert(self.keys() =~= Seq::<Seq<char>>::empty());
            assert(self.vals() =~= Seq::<V>::empty());
        }
    }

    proof fn lemma_after_set(pre: Self, post: Self, i: int, key: Seq<char>)
        requires
            pre.well_formed(),
            0 <= i < pre.entries@.len(),
            pre.keys()[i] == key,
            pre.index_of(key) == i,
            post.entries@ == pre.entries@.update(i, post.entries@[i]),
            post.entries@[i].0@ == key,
        ensures
            post.well_formed(),
            post.keys() == pre.keys(),
            post.vals() == pre.vals().update(i, post.entries@[i].1),
            post.contains_key(key),
            post.value_of(key) == post.entries@[i].1,
            forall|k2: Seq<char>|
                k2 != key ==> post.contains_key(k2) == pre.contains_key(k2) && (pre.contains_key(
                    k2,
                ) ==> post.value_of(k2) == pre.value_of(k2)),
    {
        assert(post.keys() =~= pre.keys());
        assert(post.vals() =~= pre.vals().update(i, post.entries@[i].1));
        assert(post.keys()[i] == key);
        assert(post.index_of(key) == i);
        assert forall|k2: Seq<char>| k2 != key implies post.contains_key(k2) == pre.contains_key(
            k2,
        ) && (pre.contains_key(k2) ==> post.value_of(k2) == pre.value_of(k2)) by {
            assert(post.keys() == pre.keys());
            if pre.contains_key(k2) {
                lemma_key_index_props(pre.keys(), k2);
                let if2 = pre.index_of(k2);
                assert(post.index_of(k2) == if2);
                assert(pre.keys()[if2] == k2 && k2 != key);
                assert(if2 != i);
                assert(post.vals()[if2] == pre.vals()[if2]);
            }
        }
    }

    proof fn lemma_after_push(pre: Self, post: Self, key: Seq<char>)
        requires
            pre.well_formed(),
            !pre.contains_key(key),
            post.entries@ == pre.entries@.push(post.entries@.last()),
            post.entries@.last().0@ == key,
        ensures
            post.well_formed(),
            post.keys() == pre.keys().push(key),
            post.vals() == pre.vals().push(post.entries@.last().1),
            post.contains_key(key),
            post.value_of(key) == post.entries@.last().1,
            forall|k2: Seq<char>|
                k2 != key ==> post.contains_key(k2) == pre.contains_key(k2) && (pre.contains_key(
                    k2,
                ) ==> post.value_of(k2) == pre.value_of(k2)),
    {
        let n = pre.entries@.len() as int;
        assert(post.keys() =~= pre.keys().push(key));
        assert(post.vals() =~= pre.vals().push(post.entries@.last().1));
        assert forall|i: int, j: int|
            0 <= i < j < post.entries@.len() implies post.entries@[i].0@ != post.entries@[j].0@ by {
            if j == n {
                assert(post.keys()[i] == pre.keys()[i]);
                if post.entries@[i].0@ == key {
                    assert(pre.keys()[i] == key);
                    assert(pre.contains_key(key));
                }
            }
        }
        assert(post.keys()[n] == key);
        assert(post.index_of(key) == n) by {
            assert forall|j: int| 0 <= j < n implies post.keys()[j] != key by {
                if post.keys()[j] == key {
                    assert(pre.keys()[j] == key);
                    assert(pre.contains_key(key));
                }
            }
            lemma_key_index(post.keys(), key, n);
        }
        assert forall|k2: Seq<char>| k2 != key implies post.contains_key(k2) == pre.contains_key(
            k2,
        ) && (pre.contains_key(k2) ==> post.value_of(k2) == pre.value_of(k2)) by {
            if pre.contains_key(k2) {
                lemma_key_index_props(pre.keys(), k2);
                let if2 = pre.index_of(k2);
                assert(post.keys()[if2] == k2);
                assert(post.contains_key(k2));
                assert(post.index_of(k2) == if2) by {
                    assert forall|j: int| 0 <= j < if2 implies post.keys()[j] != k2 by {
                        assert(pre.keys()[j] != k2);
                    }
                    lemma_key_index(post.keys(), k2, if2);
                }
                assert(post.vals()[if2] == pre.vals()[if2]);
            }
            if post.contains_key(k2) {
                lemma_key_index_props(post.keys(), k2);
                let k = post.index_of(k2);
                assert(k != n);
                assert(pre.keys()[k] == k2);
                assert(pre.contains_key(k2));
            }
        }
    }

    proof fn lemma_after_remove(pre: Self, post: Self, i: int, key: Seq<char>)
        requires
            pre.well_formed(),
            0 <= i < pre.entries@.len(),
            pre.keys()[i] == key,
            pre.index_of(key) == i,
            post.entries@ == pre.entries@.remove(i),
        ensures
            post.well_formed(),
            post.keys() == pre.keys().remove(i),
            post.vals() == pre.vals().remove(i),
            !post.contains_key(key),
            forall|k2: Seq<char>|
                k2 != key ==> post.contains_key(k2) == pre.contains_key(k2) && (pre.contains_key(
                    k2,
                ) ==> post.value_of(k2) == pre.value_of(k2)),
    {
        let n = pre.entries@.len() as int;
        assert(post.keys() =~= pre.keys().remove(i));
        assert(post.vals() =~= pre.vals().remove(i));
        assert forall|k: int| 0 <= k < n - 1 implies post.keys()[k] != key by {
            if k < i {
                assert(pre.keys()[k] != pre.keys()[i]);
            } else {
                assert(post.keys()[k] == pre.keys()[k + 1]);
                assert(pre.keys()[k + 1] != pre.keys()[i]);
            }
        }
        assert forall|k2: Seq<char>| k2 != key implies post.contains_key(k2) == pre.contains_key(
            k2,
        ) && (pre.contains_key(k2) ==> post.value_of(k2) == pre.value_of(k2)) by {
            if pre.contains_key(k2) {
                lemma_key_index_props(pre.keys(), k2);
                let if2 = pre.index_of(k2);
                assert(pre.keys()[if2] == k2 && k2 != key);
                assert(if2 != i);
                let ipost: int = if if2 < i {
                    if2
                } else {
                    if2 - 1
                };
                assert(post.keys()[ipost] == k2);
                assert(post.contains_key(k2));
                assert(post.index_of(k2) == ipost) by {
                    assert forall|j: int| 0 <= j < ipost implies post.keys()[j] != k2 by {
                        if j < i {
                            assert(post.keys()[j] == pre.keys()[j]);
                            assert(pre.keys()[j] != k2);
                        } else {
                            assert(post.keys()[j] == pre.keys()[j + 1]);
                            assert(pre.keys()[j + 1] != k2);
                        }
                    }
                    lemma_key_index(post.keys(), k2, ipost);
                }
                assert(post.vals()[ipost] == pre.vals()[if2]);
            }
            if post.contains_key(k2) {
                lemma_key_index_props(post.keys(), k2);
                let k = post.index_of(k2);
                if k < i {
                    assert(pre.keys()[k] == k2);
                } else {
                    assert(pre.keys()[k + 1] == k2);
                }
                assert(pre.contains_key(k2));
            }
        }
    }
}

} // verus!
