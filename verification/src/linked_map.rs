//! `LinkedMap`: an immutable-style ordered map with a movable cursor.
//!
//! Values are held behind `Arc`, so that the copies that every operation
//! returns share them instead of cloning them.
use std::collections::BTreeMap;
use std::sync::Arc;
use vstd::prelude::*;

use crate::keys::{copy_keys, key_laws, keys_equal, position_of};
use crate::model::{lemma_index_of_unique, lemma_insert_fresh, lemma_remove_at, LinkedMapView};

verus! {

broadcast use vstd::std_specs::btree::group_btree_axioms;

/// An immutable-style ordered map with a movable cursor.
///
/// Each operation returns a new `LinkedMap` and leaves the map it is called
/// on unchanged. Keys are unique.
#[verifier::reject_recursive_types(K)]
#[derive(Debug)]
pub struct LinkedMap<K: Copy + Ord, V> {
    pub(crate) entries: BTreeMap<K, Arc<V>>,
    pub(crate) order: Vec<K>,
    pub(crate) current: Option<K>,
}

/// The values behind the shared pointers of an entry table.
pub open spec fn unshared<K, V>(entries: Map<K, Arc<V>>) -> Map<K, V> {
    entries.map_values(|a: Arc<V>| *a)
}

/// The representation invariant, over the three fields.
pub open spec fn parts_ok<K: Ord, V>(
    entries: Map<K, Arc<V>>,
    order: Seq<K>,
    current: Option<K>,
) -> bool {
    &&& key_laws::<K>()
    &&& order.no_duplicates()
    &&& forall|k: K| #[trigger] entries.contains_key(k) <==> order.contains(k)
    &&& (current matches Some(c) ==> order.contains(c))
}

impl<K: Copy + Ord, V> View for LinkedMap<K, V> {
    type V = LinkedMapView<K, V>;

    closed spec fn view(&self) -> LinkedMapView<K, V> {
        LinkedMapView { keys: self.order@, map: unshared(self.entries@), cursor: self.current }
    }
}

/// The view in terms of the fields, for the other modules of the crate.
pub(crate) broadcast proof fn lemma_view_parts<K: Copy + Ord, V>(m: &LinkedMap<K, V>)
    ensures
        #[trigger] m.view() == (LinkedMapView {
            keys: m.order@,
            map: unshared(m.entries@),
            cursor: m.current,
        }),
{
}

/// The representation invariant makes the view well formed.
pub(crate) proof fn lemma_parts_wf<K: Ord, V>(entries: Map<K, Arc<V>>, order: Seq<K>, current: Option<K>)
    requires
        parts_ok(entries, order, current),
    ensures
        (LinkedMapView { keys: order, map: unshared(entries), cursor: current }).wf(),
{
    assert(unshared(entries).dom() =~= order.to_set());
}

impl<K: Copy + Ord, V> LinkedMap<K, V> {
    #[verifier::type_invariant]
    pub(crate) open spec fn inv(&self) -> bool {
        parts_ok(self.entries@, self.order@, self.current)
    }

    /// The map with no entries.
    pub fn new() -> (r: Self)
        requires
            key_laws::<K>(),
        ensures
            r@ == LinkedMapView::<K, V>::empty(),
    {
        let r = LinkedMap { entries: BTreeMap::new(), order: Vec::new(), current: None };
        assert(r@.map =~= Map::<K, V>::empty());
        r
    }

    pub fn len(&self) -> (r: usize)
        ensures
            r == self@.len(),
            self@.wf(),
    {
        proof {
            use_type_invariant(self);
            lemma_parts_wf(self.entries@, self.order@, self.current);
        }
        self.order.len()
    }

    pub fn is_empty(&self) -> (r: bool)
        ensures
            r <==> self@.len() == 0,
    {
        self.order.len() == 0
    }

    pub fn contains_key(&self, key: &K) -> (r: bool)
        ensures
            r <==> self@.contains(*key),
            r <==> self@.map.contains_key(*key),
    {
        proof {
            use_type_invariant(self);
        }
        self.entries.contains_key(key)
    }

    pub fn get(&self, key: &K) -> (r: Option<&V>)
        ensures
            r == (if self@.map.contains_key(*key) {
                Some(&self@.map[*key])
            } else {
                None
            }),
    {
        proof {
            use_type_invariant(self);
        }
        match self.entries.get(key) {
            Some(a) => Some(&**a),
            None => None,
        }
    }

    /// The value under a key that the map holds.
    pub(crate) fn value_of(&self, key: &K) -> (r: &V)
        requires
            self@.contains(*key),
        ensures
            *r == self@.map[*key],
    {
        proof {
            use_type_invariant(self);
        }
        match self.entries.get(key) {
            Some(a) => &**a,
            None => vstd::pervasive::unreached(),
        }
    }

    pub fn current_key(&self) -> (r: Option<&K>)
        ensures
            r == match self@.cursor {
                Some(c) => Some(&c),
                None => None,
            },
    {
        match &self.current {
            Some(c) => Some(c),
            None => None,
        }
    }

    pub fn current_value(&self) -> (r: Option<&V>)
        ensures
            r == match self@.cursor {
                Some(c) => Some(&self@.map[c]),
                None => None,
            },
    {
        proof {
            use_type_invariant(self);
        }
        match &self.current {
            Some(c) => Some(self.value_of(c)),
            None => None,
        }
    }

    pub fn first_key(&self) -> (r: Option<&K>)
        ensures
            r == (if self@.len() > 0 {
                Some(&self@.keys[0])
            } else {
                None
            }),
    {
        if self.order.len() > 0 {
            Some(&self.order[0])
        } else {
            None
        }
    }

    pub fn last_key(&self) -> (r: Option<&K>)
        ensures
            r == (if self@.len() > 0 {
                Some(&self@.keys.last())
            } else {
                None
            }),
    {
        if self.order.len() > 0 {
            Some(&self.order[self.order.len() - 1])
        } else {
            None
        }
    }

    pub fn first(&self) -> (r: Option<&V>)
        ensures
            r == (if self@.len() > 0 {
                Some(&self@.value_at(0))
            } else {
                None
            }),
    {
        proof {
            use_type_invariant(self);
        }
        if self.order.len() > 0 {
            assert(self.order@.contains(self.order@[0]));
            Some(self.value_of(&self.order[0]))
        } else {
            None
        }
    }

    pub fn last(&self) -> (r: Option<&V>)
        ensures
            r == (if self@.len() > 0 {
                Some(&self@.value_at(self@.len() - 1))
            } else {
                None
            }),
    {
        proof {
            use_type_invariant(self);
        }
        if self.order.len() > 0 {
            let i = self.order.len() - 1;
            assert(self.order@.contains(self.order@[i as int]));
            Some(self.value_of(&self.order[i]))
        } else {
            None
        }
    }

    /// The position of a key that the map holds.
    pub(crate) fn index_of_key(&self, key: &K) -> (r: usize)
        requires
            self@.contains(*key),
        ensures
            r < self@.len() <= usize::MAX,
            self@.keys[r as int] == *key,
            r == self@.position(*key),
    {
        proof {
            use_type_invariant(self);
        }
        let r = position_of(&self.order, key);
        proof {
            lemma_index_of_unique(self.order@, r as int);
        }
        r
    }

    /// A copy of this map with a fresh key bound, at position `index`, to a
    /// shared value.
    pub(crate) fn insert_shared_at(&self, index: usize, key: K, value: Arc<V>) -> (r: Self)
        requires
            index <= self@.len(),
            !self@.contains(key),
        ensures
            r@ == self@.insert_at(index as int, key, *value),
    {
        proof {
            use_type_invariant(self);
        }
        let mut entries = self.entries.clone();
        entries.insert(key, value);
        let mut order = copy_keys(&self.order);
        order.insert(index, key);
        let current = if self.order.len() == 0 {
            Some(key)
        } else {
            self.current
        };
        proof {
            lemma_insert_fresh(self.order@, index as int, key);
            assert(unshared(entries@) =~= self@.map.insert(key, *value));
        }
        LinkedMap { entries, order, current }
    }

    /// A copy of this map with a fresh key bound at position `index`.
    pub(crate) fn insert_pair_at(&self, index: usize, key: K, value: V) -> (r: Self)
        requires
            index <= self@.len(),
            !self@.contains(key),
        ensures
            r@ == self@.insert_at(index as int, key, value),
    {
        self.insert_shared_at(index, key, Arc::new(value))
    }

    /// Appends a fresh key with its value.
    pub fn push(&self, value: V, key: K) -> (r: Self)
        requires
            !self@.contains(key),
        ensures
            r@ == self@.push(key, value),
    {
        self.insert_pair_at(self.order.len(), key, value)
    }

    /// Puts a fresh key with its value in front.
    pub fn prepend(&self, value: V, key: K) -> (r: Self)
        requires
            !self@.contains(key),
        ensures
            r@ == self@.prepend(key, value),
    {
        self.insert_pair_at(0, key, value)
    }

    /// Places a fresh key with its value right after a present key.
    pub fn insert_after(&self, after: &K, value: V, key: K) -> (r: Self)
        requires
            self@.contains(*after),
            !self@.contains(key),
        ensures
            r@ == self@.insert_after(*after, key, value),
    {
        let index = self.index_of_key(after) + 1;
        self.insert_pair_at(index, key, value)
    }

    /// Places a fresh key with its value right before a present key.
    pub fn insert_before(&self, before: &K, value: V, key: K) -> (r: Self)
        requires
            self@.contains(*before),
            !self@.contains(key),
        ensures
            r@ == self@.insert_before(*before, key, value),
    {
        let index = self.index_of_key(before);
        self.insert_pair_at(index, key, value)
    }

    /// An equal copy of this map, cursor included.
    pub fn copy(&self) -> (r: Self)
        ensures
            r@ == self@,
    {
        proof {
            use_type_invariant(self);
        }
        LinkedMap { entries: self.entries.clone(), order: copy_keys(&self.order), current: self.current }
    }

    /// Drops a key with its value; a map without the key is returned unchanged.
    pub fn remove(&self, key: &K) -> (r: Self)
        ensures
            r@ == self@.remove(*key),
    {
        proof {
            use_type_invariant(self);
        }
        if !self.contains_key(key) {
            return self.copy();
        }
        let index = self.index_of_key(key);
        let mut entries = self.entries.clone();
        entries.remove(key);
        let mut order = copy_keys(&self.order);
        order.remove(index);
        let current = match self.current {
            Some(c) => if keys_equal(&c, key) {
                None
            } else {
                Some(c)
            },
            None => None,
        };
        proof {
            lemma_remove_at(self.order@, index as int);
            assert(unshared(entries@) =~= self@.map.remove(*key));
        }
        LinkedMap { entries, order, current }
    }

    /// Same as `remove`.
    pub fn delete(&self, key: &K) -> (r: Self)
        ensures
            r@ == self@.remove(*key),
    {
        self.remove(key)
    }

    /// Drops the last key; an empty map is returned unchanged.
    pub fn pop(&self) -> (r: Self)
        ensures
            r@ == self@.pop(),
    {
        if self.order.len() == 0 {
            self.copy()
        } else {
            let last = self.order[self.order.len() - 1];
            self.remove(&last)
        }
    }

    /// Drops the first key; an empty map is returned unchanged.
    pub fn shift(&self) -> (r: Self)
        ensures
            r@ == self@.shift(),
    {
        if self.order.len() == 0 {
            self.copy()
        } else {
            let first = self.order[0];
            self.remove(&first)
        }
    }

    /// Rebinds a present key to a new value.
    pub fn set(&self, key: &K, value: V) -> (r: Self)
        requires
            self@.contains(*key),
        ensures
            r@ == self@.set(*key, value),
    {
        proof {
            use_type_invariant(self);
        }
        let mut entries = self.entries.clone();
        entries.insert(*key, Arc::new(value));
        proof {
            assert(unshared(entries@) =~= self@.map.insert(*key, value));
        }
        LinkedMap { entries, order: copy_keys(&self.order), current: self.current }
    }

    /// Rebinds a present key to what `f` makes of its value.
    pub fn update<F: FnOnce(&V) -> V>(&self, key: &K, f: F) -> (r: Self)
        requires
            self@.contains(*key),
            f.requires((&self@.map[*key],)),
        ensures
            f.ensures((&self@.map[*key],), r@.map[*key]),
            r@ == self@.set(*key, r@.map[*key]),
    {
        let value = f(self.value_of(key));
        self.set(key, value)
    }

    /// Exchanges the positions of two present keys.
    pub fn swap(&self, key1: &K, key2: &K) -> (r: Self)
        requires
            self@.contains(*key1),
            self@.contains(*key2),
        ensures
            r@ == self@.swap(*key1, *key2),
    {
        proof {
            use_type_invariant(self);
        }
        let pos1 = self.index_of_key(key1);
        let pos2 = self.index_of_key(key2);
        if pos1 == pos2 {
            proof {
                assert(self@.keys.update(pos1 as int, *key2).update(pos2 as int, *key1) =~= self@.keys);
            }
            return self.copy();
        }
        let mut order = copy_keys(&self.order);
        order[pos1] = *key2;
        order[pos2] = *key1;
        proof {
            let s = self.order@;
            let t = order@;
            assert forall|a: int, b: int| 0 <= a < t.len() && 0 <= b < t.len() && a != b implies t[a]
                != t[b] by {
                let a2 = if a == pos1 { pos2 as int } else if a == pos2 { pos1 as int } else { a };
                let b2 = if b == pos1 { pos2 as int } else if b == pos2 { pos1 as int } else { b };
                assert(t[a] == s[a2] && t[b] == s[b2]);
            }
            assert forall|k: K| t.contains(k) <==> s.contains(k) by {
                if t.contains(k) {
                    let j = choose|j: int| 0 <= j < t.len() && t[j] == k;
                    let j2 = if j == pos1 { pos2 as int } else if j == pos2 { pos1 as int } else { j };
                    assert(s[j2] == k);
                }
                if s.contains(k) {
                    let j = choose|j: int| 0 <= j < s.len() && s[j] == k;
                    let j2 = if j == pos1 { pos2 as int } else if j == pos2 { pos1 as int } else { j };
                    assert(t[j2] == k);
                }
            }
        }
        LinkedMap { entries: self.entries.clone(), order, current: self.current }
    }

    /// The same entries in the opposite order.
    pub fn reverse(&self) -> (r: Self)
        ensures
            r@ == self@.reverse(),
    {
        proof {
            use_type_invariant(self);
        }
        let n = self.order.len();
        let mut order: Vec<K> = Vec::new();
        let mut i: usize = n;
        while i > 0
            invariant
                i <= n == self.order@.len(),
                order@.len() == n - i,
                forall|j: int| 0 <= j < n - i ==> order@[j] == self.order@[n - 1 - j],
            decreases i,
        {
            i -= 1;
            order.push(self.order[i]);
        }
        proof {
            let s = self.order@;
            let t = order@;
            assert(t =~= s.reverse());
            assert forall|a: int, b: int| 0 <= a < t.len() && 0 <= b < t.len() && a != b implies t[a]
                != t[b] by {
                assert(t[a] == s[n - 1 - a] && t[b] == s[n - 1 - b]);
            }
            assert forall|k: K| t.contains(k) <==> s.contains(k) by {
                if t.contains(k) {
                    let j = choose|j: int| 0 <= j < t.len() && t[j] == k;
                    assert(s[n - 1 - j] == k);
                }
                if s.contains(k) {
                    let j = choose|j: int| 0 <= j < s.len() && s[j] == k;
                    assert(t[n - 1 - j] == k);
                }
            }
        }
        LinkedMap { entries: self.entries.clone(), order, current: self.current }
    }

    /// This map with the cursor set to `current`.
    pub(crate) fn with_cursor(&self, current: Option<K>) -> (r: Self)
        requires
            current matches Some(c) ==> self@.contains(c),
        ensures
            r@ == (LinkedMapView { cursor: current, ..self@ }),
    {
        proof {
            use_type_invariant(self);
        }
        LinkedMap { entries: self.entries.clone(), order: copy_keys(&self.order), current }
    }

    /// Moves the cursor one key forward (past the end it is unset).
    pub fn next(&self) -> (r: Self)
        ensures
            r@ == self@.next(),
    {
        proof {
            use_type_invariant(self);
        }
        match self.current {
            None => self.copy(),
            Some(c) => {
                let i = self.index_of_key(&c);
                if i + 1 < self.order.len() {
                    assert(self.order@.contains(self.order@[i + 1]));
                    self.with_cursor(Some(self.order[i + 1]))
                } else {
                    self.with_cursor(None)
                }
            },
        }
    }

    /// Moves the cursor one key back (before the start it is unset).
    pub fn prev(&self) -> (r: Self)
        ensures
            r@ == self@.prev(),
    {
        proof {
            use_type_invariant(self);
        }
        match self.current {
            None => self.copy(),
            Some(c) => {
                let i = self.index_of_key(&c);
                if i > 0 {
                    assert(self.order@.contains(self.order@[i - 1]));
                    self.with_cursor(Some(self.order[i - 1]))
                } else {
                    self.with_cursor(None)
                }
            },
        }
    }

    /// Puts the cursor on a present key; otherwise the map is unchanged.
    pub fn move_to(&self, key: &K) -> (r: Self)
        ensures
            r@ == self@.move_to(*key),
    {
        if !self.contains_key(key) {
            return self.copy();
        }
        self.with_cursor(Some(*key))
    }

    /// Puts the cursor on the first key (unset on an empty map).
    pub fn move_to_start(&self) -> (r: Self)
        ensures
            r@ == self@.move_to_start(),
    {
        proof {
            use_type_invariant(self);
        }
        if self.order.len() > 0 {
            assert(self.order@.contains(self.order@[0]));
            self.with_cursor(Some(self.order[0]))
        } else {
            self.with_cursor(None)
        }
    }

    /// Puts the cursor on the last key (unset on an empty map).
    pub fn move_to_end(&self) -> (r: Self)
        ensures
            r@ == self@.move_to_end(),
    {
        proof {
            use_type_invariant(self);
        }
        let n = self.order.len();
        if n > 0 {
            assert(self.order@.contains(self.order@[n - 1]));
            self.with_cursor(Some(self.order[n - 1]))
        } else {
            self.with_cursor(None)
        }
    }

    /// The empty map.
    pub fn clear(&self) -> (r: Self)
        ensures
            r@ == LinkedMapView::<K, V>::empty(),
    {
        proof {
            use_type_invariant(self);
        }
        if self.order.len() == 0 {
            let r = self.copy();
            proof {
                assert(r@.map =~= Map::<K, V>::empty());
                assert(r@.keys =~= Seq::<K>::empty());
            }
            return r;
        }
        Self::new()
    }

    /// The well-formedness of the view, from the type invariant.
    pub(crate) proof fn lemma_wf(&self)
        requires
            parts_ok(self.entries@, self.order@, self.current),
        ensures
            self@.wf(),
    {
        lemma_parts_wf(self.entries@, self.order@, self.current);
    }
}

impl<K: Copy + Ord, V> Clone for LinkedMap<K, V> {
    /// An equal copy, sharing the values.
    fn clone(&self) -> (r: Self)
        ensures
            r@ == self@,
    {
        self.copy()
    }
}

} // verus!
