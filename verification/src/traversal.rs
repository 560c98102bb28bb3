//! Walks over the entries in order: mapping, folding, visiting, and
//! copying them out.
use std::collections::BTreeMap;
use std::sync::Arc;
use vstd::prelude::*;

use crate::keys::copy_keys;
use crate::linked_map::{parts_ok, unshared, LinkedMap};
use crate::model::pair_keys;

verus! {

broadcast use {vstd::std_specs::btree::group_btree_axioms, crate::linked_map::lemma_view_parts};

impl<K: Copy + Ord, V> LinkedMap<K, V> {
    /// A map with the same keys and cursor, whose value under each key is
    /// what `f` makes of the old value and the key.
    pub fn map_values<U, F: FnMut(&V, &K) -> U>(&self, f: F) -> (r: LinkedMap<K, U>)
        requires
            forall|i: int|
                0 <= i < self@.len() ==> f.requires((&#[trigger] self@.value_at(i), &self@.keys[i])),
        ensures
            r@.keys == self@.keys,
            r@.cursor == self@.cursor,
            r@.map.dom() == self@.map.dom(),
            forall|i: int|
                0 <= i < self@.len() ==> f.ensures(
                    (&#[trigger] self@.value_at(i), &self@.keys[i]),
                    r@.map[self@.keys[i]],
                ),
    {
        proof {
            use_type_invariant(self);
        }
        broadcast use vstd::function::group_function_axioms;

        let ghost f0 = f;
        let mut f = f;
        let mut entries: BTreeMap<K, Arc<U>> = BTreeMap::new();
        let n = self.order.len();
        let mut i: usize = 0;
        while i < n
            invariant
                parts_ok(self.entries@, self.order@, self.current),
                n == self.order@.len(),
                i <= n,
                f == f0,
                forall|j: int|
                    0 <= j < self@.len() ==> f.requires((&#[trigger] self@.value_at(j), &self@.keys[j])),
                forall|k: K| #[trigger] entries@.contains_key(k) <==> self.order@.take(i as int).contains(k),
                forall|j: int|
                    0 <= j < i ==> f.ensures(
                        (&#[trigger] self@.value_at(j), &self@.keys[j]),
                        *entries@[self@.keys[j]],
                    ),
            decreases n - i,
        {
            let key = self.order[i];
            assert(self.order@.contains(key));
            assert(self@.value_at(i as int) == self@.map[key]);
            let value = f(self.value_of(&key), &key);
            entries.insert(key, Arc::new(value));
            proof {
                assert forall|j: int| 0 <= j < i implies self@.keys[j] != key by {}
                assert forall|k: K| #[trigger] entries@.contains_key(k) <==> self.order@.take(i + 1).contains(k) by {
                    if self.order@.take(i + 1).contains(k) {
                        let j = choose|j: int| 0 <= j < i + 1 && #[trigger] self.order@.take(i + 1)[j] == k;
                        if j < i {
                            assert(self.order@.take(i as int)[j] == k);
                        }
                    }
                    if self.order@.take(i as int).contains(k) {
                        let j = choose|j: int| 0 <= j < i && #[trigger] self.order@.take(i as int)[j] == k;
                        assert(self.order@.take(i + 1)[j] == k);
                    }
                    if k == key {
                        assert(self.order@.take(i + 1)[i as int] == k);
                    }
                }
            }
            i += 1;
        }
        proof {
            assert(self.order@.take(n as int) =~= self.order@);
            assert(unshared(entries@).dom() =~= self@.map.dom());
        }
        LinkedMap { entries, order: copy_keys(&self.order), current: self.current }
    }

    /// Folds `f` over the entries, first to last, starting from `init`.
    pub fn reduce<T, F: FnMut(T, &V, &K) -> T>(&self, init: T, f: F) -> (r: T)
        requires
            forall|acc: T, i: int|
                0 <= i < self@.len() ==> f.requires((acc, &#[trigger] self@.value_at(i), &self@.keys[i])),
        ensures
            self@.folds_left(init, f, r),
    {
        proof {
            use_type_invariant(self);
        }
        broadcast use vstd::function::group_function_axioms;

        let ghost f0 = f;
        let mut f = f;
        let mut acc = init;
        let ghost mut accs: Seq<T> = seq![init];
        let n = self.order.len();
        let mut i: usize = 0;
        while i < n
            invariant
                parts_ok(self.entries@, self.order@, self.current),
                n == self.order@.len(),
                i <= n,
                f == f0,
                forall|acc: T, j: int|
                    0 <= j < self@.len() ==> f.requires((acc, &#[trigger] self@.value_at(j), &self@.keys[j])),
                accs.len() == i + 1,
                accs[0] == init,
                accs.last() == acc,
                forall|j: int|
                    0 <= j < i ==> f.ensures(
                        (accs[j], &#[trigger] self@.value_at(j), &self@.keys[j]),
                        accs[j + 1],
                    ),
            decreases n - i,
        {
            let key = self.order[i];
            assert(self.order@.contains(key));
            assert(self@.value_at(i as int) == self@.map[key]);
            acc = f(acc, self.value_of(&key), &key);
            proof {
                accs = accs.push(acc);
            }
            i += 1;
        }
        assert(self@.left_chain(init, f0, acc, accs));
        acc
    }

    /// Folds `f` over the entries, last to first, starting from `init`.
    pub fn reduce_right<T, F: FnMut(T, &V, &K) -> T>(&self, init: T, f: F) -> (r: T)
        requires
            forall|acc: T, i: int|
                0 <= i < self@.len() ==> f.requires((acc, &#[trigger] self@.value_at(i), &self@.keys[i])),
        ensures
            self@.folds_right(init, f, r),
    {
        proof {
            use_type_invariant(self);
        }
        broadcast use vstd::function::group_function_axioms;

        let ghost f0 = f;
        let mut f = f;
        let mut acc = init;
        let n = self.order.len();
        let ghost mut accs: Seq<T> = Seq::new((n + 1) as nat, |j: int| init);
        let mut i: usize = n;
        while i > 0
            invariant
                parts_ok(self.entries@, self.order@, self.current),
                n == self.order@.len(),
                i <= n,
                f == f0,
                forall|acc: T, j: int|
                    0 <= j < self@.len() ==> f.requires((acc, &#[trigger] self@.value_at(j), &self@.keys[j])),
                accs.len() == n + 1,
                accs[n as int] == init,
                accs[i as int] == acc,
                forall|j: int|
                    i <= j < n ==> f.ensures(
                        (accs[j + 1], &#[trigger] self@.value_at(j), &self@.keys[j]),
                        accs[j],
                    ),
            decreases i,
        {
            i -= 1;
            let key = self.order[i];
            assert(self.order@.contains(key));
            assert(self@.value_at(i as int) == self@.map[key]);
            acc = f(acc, self.value_of(&key), &key);
            proof {
                accs = accs.update(i as int, acc);
            }
        }
        assert(self@.right_chain(init, f0, acc, accs));
        acc
    }

    /// Calls `f` on each entry, first to last.
    pub fn for_each<F: FnMut(&V, &K)>(&self, f: F)
        requires
            forall|i: int|
                0 <= i < self@.len() ==> f.requires((&#[trigger] self@.value_at(i), &self@.keys[i])),
        ensures
            forall|i: int|
                0 <= i < self@.len() ==> f.ensures((&#[trigger] self@.value_at(i), &self@.keys[i]), ()),
    {
        proof {
            use_type_invariant(self);
        }
        broadcast use vstd::function::group_function_axioms;

        let ghost f0 = f;
        let mut f = f;
        let n = self.order.len();
        let mut i: usize = 0;
        while i < n
            invariant
                parts_ok(self.entries@, self.order@, self.current),
                n == self.order@.len(),
                i <= n,
                f == f0,
                forall|j: int|
                    0 <= j < self@.len() ==> f.requires((&#[trigger] self@.value_at(j), &self@.keys[j])),
                forall|j: int|
                    0 <= j < i ==> f.ensures((&#[trigger] self@.value_at(j), &self@.keys[j]), ()),
            decreases n - i,
        {
            let key = self.order[i];
            assert(self.order@.contains(key));
            assert(self@.value_at(i as int) == self@.map[key]);
            f(self.value_of(&key), &key);
            i += 1;
        }
    }
}

impl<K: Copy + Ord, V: Clone> LinkedMap<K, V> {
    /// The `(key, value)` pairs in order, each value a clone of the stored one.
    pub fn to_vec(&self) -> (r: Vec<(K, V)>)
        ensures
            r@.len() == self@.len(),
            pair_keys(r@) == self@.keys,
            forall|i: int|
                0 <= i < self@.len() ==> {
                    &&& (#[trigger] r@[i]).0 == self@.keys[i]
                    &&& cloned::<V>(self@.value_at(i), r@[i].1)
                },
    {
        proof {
            use_type_invariant(self);
        }
        let mut r: Vec<(K, V)> = Vec::new();
        let n = self.order.len();
        let mut i: usize = 0;
        while i < n
            invariant
                parts_ok(self.entries@, self.order@, self.current),
                n == self.order@.len(),
                i <= n,
                r@.len() == i,
                forall|j: int|
                    0 <= j < i ==> {
                        &&& (#[trigger] r@[j]).0 == self@.keys[j]
                        &&& cloned::<V>(self@.value_at(j), r@[j].1)
                    },
            decreases n - i,
        {
            let key = self.order[i];
            assert(self.order@.contains(key));
            let value = self.value_of(&key).clone();
            r.push((key, value));
            i += 1;
        }
        assert(pair_keys(r@) =~= self@.keys);
        r
    }

    /// The entries as a `BTreeMap`, each value a clone of the stored one.
    pub fn to_map(&self) -> (r: BTreeMap<K, V>)
        ensures
            r@.dom() == self@.map.dom(),
            forall|k: K| #[trigger] r@.contains_key(k) ==> cloned::<V>(self@.map[k], r@[k]),
    {
        proof {
            use_type_invariant(self);
        }
        let mut r: BTreeMap<K, V> = BTreeMap::new();
        let n = self.order.len();
        let mut i: usize = 0;
        while i < n
            invariant
                parts_ok(self.entries@, self.order@, self.current),
                n == self.order@.len(),
                i <= n,
                forall|k: K| #[trigger] r@.contains_key(k) <==> self.order@.take(i as int).contains(k),
                forall|k: K| #[trigger] r@.contains_key(k) ==> cloned::<V>(self@.map[k], r@[k]),
            decreases n - i,
        {
            let key = self.order[i];
            assert(self.order@.contains(key));
            let value = self.value_of(&key).clone();
            r.insert(key, value);
            proof {
                assert forall|k: K| #[trigger] r@.contains_key(k) <==> self.order@.take(i + 1).contains(k) by {
                    if self.order@.take(i + 1).contains(k) {
                        let j = choose|j: int| 0 <= j < i + 1 && #[trigger] self.order@.take(i + 1)[j] == k;
                        if j < i {
                            assert(self.order@.take(i as int)[j] == k);
                        }
                    }
                    if self.order@.take(i as int).contains(k) {
                        let j = choose|j: int| 0 <= j < i && #[trigger] self.order@.take(i as int)[j] == k;
                        assert(self.order@.take(i + 1)[j] == k);
                    }
                    if k == key {
                        assert(self.order@.take(i + 1)[i as int] == k);
                    }
                }
            }
            i += 1;
        }
        proof {
            assert(self.order@.take(n as int) =~= self.order@);
            assert(r@.dom() =~= self@.map.dom());
        }
        r
    }
}

} // verus!
