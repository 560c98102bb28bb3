//! Operations on the entries between two keys, and next to one key.
use std::collections::BTreeMap;
use std::sync::Arc;
use vstd::prelude::*;

use crate::keys::{copy_keys, copy_outside, copy_range};
use crate::linked_map::{parts_ok, unshared, LinkedMap};
use crate::model::{lemma_cut_keys, lemma_subrange_keys, max_int, min_int};

verus! {

broadcast use {vstd::std_specs::btree::group_btree_axioms, crate::linked_map::lemma_view_parts};

impl<K: Copy + Ord, V> LinkedMap<K, V> {
    /// The map made of the keys of `selected` (distinct keys of this map), in
    /// that order, with their values, and the cursor on the first of them.
    pub(crate) fn from_selected_order(&self, selected: Vec<K>) -> (r: Self)
        requires
            selected@.no_duplicates(),
            forall|k: K| #[trigger] selected@.contains(k) ==> self@.contains(k),
        ensures
            r@ == self@.select(selected@),
    {
        proof {
            use_type_invariant(self);
        }
        let mut pool = self.entries.clone();
        let mut entries: BTreeMap<K, Arc<V>> = BTreeMap::new();
        assert forall|j: int| 0 <= j < selected@.len() implies #[trigger] pool@.contains_key(
            selected@[j],
        ) by {
            assert(selected@.contains(selected@[j]));
        }
        let n = selected.len();
        let mut i: usize = 0;
        while i < n
            invariant
                parts_ok(self.entries@, self.order@, self.current),
                n == selected@.len(),
                selected@.no_duplicates(),
                forall|k: K| #[trigger] selected@.contains(k) ==> self@.contains(k),
                i <= n,
                forall|k: K| #[trigger] entries@.contains_key(k) <==> selected@.take(i as int).contains(k),
                forall|k: K| #[trigger] entries@.contains_key(k) ==> entries@[k] == self.entries@[k],
                forall|k: K| #[trigger] pool@.contains_key(k) ==> pool@[k] == self.entries@[k],
                forall|j: int| i <= j < n ==> #[trigger] pool@.contains_key(selected@[j]),
            decreases n - i,
        {
            let key = selected[i];
            let shared = match pool.remove(&key) {
                Some(a) => a,
                None => vstd::pervasive::unreached(),
            };
            entries.insert(key, shared);
            proof {
                assert forall|j: int| i + 1 <= j < n implies #[trigger] pool@.contains_key(selected@[j]) by {
                    assert(selected@[j] != selected@[i as int]);
                }
                assert forall|k: K| #[trigger] entries@.contains_key(k) <==> selected@.take(i + 1).contains(k) by {
                    if selected@.take(i + 1).contains(k) {
                        let j = choose|j: int| 0 <= j < i + 1 && #[trigger] selected@.take(i + 1)[j] == k;
                        if j < i {
                            assert(selected@.take(i as int)[j] == k);
                        }
                    }
                    if selected@.take(i as int).contains(k) {
                        let j = choose|j: int| 0 <= j < i && #[trigger] selected@.take(i as int)[j] == k;
                        assert(selected@.take(i + 1)[j] == k);
                    }
                    if k == key {
                        assert(selected@.take(i + 1)[i as int] == k);
                    }
                }
            }
            i += 1;
        }
        let current = if n > 0 {
            Some(selected[0])
        } else {
            None
        };
        proof {
            assert(selected@.take(n as int) =~= selected@);
            assert(unshared(entries@) =~= self@.map.restrict(selected@.to_set())) by {
                assert forall|k: K| selected@.contains(k) implies self.entries@.contains_key(k) by {
                    assert(self@.contains(k));
                }
            }
            if n > 0 {
                assert(selected@.contains(selected@[0]));
            }
        }
        LinkedMap { entries, order: selected, current }
    }

    /// The positions of two present keys, smaller first.
    pub(crate) fn sorted_positions(&self, key1: &K, key2: &K) -> (r: (usize, usize))
        requires
            self@.contains(*key1),
            self@.contains(*key2),
        ensures
            r.0 == min_int(self@.position(*key1), self@.position(*key2)),
            r.1 == max_int(self@.position(*key1), self@.position(*key2)),
            r.0 <= r.1 < self@.len() <= usize::MAX,
    {
        let pos1 = self.index_of_key(key1);
        let pos2 = self.index_of_key(key2);
        if pos1 <= pos2 {
            (pos1, pos2)
        } else {
            (pos2, pos1)
        }
    }

    /// The entries between two present keys, in order; the flags say whether
    /// the first and the last of the two keys are included.
    pub fn get_between(&self, key1: &K, key2: &K, include_start: bool, include_end: bool) -> (r:
        Self)
        requires
            self@.contains(*key1),
            self@.contains(*key2),
        ensures
            r@ == self@.get_between(*key1, *key2, include_start, include_end),
    {
        proof {
            use_type_invariant(self);
        }
        let (left, right) = self.sorted_positions(key1, key2);
        let (start, end_exclusive) = if left == right {
            (left, if include_start {
                left + 1
            } else {
                left
            })
        } else {
            (if include_start {
                left
            } else {
                left + 1
            }, if include_end {
                right + 1
            } else {
                right
            })
        };
        if start >= end_exclusive {
            return Self::new();
        }
        let selected = copy_range(&self.order, start, end_exclusive);
        proof {
            lemma_subrange_keys(self.order@, start as int, end_exclusive as int);
        }
        self.from_selected_order(selected)
    }

    /// The map without the entries between two present keys; the flags say
    /// whether the first and the last of the two keys are deleted too. The
    /// cursor goes to the first remaining key.
    pub fn delete_between(&self, key1: &K, key2: &K, delete_start: bool, delete_end: bool) -> (r:
        Self)
        requires
            self@.contains(*key1),
            self@.contains(*key2),
        ensures
            r@ == self@.delete_between(*key1, *key2, delete_start, delete_end),
    {
        proof {
            use_type_invariant(self);
        }
        let (left, right) = self.sorted_positions(key1, key2);
        let (start, end_exclusive) = if left == right {
            (left, if delete_start {
                left + 1
            } else {
                left
            })
        } else {
            (if delete_start {
                left
            } else {
                left + 1
            }, if delete_end {
                right + 1
            } else {
                right
            })
        };
        if start >= end_exclusive {
            return self.from_selected_order(copy_keys(&self.order));
        }
        let selected = copy_outside(&self.order, start, end_exclusive);
        proof {
            lemma_cut_keys(self.order@, start as int, end_exclusive as int);
        }
        self.from_selected_order(selected)
    }

    /// The value right after a present key, if any.
    pub fn get_after(&self, key: &K) -> (r: Option<&V>)
        requires
            self@.contains(*key),
        ensures
            r == (if self@.position(*key) + 1 < self@.len() {
                Some(&self@.value_at(self@.position(*key) + 1))
            } else {
                None
            }),
    {
        proof {
            use_type_invariant(self);
        }
        let index = self.index_of_key(key);
        if index + 1 < self.order.len() {
            assert(self.order@.contains(self.order@[index + 1]));
            Some(self.value_of(&self.order[index + 1]))
        } else {
            None
        }
    }

    /// The value right before a present key, if any.
    pub fn get_before(&self, key: &K) -> (r: Option<&V>)
        requires
            self@.contains(*key),
        ensures
            r == (if self@.position(*key) > 0 {
                Some(&self@.value_at(self@.position(*key) - 1))
            } else {
                None
            }),
    {
        proof {
            use_type_invariant(self);
        }
        let index = self.index_of_key(key);
        if index > 0 {
            assert(self.order@.contains(self.order@[index - 1]));
            Some(self.value_of(&self.order[index - 1]))
        } else {
            None
        }
    }
}

} // verus!
