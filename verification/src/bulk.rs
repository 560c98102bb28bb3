//! Operations that add or drop many entries at once.
use vstd::prelude::*;

use crate::keys::key_laws;
use crate::linked_map::{parts_ok, LinkedMap};
use crate::model::{fresh_pairs, lemma_index_of_unique, pair_keys, pairs_map, LinkedMapView};

verus! {

broadcast use {vstd::std_specs::btree::group_btree_axioms, crate::linked_map::lemma_view_parts};

impl<K: Copy + Ord, V> LinkedMap<K, V> {
    /// Builds a map from pairs with distinct keys, in their order; the cursor
    /// goes to the first key.
    pub fn from_entries(items: Vec<(K, V)>) -> (r: Self)
        requires
            key_laws::<K>(),
            pair_keys(items@).no_duplicates(),
        ensures
            r@ == LinkedMapView::<K, V>::empty().push_all(items@),
    {
        Self::new().push_many(items)
    }

    /// Appends pairs with fresh, distinct keys, in their order.
    pub fn push_many(&self, items: Vec<(K, V)>) -> (r: Self)
        requires
            fresh_pairs(self@.keys, items@),
        ensures
            r@ == self@.push_all(items@),
    {
        proof {
            use_type_invariant(self);
            self.lemma_wf();
        }
        let ghost all = items@;
        let ghost p = self@.len() as int;
        let ghost mut i: int = 0;
        let mut items = items;
        let mut map = self.copy();
        proof {
            assert(all.take(0) =~= Seq::<(K, V)>::empty());
            self@.law_insert_nothing(p);
        }
        while items.len() > 0
            invariant
                self@.wf(),
                p == self@.len(),
                fresh_pairs(self@.keys, all),
                0 <= i <= all.len(),
                items@ == all.skip(i),
                map@ == self@.insert_all_at(p, all.take(i)),
            decreases items.len(),
        {
            let (key, value) = items.remove(0);
            proof {
                self@.law_insert_all_one_by_one(p, all, i);
                assert(all.skip(i)[0] == all[i]);
            }
            map = map.push(value, key);
            proof {
                assert(items@ =~= all.skip(i + 1));
                i = i + 1;
            }
        }
        assert(all.take(i) =~= all);
        map
    }

    /// Puts pairs with fresh, distinct keys in front, in their order.
    pub fn unshift(&self, items: Vec<(K, V)>) -> (r: Self)
        requires
            fresh_pairs(self@.keys, items@),
        ensures
            r@ == self@.prepend_all(items@),
    {
        proof {
            use_type_invariant(self);
            self.lemma_wf();
        }
        let ghost all = items@;
        let mut items = items;
        let mut map = self.copy();
        assert(all.skip(all.len() as int) =~= Seq::<(K, V)>::empty());
        assert(self@.prepend_all(Seq::<(K, V)>::empty()) == self@) by {
            let e = Seq::<(K, V)>::empty();
            assert(pair_keys(e) + self@.keys =~= self@.keys);
            assert(pairs_map(e) == Map::<K, V>::empty());
            assert(self@.map.union_prefer_right(pairs_map(e)) =~= self@.map);
        }
        while items.len() > 0
            invariant
                self@.wf(),
                fresh_pairs(self@.keys, all),
                items@ == all.take(items@.len() as int),
                items@.len() <= all.len(),
                map@ == self@.prepend_all(all.skip(items@.len() as int)),
            decreases items.len(),
        {
            let ghost j = items@.len() - 1;
            let (key, value) = match items.pop() {
                Some(pair) => pair,
                None => vstd::pervasive::unreached(),
            };
            proof {
                self@.law_prepend_all_one_by_one(all, j);
                assert(items@ =~= all.take(j));
            }
            map = map.prepend(value, key);
        }
        assert(all.skip(0) =~= all);
        map
    }

    /// Appends the entries of another map, whose keys must all be new here.
    pub fn concat(&self, other: &Self) -> (r: Self)
        requires
            forall|k: K| #[trigger] other@.contains(k) ==> !self@.contains(k),
        ensures
            r@ == self@.push_all(other@.entries()),
    {
        proof {
            use_type_invariant(self);
            use_type_invariant(other);
            self.lemma_wf();
        }
        let ghost all = other@.entries();
        let ghost p = self@.len() as int;
        proof {
            assert(pair_keys(all) =~= other@.keys);
            assert forall|i: int| 0 <= i < all.len() implies !self@.keys.contains(#[trigger] all[i].0) by {
                assert(other@.contains(other@.keys[i]));
            }
        }
        let mut pool = other.entries.clone();
        let mut map = self.copy();
        proof {
            assert(all.take(0) =~= Seq::<(K, V)>::empty());
            self@.law_insert_nothing(p);
        }
        let n = other.order.len();
        let mut i: usize = 0;
        while i < n
            invariant
                self@.wf(),
                p == self@.len(),
                fresh_pairs(self@.keys, all),
                all == other@.entries(),
                n == other.order@.len(),
                parts_ok(other.entries@, other.order@, other.current),
                i <= n,
                map@ == self@.insert_all_at(p, all.take(i as int)),
                forall|k: K| #[trigger] pool@.contains_key(k) ==> pool@[k] == other.entries@[k],
                forall|j: int| i <= j < n ==> #[trigger] pool@.contains_key(other.order@[j]),
            decreases n - i,
        {
            let key = other.order[i];
            let shared = match pool.remove(&key) {
                Some(a) => a,
                None => vstd::pervasive::unreached(),
            };
            proof {
                self@.law_insert_all_one_by_one(p, all, i as int);
                assert(other.order@.contains(key));
                assert forall|j: int| i + 1 <= j < n implies #[trigger] pool@.contains_key(
                    other.order@[j],
                ) by {
                    assert(other.order@[j] != other.order@[i as int]);
                }
            }
            map = map.insert_shared_at(map.len(), key, shared);
            i += 1;
        }
        assert(all.take(n as int) =~= all);
        map
    }

    /// Inserts pairs with fresh, distinct keys right after a present key, in
    /// their order. With no pairs the map is returned unchanged, and the key
    /// need not be present.
    pub fn insert_many_after(&self, after: &K, items: Vec<(K, V)>) -> (r: Self)
        requires
            items@.len() > 0 ==> self@.contains(*after),
            fresh_pairs(self@.keys, items@),
        ensures
            r@ == (if items@.len() == 0 {
                self@
            } else {
                self@.insert_all_after(*after, items@)
            }),
    {
        proof {
            use_type_invariant(self);
            self.lemma_wf();
        }
        if items.len() == 0 {
            return self.copy();
        }
        let after_index = self.index_of_key(after);
        let ghost p = after_index + 1;
        let ghost all = items@;
        let ghost mut i: int = 0;
        let mut items = items;
        let mut map = self.copy();
        let mut last_key = *after;
        proof {
            assert(all.take(0) =~= Seq::<(K, V)>::empty());
            self@.law_insert_nothing(p);
        }
        while items.len() > 0
            invariant
                self@.wf(),
                1 <= p <= self@.len(),
                p == self@.position(*after) + 1,
                fresh_pairs(self@.keys, all),
                0 <= i <= all.len(),
                items@ == all.skip(i),
                map@ == self@.insert_all_at(p, all.take(i)),
                map@.keys[p + i - 1] == last_key,
                p + i - 1 < map@.len(),
            decreases items.len(),
        {
            let (key, value) = items.remove(0);
            proof {
                self@.law_insert_all_one_by_one(p, all, i);
                assert(all.skip(i)[0] == all[i]);
                lemma_index_of_unique(map@.keys, p + i - 1);
                assert(map@.keys.contains(last_key));
            }
            map = map.insert_after(&last_key, value, key);
            last_key = key;
            proof {
                assert(items@ =~= all.skip(i + 1));
                i = i + 1;
            }
        }
        assert(all.take(i) =~= all);
        map
    }

    /// Drops the last `count` keys (all of them when there are fewer).
    pub fn pop_many(&self, count: usize) -> (r: Self)
        ensures
            r@ == self@.pop_many(count as nat),
    {
        proof {
            use_type_invariant(self);
            self.lemma_wf();
        }
        let mut map = self.copy();
        let mut i: usize = 0;
        assert(self@.pop_many(0) == self@) by {
            assert(self@.keys.take(self@.len() as int) =~= self@.keys);
            assert(self@.map.restrict(self@.keys.to_set()) =~= self@.map);
        }
        while i < count
            invariant
                self@.wf(),
                i <= count,
                map@ == self@.pop_many(i as nat),
            decreases count - i,
        {
            proof {
                self@.law_pop_many_one_by_one(i as nat);
            }
            map = map.pop();
            i += 1;
        }
        map
    }
}

} // verus!
