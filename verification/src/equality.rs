//! `==` on maps: the same entries in the same order, whatever the cursors.
use vstd::prelude::*;
use vstd::std_specs::cmp::{PartialEqSpec, PartialEqSpecImpl};

use crate::keys::keys_equal;
use crate::linked_map::{parts_ok, LinkedMap};

verus! {

broadcast use {vstd::std_specs::btree::group_btree_axioms, crate::linked_map::lemma_view_parts};

impl<K: Copy + Ord, V: PartialEq> PartialEq for LinkedMap<K, V> {
    /// Two maps are equal when they hold equal entries in the same order,
    /// wherever their cursors rest.
    fn eq(&self, other: &Self) -> (r: bool)
        ensures
            r ==> self@.keys == other@.keys,
            V::obeys_eq_spec() ==> (r <==> self@.same_entries(other@)),
    {
        proof {
            use_type_invariant(self);
            use_type_invariant(other);
        }
        let n = self.order.len();
        if n != other.order.len() {
            return false;
        }
        let mut i: usize = 0;
        while i < n
            invariant
                parts_ok(self.entries@, self.order@, self.current),
                parts_ok(other.entries@, other.order@, other.current),
                n == self.order@.len() == other.order@.len(),
                i <= n,
                forall|j: int| 0 <= j < i ==> self@.keys[j] == other@.keys[j],
                V::obeys_eq_spec() ==> forall|j: int|
                    0 <= j < i ==> (#[trigger] self@.value_at(j)).eq_spec(&other@.value_at(j)),
            decreases n - i,
        {
            if !keys_equal(&self.order[i], &other.order[i]) {
                return false;
            }
            assert(self.order@.contains(self.order@[i as int]));
            assert(other.order@.contains(other.order@[i as int]));
            let a = self.value_of(&self.order[i]);
            let b = other.value_of(&other.order[i]);
            if !a.eq(b) {
                proof {
                    assert(self@.value_at(i as int) == *a);
                }
                return false;
            }
            proof {
                assert(self@.value_at(i as int) == *a);
                assert(other@.value_at(i as int) == *b);
            }
            i += 1;
        }
        proof {
            assert(self@.keys =~= other@.keys);
        }
        true
    }
}

impl<K: Copy + Ord, V: PartialEq> PartialEqSpecImpl for LinkedMap<K, V> {
    open spec fn obeys_eq_spec() -> bool {
        V::obeys_eq_spec()
    }

    open spec fn eq_spec(&self, other: &Self) -> bool {
        self@.same_entries(other@)
    }
}

impl<K: Copy + Ord, V: Eq> Eq for LinkedMap<K, V> {

}

} // verus!
