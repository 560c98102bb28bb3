//! Double-ended iterators over the pairs and the values of a map.
use vstd::prelude::*;

use crate::linked_map::{parts_ok, LinkedMap};

verus! {

broadcast use {vstd::std_specs::btree::group_btree_axioms, crate::linked_map::lemma_view_parts};

/// A double-ended iterator over the `(key, value)` pairs of a map, in order.
#[verifier::reject_recursive_types(K)]
pub struct Iter<'a, K: Copy + Ord, V> {
    map: &'a LinkedMap<K, V>,
    front: usize,
    back: usize,
}

impl<'a, K: Copy + Ord, V> Iter<'a, K, V> {
    #[verifier::type_invariant]
    closed spec fn inv(&self) -> bool {
        &&& self.front <= self.back <= self.map.order@.len()
        &&& parts_ok(self.map.entries@, self.map.order@, self.map.current)
    }

    /// The pairs not yet handed out, in order.
    pub closed spec fn remaining(&self) -> Seq<(K, V)> {
        self.map@.entries().subrange(self.front as int, self.back as int)
    }

    /// Hands out the first remaining pair.
    pub fn next(&mut self) -> (r: Option<(&'a K, &'a V)>)
        ensures
            old(self).remaining().len() == 0 ==> r is None && final(self).remaining() == old(
                self,
            ).remaining(),
            old(self).remaining().len() > 0 ==> r == Some(
                (&old(self).remaining()[0].0, &old(self).remaining()[0].1),
            ) && final(self).remaining() == old(self).remaining().drop_first(),
    {
        proof {
            use_type_invariant(&*self);
        }
        if self.front >= self.back {
            return None;
        }
        let index = self.front;
        self.front = self.front + 1;
        let map: &'a LinkedMap<K, V> = self.map;
        let key: &'a K = &map.order[index];
        assert(map.order@.contains(*key));
        let value: &'a V = map.value_of(key);
        proof {
            assert(self.remaining() =~= old(self).remaining().drop_first());
        }
        Some((key, value))
    }

    /// Hands out the last remaining pair.
    pub fn next_back(&mut self) -> (r: Option<(&'a K, &'a V)>)
        ensures
            old(self).remaining().len() == 0 ==> r is None && final(self).remaining() == old(
                self,
            ).remaining(),
            old(self).remaining().len() > 0 ==> r == Some(
                (&old(self).remaining().last().0, &old(self).remaining().last().1),
            ) && final(self).remaining() == old(self).remaining().drop_last(),
    {
        proof {
            use_type_invariant(&*self);
        }
        if self.front >= self.back {
            return None;
        }
        self.back = self.back - 1;
        let index = self.back;
        let map: &'a LinkedMap<K, V> = self.map;
        let key: &'a K = &map.order[index];
        assert(map.order@.contains(*key));
        let value: &'a V = map.value_of(key);
        proof {
            assert(self.remaining() =~= old(self).remaining().drop_last());
        }
        Some((key, value))
    }

    /// The number of pairs not yet handed out.
    pub fn len(&self) -> (r: usize)
        ensures
            r == self.remaining().len(),
    {
        proof {
            use_type_invariant(self);
        }
        self.back - self.front
    }
}

/// A double-ended iterator over the values of a map, in order.
#[verifier::reject_recursive_types(K)]
pub struct Values<'a, K: Copy + Ord, V> {
    inner: Iter<'a, K, V>,
}

impl<'a, K: Copy + Ord, V> Values<'a, K, V> {
    /// The values not yet handed out, in order.
    pub closed spec fn remaining(&self) -> Seq<V> {
        self.inner.remaining().map_values(|p: (K, V)| p.1)
    }

    /// Hands out the first remaining value.
    pub fn next(&mut self) -> (r: Option<&'a V>)
        ensures
            old(self).remaining().len() == 0 ==> r is None && final(self).remaining() == old(
                self,
            ).remaining(),
            old(self).remaining().len() > 0 ==> r == Some(&old(self).remaining()[0])
                && final(self).remaining() == old(self).remaining().drop_first(),
    {
        let r = match self.inner.next() {
            Some((_, value)) => Some(value),
            None => None,
        };
        proof {
            assert(self.remaining() =~= old(self).remaining().drop_first()
                || old(self).remaining().len() == 0);
        }
        r
    }

    /// Hands out the last remaining value.
    pub fn next_back(&mut self) -> (r: Option<&'a V>)
        ensures
            old(self).remaining().len() == 0 ==> r is None && final(self).remaining() == old(
                self,
            ).remaining(),
            old(self).remaining().len() > 0 ==> r == Some(&old(self).remaining().last())
                && final(self).remaining() == old(self).remaining().drop_last(),
    {
        let r = match self.inner.next_back() {
            Some((_, value)) => Some(value),
            None => None,
        };
        proof {
            assert(self.remaining() =~= old(self).remaining().drop_last()
                || old(self).remaining().len() == 0);
        }
        r
    }

    /// The number of values not yet handed out.
    pub fn len(&self) -> (r: usize)
        ensures
            r == self.remaining().len(),
    {
        self.inner.len()
    }
}

impl<K: Copy + Ord, V> LinkedMap<K, V> {
    /// An iterator over the `(key, value)` pairs, in order.
    pub fn iter(&self) -> (r: Iter<'_, K, V>)
        ensures
            r.remaining() == self@.entries(),
    {
        proof {
            use_type_invariant(self);
        }
        let r = Iter { map: self, front: 0, back: self.order.len() };
        assert(r.remaining() =~= self@.entries());
        r
    }

    /// An iterator over the values, in order.
    pub fn values(&self) -> (r: Values<'_, K, V>)
        ensures
            r.remaining() == self@.entries().map_values(|p: (K, V)| p.1),
    {
        Values { inner: self.iter() }
    }
}

} // verus!
