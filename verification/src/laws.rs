//! Laws of linked maps, stated over the model that every operation's
//! contract refers to (see `model`), and proved.
use vstd::prelude::*;
use vstd::std_specs::cmp::PartialEqSpec;

use crate::linked_map::LinkedMap;
use crate::model::{
    lemma_index_of_unique, lemma_insert_fresh, lemma_pairs_map_dom, pair_keys, pairs_map,
    LinkedMapView,
};

verus! {

/// In a well-formed map, a present key sits at its position and the
/// position is in range.
proof fn lemma_position<K, V>(v: LinkedMapView<K, V>, k: K)
    requires
        v.wf(),
        v.contains(k),
    ensures
        0 <= v.position(k) < v.len(),
        v.keys[v.position(k)] == k,
{
}

/// A key bound by `pairs_map` of pairs with distinct keys maps to its own
/// value.
proof fn lemma_pairs_map_value<K, V>(items: Seq<(K, V)>, i: int)
    requires
        pair_keys(items).no_duplicates(),
        0 <= i < items.len(),
    ensures
        pairs_map(items).contains_key(items[i].0),
        pairs_map(items)[items[i].0] == items[i].1,
    decreases items.len(),
{
    let init = items.drop_last();
    if i < items.len() - 1 {
        assert(pair_keys(init) =~= pair_keys(items).drop_last());
        assert(pair_keys(items)[i] != pair_keys(items)[items.len() - 1]);
        lemma_pairs_map_value(init, i);
    }
}

/// Reading a key after writing it gives back what was written, and no other
/// key or position changes.
pub proof fn law_get_after_set<K, V>(v: LinkedMapView<K, V>, k: K, x: V)
    requires
        v.wf(),
        v.contains(k),
    ensures
        v.set(k, x).wf(),
        v.set(k, x).map[k] == x,
        v.set(k, x).keys == v.keys,
        v.set(k, x).cursor == v.cursor,
        forall|k2: K| k2 != k ==> #[trigger] v.set(k, x).map.contains_key(k2) == v.map.contains_key(
            k2,
        ) && (v.map.contains_key(k2) ==> v.set(k, x).map[k2] == v.map[k2]),
{
    assert(v.set(k, x).map.dom() =~= v.keys.to_set());
}

/// Inserting a fresh key anywhere and removing it again gives back the map
/// it started from, cursor included.
pub proof fn law_remove_undoes_insert<K, V>(v: LinkedMapView<K, V>, i: int, k: K, x: V)
    requires
        v.wf(),
        !v.contains(k),
        0 <= i <= v.len(),
    ensures
        v.insert_at(i, k, x).wf(),
        v.insert_at(i, k, x).contains(k),
        v.insert_at(i, k, x).map[k] == x,
        v.insert_at(i, k, x).remove(k) == v,
{
    let w = v.insert_at(i, k, x);
    lemma_insert_fresh(v.keys, i, k);
    v.keys.insert_ensures(i, k);
    assert(w.keys[i] == k);
    lemma_index_of_unique(w.keys, i);
    assert(w.map.dom() =~= w.keys.to_set());
    assert(!v.map.contains_key(k));
    if let Some(c) = v.cursor {
        assert(c != k);
    }
    if v.len() == 0 {
        assert(w.keys.contains(k));
        assert(v.cursor is None);
    }
    assert(w.wf());
    assert(w.keys.remove(i) =~= v.keys);
    assert(w.map.remove(k) =~= v.map);
}

/// `pop` undoes `push`.
pub proof fn law_pop_undoes_push<K, V>(v: LinkedMapView<K, V>, k: K, x: V)
    requires
        v.wf(),
        !v.contains(k),
    ensures
        v.push(k, x).keys.last() == k,
        v.push(k, x).map[k] == x,
        v.push(k, x).len() == v.len() + 1,
        v.push(k, x).pop() == v,
{
    law_remove_undoes_insert(v, v.len() as int, k, x);
    v.keys.insert_ensures(v.len() as int, k);
}

/// `shift` undoes `prepend`.
pub proof fn law_shift_undoes_prepend<K, V>(v: LinkedMapView<K, V>, k: K, x: V)
    requires
        v.wf(),
        !v.contains(k),
    ensures
        v.prepend(k, x).keys[0] == k,
        v.prepend(k, x).map[k] == x,
        v.prepend(k, x).shift() == v,
{
    law_remove_undoes_insert(v, 0, k, x);
    v.keys.insert_ensures(0, k);
}

/// Reversing twice gives back the map it started from.
pub proof fn law_reverse_twice<K, V>(v: LinkedMapView<K, V>)
    ensures
        v.reverse().reverse() == v,
{
    assert(v.keys.reverse().reverse() =~= v.keys);
}

/// Swapping the same two keys twice gives back the map it started from.
pub proof fn law_swap_twice<K, V>(v: LinkedMapView<K, V>, k1: K, k2: K)
    requires
        v.wf(),
        v.contains(k1),
        v.contains(k2),
    ensures
        v.swap(k1, k2).swap(k1, k2) == v,
{
    let p1 = v.position(k1);
    let p2 = v.position(k2);
    let w = v.swap(k1, k2);
    if k1 == k2 {
        assert(w.keys =~= v.keys);
    } else {
        assert(p1 != p2);
        let s = v.keys;
        let t = w.keys;
        assert forall|a: int, b: int| 0 <= a < t.len() && 0 <= b < t.len() && a != b implies t[a]
            != t[b] by {
            let a2 = if a == p1 { p2 } else if a == p2 { p1 } else { a };
            let b2 = if b == p1 { p2 } else if b == p2 { p1 } else { b };
            assert(t[a] == s[a2] && t[b] == s[b2]);
        }
        lemma_index_of_unique(t, p1);
        lemma_index_of_unique(t, p2);
        assert(w.position(k1) == p2);
        assert(w.position(k2) == p1);
        assert(w.swap(k1, k2).keys =~= v.keys);
    }
}

/// Stepping the cursor forward and back again returns it to where it was,
/// unless it rested on the last key.
pub proof fn law_prev_undoes_next<K, V>(v: LinkedMapView<K, V>)
    requires
        v.wf(),
        v.cursor is Some,
        v.position(v.cursor->0) + 1 < v.len(),
    ensures
        v.next().cursor is Some,
        v.next().prev() == v,
{
    let c = v.cursor->0;
    let i = v.position(c);
    lemma_position(v, c);
    lemma_index_of_unique(v.keys, i + 1);
}

/// Stepping the cursor back and forward again returns it to where it was,
/// unless it rested on the first key.
pub proof fn law_next_undoes_prev<K, V>(v: LinkedMapView<K, V>)
    requires
        v.wf(),
        v.cursor is Some,
        v.position(v.cursor->0) > 0,
    ensures
        v.prev().cursor is Some,
        v.prev().next() == v,
{
    let c = v.cursor->0;
    let i = v.position(c);
    lemma_position(v, c);
    lemma_index_of_unique(v.keys, i - 1);
}

/// A map built from pairs with distinct keys gives back exactly those pairs,
/// in order, with the cursor on the first key.
pub proof fn law_entries_round_trip<K, V>(items: Seq<(K, V)>)
    requires
        pair_keys(items).no_duplicates(),
    ensures
        LinkedMapView::<K, V>::empty().push_all(items).wf(),
        LinkedMapView::<K, V>::empty().push_all(items).entries() == items,
        LinkedMapView::<K, V>::empty().push_all(items).cursor == (if items.len() > 0 {
            Some(items[0].0)
        } else {
            None
        }),
{
    let e = LinkedMapView::<K, V>::empty();
    let m = e.push_all(items);
    assert(m.keys =~= pair_keys(items));
    assert(m.map =~= pairs_map(items));
    lemma_pairs_map_dom(items);
    assert(m.map.dom() =~= m.keys.to_set());
    if items.len() > 0 {
        assert(m.keys[0] == items[0].0);
        assert(m.keys.contains(items[0].0));
    }
    assert forall|i: int| 0 <= i < items.len() implies #[trigger] m.entries()[i] == items[i] by {
        lemma_pairs_map_value(items, i);
    }
    assert(m.entries() =~= items);
}

/// What `get_between` picks out of a map is exactly what `delete_between`
/// takes out of it, for the same keys and flags.
pub proof fn law_between_complement<K, V>(
    v: LinkedMapView<K, V>,
    k1: K,
    k2: K,
    with_start: bool,
    with_end: bool,
)
    requires
        v.wf(),
        v.contains(k1),
        v.contains(k2),
    ensures
        forall|k: K|
            #[trigger] v.contains(k) ==> (v.get_between(k1, k2, with_start, with_end).contains(k)
                <==> !v.delete_between(k1, k2, with_start, with_end).contains(k)),
{
    lemma_position(v, k1);
    lemma_position(v, k2);
    let (start, end) = v.span(k1, k2, with_start, with_end);
    let s = v.keys;
    assert forall|k: K| #[trigger] v.contains(k) implies (v.get_between(
        k1,
        k2,
        with_start,
        with_end,
    ).contains(k) <==> !v.delete_between(k1, k2, with_start, with_end).contains(k)) by {
        lemma_position(v, k);
        let j = v.position(k);
        if start < end {
            let inside = s.subrange(start, end);
            let outside = s.take(start) + s.skip(end);
            if start <= j < end {
                assert(inside[j - start] == k);
                if outside.contains(k) {
                    let a = choose|a: int| 0 <= a < outside.len() && outside[a] == k;
                    let a2 = if a < start { a } else { a - start + end };
                    assert(outside[a] == s[a2]);
                }
            } else {
                let a = if j < start { j } else { j - end + start };
                assert(outside[a] == k);
                if inside.contains(k) {
                    let b = choose|b: int| 0 <= b < inside.len() && inside[b] == k;
                    assert(s[b + start] == k);
                }
            }
        } else {
            assert(v.delete_between(k1, k2, with_start, with_end).keys == s);
            assert(v.get_between(k1, k2, with_start, with_end).keys.len() == 0);
        }
    }
}

/// With values whose `==` is equality, two maps are `==` exactly when they
/// hold the same keys in the same order with the same values, wherever
/// their cursors rest.
pub proof fn law_equality_ignores_cursor<K, V: PartialEq>(
    a: LinkedMapView<K, V>,
    b: LinkedMapView<K, V>,
)
    requires
        a.wf(),
        b.wf(),
        vstd::laws_eq::obeys_concrete_eq::<V>(),
    ensures
        a.same_entries(b) <==> (a.keys == b.keys && a.map == b.map),
{
    reveal(vstd::laws_eq::obeys_concrete_eq);
    if a.same_entries(b) {
        assert forall|k: K| a.map.contains_key(k) implies b.map.contains_key(k) && a.map[k]
            == b.map[k] by {
            assert(a.keys.to_set().contains(k));
            let i = choose|i: int| 0 <= i < a.keys.len() && a.keys[i] == k;
            assert(a.value_at(i).eq_spec(&b.value_at(i)));
            assert(b.keys.to_set().contains(k));
        }
        assert(a.map.dom() =~= b.map.dom());
        assert(a.map =~= b.map);
    }
    if a.keys == b.keys && a.map == b.map {
        assert forall|i: int| 0 <= i < a.keys.len() implies (#[trigger] a.value_at(i)).eq_spec(
            &b.value_at(i),
        ) by {}
    }
}

/// Folding last to first is folding the reversed map first to last: a
/// closure may be handed the pairs by `reduce_right` exactly when it may be
/// handed them by `reduce` on the reversed map, and the two give the same
/// results, from the same calls in the same order.
pub proof fn law_reduce_right_is_reduce_of_reverse<K, V, T, F: FnMut(T, &V, &K) -> T>(
    v: LinkedMapView<K, V>,
    init: T,
    f: F,
    r: T,
)
    ensures
        (forall|acc: T, i: int|
            0 <= i < v.len() ==> f.requires((acc, &#[trigger] v.value_at(i), &v.keys[i])))
            <==> (forall|acc: T, i: int|
            0 <= i < v.len() ==> f.requires(
                (acc, &#[trigger] v.reverse().value_at(i), &v.reverse().keys[i]),
            )),
        v.folds_right(init, f, r) <==> v.reverse().folds_left(init, f, r),
{
    let n = v.keys.len() as int;
    let w = v.reverse();
    assert forall|j: int| 0 <= j < n implies #[trigger] w.keys[j] == v.keys[n - 1 - j]
        && w.value_at(j) == v.value_at(n - 1 - j) by {}
    assert((forall|acc: T, i: int|
        0 <= i < v.len() ==> f.requires((acc, &#[trigger] v.value_at(i), &v.keys[i]))) ==> (
    forall|acc: T, i: int|
        0 <= i < v.len() ==> f.requires((acc, &#[trigger] w.value_at(i), &w.keys[i])))) by {
        assert forall|acc: T, i: int|
            (forall|acc: T, i: int|
                0 <= i < v.len() ==> f.requires((acc, &#[trigger] v.value_at(i), &v.keys[i])))
                && 0 <= i < v.len() implies f.requires(
            (acc, &#[trigger] w.value_at(i), &w.keys[i]),
        ) by {
            assert(w.value_at(i) == v.value_at(n - 1 - i));
        }
    }
    assert((forall|acc: T, i: int|
        0 <= i < v.len() ==> f.requires((acc, &#[trigger] w.value_at(i), &w.keys[i]))) ==> (
    forall|acc: T, i: int|
        0 <= i < v.len() ==> f.requires((acc, &#[trigger] v.value_at(i), &v.keys[i])))) by {
        assert forall|acc: T, i: int|
            (forall|acc: T, i: int|
                0 <= i < v.len() ==> f.requires((acc, &#[trigger] w.value_at(i), &w.keys[i])))
                && 0 <= i < v.len() implies f.requires(
            (acc, &#[trigger] v.value_at(i), &v.keys[i]),
        ) by {
            assert(w.value_at(n - 1 - i) == v.value_at(i));
        }
    }
    if v.folds_right(init, f, r) {
        let accs = choose|accs: Seq<T>| #[trigger] v.right_chain(init, f, r, accs);
        let rev = Seq::new((n + 1) as nat, |j: int| accs[n - j]);
        assert forall|j: int| 0 <= j < n implies f.ensures(
            (rev[j], &#[trigger] w.value_at(j), &w.keys[j]),
            rev[j + 1],
        ) by {
            let i = n - 1 - j;
            assert(f.ensures((accs[i + 1], &v.value_at(i), &v.keys[i]), accs[i]));
        }
        assert(w.left_chain(init, f, r, rev));
    }
    if w.folds_left(init, f, r) {
        let accs = choose|accs: Seq<T>| #[trigger] w.left_chain(init, f, r, accs);
        let rev = Seq::new((n + 1) as nat, |j: int| accs[n - j]);
        assert forall|i: int| 0 <= i < n implies f.ensures(
            (rev[i + 1], &#[trigger] v.value_at(i), &v.keys[i]),
            rev[i],
        ) by {
            let j = n - 1 - i;
            assert(f.ensures((accs[j], &w.value_at(j), &w.keys[j]), accs[j + 1]));
        }
        assert(v.right_chain(init, f, r, rev));
    }
}

/// A well-formed map lists each key once, holds exactly the listed keys,
/// and each of its entries reads back through lookup; its cursor rests on a
/// held key, and an empty map has no cursor.
pub proof fn law_entries_agree_with_lookup<K, V>(v: LinkedMapView<K, V>)
    requires
        v.wf(),
    ensures
        v.entries().len() == v.len(),
        pair_keys(v.entries()).no_duplicates(),
        forall|i: int|
            0 <= i < v.len() ==> v.map.contains_key(#[trigger] v.entries()[i].0) && v.map[v.entries()[i].0]
                == v.entries()[i].1,
        forall|k: K| #[trigger] v.map.contains_key(k) <==> pair_keys(v.entries()).contains(k),
        v.cursor matches Some(c) ==> v.map.contains_key(c),
        v.len() == 0 ==> v.cursor is None,
{
    assert(pair_keys(v.entries()) =~= v.keys);
    assert forall|i: int| 0 <= i < v.len() implies v.map.contains_key(
        #[trigger] v.entries()[i].0,
    ) by {
        assert(v.keys.to_set().contains(v.keys[i]));
    }
    assert forall|k: K| #[trigger] v.map.contains_key(k) <==> v.keys.contains(k) by {
        assert(v.keys.to_set().contains(k) <==> v.keys.contains(k));
    }
    if let Some(c) = v.cursor {
        assert(v.keys.to_set().contains(c));
    }
}

/// `insert_before` puts the new key exactly where the anchor was: earlier
/// keys keep their places, the anchor and every later key move one place on,
/// and the new key is bound to its value.
pub proof fn law_insert_before_places<K, V>(v: LinkedMapView<K, V>, before: K, k: K, x: V)
    requires
        v.wf(),
        v.contains(before),
        !v.contains(k),
    ensures
        v.insert_before(before, k, x).keys.len() == v.keys.len() + 1,
        v.insert_before(before, k, x).keys[v.position(before)] == k,
        v.insert_before(before, k, x).keys[v.position(before) + 1] == before,
        forall|j: int|
            0 <= j < v.position(before) ==> #[trigger] v.insert_before(before, k, x).keys[j]
                == v.keys[j],
        forall|j: int|
            v.position(before) <= j < v.keys.len() ==> v.insert_before(before, k, x).keys[j + 1]
                == #[trigger] v.keys[j],
        v.insert_before(before, k, x).map == v.map.insert(k, x),
        v.insert_before(before, k, x).cursor == v.cursor,
{
    lemma_position(v, before);
    v.keys.insert_ensures(v.position(before), k);
}

/// `insert_after` puts the new key right after the anchor: the anchor and
/// earlier keys keep their places, every later key moves one place on, and
/// the new key is bound to its value.
pub proof fn law_insert_after_places<K, V>(v: LinkedMapView<K, V>, after: K, k: K, x: V)
    requires
        v.wf(),
        v.contains(after),
        !v.contains(k),
    ensures
        v.insert_after(after, k, x).keys.len() == v.keys.len() + 1,
        v.insert_after(after, k, x).keys[v.position(after)] == after,
        v.insert_after(after, k, x).keys[v.position(after) + 1] == k,
        forall|j: int|
            0 <= j <= v.position(after) ==> #[trigger] v.insert_after(after, k, x).keys[j]
                == v.keys[j],
        forall|j: int|
            v.position(after) < j < v.keys.len() ==> v.insert_after(after, k, x).keys[j + 1]
                == #[trigger] v.keys[j],
        v.insert_after(after, k, x).map == v.map.insert(k, x),
        v.insert_after(after, k, x).cursor == v.cursor,
{
    lemma_position(v, after);
    v.keys.insert_ensures(v.position(after) + 1, k);
}

/// `swap` exchanges the places of the two keys and of nothing else; values
/// and cursor stay.
pub proof fn law_swap_exchanges_two_places<K, V>(v: LinkedMapView<K, V>, k1: K, k2: K)
    requires
        v.wf(),
        v.contains(k1),
        v.contains(k2),
    ensures
        v.swap(k1, k2).keys.len() == v.keys.len(),
        v.swap(k1, k2).keys[v.position(k1)] == k2,
        v.swap(k1, k2).keys[v.position(k2)] == k1,
        forall|j: int|
            0 <= j < v.keys.len() && j != v.position(k1) && j != v.position(k2)
                ==> #[trigger] v.swap(k1, k2).keys[j] == v.keys[j],
        v.swap(k1, k2).map == v.map,
        v.swap(k1, k2).cursor == v.cursor,
{
    lemma_position(v, k1);
    lemma_position(v, k2);
}

/// Which keys of the map `get_between` keeps, by their places: with `lo`
/// and `hi` the places of the earlier and the later of the two keys, a key
/// at place `j` is kept when `lo < j < hi`, when it is the earlier key and
/// the start flag is set, or when it is the later key and the end flag is
/// set; when both keys are the same, that key is kept exactly when the start
/// flag is set. The kept keys come in the map's order with their values, and
/// the cursor goes to the first of them.
pub proof fn law_get_between_keeps<K, V>(
    v: LinkedMapView<K, V>,
    k1: K,
    k2: K,
    with_start: bool,
    with_end: bool,
)
    requires
        v.wf(),
        v.contains(k1),
        v.contains(k2),
    ensures
        ({
            let lo = if v.position(k1) <= v.position(k2) { v.position(k1) } else { v.position(k2) };
            let hi = if v.position(k1) <= v.position(k2) { v.position(k2) } else { v.position(k1) };
            let g = v.get_between(k1, k2, with_start, with_end);
            &&& forall|j: int|
                0 <= j < v.keys.len() ==> (#[trigger] g.keys.contains(v.keys[j]) <==> (if lo == hi {
                    j == lo && with_start
                } else {
                    (lo < j < hi) || (j == lo && with_start) || (j == hi && with_end)
                }))
            &&& forall|x: K| #[trigger] g.keys.contains(x) ==> v.keys.contains(x)
            &&& forall|a: int, b: int|
                0 <= a < b < g.keys.len() ==> v.position(#[trigger] g.keys[a]) < v.position(
                    #[trigger] g.keys[b],
                )
            &&& forall|x: K| #[trigger] g.map.contains_key(x) ==> g.keys.contains(x) && g.map[x]
                == v.map[x]
            &&& g.cursor == (if g.keys.len() > 0 { Some(g.keys[0]) } else { None::<K> })
        }),
{
    lemma_position(v, k1);
    lemma_position(v, k2);
    let lo = if v.position(k1) <= v.position(k2) { v.position(k1) } else { v.position(k2) };
    let hi = if v.position(k1) <= v.position(k2) { v.position(k2) } else { v.position(k1) };
    let (start, end) = v.span(k1, k2, with_start, with_end);
    let g = v.get_between(k1, k2, with_start, with_end);
    let s = v.keys;
    if start < end {
        assert(g.keys == s.subrange(start, end));
        assert forall|j: int| 0 <= j < s.len() implies (#[trigger] g.keys.contains(s[j]) <==> (
        start <= j < end)) by {
            if start <= j < end {
                assert(g.keys[j - start] == s[j]);
            }
            if g.keys.contains(s[j]) {
                let b = choose|b: int| 0 <= b < g.keys.len() && g.keys[b] == s[j];
                assert(s[b + start] == s[j]);
            }
        }
        assert forall|x: K| #[trigger] g.keys.contains(x) implies v.keys.contains(x) by {
            let b = choose|b: int| 0 <= b < g.keys.len() && g.keys[b] == x;
            assert(s[b + start] == x);
        }
        assert forall|a: int, b: int| 0 <= a < b < g.keys.len() implies v.position(
            #[trigger] g.keys[a],
        ) < v.position(#[trigger] g.keys[b]) by {
            lemma_index_of_unique(s, a + start);
            lemma_index_of_unique(s, b + start);
        }
        assert forall|x: K| #[trigger] g.map.contains_key(x) implies g.keys.contains(x) && g.map[x]
            == v.map[x] by {}
    } else {
        assert(g.keys.len() == 0);
        assert forall|j: int| 0 <= j < s.len() implies !(#[trigger] g.keys.contains(s[j])) by {}
    }
}

/// Which keys `delete_between` keeps: exactly those that `get_between`
/// with the same keys and flags would not pick out (see
/// `law_get_between_keeps`), in the map's order, with their values, and the
/// cursor on the first kept key.
pub proof fn law_delete_between_keeps<K, V>(
    v: LinkedMapView<K, V>,
    k1: K,
    k2: K,
    with_start: bool,
    with_end: bool,
)
    requires
        v.wf(),
        v.contains(k1),
        v.contains(k2),
    ensures
        ({
            let lo = if v.position(k1) <= v.position(k2) { v.position(k1) } else { v.position(k2) };
            let hi = if v.position(k1) <= v.position(k2) { v.position(k2) } else { v.position(k1) };
            let d = v.delete_between(k1, k2, with_start, with_end);
            &&& forall|j: int|
                0 <= j < v.keys.len() ==> (#[trigger] d.keys.contains(v.keys[j]) <==> !(if lo == hi {
                    j == lo && with_start
                } else {
                    (lo < j < hi) || (j == lo && with_start) || (j == hi && with_end)
                }))
            &&& forall|x: K| #[trigger] d.keys.contains(x) ==> v.keys.contains(x)
            &&& forall|a: int, b: int|
                0 <= a < b < d.keys.len() ==> v.position(#[trigger] d.keys[a]) < v.position(
                    #[trigger] d.keys[b],
                )
            &&& forall|x: K| #[trigger] d.map.contains_key(x) ==> d.keys.contains(x) && d.map[x]
                == v.map[x]
            &&& d.cursor == (if d.keys.len() > 0 { Some(d.keys[0]) } else { None::<K> })
        }),
{
    lemma_position(v, k1);
    lemma_position(v, k2);
    let (start, end) = v.span(k1, k2, with_start, with_end);
    let d = v.delete_between(k1, k2, with_start, with_end);
    let s = v.keys;
    if start < end {
        let t = d.keys;
        assert(t == s.take(start) + s.skip(end));
        assert forall|b: int| 0 <= b < t.len() implies #[trigger] t[b] == s[if b < start {
            b
        } else {
            b - start + end
        }] by {}
        assert forall|j: int| 0 <= j < s.len() implies (#[trigger] t.contains(s[j]) <==> !(start
            <= j < end)) by {
            if j < start {
                assert(t[j] == s[j]);
            } else if j >= end {
                assert(t[j - end + start] == s[j]);
            }
            if t.contains(s[j]) {
                let b = choose|b: int| 0 <= b < t.len() && t[b] == s[j];
                let b2 = if b < start { b } else { b - start + end };
                assert(s[b2] == s[j]);
            }
        }
        assert forall|x: K| #[trigger] t.contains(x) implies v.keys.contains(x) by {
            let b = choose|b: int| 0 <= b < t.len() && t[b] == x;
            let b2 = if b < start { b } else { b - start + end };
            assert(s[b2] == x);
        }
        assert forall|a: int, b: int| 0 <= a < b < t.len() implies v.position(#[trigger] t[a])
            < v.position(#[trigger] t[b]) by {
            let a2 = if a < start { a } else { a - start + end };
            let b2 = if b < start { b } else { b - start + end };
            lemma_index_of_unique(s, a2);
            lemma_index_of_unique(s, b2);
        }
    } else {
        assert(d.keys == s);
        assert forall|j: int| 0 <= j < s.len() implies #[trigger] d.keys.contains(s[j]) by {}
        assert forall|a: int, b: int| 0 <= a < b < s.len() implies v.position(#[trigger] s[a])
            < v.position(#[trigger] s[b]) by {
            lemma_index_of_unique(s, a);
            lemma_index_of_unique(s, b);
        }
    }
}

/// With values whose `==` is equality, `==` on two maps holds exactly when
/// they hold the same keys in the same order with the same value under every
/// key; the cursors play no part.
pub proof fn law_map_equality_is_entry_equality<K: Copy + Ord, V: PartialEq>(
    a: LinkedMap<K, V>,
    b: LinkedMap<K, V>,
)
    requires
        a@.wf(),
        b@.wf(),
        vstd::laws_eq::obeys_concrete_eq::<V>(),
    ensures
        a.eq_spec(&b) <==> (a@.keys == b@.keys && a@.map == b@.map),
{
    law_equality_ignores_cursor(a@, b@);
}

/// `remove` of a present key drops it and closes the gap: earlier keys keep
/// their places, later keys move one place back, the value goes, and the
/// cursor is unset exactly when it rested on the removed key.
pub proof fn law_remove_closes_gap<K, V>(v: LinkedMapView<K, V>, k: K)
    requires
        v.wf(),
        v.contains(k),
    ensures
        v.remove(k).keys.len() == v.keys.len() - 1,
        !v.remove(k).keys.contains(k),
        forall|j: int| 0 <= j < v.position(k) ==> #[trigger] v.remove(k).keys[j] == v.keys[j],
        forall|j: int|
            v.position(k) < j < v.keys.len() ==> v.remove(k).keys[j - 1] == #[trigger] v.keys[j],
        v.remove(k).map == v.map.remove(k),
        v.remove(k).cursor == (if v.cursor == Some(k) { None } else { v.cursor }),
{
    lemma_position(v, k);
    crate::model::lemma_remove_at(v.keys, v.position(k));
    v.keys.remove_ensures(v.position(k));
}

/// `reverse` puts the key at place `j` at place `n - 1 - j`, and keeps
/// values and cursor.
pub proof fn law_reverse_mirrors<K, V>(v: LinkedMapView<K, V>)
    ensures
        v.reverse().keys.len() == v.keys.len(),
        forall|j: int|
            0 <= j < v.keys.len() ==> #[trigger] v.reverse().keys[j] == v.keys[v.keys.len() - 1
                - j],
        v.reverse().map == v.map,
        v.reverse().cursor == v.cursor,
{
}

/// `next` moves the cursor to the key one place after it, or unsets it at
/// the last key; `prev` moves it to the key one place before, or unsets it
/// at the first key; an unset cursor stays unset. Keys and values stay.
pub proof fn law_cursor_steps<K, V>(v: LinkedMapView<K, V>)
    requires
        v.wf(),
    ensures
        v.next().keys == v.keys && v.next().map == v.map,
        v.prev().keys == v.keys && v.prev().map == v.map,
        v.cursor is None ==> v.next().cursor is None && v.prev().cursor is None,
        v.cursor matches Some(c) ==> {
            &&& v.next().cursor == (if v.position(c) + 1 < v.keys.len() {
                Some(v.keys[v.position(c) + 1])
            } else {
                None::<K>
            })
            &&& v.prev().cursor == (if v.position(c) > 0 {
                Some(v.keys[v.position(c) - 1])
            } else {
                None::<K>
            })
            &&& (v.next().cursor matches Some(d) ==> v.position(d) == v.position(c) + 1)
            &&& (v.prev().cursor matches Some(d) ==> v.position(d) == v.position(c) - 1)
        },
{
    if let Some(c) = v.cursor {
        lemma_position(v, c);
        let i = v.position(c);
        if i + 1 < v.keys.len() {
            lemma_index_of_unique(v.keys, i + 1);
        }
        if i > 0 {
            lemma_index_of_unique(v.keys, i - 1);
        }
    }
}

/// `move_to` puts the cursor on a present key and ignores an absent one;
/// `move_to_start` and `move_to_end` put it on the first and the last key
/// (unset on an empty map). None of them changes keys or values.
pub proof fn law_cursor_moves<K, V>(v: LinkedMapView<K, V>, k: K)
    ensures
        v.move_to(k).keys == v.keys && v.move_to(k).map == v.map,
        v.move_to(k).cursor == (if v.keys.contains(k) { Some(k) } else { v.cursor }),
        v.move_to_start().keys == v.keys && v.move_to_start().map == v.map,
        v.move_to_end().keys == v.keys && v.move_to_end().map == v.map,
        v.keys.len() > 0 ==> v.move_to_start().cursor == Some(v.keys[0]) && v.move_to_end().cursor
            == Some(v.keys[v.keys.len() - 1]),
        v.keys.len() == 0 ==> v.move_to_start().cursor is None && v.move_to_end().cursor is None,
{
}

/// Putting a key into an empty map puts the cursor on it; putting one into
/// a map that has keys leaves the cursor where it is, also when it is unset.
pub proof fn law_insert_cursor<K, V>(v: LinkedMapView<K, V>, i: int, k: K, x: V)
    ensures
        v.keys.len() == 0 ==> v.push(k, x).cursor == Some(k) && v.prepend(k, x).cursor == Some(k),
        v.keys.len() > 0 ==> v.push(k, x).cursor == v.cursor && v.prepend(k, x).cursor
            == v.cursor,
{
}

/// `push_all` appends the pairs' keys in their order after the existing
/// keys, `prepend_all` puts them in their order before the existing keys, and
/// `insert_all_after` puts them in their order right after the anchor; every
/// pair's key is bound to its value.
pub proof fn law_bulk_placement<K, V>(v: LinkedMapView<K, V>, after: K, items: Seq<(K, V)>)
    requires
        v.wf(),
        crate::model::fresh_pairs(v.keys, items),
    ensures
        ({
            let n = v.keys.len() as int;
            let m = items.len() as int;
            let pushed = v.push_all(items);
            let prepended = v.prepend_all(items);
            &&& pushed.keys.len() == n + m
            &&& forall|j: int| 0 <= j < n ==> #[trigger] pushed.keys[j] == v.keys[j]
            &&& forall|i: int| 0 <= i < m ==> pushed.keys[n + i] == (#[trigger] items[i]).0
            &&& prepended.keys.len() == n + m
            &&& forall|i: int| 0 <= i < m ==> prepended.keys[i] == (#[trigger] items[i]).0
            &&& forall|j: int| 0 <= j < n ==> prepended.keys[m + j] == #[trigger] v.keys[j]
            &&& forall|i: int|
                0 <= i < m ==> pushed.map[(#[trigger] items[i]).0] == items[i].1
                    && prepended.map[items[i].0] == items[i].1
            &&& forall|k: K|
                #[trigger] v.map.contains_key(k) ==> pushed.map[k] == v.map[k] && prepended.map[k]
                    == v.map[k]
        }),
        v.keys.contains(after) ==> ({
            let n = v.keys.len() as int;
            let m = items.len() as int;
            let p = v.position(after);
            let placed = v.insert_all_after(after, items);
            &&& placed.keys.len() == n + m
            &&& forall|j: int| 0 <= j <= p ==> #[trigger] placed.keys[j] == v.keys[j]
            &&& forall|i: int| 0 <= i < m ==> placed.keys[p + 1 + i] == (#[trigger] items[i]).0
            &&& forall|j: int| p < j < n ==> placed.keys[j + m] == #[trigger] v.keys[j]
        }),
{
    let pk = pair_keys(items);
    assert forall|i: int| 0 <= i < items.len() implies pairs_map(items).contains_key(
        (#[trigger] items[i]).0,
    ) && pairs_map(items)[items[i].0] == items[i].1 by {
        assert(pk.no_duplicates());
        lemma_pairs_map_value(items, i);
    }
    lemma_pairs_map_dom(items);
    assert forall|k: K| #[trigger] v.map.contains_key(k) implies !pairs_map(items).contains_key(
        k,
    ) by {
        if pairs_map(items).contains_key(k) {
            let i = choose|i: int| 0 <= i < pk.len() && pk[i] == k;
            assert(v.keys.to_set().contains(k));
            assert(!v.keys.contains(items[i].0));
        }
    }
    if v.keys.contains(after) {
        lemma_position(v, after);
    }
}

} // verus!
