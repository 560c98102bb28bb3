//! The mathematical model of a linked map: a sequence of distinct keys, a
//! finite map from those keys to values, and an optional cursor key.
//!
//! Every operation of `LinkedMap` is specified as one of the spec functions
//! below, applied to the view of the map it is called on.
use vstd::prelude::*;
use vstd::std_specs::cmp::PartialEqSpec;

verus! {

/// The abstract state of a linked map.
#[verifier::reject_recursive_types(K)]
pub struct LinkedMapView<K, V> {
    /// The keys, in iteration order.
    pub keys: Seq<K>,
    /// The value stored under each key.
    pub map: Map<K, V>,
    /// The key the cursor rests on, if any.
    pub cursor: Option<K>,
}

/// The keys of a sequence of `(key, value)` pairs, in order.
pub open spec fn pair_keys<K, V>(items: Seq<(K, V)>) -> Seq<K> {
    items.map_values(|p: (K, V)| p.0)
}

/// The map that binds each key of `items` to its value; a later pair wins
/// over an earlier one with the same key.
pub open spec fn pairs_map<K, V>(items: Seq<(K, V)>) -> Map<K, V>
    decreases items.len(),
{
    if items.len() == 0 {
        Map::empty()
    } else {
        pairs_map(items.drop_last()).insert(items.last().0, items.last().1)
    }
}

/// `items` may be added to a map whose keys are `keys`: its keys are distinct
/// and none of them is already present.
pub open spec fn fresh_pairs<K, V>(keys: Seq<K>, items: Seq<(K, V)>) -> bool {
    &&& pair_keys(items).no_duplicates()
    &&& forall|i: int| 0 <= i < items.len() ==> !keys.contains(#[trigger] items[i].0)
}

/// The smaller of two integers.
pub open spec fn min_int(a: int, b: int) -> int {
    if a <= b { a } else { b }
}

/// The larger of two integers.
pub open spec fn max_int(a: int, b: int) -> int {
    if a <= b { b } else { a }
}

impl<K, V> LinkedMapView<K, V> {
    /// The map with no entries and no cursor.
    pub open spec fn empty() -> Self {
        LinkedMapView { keys: Seq::empty(), map: Map::empty(), cursor: None }
    }

    /// Keys are unique, the map holds exactly the listed keys, and the cursor,
    /// when set, rests on one of them.
    pub open spec fn wf(self) -> bool {
        &&& self.keys.no_duplicates()
        &&& self.map.dom() == self.keys.to_set()
        &&& (self.cursor matches Some(c) ==> self.keys.contains(c))
    }

    pub open spec fn len(self) -> nat {
        self.keys.len()
    }

    pub open spec fn contains(self, k: K) -> bool {
        self.keys.contains(k)
    }

    /// The position of `k` in iteration order (meaningful when `k` is present).
    pub open spec fn position(self, k: K) -> int {
        self.keys.index_of(k)
    }

    /// The `(key, value)` pairs in iteration order.
    pub open spec fn entries(self) -> Seq<(K, V)> {
        self.keys.map_values(|k: K| (k, self.map[k]))
    }

    /// The value under the key at position `i`.
    pub open spec fn value_at(self, i: int) -> V {
        self.map[self.keys[i]]
    }

    /// Places `k` at position `i` and binds it to `v`; the first key put
    /// into an empty map gets the cursor, otherwise the cursor stays where it
    /// is (also when it is unset).
    pub open spec fn insert_at(self, i: int, k: K, v: V) -> Self {
        LinkedMapView {
            keys: self.keys.insert(i, k),
            map: self.map.insert(k, v),
            cursor: if self.keys.len() == 0 { Some(k) } else { self.cursor },
        }
    }

    pub open spec fn push(self, k: K, v: V) -> Self {
        self.insert_at(self.keys.len() as int, k, v)
    }

    pub open spec fn prepend(self, k: K, v: V) -> Self {
        self.insert_at(0, k, v)
    }

    pub open spec fn insert_after(self, after: K, k: K, v: V) -> Self {
        self.insert_at(self.position(after) + 1, k, v)
    }

    pub open spec fn insert_before(self, before: K, k: K, v: V) -> Self {
        self.insert_at(self.position(before), k, v)
    }

    /// Inserts all of `items`, in their order, starting at position `i`; in
    /// an empty map the cursor goes to the first inserted key.
    pub open spec fn insert_all_at(self, i: int, items: Seq<(K, V)>) -> Self {
        LinkedMapView {
            keys: self.keys.take(i) + pair_keys(items) + self.keys.skip(i),
            map: self.map.union_prefer_right(pairs_map(items)),
            cursor: if self.keys.len() == 0 && items.len() > 0 {
                Some(items[0].0)
            } else {
                self.cursor
            },
        }
    }

    pub open spec fn push_all(self, items: Seq<(K, V)>) -> Self {
        self.insert_all_at(self.keys.len() as int, items)
    }

    pub open spec fn insert_all_after(self, after: K, items: Seq<(K, V)>) -> Self {
        self.insert_all_at(self.position(after) + 1, items)
    }

    /// Puts all of `items`, in their order, in front of the existing keys;
    /// in an empty map the cursor goes to the last of them (the first to be
    /// prepended).
    pub open spec fn prepend_all(self, items: Seq<(K, V)>) -> Self {
        LinkedMapView {
            keys: pair_keys(items) + self.keys,
            map: self.map.union_prefer_right(pairs_map(items)),
            cursor: if self.keys.len() == 0 && items.len() > 0 {
                Some(items.last().0)
            } else {
                self.cursor
            },
        }
    }

    /// Rebinds a present key.
    pub open spec fn set(self, k: K, v: V) -> Self {
        LinkedMapView { map: self.map.insert(k, v), ..self }
    }

    /// Drops `k` with its value; the cursor is unset if it rested on `k`.
    /// Absent keys leave the map unchanged.
    pub open spec fn remove(self, k: K) -> Self {
        if self.contains(k) {
            LinkedMapView {
                keys: self.keys.remove(self.position(k)),
                map: self.map.remove(k),
                cursor: if self.cursor == Some(k) { None } else { self.cursor },
            }
        } else {
            self
        }
    }

    pub open spec fn pop(self) -> Self {
        if self.keys.len() == 0 { self } else { self.remove(self.keys.last()) }
    }

    pub open spec fn shift(self) -> Self {
        if self.keys.len() == 0 { self } else { self.remove(self.keys[0]) }
    }

    /// Keeps the first `n` keys only; the cursor is unset if it rested on a
    /// dropped key.
    pub open spec fn truncate(self, n: int) -> Self {
        let kept = self.keys.take(n);
        LinkedMapView {
            keys: kept,
            map: self.map.restrict(kept.to_set()),
            cursor: match self.cursor {
                Some(c) => if kept.contains(c) { Some(c) } else { None },
                None => None,
            },
        }
    }

    /// Drops the last `n` keys (all of them when there are fewer).
    pub open spec fn pop_many(self, n: nat) -> Self {
        self.truncate(if n >= self.keys.len() { 0 } else { self.keys.len() - n })
    }

    /// The map whose keys are `sub` (a selection of this map's keys), with
    /// their values, and the cursor on the first of them.
    pub open spec fn select(self, sub: Seq<K>) -> Self {
        LinkedMapView {
            keys: sub,
            map: self.map.restrict(sub.to_set()),
            cursor: if sub.len() > 0 { Some(sub[0]) } else { None },
        }
    }

    /// The positions `[start, end)` picked out by two keys and two flags that
    /// say whether the first and the last of the two keys belong to the range.
    /// When both keys are the same, that key belongs to the range exactly
    /// when the start flag takes it in.
    pub open spec fn span(self, k1: K, k2: K, with_start: bool, with_end: bool) -> (int, int) {
        let lo = min_int(self.position(k1), self.position(k2));
        let hi = max_int(self.position(k1), self.position(k2));
        if lo == hi {
            (lo, if with_start { lo + 1 } else { lo })
        } else {
            (if with_start { lo } else { lo + 1 }, if with_end { hi + 1 } else { hi })
        }
    }

    pub open spec fn get_between(self, k1: K, k2: K, with_start: bool, with_end: bool) -> Self {
        let (start, end) = self.span(k1, k2, with_start, with_end);
        if start < end {
            self.select(self.keys.subrange(start, end))
        } else {
            Self::empty()
        }
    }

    pub open spec fn delete_between(self, k1: K, k2: K, with_start: bool, with_end: bool) -> Self {
        let (start, end) = self.span(k1, k2, with_start, with_end);
        if start < end {
            self.select(self.keys.take(start) + self.keys.skip(end))
        } else {
            self.select(self.keys)
        }
    }

    /// Exchanges the positions of two present keys.
    pub open spec fn swap(self, k1: K, k2: K) -> Self {
        LinkedMapView {
            keys: self.keys.update(self.position(k1), k2).update(self.position(k2), k1),
            ..self
        }
    }

    pub open spec fn reverse(self) -> Self {
        LinkedMapView { keys: self.keys.reverse(), ..self }
    }

    /// Moves the cursor one key forward; past the last key it is unset.
    pub open spec fn next(self) -> Self {
        match self.cursor {
            Some(c) => {
                let i = self.position(c);
                LinkedMapView {
                    cursor: if i + 1 < self.keys.len() { Some(self.keys[i + 1]) } else { None },
                    ..self
                }
            },
            None => self,
        }
    }

    /// Moves the cursor one key back; before the first key it is unset.
    pub open spec fn prev(self) -> Self {
        match self.cursor {
            Some(c) => {
                let i = self.position(c);
                LinkedMapView {
                    cursor: if i > 0 { Some(self.keys[i - 1]) } else { None },
                    ..self
                }
            },
            None => self,
        }
    }

    pub open spec fn move_to(self, k: K) -> Self {
        if self.contains(k) {
            LinkedMapView { cursor: Some(k), ..self }
        } else {
            self
        }
    }

    pub open spec fn move_to_start(self) -> Self {
        LinkedMapView {
            cursor: if self.keys.len() > 0 { Some(self.keys[0]) } else { None },
            ..self
        }
    }

    pub open spec fn move_to_end(self) -> Self {
        LinkedMapView {
            cursor: if self.keys.len() > 0 { Some(self.keys.last()) } else { None },
            ..self
        }
    }
}

impl<K, V> LinkedMapView<K, V> {
    /// `accs` is a run of `f` over the pairs, first to last, from `init` to
    /// `r`: the `i`-th call takes `accs[i]` and the `i`-th pair and gives
    /// `accs[i + 1]`.
    pub open spec fn left_chain<T, F: FnMut(T, &V, &K) -> T>(
        self,
        init: T,
        f: F,
        r: T,
        accs: Seq<T>,
    ) -> bool {
        &&& accs.len() == self.keys.len() + 1
        &&& accs[0] == init
        &&& accs.last() == r
        &&& forall|i: int|
            0 <= i < self.keys.len() ==> f.ensures(
                (accs[i], &#[trigger] self.value_at(i), &self.keys[i]),
                accs[i + 1],
            )
    }

    /// `accs` is a run of `f` over the pairs, last to first, from `init` to
    /// `r`: the call on the `i`-th pair takes `accs[i + 1]` and gives
    /// `accs[i]`.
    pub open spec fn right_chain<T, F: FnMut(T, &V, &K) -> T>(
        self,
        init: T,
        f: F,
        r: T,
        accs: Seq<T>,
    ) -> bool {
        &&& accs.len() == self.keys.len() + 1
        &&& accs[self.keys.len() as int] == init
        &&& accs[0] == r
        &&& forall|i: int|
            0 <= i < self.keys.len() ==> f.ensures(
                (accs[i + 1], &#[trigger] self.value_at(i), &self.keys[i]),
                accs[i],
            )
    }

    /// Folding `f` over the pairs, first to last, from `init` can give `r`.
    pub open spec fn folds_left<T, F: FnMut(T, &V, &K) -> T>(self, init: T, f: F, r: T) -> bool {
        exists|accs: Seq<T>| #[trigger] self.left_chain(init, f, r, accs)
    }

    /// Folding `f` over the pairs, last to first, from `init` can give `r`.
    pub open spec fn folds_right<T, F: FnMut(T, &V, &K) -> T>(self, init: T, f: F, r: T) -> bool {
        exists|accs: Seq<T>| #[trigger] self.right_chain(init, f, r, accs)
    }
}

impl<K, V: PartialEq> LinkedMapView<K, V> {
    /// The same keys in the same order, with values that `==` deems equal
    /// under each key; the cursor plays no part.
    pub open spec fn same_entries(self, other: Self) -> bool {
        &&& self.keys == other.keys
        &&& forall|i: int|
            0 <= i < self.keys.len() ==> (#[trigger] self.value_at(i)).eq_spec(&other.value_at(i))
    }
}

/// In a sequence without duplicates, the element at `i` is found at `i`.
pub proof fn lemma_index_of_unique<K>(s: Seq<K>, i: int)
    requires
        s.no_duplicates(),
        0 <= i < s.len(),
    ensures
        s.index_of(s[i]) == i,
{
    assert(s.contains(s[i]));
}

/// Inserting a fresh key keeps a sequence free of duplicates and adds exactly
/// that key.
pub proof fn lemma_insert_fresh<K>(s: Seq<K>, i: int, k: K)
    requires
        s.no_duplicates(),
        !s.contains(k),
        0 <= i <= s.len(),
    ensures
        s.insert(i, k).no_duplicates(),
        forall|x: K| #[trigger] s.insert(i, k).contains(x) <==> (x == k || s.contains(x)),
{
    let t = s.insert(i, k);
    s.insert_ensures(i, k);
    assert forall|a: int, b: int| 0 <= a < t.len() && 0 <= b < t.len() && a != b implies t[a]
        != t[b] by {
        if a < i && b < i {
        } else if a < i && b == i {
            assert(s.contains(s[a]));
        } else if a == i && b < i {
            assert(s.contains(s[b]));
        } else if a == i && b > i {
            assert(s.contains(s[b - 1]));
        } else if a > i && b == i {
            assert(s.contains(s[a - 1]));
        }
    }
    assert forall|x: K| #[trigger] t.contains(x) implies (x == k || s.contains(x)) by {
        let j = choose|j: int| 0 <= j < t.len() && t[j] == x;
        if j < i {
            assert(s[j] == x);
        } else if j > i {
            assert(s[j - 1] == x);
        }
    }
    assert forall|x: K| (x == k || s.contains(x)) implies #[trigger] t.contains(x) by {
        if x == k {
            assert(t[i] == x);
        } else {
            let j = choose|j: int| 0 <= j < s.len() && s[j] == x;
            if j < i {
                assert(t[j] == x);
            } else {
                assert(t[j + 1] == x);
            }
        }
    }
}

/// Removing the element at `i` keeps a sequence free of duplicates and drops
/// exactly that element.
pub proof fn lemma_remove_at<K>(s: Seq<K>, i: int)
    requires
        s.no_duplicates(),
        0 <= i < s.len(),
    ensures
        s.remove(i).no_duplicates(),
        forall|x: K| #[trigger] s.remove(i).contains(x) <==> (x != s[i] && s.contains(x)),
{
    let t = s.remove(i);
    s.remove_ensures(i);
    assert forall|a: int, b: int| 0 <= a < t.len() && 0 <= b < t.len() && a != b implies t[a]
        != t[b] by {
        let a2 = if a < i { a } else { a + 1 };
        let b2 = if b < i { b } else { b + 1 };
        assert(t[a] == s[a2] && t[b] == s[b2]);
    }
    assert forall|x: K| #[trigger] t.contains(x) implies (x != s[i] && s.contains(x)) by {
        let j = choose|j: int| 0 <= j < t.len() && t[j] == x;
        let j2 = if j < i { j } else { j + 1 };
        assert(s[j2] == x);
    }
    assert forall|x: K| (x != s[i] && s.contains(x)) implies #[trigger] t.contains(x) by {
        let j = choose|j: int| 0 <= j < s.len() && s[j] == x;
        if j < i {
            assert(t[j] == x);
        } else {
            assert(j != i);
            assert(t[j - 1] == x);
        }
    }
}

/// A contiguous piece of a sequence without duplicates has none either, and
/// holds only elements of the sequence.
pub proof fn lemma_subrange_keys<K>(s: Seq<K>, a: int, b: int)
    requires
        s.no_duplicates(),
        0 <= a <= b <= s.len(),
    ensures
        s.subrange(a, b).no_duplicates(),
        forall|x: K| #[trigger] s.subrange(a, b).contains(x) ==> s.contains(x),
{
    let t = s.subrange(a, b);
    assert forall|x: K| #[trigger] t.contains(x) implies s.contains(x) by {
        let j = choose|j: int| 0 <= j < t.len() && t[j] == x;
        assert(s[a + j] == x);
    }
}

/// Cutting the piece `[a, b)` out of a sequence without duplicates leaves
/// none either, and only elements of the sequence.
pub proof fn lemma_cut_keys<K>(s: Seq<K>, a: int, b: int)
    requires
        s.no_duplicates(),
        0 <= a <= b <= s.len(),
    ensures
        (s.take(a) + s.skip(b)).no_duplicates(),
        forall|x: K| #[trigger] (s.take(a) + s.skip(b)).contains(x) ==> s.contains(x),
{
    let t = s.take(a) + s.skip(b);
    assert forall|i: int| 0 <= i < t.len() implies #[trigger] t[i] == s[if i < a { i } else { i - a + b }] by {
    }
    assert forall|i: int, j: int| 0 <= i < t.len() && 0 <= j < t.len() && i != j implies t[i]
        != t[j] by {
        let i2 = if i < a { i } else { i - a + b };
        let j2 = if j < a { j } else { j - a + b };
        assert(t[i] == s[i2] && t[j] == s[j2]);
    }
    assert forall|x: K| #[trigger] t.contains(x) implies s.contains(x) by {
        let j = choose|j: int| 0 <= j < t.len() && t[j] == x;
        let j2 = if j < a { j } else { j - a + b };
        assert(s[j2] == x);
    }
}

/// The keys of a prefix of `items` are a prefix of its keys.
pub proof fn lemma_pair_keys_take<K, V>(items: Seq<(K, V)>, i: int)
    requires
        0 <= i < items.len(),
    ensures
        pair_keys(items.take(i + 1)) == pair_keys(items.take(i)).push(items[i].0),
        pairs_map(items.take(i + 1)) == pairs_map(items.take(i)).insert(items[i].0, items[i].1),
{
    assert(pair_keys(items.take(i + 1)) =~= pair_keys(items.take(i)).push(items[i].0));
    assert(items.take(i + 1).drop_last() =~= items.take(i));
}

/// Every key of `pairs_map(items)` is a key of `items`, bound to the value
/// of its last pair.
pub proof fn lemma_pairs_map_dom<K, V>(items: Seq<(K, V)>)
    ensures
        forall|k: K| #[trigger] pairs_map(items).contains_key(k) <==> pair_keys(items).contains(k),
    decreases items.len(),
{
    if items.len() > 0 {
        let init = items.drop_last();
        let last = items.last();
        lemma_pairs_map_dom(init);
        assert(pairs_map(items) == pairs_map(init).insert(last.0, last.1));
        assert(pair_keys(items) =~= pair_keys(init).push(last.0));
        assert forall|k: K| #[trigger] pairs_map(items).contains_key(k) <==> pair_keys(
            items,
        ).contains(k) by {
            if k == last.0 {
                assert(pair_keys(items)[items.len() - 1] == k);
            } else if pairs_map(init).contains_key(k) {
                let j = choose|j: int|
                    0 <= j < pair_keys(init).len() && #[trigger] pair_keys(init)[j] == k;
                assert(pair_keys(items)[j] == k);
            } else if pair_keys(items).contains(k) {
                let j = choose|j: int|
                    0 <= j < pair_keys(items).len() && #[trigger] pair_keys(items)[j] == k;
                assert(j < items.len() - 1);
                assert(pair_keys(init)[j] == k);
            }
        }
    } else {
        assert(pairs_map(items) == Map::<K, V>::empty());
    }
}

impl<K, V> LinkedMapView<K, V> {
    /// Inserting no pairs changes nothing.
    pub proof fn law_insert_nothing(self, p: int)
        requires
            0 <= p <= self.len(),
        ensures
            self.insert_all_at(p, Seq::<(K, V)>::empty()) == self,
    {
        let e = Seq::<(K, V)>::empty();
        assert(self.keys.take(p) + pair_keys(e) + self.keys.skip(p) =~= self.keys);
        assert(pairs_map(e) == Map::<K, V>::empty());
        assert(self.map.union_prefer_right(pairs_map(e)) =~= self.map);
    }

    /// Inserting the pairs of `items` one after the other, starting at `p`,
    /// is inserting the `i`-th pair at `p + i` once the first `i` are in:
    /// `push_all` is `push` pair by pair, and `insert_all_after` is
    /// `insert_after` each pair after the one before it. The map stays well
    /// formed on the way, and each next key is fresh.
    pub proof fn law_insert_all_one_by_one(self, p: int, items: Seq<(K, V)>, i: int)
        requires
            self.wf(),
            0 <= p <= self.len(),
            fresh_pairs(self.keys, items),
            0 <= i < items.len(),
        ensures
            self.insert_all_at(p, items.take(i)).wf(),
            !self.insert_all_at(p, items.take(i)).contains(items[i].0),
            p + i >= 1 ==> self.insert_all_at(p, items.take(i)).keys[p + i - 1] == (if i == 0 {
                self.keys[p - 1]
            } else {
                items[i - 1].0
            }),
            self.insert_all_at(p, items.take(i)).insert_at(p + i, items[i].0, items[i].1)
                == self.insert_all_at(p, items.take(i + 1)),
    {
        let pre = self.insert_all_at(p, items.take(i));
        let post = self.insert_all_at(p, items.take(i + 1));
        let ks = pair_keys(items.take(i));
        lemma_pair_keys_take(items, i);
        assert(pre.keys.len() == self.keys.len() + i);
        assert forall|j: int| 0 <= j < pre.keys.len() implies #[trigger] pre.keys[j] == (if j < p {
            self.keys[j]
        } else if j < p + i {
            items[j - p].0
        } else {
            self.keys[j - i]
        }) by {}
        // the keys so far are distinct
        assert forall|a: int, b: int| 0 <= a < pre.keys.len() && 0 <= b < pre.keys.len() && a
            != b implies pre.keys[a] != pre.keys[b] by {
            if a < p || a >= p + i {
                let a2 = if a < p { a } else { a - i };
                if b < p || b >= p + i {
                    let b2 = if b < p { b } else { b - i };
                    assert(self.keys[a2] != self.keys[b2]);
                } else {
                    assert(!self.keys.contains(items[b - p].0));
                    assert(self.keys.contains(self.keys[a2]));
                }
            } else {
                if b < p || b >= p + i {
                    let b2 = if b < p { b } else { b - i };
                    assert(!self.keys.contains(items[a - p].0));
                    assert(self.keys.contains(self.keys[b2]));
                } else {
                    assert(pair_keys(items)[a - p] == items[a - p].0);
                    assert(pair_keys(items)[b - p] == items[b - p].0);
                }
            }
        }
        // membership in the keys so far
        assert forall|x: K| #[trigger] pre.keys.contains(x) <==> (self.keys.contains(x) || ks.contains(x)) by {
            if pre.keys.contains(x) {
                let j = choose|j: int| 0 <= j < pre.keys.len() && pre.keys[j] == x;
                if j < p {
                    assert(self.keys[j] == x);
                } else if j < p + i {
                    assert(ks[j - p] == x);
                } else {
                    assert(self.keys[j - i] == x);
                }
            }
            if self.keys.contains(x) {
                let j = choose|j: int| 0 <= j < self.keys.len() && self.keys[j] == x;
                if j < p {
                    assert(pre.keys[j] == x);
                } else {
                    assert(pre.keys[j + i] == x);
                }
            }
            if ks.contains(x) {
                let j = choose|j: int| 0 <= j < ks.len() && ks[j] == x;
                assert(pre.keys[p + j] == x);
            }
        }
        lemma_pairs_map_dom(items.take(i));
        assert(pre.map.dom() =~= pre.keys.to_set());
        // the next key is fresh
        assert(!pre.contains(items[i].0)) by {
            if ks.contains(items[i].0) {
                let j = choose|j: int| 0 <= j < ks.len() && ks[j] == items[i].0;
                assert(pair_keys(items)[j] == pair_keys(items)[i]);
            }
        }
        if pre.cursor is Some {
            if self.cursor is Some {
                assert(pre.keys.contains(self.cursor->0));
            } else {
                assert(ks[0] == items[0].0);
                assert(pre.keys.contains(items[0].0));
            }
        }
        assert(pre.wf());
        let ins = pre.insert_at(p + i, items[i].0, items[i].1);
        assert(ins.keys =~= post.keys);
        assert(ins.map =~= post.map);
    }

    /// Prepending the pairs of `items` from the last to the first puts the
    /// `j`-th pair in front once the ones after it are in: `prepend_all` is
    /// `prepend` pair by pair, last pair first.
    pub proof fn law_prepend_all_one_by_one(self, items: Seq<(K, V)>, j: int)
        requires
            self.wf(),
            fresh_pairs(self.keys, items),
            0 <= j < items.len(),
        ensures
            self.prepend_all(items.skip(j + 1)).wf(),
            !self.prepend_all(items.skip(j + 1)).contains(items[j].0),
            self.prepend_all(items.skip(j + 1)).prepend(items[j].0, items[j].1)
                == self.prepend_all(items.skip(j)),
    {
        let n = items.len();
        let rest = items.skip(j + 1);
        let pre = self.prepend_all(rest);
        let post = self.prepend_all(items.skip(j));
        let ks = pair_keys(rest);
        assert forall|a: int| 0 <= a < pre.keys.len() implies #[trigger] pre.keys[a] == (if a < n - j - 1 {
            items[a + j + 1].0
        } else {
            self.keys[a - (n - j - 1)]
        }) by {}
        assert forall|a: int, b: int| 0 <= a < pre.keys.len() && 0 <= b < pre.keys.len() && a
            != b implies pre.keys[a] != pre.keys[b] by {
            let m = n - j - 1;
            if a < m && b < m {
                assert(pair_keys(items)[a + j + 1] == items[a + j + 1].0);
                assert(pair_keys(items)[b + j + 1] == items[b + j + 1].0);
            } else if a < m {
                assert(!self.keys.contains(items[a + j + 1].0));
                assert(self.keys.contains(self.keys[b - m]));
            } else if b < m {
                assert(!self.keys.contains(items[b + j + 1].0));
                assert(self.keys.contains(self.keys[a - m]));
            }
        }
        assert forall|x: K| #[trigger] pre.keys.contains(x) <==> (self.keys.contains(x) || ks.contains(x)) by {
            let m = n - j - 1;
            if pre.keys.contains(x) {
                let a = choose|a: int| 0 <= a < pre.keys.len() && pre.keys[a] == x;
                if a < m {
                    assert(ks[a] == x);
                } else {
                    assert(self.keys[a - m] == x);
                }
            }
            if self.keys.contains(x) {
                let a = choose|a: int| 0 <= a < self.keys.len() && self.keys[a] == x;
                assert(pre.keys[a + m] == x);
            }
            if ks.contains(x) {
                let a = choose|a: int| 0 <= a < ks.len() && ks[a] == x;
                assert(pre.keys[a] == x);
            }
        }
        lemma_pairs_map_dom(rest);
        assert(pre.map.dom() =~= pre.keys.to_set());
        assert(!pre.contains(items[j].0)) by {
            if ks.contains(items[j].0) {
                let a = choose|a: int| 0 <= a < ks.len() && ks[a] == items[j].0;
                assert(pair_keys(items)[a + j + 1] == pair_keys(items)[j]);
            }
        }
        if pre.cursor is Some {
            if self.cursor is Some {
                assert(pre.keys.contains(self.cursor->0));
            } else {
                assert(ks[n - j - 2] == items.last().0);
                assert(pre.keys.contains(items.last().0));
            }
        }
        assert(pre.wf());
        // pairs_map of a suffix, grown at the front
        assert(pairs_map(items.skip(j)) =~= pairs_map(rest).insert(items[j].0, items[j].1)) by {
            lemma_pairs_map_prepend(items.skip(j));
            assert(items.skip(j).drop_first() =~= rest);
            lemma_pairs_map_dom(rest);
        }
        let ins = pre.prepend(items[j].0, items[j].1);
        assert(ins.keys =~= post.keys);
        assert(ins.map =~= post.map);
    }

    /// Dropping the last `n` keys and then one more is dropping `n + 1`:
    /// `pop_many(n)` is `pop` done `n` times.
    pub proof fn law_pop_many_one_by_one(self, n: nat)
        requires
            self.wf(),
        ensures
            self.pop_many(n).pop() == self.pop_many(n + 1),
            self.pop_many(n).wf(),
    {
        let len = self.keys.len();
        let k = if n >= len { 0 } else { len - n };
        let m = self.pop_many(n);
        lemma_subrange_keys(self.keys, 0, k);
        assert(self.keys.take(k) == self.keys.subrange(0, k));
        assert(m.map.dom() =~= m.keys.to_set());
        assert(m.wf());
        if k > 0 {
            let last = self.keys[k - 1];
            assert(m.keys.last() == last);
            lemma_index_of_unique(m.keys, k - 1);
            let popped = m.pop();
            let want = self.pop_many(n + 1);
            assert(m.keys.remove(k - 1) =~= self.keys.take(k - 1));
            assert(popped.keys == want.keys);
            assert(popped.map =~= want.map) by {
                assert forall|x: K| self.keys.take(k - 1).contains(x) <==> (self.keys.take(k).contains(
                    x,
                ) && x != last) by {
                    if self.keys.take(k - 1).contains(x) {
                        let j = choose|j: int| 0 <= j < k - 1 && #[trigger] self.keys.take(k - 1)[j] == x;
                        assert(self.keys.take(k)[j] == x);
                        assert(self.keys[j] != self.keys[k - 1]);
                    }
                    if self.keys.take(k).contains(x) && x != last {
                        let j = choose|j: int| 0 <= j < k && #[trigger] self.keys.take(k)[j] == x;
                        assert(self.keys.take(k - 1)[j] == x);
                    }
                }
            }
            assert(popped.cursor == want.cursor) by {
                if let Some(c) = self.cursor {
                    if self.keys.take(k - 1).contains(c) {
                        let j = choose|j: int| 0 <= j < k - 1 && #[trigger] self.keys.take(k - 1)[j] == c;
                        assert(self.keys.take(k)[j] == c);
                        assert(self.keys[j] != self.keys[k - 1]);
                    }
                    if self.keys.take(k).contains(c) && c != last {
                        let j = choose|j: int| 0 <= j < k && #[trigger] self.keys.take(k)[j] == c;
                        assert(self.keys.take(k - 1)[j] == c);
                    }
                }
            }
        } else {
            assert(self.pop_many(n + 1) == m);
        }
    }
}

/// `pairs_map` of a sequence, read from the front: the first pair is bound
/// unless a later pair has the same key.
pub proof fn lemma_pairs_map_prepend<K, V>(items: Seq<(K, V)>)
    requires
        items.len() > 0,
    ensures
        pairs_map(items) == (if pair_keys(items.drop_first()).contains(items[0].0) {
            pairs_map(items.drop_first())
        } else {
            pairs_map(items.drop_first()).insert(items[0].0, items[0].1)
        }),
    decreases items.len(),
{
    let tail = items.drop_first();
    if items.len() == 1 {
        assert(tail.len() == 0);
        assert(pair_keys(tail) =~= Seq::<K>::empty());
        assert(items.drop_last().len() == 0);
        assert(pairs_map(items.drop_last()) == Map::<K, V>::empty());
        assert(pairs_map(tail) == Map::<K, V>::empty());
        assert(pairs_map(items) =~= Map::<K, V>::empty().insert(items[0].0, items[0].1));
    } else {
        let init = items.drop_last();
        lemma_pairs_map_prepend(init);
        assert(init.drop_first() =~= tail.drop_last());
        assert(tail.last() == items.last());
        assert(init[0] == items[0]);
        assert(pair_keys(tail) =~= pair_keys(tail.drop_last()).push(items.last().0));
        if pair_keys(tail.drop_last()).contains(items[0].0) {
            let j = choose|j: int| 0 <= j < pair_keys(tail.drop_last()).len() && pair_keys(tail.drop_last())[j] == items[0].0;
            assert(pair_keys(tail)[j] == items[0].0);
        }
        if pair_keys(tail).contains(items[0].0) && items[0].0 != items.last().0 {
            let j = choose|j: int| 0 <= j < pair_keys(tail).len() && pair_keys(tail)[j] == items[0].0;
            assert(pair_keys(tail.drop_last())[j] == items[0].0);
        }
        if items[0].0 == items.last().0 {
            assert(pair_keys(tail)[tail.len() - 1] == items[0].0);
        }
        assert(pairs_map(items) =~= (if pair_keys(tail).contains(items[0].0) {
            pairs_map(tail)
        } else {
            pairs_map(tail).insert(items[0].0, items[0].1)
        }));
    }
}

} // verus!
