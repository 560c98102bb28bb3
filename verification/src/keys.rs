//! What a key type must satisfy, and the executable operations on key
//! sequences that the map is built from.
use vstd::prelude::*;

verus! {

/// The laws a key type obeys: its `Ord` is a lawful total order (which the
/// `BTreeMap` behind a linked map relies on) and its `==` is equality of
/// values. The primitive integer types obey them.
pub open spec fn key_laws<K: Ord>() -> bool {
    &&& vstd::laws_cmp::obeys_cmp::<K>()
    &&& vstd::laws_eq::obeys_concrete_eq::<K>()
}

/// Compares two keys with their `==`.
pub fn keys_equal<K: Ord>(a: &K, b: &K) -> (r: bool)
    requires
        key_laws::<K>(),
    ensures
        r <==> *a == *b,
{
    proof {
        reveal(vstd::laws_eq::obeys_concrete_eq);
    }
    *a == *b
}

/// A copy of a key sequence.
pub fn copy_keys<K: Copy>(keys: &Vec<K>) -> (r: Vec<K>)
    ensures
        r@ == keys@,
{
    let mut r: Vec<K> = Vec::new();
    let mut i: usize = 0;
    while i < keys.len()
        invariant
            i <= keys.len(),
            r@ == keys@.take(i as int),
        decreases keys.len() - i,
    {
        r.push(keys[i]);
        i += 1;
        assert(r@ =~= keys@.take(i as int));
    }
    assert(keys@.take(i as int) =~= keys@);
    r
}

/// The position of a key that the sequence holds.
pub fn position_of<K: Copy + Ord>(keys: &Vec<K>, key: &K) -> (r: usize)
    requires
        key_laws::<K>(),
        keys@.contains(*key),
    ensures
        r < keys@.len() <= usize::MAX,
        keys@[r as int] == *key,
{
    let mut i: usize = 0;
    while i < keys.len()
        invariant
            key_laws::<K>(),
            i <= keys.len(),
            keys@.contains(*key),
            forall|j: int| 0 <= j < i ==> keys@[j] != *key,
        decreases keys.len() - i,
    {
        if keys_equal(&keys[i], key) {
            return i;
        }
        i += 1;
    }
    proof {
        let j = choose|j: int| 0 <= j < keys@.len() && keys@[j] == *key;
        assert(keys@[j] != *key);
    }
    vstd::pervasive::unreached()
}

/// Appends the keys at positions `[start, end)`.
pub fn extend_with_range<K: Copy>(out: &mut Vec<K>, keys: &Vec<K>, start: usize, end: usize)
    requires
        start <= end <= keys@.len(),
    ensures
        final(out)@ == old(out)@ + keys@.subrange(start as int, end as int),
{
    let ghost before = out@;
    let mut i: usize = start;
    while i < end
        invariant
            start <= i <= end <= keys@.len(),
            out@ == before + keys@.subrange(start as int, i as int),
        decreases end - i,
    {
        out.push(keys[i]);
        i += 1;
        assert(out@ =~= before + keys@.subrange(start as int, i as int));
    }
}

/// The keys at positions `[start, end)`.
pub fn copy_range<K: Copy>(keys: &Vec<K>, start: usize, end: usize) -> (r: Vec<K>)
    requires
        start <= end <= keys@.len(),
    ensures
        r@ == keys@.subrange(start as int, end as int),
{
    let mut r: Vec<K> = Vec::new();
    extend_with_range(&mut r, keys, start, end);
    assert(r@ =~= keys@.subrange(start as int, end as int));
    r
}

/// The keys outside positions `[start, end)`, in order.
pub fn copy_outside<K: Copy>(keys: &Vec<K>, start: usize, end: usize) -> (r: Vec<K>)
    requires
        start <= end <= keys@.len(),
    ensures
        r@ == keys@.take(start as int) + keys@.skip(end as int),
{
    let mut r: Vec<K> = Vec::new();
    extend_with_range(&mut r, keys, 0, start);
    extend_with_range(&mut r, keys, end, keys.len());
    assert(r@ =~= keys@.take(start as int) + keys@.skip(end as int));
    r
}

} // verus!
