# linked_map

An immutable-style ordered map with a movable cursor, written in Verus and
verified against contracts over a small mathematical model.

- `src/model.rs` — the model (`LinkedMapView`: keys in order, a map from keys
  to values, an optional cursor key), one spec function per operation, and
  the lemmas the proofs share.
- `src/linked_map.rs` — `LinkedMap` (a `BTreeMap` of shared values plus a
  key order and a cursor, under a type invariant), its iterators `Iter` and
  `Values`, `Clone` and `PartialEq`.
- `src/keys.rs` — the laws a key type must obey, and key-sequence helpers.
- `src/display.rs` — the `LinkedMap [(k, v), ...]` rendering.
- `src/laws.rs` — proved laws: reads after writes, removal undoing
  insertion, involutions, cursor round trips, complementary ranges, and
  equality that ignores the cursor.
- `app/lib.rs` — the `linked_map!` macro, building from any iterator, and a
  `Display` adapter.
