use linked_map::LinkedMap;

fn numbers(pairs: Vec<(i32, i64)>) -> LinkedMap<i32, i64> {
    LinkedMap::from_entries(pairs)
}

fn abc() -> LinkedMap<i32, i64> {
    numbers(vec![(1, 10), (2, 20), (3, 30)])
}

fn keys_of(map: &LinkedMap<i32, i64>) -> Vec<i32> {
    map.to_vec().into_iter().map(|(k, _)| k).collect()
}

#[test]
fn get_after_set_reads_back_the_written_value() {
    let written = abc().set(&2, 99);
    assert_eq!(written.get(&2), Some(&99));
    assert_eq!(written.get(&1), Some(&10));
    assert_eq!(written.get(&3), Some(&30));
    assert_eq!(keys_of(&written), vec![1, 2, 3]);
    assert_eq!(written.current_key(), Some(&1));
}

#[test]
fn pop_undoes_push_cursor_included() {
    let base = abc().move_to(&2);
    let back = base.push(40, 4).pop();
    assert_eq!(back.to_vec(), base.to_vec());
    assert_eq!(back.current_key(), Some(&2));

    let empty: LinkedMap<i32, i64> = LinkedMap::new();
    let pushed = empty.push(5, 5);
    assert_eq!(pushed.current_key(), Some(&5));
    let popped = pushed.pop();
    assert!(popped.is_empty());
    assert_eq!(popped.current_key(), None);
}

#[test]
fn shift_undoes_prepend() {
    let base = abc().move_to(&3);
    let back = base.prepend(0, 0).shift();
    assert_eq!(back.to_vec(), base.to_vec());
    assert_eq!(back.current_key(), Some(&3));
}

#[test]
fn remove_undoes_insert_after_and_before() {
    let base = abc();
    assert_eq!(base.insert_after(&2, 25, 25).remove(&25).to_vec(), base.to_vec());
    assert_eq!(base.insert_before(&2, 15, 15).remove(&15).to_vec(), base.to_vec());
}

#[test]
fn reverse_twice_is_identity() {
    let base = abc().move_to(&2);
    let twice = base.reverse().reverse();
    assert_eq!(twice.to_vec(), base.to_vec());
    assert_eq!(twice.current_key(), Some(&2));
    assert_eq!(keys_of(&base.reverse()), vec![3, 2, 1]);
}

#[test]
fn swap_twice_is_identity() {
    let base = abc();
    assert_eq!(keys_of(&base.swap(&1, &3)), vec![3, 2, 1]);
    assert_eq!(base.swap(&1, &3).swap(&1, &3).to_vec(), base.to_vec());
    assert_eq!(base.swap(&2, &2).to_vec(), base.to_vec());
}

#[test]
fn prev_undoes_next_and_next_undoes_prev() {
    let base = abc();
    assert_eq!(base.next().prev().current_key(), Some(&1));
    let at_end = base.move_to_end();
    assert_eq!(at_end.prev().next().current_key(), Some(&3));
}

#[test]
fn entries_round_trip_through_to_vec() {
    let pairs = vec![(7, 70), (3, 30), (5, 50)];
    let built = numbers(pairs.clone());
    assert_eq!(built.to_vec(), pairs);
    assert_eq!(built.current_key(), Some(&7));
    let empty = numbers(vec![]);
    assert!(empty.to_vec().is_empty());
    assert_eq!(empty.current_key(), None);
}

#[test]
fn get_between_and_delete_between_are_complementary() {
    let base = numbers(vec![(1, 10), (2, 20), (3, 30), (4, 40), (5, 50)]);
    for (with_start, with_end) in [(false, false), (true, false), (false, true), (true, true)] {
        let picked = base.get_between(&2, &4, with_start, with_end);
        let left = base.delete_between(&2, &4, with_start, with_end);
        for key in 1..=5 {
            assert_ne!(picked.contains_key(&key), left.contains_key(&key));
        }
    }
}

#[test]
fn equality_ignores_cursor_but_not_values_or_order() {
    assert_eq!(abc().move_to(&3), abc().move_to(&1));
    assert_ne!(abc(), abc().set(&2, 21));
    assert_ne!(abc(), abc().swap(&1, &2));
    assert_ne!(abc(), abc().pop());
}

#[test]
fn remove_of_an_absent_key_changes_nothing() {
    let base = abc().move_to(&2);
    let same = base.remove(&42);
    assert_eq!(same.to_vec(), base.to_vec());
    assert_eq!(same.current_key(), Some(&2));
}

#[test]
fn removing_the_cursor_key_unsets_the_cursor() {
    let base = abc().move_to(&2);
    assert_eq!(base.remove(&2).current_key(), None);
    assert_eq!(base.remove(&3).current_key(), Some(&2));
}

#[test]
fn pop_and_shift_on_an_empty_map_change_nothing() {
    let empty: LinkedMap<i32, i64> = LinkedMap::new();
    assert!(empty.pop().is_empty());
    assert!(empty.shift().is_empty());
    assert_eq!(empty.first(), None);
    assert_eq!(empty.last(), None);
    assert_eq!(empty.first_key(), None);
    assert_eq!(empty.last_key(), None);
}

#[test]
fn pop_many_past_the_length_empties_the_map() {
    assert!(abc().pop_many(10).is_empty());
    assert_eq!(abc().pop_many(0).to_vec(), abc().to_vec());
    let base = abc().move_to(&3);
    assert_eq!(base.pop_many(1).current_key(), None);
    let base = abc().move_to(&1);
    assert_eq!(base.pop_many(2).current_key(), Some(&1));
}

#[test]
fn get_between_accepts_keys_in_either_order() {
    let base = numbers(vec![(1, 10), (2, 20), (3, 30), (4, 40)]);
    assert_eq!(
        keys_of(&base.get_between(&4, &1, true, false)),
        vec![1, 2, 3]
    );
    assert_eq!(base.get_between(&4, &1, true, false).current_key(), Some(&1));
}

#[test]
fn get_between_and_delete_between_with_one_key() {
    let base = abc();
    assert!(base.get_between(&2, &2, false, false).is_empty());
    assert!(base.get_between(&2, &2, false, true).is_empty());
    assert_eq!(keys_of(&base.get_between(&2, &2, true, true)), vec![2]);
    assert_eq!(keys_of(&base.delete_between(&2, &2, false, true)), vec![1, 2, 3]);
    assert_eq!(keys_of(&base.delete_between(&2, &2, true, true)), vec![1, 3]);
    let untouched = base.move_to(&3).delete_between(&2, &2, false, false);
    assert_eq!(keys_of(&untouched), vec![1, 2, 3]);
    assert_eq!(untouched.current_key(), Some(&1));
}

#[test]
fn get_between_of_neighbours_without_ends_is_empty() {
    let base = abc();
    let none = base.get_between(&1, &2, false, false);
    assert!(none.is_empty());
    assert_eq!(none.current_key(), None);
    assert_eq!(keys_of(&base.delete_between(&1, &2, false, false)), vec![1, 2, 3]);
}

#[test]
fn cursor_falls_off_both_ends() {
    let base = abc();
    assert_eq!(base.move_to_end().next().current_key(), None);
    assert_eq!(base.move_to_start().prev().current_key(), None);
    assert_eq!(base.move_to_end().next().next().current_key(), None);
    assert_eq!(base.move_to_end().next().prev().current_key(), None);
}

#[test]
fn cursor_on_an_empty_map_is_unset() {
    let empty: LinkedMap<i32, i64> = LinkedMap::new();
    assert_eq!(empty.move_to_start().current_key(), None);
    assert_eq!(empty.move_to_end().current_key(), None);
    assert_eq!(empty.current_value(), None);
    assert_eq!(empty.clear().current_key(), None);
}

#[test]
fn inserting_into_an_empty_map_sets_the_cursor() {
    let empty: LinkedMap<i32, i64> = LinkedMap::new();
    assert_eq!(empty.push(1, 1).current_key(), Some(&1));
    assert_eq!(empty.prepend(1, 1).current_key(), Some(&1));
    assert_eq!(
        empty.unshift(vec![(1, 10), (2, 20)]).current_key(),
        Some(&2)
    );
    assert_eq!(empty.push_many(vec![(1, 10), (2, 20)]).current_key(), Some(&1));
    assert_eq!(empty.concat(&abc().move_to(&3)).current_key(), Some(&1));
}

#[test]
fn inserting_into_a_map_whose_cursor_fell_off_keeps_it_unset() {
    let fallen = abc().move_to_end().next();
    assert_eq!(fallen.prepend(0, 0).current_key(), None);
    assert_eq!(fallen.insert_after(&1, 15, 15).current_key(), None);
    assert_eq!(fallen.unshift(vec![(8, 80)]).current_key(), None);
}

#[test]
fn insert_many_after_places_items_in_order() {
    let base = abc();
    let grown = base.insert_many_after(&1, vec![(11, 110), (12, 120)]);
    assert_eq!(keys_of(&grown), vec![1, 11, 12, 2, 3]);
    assert_eq!(grown.get(&12), Some(&120));
    assert_eq!(base.insert_many_after(&3, vec![]).to_vec(), base.to_vec());
    assert_eq!(base.insert_many_after(&42, vec![]).to_vec(), base.to_vec());
}

#[test]
fn get_after_and_get_before_at_the_edges() {
    let base = abc();
    assert_eq!(base.get_after(&2), Some(&30));
    assert_eq!(base.get_before(&2), Some(&10));
    assert_eq!(base.get_after(&3), None);
    assert_eq!(base.get_before(&1), None);
}

#[test]
fn update_applies_the_function_to_the_old_value() {
    let updated = abc().update(&3, |v| v * 2 + 1);
    assert_eq!(updated.get(&3), Some(&61));
    assert_eq!(keys_of(&updated), vec![1, 2, 3]);
}

#[test]
fn map_values_sees_values_and_keys() {
    let mapped = abc().move_to(&2).map_values(|v, k| *v + i64::from(*k));
    assert_eq!(mapped.to_vec(), vec![(1, 11), (2, 22), (3, 33)]);
    assert_eq!(mapped.current_key(), Some(&2));
}

#[test]
fn reduce_folds_left_and_reduce_right_folds_right() {
    let base = abc();
    assert_eq!(base.reduce(0, |acc, v, _| acc * 2 + *v), ((10 * 2) + 20) * 2 + 30);
    assert_eq!(base.reduce_right(0, |acc, v, _| acc * 2 + *v), ((30 * 2) + 20) * 2 + 10);
    let empty: LinkedMap<i32, i64> = LinkedMap::new();
    assert_eq!(empty.reduce(7, |acc, v, _| acc + *v), 7);
}

#[test]
fn to_string_writes_each_pair() {
    assert_eq!(abc().to_string(), "LinkedMap [(1, 10), (2, 20), (3, 30)]");
    assert_eq!(numbers(vec![(4, 40)]).to_string(), "LinkedMap [(4, 40)]");
}

#[test]
fn iterators_meet_in_the_middle() {
    let base = abc();
    let mut iter = base.iter();
    assert_eq!(iter.next_back(), Some((&3, &30)));
    assert_eq!(iter.len(), 2);
    assert_eq!(iter.next(), Some((&1, &10)));
    assert_eq!(iter.next(), Some((&2, &20)));
    assert_eq!(iter.next(), None);
    assert_eq!(iter.len(), 0);

    let mut values = base.values();
    assert_eq!(values.next_back(), Some(&30));
    assert_eq!(values.next(), Some(&10));
    assert_eq!(values.next_back(), Some(&20));
    assert_eq!(values.next_back(), None);
}

#[test]
fn copies_and_clones_keep_the_cursor() {
    let base = abc().move_to(&2);
    assert_eq!(base.copy().current_key(), Some(&2));
    assert_eq!(base.clone().current_key(), Some(&2));
    assert_eq!(base.clone(), base);
}

#[test]
fn to_map_holds_every_entry() {
    let map = abc().to_map();
    assert_eq!(map.len(), 3);
    assert_eq!(map.get(&2), Some(&20));
}

#[test]
fn contains_key_and_len_agree_with_the_entries() {
    let base = abc();
    assert!(base.contains_key(&1));
    assert!(!base.contains_key(&4));
    assert_eq!(base.len(), 3);
    assert!(!base.is_empty());
    assert_eq!(base.first_key(), Some(&1));
    assert_eq!(base.last_key(), Some(&3));
}

#[test]
fn bulk_operations_match_their_one_by_one_forms() {
    let base = abc().move_to(&2);
    assert_eq!(base.pop_many(2).to_vec(), base.pop().pop().to_vec());
    assert_eq!(base.pop_many(2).current_key(), base.pop().pop().current_key());

    let pushed = base.push_many(vec![(4, 40), (5, 50)]);
    let one_by_one = base.push(40, 4).push(50, 5);
    assert_eq!(pushed.to_vec(), one_by_one.to_vec());
    assert_eq!(pushed.current_key(), one_by_one.current_key());

    let unshifted = base.unshift(vec![(4, 40), (5, 50)]);
    let prepended = base.prepend(50, 5).prepend(40, 4);
    assert_eq!(unshifted.to_vec(), prepended.to_vec());
    assert_eq!(keys_of(&unshifted), vec![4, 5, 1, 2, 3]);

    let many = base.insert_many_after(&2, vec![(4, 40), (5, 50)]);
    let chained = base.insert_after(&2, 40, 4).insert_after(&4, 50, 5);
    assert_eq!(many.to_vec(), chained.to_vec());
    assert_eq!(keys_of(&many), vec![1, 2, 4, 5, 3]);

    let joined = base.concat(&numbers(vec![(4, 40), (5, 50)]));
    assert_eq!(joined.to_vec(), pushed.to_vec());
}

#[test]
fn reduce_right_is_reduce_of_the_reversed_map() {
    let base = abc();
    let right = base.reduce_right(Vec::new(), |mut seen, v, k| {
        seen.push((*k, *v));
        seen
    });
    let left_of_reverse = base.reverse().reduce(Vec::new(), |mut seen, v, k| {
        seen.push((*k, *v));
        seen
    });
    assert_eq!(right, left_of_reverse);
    assert_eq!(right, vec![(3, 30), (2, 20), (1, 10)]);
}

#[test]
fn entries_agree_with_lookup_after_many_operations() {
    let maps = vec![
        abc(),
        abc().remove(&2).push(40, 4).prepend(0, 0),
        abc().move_to_end().next().insert_after(&1, 15, 15),
        abc().delete_between(&1, &3, true, true),
        abc().swap(&1, &3).reverse().pop_many(1),
        abc().get_between(&1, &3, false, false),
    ];
    for map in maps {
        let pairs = map.to_vec();
        assert_eq!(pairs.len(), map.len());
        for (index, (key, value)) in pairs.iter().enumerate() {
            assert_eq!(map.get(key), Some(value));
            assert!(pairs[..index].iter().all(|(earlier, _)| earlier != key));
        }
        let table = map.to_map();
        assert_eq!(table.len(), pairs.len());
        for (key, value) in &pairs {
            assert_eq!(table.get(key), Some(value));
        }
        if let Some(key) = map.current_key() {
            assert!(map.contains_key(key));
        }
        if map.is_empty() {
            assert_eq!(map.current_key(), None);
        }
    }
}

#[test]
fn equality_requires_the_same_key_order() {
    let a = numbers(vec![(1, 10), (2, 20)]);
    let b = numbers(vec![(2, 20), (1, 10)]);
    assert_ne!(a, b);
    assert_eq!(a, b.reverse());
}
