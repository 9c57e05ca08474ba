use leptos::{SignalGetUntracked, SignalSet, SignalUpdate};
use reactive_core::counters::{add, fixed, initial, remove, take_out, Counter};

fn keys(list: &[Counter]) -> Vec<usize> {
    list.iter().map(|row| row.0).collect()
}

fn starts(list: &[Counter]) -> Vec<usize> {
    list.iter().map(|row| row.1.start).collect()
}

fn counts(list: &[Counter]) -> Vec<Option<usize>> {
    list.iter().map(|row| row.1.count.try_get_untracked()).collect()
}

#[test]
fn a_list_starts_with_counters_one_above_their_keys() {
    assert!(initial(0).is_empty());
    let list = initial(4);
    assert_eq!(keys(&list), vec![0, 1, 2, 3]);
    assert_eq!(starts(&list), vec![1, 2, 3, 4]);
    assert_eq!(counts(&list), vec![Some(1), Some(2), Some(3), Some(4)]);
    let three = initial(3);
    assert_eq!(keys(&three), vec![0, 1, 2]);
    assert_eq!(counts(&three), vec![Some(1), Some(2), Some(3)]);
}

#[test]
fn the_two_ends_of_a_counter_are_one_signal() {
    let list = initial(2);
    list[1].1.set_count.update(|n| *n += 1);
    list[1].1.set_count.update(|n| *n += 1);
    list[0].1.set_count.set(40);
    assert_eq!(counts(&list), vec![Some(40), Some(4)]);
}

#[test]
fn a_fixed_list_counts_from_one() {
    assert!(fixed(0).is_empty());
    let list = fixed(3);
    let values: Vec<usize> = list.iter().map(|made| made.count.get_untracked()).collect();
    assert_eq!(values, vec![1, 2, 3]);
    let started: Vec<usize> = list.iter().map(|made| made.start).collect();
    assert_eq!(started, vec![1, 2, 3]);
}

#[test]
fn a_counter_is_added_under_the_next_key() {
    let mut list = initial(2);
    let next = add(&mut list, 2);
    assert_eq!(next, 3);
    let next = add(&mut list, next);
    assert_eq!(next, 4);
    assert_eq!(keys(&list), vec![0, 1, 2, 3]);
    assert_eq!(counts(&list), vec![Some(1), Some(2), Some(3), Some(4)]);
    let mut empty = Vec::new();
    assert_eq!(add(&mut empty, 7), 8);
    assert_eq!(keys(&empty), vec![7]);
    assert_eq!(counts(&empty), vec![Some(8)]);
}

#[test]
fn a_removed_counter_is_released_and_the_others_stay() {
    let mut list = initial(4);
    let before = list.clone();
    list[2].1.set_count.set(30);
    let released = remove(&mut list, 1);
    assert_eq!(keys(&released), vec![1]);
    assert_eq!(counts(&released), vec![None]);
    assert_eq!(keys(&list), vec![0, 2, 3]);
    assert_eq!(counts(&list), vec![Some(1), Some(30), Some(4)]);
    assert_eq!(before[1].1.count.try_get_untracked(), None);
    assert_eq!(before[0].1.count.try_get_untracked(), Some(1));

    assert!(remove(&mut list, 9).is_empty());
    assert_eq!(keys(&list), vec![0, 2, 3]);
    remove(&mut list, 0);
    remove(&mut list, 3);
    assert_eq!(keys(&list), vec![2]);
    remove(&mut list, 2);
    assert!(list.is_empty());
    assert_eq!(counts(&before), vec![None, None, None, None]);
}

#[test]
fn every_counter_with_the_key_is_removed() {
    let mut list = initial(2);
    add(&mut list, 0);
    add(&mut list, 5);
    assert_eq!(keys(&list), vec![0, 1, 0, 5]);
    let doomed = (list[0].1.count, list[2].1.count);
    remove(&mut list, 0);
    assert_eq!(keys(&list), vec![1, 5]);
    assert_eq!(counts(&list), vec![Some(2), Some(6)]);
    assert_eq!(doomed.0.try_get_untracked(), None);
    assert_eq!(doomed.1.try_get_untracked(), None);
}

#[test]
fn rows_taken_out_keep_their_signals() {
    let mut list = initial(3);
    add(&mut list, 1);
    let leaving = take_out(&mut list, 1);
    assert_eq!(keys(&leaving), vec![1, 1]);
    assert_eq!(starts(&leaving), vec![2, 2]);
    assert_eq!(counts(&leaving), vec![Some(2), Some(2)]);
    assert_eq!(keys(&list), vec![0, 2]);
    assert!(take_out(&mut list, 1).is_empty());
    assert_eq!(keys(&list), vec![0, 2]);
}

#[test]
fn a_key_that_left_is_not_given_out_again() {
    let mut list = initial(2);
    let mut next = 2;
    remove(&mut list, 1);
    next = add(&mut list, next);
    assert_eq!(next, 3);
    assert_eq!(keys(&list), vec![0, 2]);
    assert_eq!(starts(&list), vec![1, 3]);
    assert_eq!(counts(&list), vec![Some(1), Some(3)]);
}

#[test]
fn two_adds_after_two_counters_count_to_four() {
    let mut list = initial(2);
    let next = add(&mut list, 2);
    add(&mut list, next);
    assert_eq!(keys(&list), vec![0, 1, 2, 3]);
    assert_eq!(starts(&list), vec![1, 2, 3, 4]);
    assert_eq!(counts(&list), vec![Some(1), Some(2), Some(3), Some(4)]);
}
