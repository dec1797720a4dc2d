use std::collections::HashMap;

use event_emitter::utils::GeneralMap;

fn slots() -> Vec<Option<&'static str>> {
    <Vec<Option<&'static str>> as GeneralMap<usize, &'static str>>::new()
}

#[test]
fn slots_insert_prefers_the_given_free_slot() {
    let mut m = slots();
    assert!(GeneralMap::is_empty(&m));
    assert_eq!(GeneralMap::insert(&mut m, 3, "a"), 0);
    assert_eq!(GeneralMap::insert(&mut m, 0, "b"), 1);
    assert_eq!(GeneralMap::insert(&mut m, 5, "c"), 2);
    assert_eq!(GeneralMap::remove(&mut m, &1), Some("b"));
    assert_eq!(GeneralMap::len(&m), 2);
    // The preferred slot 1 is free again.
    assert_eq!(GeneralMap::insert(&mut m, 1, "d"), 1);
    assert_eq!(GeneralMap::remove(&mut m, &0), Some("a"));
    // Slot 2 is taken, so the first free slot is used.
    assert_eq!(GeneralMap::insert(&mut m, 2, "e"), 0);
    assert_eq!(m, vec![Some("e"), Some("d"), Some("c")]);
    assert_eq!(GeneralMap::len(&m), 3);
    assert!(!GeneralMap::is_empty(&m));
}

#[test]
fn slots_remove_of_an_empty_slot() {
    let mut m = slots();
    GeneralMap::insert(&mut m, 0, "a");
    assert_eq!(GeneralMap::remove(&mut m, &0), Some("a"));
    assert_eq!(GeneralMap::remove(&mut m, &0), None);
    assert!(GeneralMap::is_empty(&m));
    assert_eq!(GeneralMap::len(&m), 0);
}

#[test]
fn slots_find_looks_at_the_given_keys_first() {
    let m: Vec<Option<u32>> = vec![Some(4), None, Some(6), Some(8)];
    let even = |v: &u32| v % 2 == 0;
    assert_eq!(GeneralMap::find(&m, &[3, 0], even), Some(3));
    assert_eq!(GeneralMap::find(&m, &[1], even), Some(0));
    assert_eq!(GeneralMap::find(&m, &[], |v: &u32| *v > 5), Some(2));
    assert_eq!(GeneralMap::find(&m, &[0, 1, 2], |v: &u32| *v > 100), None);
    assert!(GeneralMap::any(&m, |v: &u32| *v == 6));
    assert!(!GeneralMap::any(&m, |v: &u32| *v == 5));
}

#[test]
fn slots_map_values_and_find_all_go_in_slot_order() {
    let m: Vec<Option<u32>> = vec![Some(4), None, Some(7), Some(8)];
    assert_eq!(GeneralMap::map_values(&m, |v: &u32| v * 10), vec![40, 70, 80]);
    assert_eq!(GeneralMap::find_all(&m, |v: &u32| v % 2 == 0), vec![0, 3]);
    assert_eq!(GeneralMap::find_all(&m, |v: &u32| *v > 100), Vec::<usize>::new());
}

#[test]
fn hash_map_behaves_as_a_general_map() {
    let mut m: HashMap<u32, &str> = GeneralMap::new();
    assert!(GeneralMap::is_empty(&m));
    assert_eq!(GeneralMap::insert(&mut m, 7, "seven"), 7);
    assert_eq!(GeneralMap::insert(&mut m, 2, "two"), 2);
    assert_eq!(GeneralMap::len(&m), 2);
    assert!(GeneralMap::any(&m, |v: &&str| v.len() == 3));
    assert!(!GeneralMap::any(&m, |v: &&str| v.is_empty()));
    assert_eq!(GeneralMap::find(&m, &[9, 7], |v: &&str| v.len() > 2), Some(7));
    assert_eq!(GeneralMap::find(&m, &[9], |v: &&str| v.starts_with('t')), Some(2));
    assert_eq!(GeneralMap::find(&m, &[], |v: &&str| v.is_empty()), None);
    let mut lens = GeneralMap::map_values(&m, |v: &&str| v.len());
    lens.sort();
    assert_eq!(lens, vec![3, 5]);
    let mut keys = GeneralMap::find_all(&m, |v: &&str| v.contains('e'));
    keys.sort();
    assert_eq!(keys, vec![7]);
    assert_eq!(GeneralMap::remove(&mut m, &7), Some("seven"));
    assert_eq!(GeneralMap::remove(&mut m, &7), None);
    assert_eq!(GeneralMap::len(&m), 1);
}

#[test]
fn slots_insert_and_remove_keep_the_other_slots() {
    let mut v: Vec<Option<i32>> = vec![Some(1), None, Some(3), None];
    assert_eq!(GeneralMap::insert(&mut v, 7, 9), 1);
    assert_eq!(v, vec![Some(1), Some(9), Some(3), None]);
    assert_eq!(GeneralMap::insert(&mut v, 3, 4), 3);
    assert_eq!(GeneralMap::insert(&mut v, 0, 5), 4);
    assert_eq!(v, vec![Some(1), Some(9), Some(3), Some(4), Some(5)]);
    assert_eq!(GeneralMap::remove(&mut v, &1), Some(9));
    assert_eq!(v, vec![Some(1), None, Some(3), Some(4), Some(5)]);
}

#[test]
fn slots_find_stops_before_a_key_out_of_range() {
    let m: Vec<Option<u32>> = vec![Some(4), None];
    // Key 9 is past the slots, but the hit on key 0 comes first.
    assert_eq!(GeneralMap::find(&m, &[0, 9], |v: &u32| *v == 4), Some(0));
}
