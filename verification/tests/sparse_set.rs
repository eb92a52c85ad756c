use packed_ecs::data_structures::sparse_set::SparseSet;
use packed_ecs::data_structures::sparse_set::SpraseDenseValueIndex;

#[test]
fn three_keys_on_three_pages() {
    let mut set: SparseSet<&str, 1000> = SparseSet::new();
    set.set(5, "a");
    set.set(1000, "b");
    set.set(2000, "c");
    assert_eq!(set.get(1000), Some(&"b"));
    assert_eq!(set.len(), 3);
    assert_eq!(set.get(5), Some(&"a"));
    assert_eq!(set.get(2000), Some(&"c"));
}

#[test]
fn new_set_is_empty() {
    let set: SparseSet<u32, 8> = SparseSet::new();
    assert_eq!(set.len(), 0);
    assert_eq!(set.get(0), None);
    assert!(!set.contains(0));
    assert!(set.iter().is_empty());
}

#[test]
fn map_index_splits_a_key() {
    assert_eq!(SparseSet::<u8, 1000>::map_index(0), (0, 0));
    assert_eq!(SparseSet::<u8, 1000>::map_index(999), (0, 999));
    assert_eq!(SparseSet::<u8, 1000>::map_index(1000), (1, 0));
    assert_eq!(SparseSet::<u8, 1000>::map_index(2345), (2, 345));
    assert_eq!(SparseSet::<u8, 1>::map_index(7), (7, 0));
}

#[test]
fn emplace_reports_a_key_that_is_present() {
    let mut set: SparseSet<u32, 4> = SparseSet::new();
    assert!(set.emplace(9, 90));
    assert!(!set.emplace(9, 91));
    assert_eq!(set.get(9), Some(&90));
    assert_eq!(set.len(), 1);
}

#[test]
fn set_keeps_the_value_of_a_key_that_is_present() {
    let mut set: SparseSet<u32, 4> = SparseSet::new();
    set.set(2, 20);
    set.set(2, 21);
    assert_eq!(set.get(2), Some(&20));
    assert_eq!(set.len(), 1);
}

#[test]
fn key_zero_is_an_ordinary_key() {
    let mut set: SparseSet<u32, 4> = SparseSet::new();
    assert_eq!(set.get(0), None);
    set.set(0, 7);
    assert_eq!(set.get(0), Some(&7));
    set.remove(0);
    assert_eq!(set.get(0), None);
    assert_eq!(set.len(), 0);
}

#[test]
fn get_on_a_page_that_was_never_written() {
    let mut set: SparseSet<u32, 10> = SparseSet::new();
    set.set(95, 1);
    // page 3 has a slot in the index but no cells; page 20 has neither
    assert_eq!(set.get(35), None);
    assert_eq!(set.get(200), None);
    assert_eq!(set.get(94), None);
}

#[test]
fn remove_moves_the_last_value_into_the_hole() {
    let mut set: SparseSet<&str, 1000> = SparseSet::new();
    set.set(5, "a");
    set.set(1000, "b");
    set.set(2000, "c");
    set.set(7, "d");
    set.remove(1000);
    assert_eq!(set.get(1000), None);
    assert_eq!(set.get(5), Some(&"a"));
    assert_eq!(set.get(2000), Some(&"c"));
    assert_eq!(set.get(7), Some(&"d"));
    assert_eq!(set.len(), 3);
    let pairs: Vec<(usize, &str)> = set.iter().into_iter().map(|(k, v)| (k, *v)).collect();
    assert_eq!(pairs, vec![(5, "a"), (7, "d"), (2000, "c")]);
}

#[test]
fn remove_of_the_last_slot_moves_nothing() {
    let mut set: SparseSet<u32, 16> = SparseSet::new();
    set.set(1, 10);
    set.set(2, 20);
    set.remove(2);
    let pairs: Vec<(usize, u32)> = set.iter().into_iter().map(|(k, v)| (k, *v)).collect();
    assert_eq!(pairs, vec![(1, 10)]);
}

#[test]
fn remove_of_a_missing_key_changes_nothing() {
    let mut set: SparseSet<u32, 16> = SparseSet::new();
    set.set(1, 10);
    set.remove(3);
    set.remove(1700);
    assert_eq!(set.len(), 1);
    assert_eq!(set.get(1), Some(&10));
}

#[test]
fn removed_key_can_be_inserted_again() {
    let mut set: SparseSet<u32, 16> = SparseSet::new();
    set.set(33, 1);
    set.remove(33);
    assert!(set.emplace(33, 2));
    assert_eq!(set.get(33), Some(&2));
    assert_eq!(set.len(), 1);
}

#[test]
fn length_follows_inserts_and_removes() {
    let mut set: SparseSet<usize, 32> = SparseSet::new();
    let mut live = 0usize;
    for k in 0..200usize {
        if set.emplace(k * 7 % 150, k) {
            live += 1;
        }
        assert_eq!(set.len(), live);
    }
    for k in 0..200usize {
        let key = k * 11 % 170;
        if set.contains(key) {
            live -= 1;
        }
        set.remove(key);
        assert_eq!(set.len(), live);
        assert!(!set.contains(key));
    }
}

#[test]
fn every_other_key_survives_a_removal() {
    let mut set: SparseSet<usize, 7> = SparseSet::new();
    for k in 0..50usize {
        set.set(k * 3, k * 100);
    }
    set.remove(30);
    for k in 0..50usize {
        if k * 3 == 30 {
            assert_eq!(set.get(30), None);
        } else {
            assert_eq!(set.get(k * 3), Some(&(k * 100)));
        }
    }
}

#[test]
fn iter_walks_the_packed_values_in_order() {
    let mut set: SparseSet<char, 1000> = SparseSet::new();
    set.set(3000, 'x');
    set.set(1, 'y');
    set.set(999, 'z');
    let pairs: Vec<(usize, char)> = set.iter().into_iter().map(|(k, v)| (k, *v)).collect();
    assert_eq!(pairs, vec![(3000, 'x'), (1, 'y'), (999, 'z')]);
}

#[test]
fn get_mut_writes_through() {
    let mut set: SparseSet<u32, 1000> = SparseSet::new();
    set.set(4, 40);
    set.set(5, 50);
    if let Some(v) = set.get_mut(4) {
        *v += 2;
    }
    assert_eq!(set.get(4), Some(&42));
    assert_eq!(set.get(5), Some(&50));
    assert!(set.get_mut(6).is_none());
}

#[test]
fn slots_name_keys_and_values() {
    let mut set: SparseSet<u32, 1000> = SparseSet::new();
    set.set(4, 40);
    set.set(2004, 50);
    assert_eq!(set.slot_of(2004), Some(1));
    assert_eq!(set.slot_of(5), None);
    assert_eq!(set.key_at(1), 2004);
    assert_eq!(*set.value_at(1), 50);
    *set.value_at_mut(0) = 41;
    assert_eq!(set.get(4), Some(&41));
}

#[test]
fn page_size_one() {
    let mut set: SparseSet<u8, 1> = SparseSet::new();
    set.set(0, 1);
    set.set(3, 4);
    assert_eq!(set.get(3), Some(&4));
    assert_eq!(set.get(2), None);
    set.remove(0);
    assert_eq!(set.get(3), Some(&4));
    assert_eq!(set.len(), 1);
}

#[test]
fn back_reference_is_built() {
    let _ = SpraseDenseValueIndex::new(2, 7);
}

#[test]
fn iter_mut_writes_through_in_packing_order() {
    let mut set: SparseSet<u32, 1000> = SparseSet::new();
    set.set(30, 1);
    set.set(10, 2);
    set.set(2020, 3);
    let mut seen = Vec::new();
    for (key, value) in set.iter_mut() {
        seen.push(key);
        *value *= 10;
    }
    assert_eq!(seen, vec![30, 10, 2020]);
    assert_eq!(set.get(30), Some(&10));
    assert_eq!(set.get(10), Some(&20));
    assert_eq!(set.get(2020), Some(&30));
    let mut empty: SparseSet<u32, 1000> = SparseSet::new();
    assert!(empty.iter_mut().is_empty());
}

#[test]
fn long_history_agrees_with_a_plain_map() {
    let mut set: SparseSet<u64, 64> = SparseSet::new();
    let mut model: std::collections::BTreeMap<usize, u64> = std::collections::BTreeMap::new();
    let mut state: u64 = 0x2545_f491_4f6c_dd1d;
    for step in 0..20_000u64 {
        state = state.wrapping_mul(6364136223846793005).wrapping_add(1442695040888963407);
        let key = ((state >> 33) % 700) as usize;
        if (state >> 20) % 3 == 0 {
            set.remove(key);
            model.remove(&key);
        } else {
            let inserted = set.emplace(key, step);
            assert_eq!(inserted, !model.contains_key(&key));
            model.entry(key).or_insert(step);
        }
        assert_eq!(set.len(), model.len());
        assert_eq!(set.get(key), model.get(&key));
    }
    let mut pairs: Vec<(usize, u64)> = set.iter().into_iter().map(|(k, v)| (k, *v)).collect();
    pairs.sort();
    let expected: Vec<(usize, u64)> = model.into_iter().collect();
    assert_eq!(pairs, expected);
}
