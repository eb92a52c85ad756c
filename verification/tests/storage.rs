use std::collections::BTreeMap;
use std::collections::BTreeSet;

use packed_ecs::data_structures::bit_set::BitSet;
use packed_ecs::ecs::archtype::ArchTypeUUID;
use packed_ecs::ecs::entity::EntityUUID;
use packed_ecs::ecs::ECSStorage;

fn storage_with_two_types() -> (ECSStorage<i64>, usize, usize) {
    let mut storage: ECSStorage<i64> = ECSStorage::new();
    let a = storage.register(ArchTypeUUID(0xA));
    let b = storage.register(ArchTypeUUID(0xB));
    (storage, a, b)
}

#[test]
fn new_storage_is_empty() {
    let storage: ECSStorage<u8> = ECSStorage::new();
    assert_eq!(storage.entity_count(), 0);
    assert_eq!(storage.component_type_count(), 0);
    assert!(!storage.has_entity(EntityUUID(0)));
    assert!(storage.iter(0).is_empty());
    assert_eq!(storage.get_component(EntityUUID(0), 0), None);
    assert!(storage.can_create_entity());
}

#[test]
fn register_assigns_small_numbers_once() {
    let mut storage: ECSStorage<u8> = ECSStorage::new();
    assert_eq!(storage.register(ArchTypeUUID(77)), 0);
    assert_eq!(storage.register(ArchTypeUUID(5)), 1);
    assert_eq!(storage.register(ArchTypeUUID(77)), 0);
    assert_eq!(storage.register(ArchTypeUUID(6)), 2);
    assert_eq!(storage.component_type_count(), 3);
    assert_eq!(storage.component_type(ArchTypeUUID(5)), Some(1));
    assert_eq!(storage.component_type(ArchTypeUUID(8)), None);
}

#[test]
fn entities_are_numbered_from_zero() {
    let mut storage: ECSStorage<u8> = ECSStorage::new();
    assert_eq!(storage.create_entity(), EntityUUID(0));
    assert_eq!(storage.create_entity(), EntityUUID(1));
    assert_eq!(storage.create_entity(), EntityUUID(2));
    assert_eq!(storage.entity_count(), 3);
    assert!(storage.has_entity(EntityUUID(1)));
    assert!(!storage.has_entity(EntityUUID(3)));
}

#[test]
fn removed_identity_is_handed_out_again() {
    let mut storage: ECSStorage<u8> = ECSStorage::new();
    let t = storage.register(ArchTypeUUID(1));
    let first = storage.create_entity();
    storage.add_component(first, t, 9);
    storage.update_archtypes();
    assert!(storage.remove_entity(first));
    assert!(!storage.has_entity(first));
    let second = storage.create_entity();
    // the number is used again; the new entity has nothing of the old one
    assert_eq!(second, first);
    assert!(storage.has_entity(second));
    assert_eq!(storage.get_component(second, t), None);
    assert_eq!(storage.entity_bitset(second).map(|b| b == &BitSet::new()), Some(true));
}

#[test]
fn free_identities_come_back_last_in_first_out() {
    let mut storage: ECSStorage<u8> = ECSStorage::new();
    let e0 = storage.create_entity();
    let e1 = storage.create_entity();
    let _e2 = storage.create_entity();
    storage.remove_entity(e0);
    storage.remove_entity(e1);
    assert_eq!(storage.create_entity(), e1);
    assert_eq!(storage.create_entity(), e0);
    assert_eq!(storage.create_entity(), EntityUUID(3));
}

#[test]
fn remove_entity_of_an_unknown_entity() {
    let mut storage: ECSStorage<u8> = ECSStorage::new();
    let e = storage.create_entity();
    assert!(!storage.remove_entity(EntityUUID(17)));
    assert!(storage.has_entity(e));
    assert_eq!(storage.entity_count(), 1);
    assert!(storage.remove_entity(e));
    assert!(!storage.remove_entity(e));
    assert_eq!(storage.entity_count(), 0);
}

#[test]
fn add_component_waits_for_the_commit() {
    let (mut storage, a, _) = storage_with_two_types();
    let e = storage.create_entity();
    storage.add_component(e, a, 11);
    assert!(storage.iter(a).is_empty());
    assert_eq!(storage.get_component(e, a), None);
    assert_eq!(storage.component_count(a), 0);
    storage.update_archtypes();
    let seen: Vec<(EntityUUID, i64)> = storage.iter(a).into_iter().map(|(e, v)| (e, *v)).collect();
    assert_eq!(seen, vec![(e, 11)]);
    assert_eq!(storage.get_component(e, a), Some(&11));
    // a second commit has nothing left to apply
    storage.update_archtypes();
    assert_eq!(storage.component_count(a), 1);
}

#[test]
fn remove_component_clears_value_and_flag() {
    let (mut storage, a, b) = storage_with_two_types();
    let e = storage.create_entity();
    storage.add_component(e, a, 1);
    storage.add_component(e, b, 2);
    storage.update_archtypes();
    assert!(storage.entity_bitset(e).unwrap().get(a));
    assert!(storage.entity_bitset(e).unwrap().get(b));
    storage.remove_component(e, b);
    // not yet
    assert_eq!(storage.get_component(e, b), Some(&2));
    storage.update_archtypes();
    assert_eq!(storage.get_component(e, b), None);
    assert_eq!(storage.get_component(e, a), Some(&1));
    assert!(storage.entity_bitset(e).unwrap().get(a));
    assert!(!storage.entity_bitset(e).unwrap().get(b));
}

#[test]
fn last_request_for_a_pair_wins() {
    let (mut storage, a, b) = storage_with_two_types();
    let e = storage.create_entity();
    storage.add_component(e, a, 1);
    storage.remove_component(e, a);
    storage.remove_component(e, b);
    storage.add_component(e, b, 5);
    storage.add_component(e, b, 6);
    storage.update_archtypes();
    assert_eq!(storage.get_component(e, a), None);
    assert_eq!(storage.get_component(e, b), Some(&6));
}

#[test]
fn attaching_keeps_a_component_that_is_there() {
    let (mut storage, a, _) = storage_with_two_types();
    let e = storage.create_entity();
    storage.add_component(e, a, 1);
    storage.update_archtypes();
    storage.add_component(e, a, 2);
    storage.update_archtypes();
    assert_eq!(storage.get_component(e, a), Some(&1));
    // within one batch the pair is decided against what was there before it
    storage.remove_component(e, a);
    storage.add_component(e, a, 3);
    storage.update_archtypes();
    assert_eq!(storage.get_component(e, a), Some(&1));
}

#[test]
fn requests_for_unknown_entities_and_types_are_dropped() {
    let (mut storage, a, _) = storage_with_two_types();
    let e = storage.create_entity();
    storage.add_component(EntityUUID(40), a, 1);
    storage.add_component(e, 9, 1);
    storage.remove_component(EntityUUID(41), a);
    storage.remove_component(e, 10);
    storage.update_archtypes();
    assert_eq!(storage.component_count(a), 0);
    assert_eq!(storage.component_count(9), 0);
    assert!(!storage.has_entity(EntityUUID(40)));
    assert_eq!(storage.component_type_count(), 2);
}

#[test]
fn detaching_what_is_not_attached() {
    let (mut storage, a, _) = storage_with_two_types();
    let e = storage.create_entity();
    storage.remove_component(e, a);
    storage.update_archtypes();
    assert_eq!(storage.get_component(e, a), None);
    assert!(storage.has_entity(e));
}

#[test]
fn remove_entity_empties_every_storage_it_was_in() {
    let (mut storage, a, b) = storage_with_two_types();
    let e1 = storage.create_entity();
    let e2 = storage.create_entity();
    storage.add_component(e1, a, 1);
    storage.add_component(e1, b, 2);
    storage.add_component(e2, a, 3);
    storage.update_archtypes();
    assert!(storage.remove_entity(e1));
    assert!(!storage.has_entity(e1));
    assert_eq!(storage.get_component(e1, a), None);
    assert_eq!(storage.get_component(e1, b), None);
    assert_eq!(storage.get_component(e2, a), Some(&3));
    assert_eq!(storage.component_count(a), 1);
    assert_eq!(storage.component_count(b), 0);
    // components can be attached to the identity again
    let again = storage.create_entity();
    assert_eq!(again, e1);
    storage.add_component(again, b, 20);
    storage.update_archtypes();
    assert_eq!(storage.get_component(again, b), Some(&20));
    assert_eq!(storage.get_component(again, a), None);
}

#[test]
fn writes_are_seen_by_later_reads() {
    let (mut storage, a, _) = storage_with_two_types();
    let e = storage.create_entity();
    storage.add_component(e, a, 1);
    storage.update_archtypes();
    if let Some(v) = storage.get_component_mut(e, a) {
        *v = 50;
    }
    assert_eq!(storage.get_component(e, a), Some(&50));
    let slot = storage.slot_of(e, a).unwrap();
    *storage.component_at_mut(a, slot) += 1;
    assert_eq!(*storage.component_at(a, slot), 51);
    assert_eq!(storage.entity_at(a, slot), e);
    assert!(storage.get_component_mut(EntityUUID(99), a).is_none());
    assert!(storage.get_component_mut(e, 7).is_none());
}

#[test]
fn component_bitsets_have_one_flag() {
    let (storage, a, b) = storage_with_two_types();
    let bits = storage.get_component_bitset(b).unwrap();
    assert!(bits.get(b));
    assert!(!bits.get(a));
    assert!(storage.get_component_bitset(2).is_none());
}

#[test]
fn signature_is_the_fingerprint_of_the_bit_set() {
    let mut bits = BitSet::new();
    bits.on(1);
    bits.on(4);
    let mut padded = bits.clone();
    padded.on(700);
    padded.off(700);
    assert_eq!(ArchTypeUUID::of(&bits), ArchTypeUUID(bits.hash_value() as usize));
    assert_eq!(ArchTypeUUID::of(&bits), ArchTypeUUID::of(&padded));
    let mut other = BitSet::new();
    other.on(2);
    assert_ne!(ArchTypeUUID::of(&bits), ArchTypeUUID::of(&other));
}

#[test]
fn identities_convert_to_and_from_numbers() {
    let e: EntityUUID = 12usize.into();
    assert_eq!(e, EntityUUID(12));
    let n: usize = e.into();
    assert_eq!(n, 12);
    assert_eq!(EntityUUID::default(), EntityUUID(0));
    assert_eq!(format!("{:?}", e), "EntityUUID(12)");
    let a: ArchTypeUUID = 3usize.into();
    let m: usize = a.into();
    assert_eq!(m, 3);
    assert_eq!(ArchTypeUUID::default(), ArchTypeUUID(0));
}

#[test]
fn iter_mut_writes_every_component() {
    let (mut storage, a, b) = storage_with_two_types();
    let e0 = storage.create_entity();
    let e1 = storage.create_entity();
    storage.add_component(e0, a, 1);
    storage.add_component(e1, a, 2);
    storage.add_component(e1, b, 3);
    storage.update_archtypes();
    for (entity, value) in storage.iter_mut(a) {
        *value += 10 * (entity.0 as i64 + 1);
    }
    assert_eq!(storage.get_component(e0, a), Some(&11));
    assert_eq!(storage.get_component(e1, a), Some(&22));
    assert_eq!(storage.get_component(e1, b), Some(&3));
    assert!(storage.iter_mut(5).is_empty());
}

#[test]
fn archtype_bitset_is_the_union_of_the_listed_types() {
    let mut storage: ECSStorage<u8> = ECSStorage::new();
    for key in 0..70usize {
        storage.register(ArchTypeUUID(1000 + key));
    }
    let bits = storage.get_archtype_bitset(&vec![3, 69, 3, 500]);
    assert!(bits.get(3));
    assert!(bits.get(69));
    assert!(!bits.get(4));
    // a type that is not registered leaves no flag
    assert!(!bits.get(500));
    let flags: Vec<usize> = bits.iter().into_iter().filter(|(_, f)| *f).map(|(i, _)| i).collect();
    assert_eq!(flags, vec![3, 69]);
    assert!(storage.get_archtype_bitset(&vec![]) == BitSet::new());
}

#[test]
fn equal_combinations_have_equal_signatures() {
    let mut storage: ECSStorage<u8> = ECSStorage::new();
    for key in 0..4usize {
        storage.register(ArchTypeUUID(key));
    }
    let ab = storage.get_archtype_bitset(&vec![0, 1]);
    let ba = storage.get_archtype_bitset(&vec![1, 0]);
    let ac = storage.get_archtype_bitset(&vec![0, 2]);
    assert_eq!(ArchTypeUUID::of(&ab), ArchTypeUUID::of(&ba));
    assert_ne!(ArchTypeUUID::of(&ab), ArchTypeUUID::of(&ac));
}

#[test]
fn archtype_bitset_is_made_once() {
    let mut storage: ECSStorage<u8> = ECSStorage::new();
    storage.register(ArchTypeUUID(1));
    storage.register(ArchTypeUUID(2));
    let bits = storage.get_archtype_bitset(&vec![0, 1]);
    let key = ArchTypeUUID::of(&bits);
    let mut calls = 0;
    let stored = storage
        .archtype_bitset_get_or_insert_with(key, || {
            calls += 1;
            bits.clone()
        })
        .clone();
    assert!(stored == bits);
    assert_eq!(calls, 1);
    let again = storage
        .archtype_bitset_get_or_insert_with(key, || {
            calls += 1;
            BitSet::new()
        })
        .clone();
    assert!(again == bits);
    assert_eq!(calls, 1);
    let other = storage.archtype_bitset_get_or_insert_with(ArchTypeUUID(5), BitSet::new).clone();
    assert!(other == BitSet::new());
}

#[test]
fn requests_are_applied_from_the_last_to_the_first() {
    let (mut storage, a, _) = storage_with_two_types();
    let e0 = storage.create_entity();
    let e1 = storage.create_entity();
    let e2 = storage.create_entity();
    storage.add_component(e0, a, 0);
    storage.add_component(e1, a, 1);
    storage.add_component(e2, a, 2);
    storage.update_archtypes();
    let order: Vec<EntityUUID> = storage.iter(a).into_iter().map(|(e, _)| e).collect();
    assert_eq!(order, vec![e2, e1, e0]);
}

#[test]
fn request_made_before_a_removal_reaches_who_has_the_identity() {
    // a request names an identity, not the entity that had it when it was made
    let (mut storage, a, _) = storage_with_two_types();
    let first = storage.create_entity();
    storage.add_component(first, a, 7);
    storage.remove_entity(first);
    let second = storage.create_entity();
    assert_eq!(second, first);
    storage.update_archtypes();
    assert_eq!(storage.get_component(second, a), Some(&7));
}

#[test]
fn many_requests_in_one_batch() {
    let (mut storage, a, b) = storage_with_two_types();
    let entities: Vec<EntityUUID> = (0..2000).map(|_| storage.create_entity()).collect();
    for (i, e) in entities.iter().enumerate() {
        storage.add_component(*e, a, i as i64);
        storage.add_component(*e, b, -(i as i64));
        if i % 3 == 0 {
            storage.remove_component(*e, b);
        }
    }
    storage.update_archtypes();
    assert_eq!(storage.component_count(a), 2000);
    assert_eq!(storage.component_count(b), 2000 - 667);
    for (i, e) in entities.iter().enumerate() {
        assert_eq!(storage.get_component(*e, a), Some(&(i as i64)));
        assert_eq!(storage.get_component(*e, b).is_some(), i % 3 != 0);
        let bits = storage.entity_bitset(*e).unwrap();
        assert!(bits.get(a));
        assert_eq!(bits.get(b), i % 3 != 0);
    }
}

#[test]
fn long_history_agrees_with_plain_maps() {
    let mut storage: ECSStorage<u64> = ECSStorage::new();
    let types: Vec<usize> = (0..5).map(|k| storage.register(ArchTypeUUID(100 + k))).collect();
    let mut live: BTreeSet<usize> = BTreeSet::new();
    let mut components: BTreeMap<(usize, usize), u64> = BTreeMap::new();
    let mut pending: BTreeMap<(usize, usize), Option<u64>> = BTreeMap::new();
    let mut state: u64 = 0x9e37_79b9_7f4a_7c15;
    for step in 0..6_000u64 {
        state = state.wrapping_mul(6364136223846793005).wrapping_add(1442695040888963407);
        let pick = (state >> 40) % 10;
        let entity = EntityUUID(((state >> 20) % 40) as usize);
        let t = types[((state >> 8) % 5) as usize];
        match pick {
            0 => {
                let e = storage.create_entity();
                assert!(live.insert(e.0));
            },
            1 => {
                assert_eq!(storage.remove_entity(entity), live.remove(&entity.0));
                components.retain(|(e, _), _| *e != entity.0);
            },
            2..=4 => {
                storage.add_component(entity, t, step);
                pending.insert((entity.0, t), Some(step));
            },
            5 | 6 => {
                storage.remove_component(entity, t);
                pending.insert((entity.0, t), None);
            },
            _ => {
                storage.update_archtypes();
                for ((e, t), request) in std::mem::take(&mut pending) {
                    if live.contains(&e) {
                        match request {
                            Some(value) => {
                                components.entry((e, t)).or_insert(value);
                            },
                            None => {
                                components.remove(&(e, t));
                            },
                        }
                    }
                }
            },
        }
        assert_eq!(storage.entity_count(), live.len());
        assert_eq!(storage.get_component(entity, t), components.get(&(entity.0, t)));
        assert_eq!(storage.has_entity(entity), live.contains(&entity.0));
        if let Some(bits) = storage.entity_bitset(entity) {
            assert_eq!(bits.get(t), components.contains_key(&(entity.0, t)));
        }
    }
    for t in types {
        let mut seen: Vec<(usize, u64)> =
            storage.iter(t).into_iter().map(|(e, v)| (e.0, *v)).collect();
        seen.sort();
        let expected: Vec<(usize, u64)> =
            components.iter().filter(|((_, u), _)| *u == t).map(|((e, _), v)| (*e, *v)).collect();
        assert_eq!(seen, expected);
    }
}
