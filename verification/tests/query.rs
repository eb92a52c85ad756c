use packed_ecs::ecs::archtype::ArchTypeUUID;
use packed_ecs::ecs::entity::EntityUUID;
use packed_ecs::ecs::query::Access;
use packed_ecs::ecs::query::Query;
use packed_ecs::ecs::query::QueryError;
use packed_ecs::ecs::query::QueryTerm;
use packed_ecs::ecs::ECSStorage;

fn read(component_type: usize) -> QueryTerm {
    QueryTerm { component_type, access: Access::Read }
}

fn write(component_type: usize) -> QueryTerm {
    QueryTerm { component_type, access: Access::Write }
}

#[test]
fn query_yields_the_entity_with_both_types() {
    let mut storage: ECSStorage<&str> = ECSStorage::new();
    let a = storage.register(ArchTypeUUID(1));
    let b = storage.register(ArchTypeUUID(2));
    let e1 = storage.create_entity();
    let e2 = storage.create_entity();
    let e3 = storage.create_entity();
    storage.add_component(e1, a, "a1");
    storage.add_component(e2, b, "b2");
    storage.add_component(e3, a, "a3");
    storage.add_component(e3, b, "b3");
    storage.update_archtypes();
    let query = Query::new(vec![read(a), write(b)]).unwrap();
    let rows = storage.query(&query);
    assert_eq!(rows.len(), 1);
    assert_eq!(rows[0].entity, e3);
    assert_eq!(rows[0].slots.len(), 2);
    assert_eq!(*storage.component_at(a, rows[0].slots[0]), "a3");
    assert_eq!(*storage.component_at(b, rows[0].slots[1]), "b3");
    *storage.component_at_mut(b, rows[0].slots[1]) = "B3";
    assert_eq!(storage.get_component(e3, b), Some(&"B3"));
}

#[test]
fn query_follows_the_packing_of_the_last_type() {
    let mut storage: ECSStorage<u32> = ECSStorage::new();
    let a = storage.register(ArchTypeUUID(1));
    let b = storage.register(ArchTypeUUID(2));
    let entities: Vec<EntityUUID> = (0..6).map(|_| storage.create_entity()).collect();
    for (i, e) in entities.iter().enumerate() {
        storage.add_component(*e, a, i as u32);
        if i % 2 == 0 {
            storage.add_component(*e, b, 100 + i as u32);
        }
    }
    storage.update_archtypes();
    let query = Query::new(vec![read(a), read(b)]).unwrap();
    let rows = storage.query(&query);
    let found: Vec<EntityUUID> = rows.iter().map(|r| r.entity).collect();
    let driver: Vec<EntityUUID> = storage.iter(b).into_iter().map(|(e, _)| e).collect();
    assert_eq!(found, driver);
    assert_eq!(found.len(), 3);
    for row in rows.iter() {
        let va = *storage.component_at(a, row.slots[0]);
        let vb = *storage.component_at(b, row.slots[1]);
        assert_eq!(vb, 100 + va);
        assert_eq!(storage.get_component(row.entity, a), Some(&va));
    }
    // each entity once
    let mut sorted: Vec<usize> = found.iter().map(|e| e.0).collect();
    sorted.sort();
    sorted.dedup();
    assert_eq!(sorted.len(), 3);
}

#[test]
fn query_over_one_type_lists_its_entities() {
    let mut storage: ECSStorage<u32> = ECSStorage::new();
    let a = storage.register(ArchTypeUUID(1));
    let e0 = storage.create_entity();
    let e1 = storage.create_entity();
    storage.add_component(e1, a, 5);
    storage.add_component(e0, a, 6);
    storage.update_archtypes();
    let rows = storage.query(&Query::new(vec![write(a)]).unwrap());
    assert_eq!(rows.len(), 2);
    for row in rows.iter() {
        assert_eq!(storage.entity_at(a, row.slots[0]), row.entity);
    }
}

#[test]
fn query_over_three_types() {
    let mut storage: ECSStorage<u32> = ECSStorage::new();
    let a = storage.register(ArchTypeUUID(1));
    let b = storage.register(ArchTypeUUID(2));
    let c = storage.register(ArchTypeUUID(3));
    let e0 = storage.create_entity();
    let e1 = storage.create_entity();
    for t in [a, b, c] {
        storage.add_component(e0, t, t as u32);
    }
    storage.add_component(e1, a, 0);
    storage.add_component(e1, c, 0);
    storage.update_archtypes();
    let rows = storage.query(&Query::new(vec![write(a), read(b), write(c)]).unwrap());
    assert_eq!(rows.len(), 1);
    assert_eq!(rows[0].entity, e0);
    assert_eq!(rows[0].slots.len(), 3);
}

#[test]
fn query_for_a_type_that_is_not_registered_is_empty() {
    let mut storage: ECSStorage<u32> = ECSStorage::new();
    let a = storage.register(ArchTypeUUID(1));
    let e = storage.create_entity();
    storage.add_component(e, a, 1);
    storage.update_archtypes();
    assert!(storage.query(&Query::new(vec![read(a), read(9)]).unwrap()).is_empty());
    assert!(storage.query(&Query::new(vec![read(9), read(a)]).unwrap()).is_empty());
}

#[test]
fn query_does_not_see_requests_that_are_not_applied() {
    let mut storage: ECSStorage<u32> = ECSStorage::new();
    let a = storage.register(ArchTypeUUID(1));
    let e = storage.create_entity();
    storage.add_component(e, a, 1);
    let query = Query::new(vec![read(a)]).unwrap();
    assert!(storage.query(&query).is_empty());
    storage.update_archtypes();
    assert_eq!(storage.query(&query).len(), 1);
}

#[test]
fn empty_list_is_refused() {
    assert_eq!(Query::new(vec![]).err(), Some(QueryError::Empty));
}

#[test]
fn duplicate_write_is_refused() {
    assert_eq!(Query::new(vec![write(3), write(3)]).err(), Some(QueryError::DuplicateWrite(3)));
    assert_eq!(
        Query::new(vec![write(3), read(1), write(3)]).err(),
        Some(QueryError::DuplicateWrite(3))
    );
}

#[test]
fn read_and_write_of_one_type_is_refused() {
    assert_eq!(Query::new(vec![read(3), write(3)]).err(), Some(QueryError::ReadWriteConflict(3)));
    assert_eq!(Query::new(vec![write(3), read(3)]).err(), Some(QueryError::ReadWriteConflict(3)));
}

#[test]
fn duplicate_read_is_refused() {
    assert_eq!(Query::new(vec![read(2), read(2)]).err(), Some(QueryError::DuplicateRead(2)));
}

#[test]
fn the_first_clash_is_reported() {
    // the clash of 5 ends at the third term, that of 4 at the fourth
    assert_eq!(
        Query::new(vec![read(4), write(5), read(5), write(4)]).err(),
        Some(QueryError::ReadWriteConflict(5))
    );
    // two clashes end at the same term: the one that starts first counts
    assert_eq!(
        Query::new(vec![write(7), read(7), write(7)]).err(),
        Some(QueryError::ReadWriteConflict(7))
    );
    assert_eq!(
        Query::new(vec![read(1), read(7), write(7), read(7)]).err(),
        Some(QueryError::ReadWriteConflict(7))
    );
}

#[test]
fn valid_query_keeps_its_terms() {
    let query = Query::new(vec![read(4), write(5), read(6)]).unwrap();
    assert_eq!(query.len(), 3);
    assert_eq!(query.term(0), read(4));
    assert_eq!(query.term(1), write(5));
    assert_eq!(query.term(2), read(6));
}
