use packed_ecs::ecs::archtype::ArchTypeUUID;
use packed_ecs::ecs::entity::EntityUUID;
use packed_ecs::ecs::system::Phase;
use packed_ecs::ecs::system::System;
use packed_ecs::ecs::ECSStorage;
use packed_ecs::ecs::ECS;

struct Spawner;

impl System<u32> for Spawner {
    fn new() -> Self {
        Spawner
    }

    fn start(&self, ecs: &mut ECSStorage<u32>) {
        let counter = ecs.register(ArchTypeUUID(1));
        let entity = ecs.create_entity();
        ecs.add_component(entity, counter, 0);
        ecs.update_archtypes();
    }

    fn update(&self, ecs: &mut ECSStorage<u32>) {
        let counter = ecs.register(ArchTypeUUID(1));
        for (_, value) in ecs.iter_mut(counter) {
            *value += 1;
        }
    }

    fn fixed_update(&self, _ecs: &mut ECSStorage<u32>) {}

    fn render(&self, _ecs: &mut ECSStorage<u32>) {}
}

struct Doubler;

impl System<u32> for Doubler {
    fn new() -> Self {
        Doubler
    }

    fn start(&self, _ecs: &mut ECSStorage<u32>) {}

    fn update(&self, ecs: &mut ECSStorage<u32>) {
        let counter = ecs.register(ArchTypeUUID(1));
        for (_, value) in ecs.iter_mut(counter) {
            *value *= 2;
        }
    }

    fn fixed_update(&self, ecs: &mut ECSStorage<u32>) {
        let counter = ecs.register(ArchTypeUUID(1));
        for (_, value) in ecs.iter_mut(counter) {
            *value += 100;
        }
    }

    fn render(&self, ecs: &mut ECSStorage<u32>) {
        let counter = ecs.register(ArchTypeUUID(1));
        for (_, value) in ecs.iter_mut(counter) {
            *value += 1000;
        }
    }
}

#[test]
fn new_driver_has_no_systems_and_an_empty_storage() {
    let ecs: ECS<u32> = ECS::new();
    assert!(ecs.systems.is_empty());
    assert_eq!(ecs.storage.entity_count(), 0);
}

#[test]
fn hooks_run_in_the_order_of_registration() {
    let mut ecs: ECS<u32> = ECS::new();
    ecs.register_system(Box::new(Spawner::new()));
    ecs.register_system(Box::new(Doubler::new()));
    assert_eq!(ecs.systems.len(), 2);
    ecs.start();
    assert_eq!(ecs.storage.get_component(EntityUUID(0), 0), Some(&0));
    ecs.update();
    // first plus one, then times two
    assert_eq!(ecs.storage.get_component(EntityUUID(0), 0), Some(&2));
    ecs.update();
    assert_eq!(ecs.storage.get_component(EntityUUID(0), 0), Some(&6));
}

#[test]
fn each_phase_calls_its_own_hook_once_per_system() {
    let mut ecs: ECS<u32> = ECS::new();
    ecs.register_system(Box::new(Spawner::new()));
    ecs.register_system(Box::new(Doubler::new()));
    ecs.register_system(Box::new(Doubler::new()));
    ecs.start();
    ecs.fixed_update();
    assert_eq!(ecs.storage.get_component(EntityUUID(0), 0), Some(&200));
    ecs.render();
    assert_eq!(ecs.storage.get_component(EntityUUID(0), 0), Some(&2200));
    ecs.update();
    assert_eq!(ecs.storage.get_component(EntityUUID(0), 0), Some(&8804));
    assert_eq!(ecs.storage.entity_count(), 1);
}

#[test]
fn hooks_that_do_nothing_leave_the_storage() {
    let mut ecs: ECS<u32> = ECS::new();
    ecs.register_system(Box::new(Doubler::new()));
    ecs.start();
    assert_eq!(ecs.storage.entity_count(), 0);
    assert_eq!(ecs.storage.component_type_count(), 0);
}

#[test]
fn phases_without_systems() {
    let mut ecs: ECS<u32> = ECS::new();
    ecs.start();
    ecs.update();
    ecs.fixed_update();
    ecs.render();
    assert_eq!(ecs.storage.entity_count(), 0);
}

#[test]
fn phases_are_told_apart() {
    assert_ne!(Phase::Start, Phase::Update);
    assert_ne!(Phase::FixedUpdate, Phase::Render);
    assert_eq!(Phase::Render, Phase::Render);
}
