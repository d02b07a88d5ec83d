use magma_ecs::entities::Entities;
use magma_ecs::error::EntityError;
use magma_ecs::World;

#[derive(Clone, Copy, Debug, PartialEq)]
enum Comp {
    Health(u32),
    Speed(u32),
}

const HEALTH: u64 = 1;
const SPEED: u64 = 2;
const QK: u64 = 7;
const KU: u64 = 1;
const KF: u64 = 2;

fn health(entities: &Entities<Comp>, slot: usize) -> u32 {
    match entities.get_component(slot, HEALTH).unwrap() {
        Comp::Health(v) => *v,
        other => panic!("expected a health component, got {:?}", other),
    }
}

#[test]
fn register_component() {
    let mut entities: Entities<Comp> = Entities::default();
    entities.register_component(HEALTH).unwrap();
    assert_eq!(entities.get_bitmask(HEALTH), Some(0));
    assert_eq!(entities.slot_count(), 0);
}

#[test]
fn update_component_masks() {
    let mut entities: Entities<Comp> = Entities::default();
    entities.register_component(HEALTH).unwrap();
    entities.register_component(SPEED).unwrap();
    assert_eq!(entities.get_bitmask(SPEED), Some(1));
}

#[test]
fn entities_create_entity() {
    let mut entities: Entities<Comp> = Entities::default();
    entities.register_component(HEALTH).unwrap();
    entities.register_component(SPEED).unwrap();
    entities.create_entity(vec![(HEALTH, Comp::Health(100))]).unwrap();

    assert_eq!(entities.slot_count(), 1);
    assert!(entities.get_component(0, HEALTH).is_ok());
    assert!(matches!(
        entities.get_component(0, SPEED),
        Err(EntityError::ComponentDataDoesNotExist)
    ));
    assert!(!entities.mask_contains(0, 1));
}

#[test]
fn entity_with_component() {
    let mut entities: Entities<Comp> = Entities::default();
    entities.register_component(HEALTH).unwrap();
    entities.register_component(SPEED).unwrap();
    entities
        .create_entity(vec![(HEALTH, Comp::Health(100)), (SPEED, Comp::Speed(15))])
        .unwrap();

    assert_eq!(entities.get_component(0, HEALTH).unwrap(), &Comp::Health(100));
    assert_eq!(entities.get_component(0, SPEED).unwrap(), &Comp::Speed(15));
}

#[test]
fn update_entity_map() {
    let mut entities: Entities<Comp> = Entities::default();
    entities.register_component(HEALTH).unwrap();
    entities.register_component(SPEED).unwrap();
    entities
        .create_entity(vec![(HEALTH, Comp::Health(100)), (SPEED, Comp::Speed(15))])
        .unwrap();
    entities.create_entity(vec![(HEALTH, Comp::Health(100))]).unwrap();

    assert!(entities.mask_contains(0, 0) && entities.mask_contains(0, 1));
    assert!(entities.mask_contains(1, 0) && !entities.mask_contains(1, 1));
}

#[test]
fn remove_component() {
    let mut entities: Entities<Comp> = Entities::default();
    entities.register_component(HEALTH).unwrap();
    entities.register_component(SPEED).unwrap();
    entities
        .create_entity(vec![(HEALTH, Comp::Health(10)), (SPEED, Comp::Speed(50))])
        .unwrap();

    entities.remove_component_by_entity_id(HEALTH, 0).unwrap();

    assert!(entities.mask_contains(0, 1) && !entities.mask_contains(0, 0));
}

#[test]
fn add_component() {
    let mut entities: Entities<Comp> = Entities::default();
    entities.register_component(HEALTH).unwrap();
    entities.register_component(SPEED).unwrap();
    entities.create_entity(vec![(HEALTH, Comp::Health(100))]).unwrap();

    entities.add_component_by_entity_id(SPEED, Comp::Speed(50), 0).unwrap();

    assert!(entities.mask_contains(0, 1));
}

#[test]
fn delete_entity_by_id() {
    let mut entities: Entities<Comp> = Entities::default();
    entities.register_component(HEALTH).unwrap();
    entities.create_entity(vec![(HEALTH, Comp::Health(100))]).unwrap();
    entities.delete_entity_by_id(0).unwrap();

    assert!(entities.mask_is_empty(0));
}

#[test]
fn reuse_deleted_entity_columns() {
    let mut entities: Entities<Comp> = Entities::default();
    entities.register_component(HEALTH).unwrap();
    entities.create_entity(vec![(HEALTH, Comp::Health(100))]).unwrap();
    entities.create_entity(vec![(HEALTH, Comp::Health(50))]).unwrap();
    entities.delete_entity_by_id(0).unwrap();
    entities.create_entity(vec![(HEALTH, Comp::Health(25))]).unwrap();

    assert!(entities.mask_contains(0, 0));
    assert_eq!(health(&entities, 0), 25);
}

#[test]
fn create_entity() {
    let mut world: World<u64> = World::new();
    world.register_component(1).unwrap();

    world.create_entity(vec![(1, 400u64)]).unwrap();
}

#[test]
fn query() {
    let mut world: World<u32> = World::new();
    world.register_component(QK).unwrap();
    world.create_entity(vec![(QK, 32u32)]).unwrap();

    let handles = {
        let q = world.query().with_component(QK).unwrap();
        q.run()
    };
    let found = !handles.is_empty();
    for entity in handles {
        let mut _test = 2;
        {
            let data = entity.component_mut(world.entities_mut(), QK).unwrap();
            *data += 2;
            _test = *data;
        }
        entity.remove_component(world.entities_mut(), QK).unwrap();
        entity.add_component(world.entities_mut(), QK, 32u32).unwrap();
        entity.delete(world.entities_mut());
        world.create_entity(vec![(QK, 32u32)]).unwrap();
    }
    assert!(found);
}

#[derive(Clone, Copy, Debug, PartialEq)]
enum Mixed {
    Whole(u32),
    Fraction(f32),
}

#[test]
fn inner_lock() {
    let mut world: World<Mixed> = World::new();
    world.register_component(KU).unwrap();
    world.register_component(KF).unwrap();
    world
        .create_entity(vec![(KU, Mixed::Whole(32)), (KF, Mixed::Fraction(64.0))])
        .unwrap();

    let outer = {
        let q = world.query().with_component(KU).unwrap();
        q.run()
    };
    for entity in outer {
        let inner = {
            let q = world.query().with_component(KF).unwrap();
            q.run()
        };
        for entity_2 in inner {
            let whole = match entity.component_ref(world.entities(), KU).unwrap() {
                Mixed::Whole(v) => *v,
                other => panic!("expected a whole-number component, got {:?}", other),
            };
            let frac = entity_2.component_mut(world.entities_mut(), KF).unwrap();
            if let Mixed::Fraction(f) = frac {
                if whole < *f as u32 {
                    *f += 1.0;
                }
            }
        }
    }
}
