use magma_ecs::error::{DispatcherError, EntityError};
use magma_ecs::systems::Systems;
use magma_ecs::World;

const A: u64 = 100;
const B: u64 = 200;

type Sys = fn(World<u32>) -> World<u32>;

fn ids(world: &World<u32>, keys: &[u64]) -> Vec<usize> {
    let mut q = world.query();
    for k in keys {
        q = q.with_component(*k).unwrap();
    }
    q.run().iter().map(|e| e.id).collect()
}

// A freshly created entity with a component set is included by a query on
// that component; removing the component excludes it.
#[test]
fn created_component_is_queried() {
    let mut world: World<u32> = World::new();
    world.register_component(A).unwrap();
    world.register_component(B).unwrap();
    world.create_entity(vec![(B, 9)]).unwrap();
    world.create_entity(vec![(A, 1)]).unwrap();

    assert_eq!(ids(&world, &[A]), vec![1]);

    world.entities_mut().remove_component_by_entity_id(A, 1).unwrap();
    assert_eq!(ids(&world, &[A]), Vec::<usize>::new());
}

// Deleting is idempotent: an in-range slot never errors, however often it
// is cleared; only an out-of-range slot is `EntityDoesNotExist`.
#[test]
fn delete_is_idempotent() {
    let mut world: World<u32> = World::new();
    world.register_component(A).unwrap();
    world.create_entity(vec![(A, 1)]).unwrap();

    assert!(world.entities_mut().delete_entity_by_id(0).is_ok());
    assert!(world.entities_mut().delete_entity_by_id(0).is_ok());
    assert!(matches!(
        world.entities_mut().delete_entity_by_id(5),
        Err(EntityError::EntityDoesNotExist)
    ));
}

// Slot reuse: after deleting the entity at slot 0, the next creation
// lands on slot 0 and shows exactly the values just supplied.
#[test]
fn reuse_overwrites_tombstone() {
    let mut world: World<u32> = World::new();
    world.register_component(A).unwrap();
    world.register_component(B).unwrap();
    for n in 0..3u32 {
        world.create_entity(vec![(A, n), (B, n + 10)]).unwrap();
    }
    world.entities_mut().delete_entity_by_id(0).unwrap();

    world.create_entity(vec![(A, 77)]).unwrap();

    let entities = world.entities();
    assert_eq!(entities.slot_count(), 3);
    assert_eq!(entities.get_component(0, A).unwrap(), &77);
    // The stale B value is not part of the entity: its bit is clear.
    assert!(!entities.mask_contains(0, 1));
    assert_eq!(ids(&world, &[B]), vec![1, 2]);
}

// Query correctness: {A,B}, {A}, {B}, {A,B} matched on A and B gives
// exactly slots 0 and 3, in that order.
#[test]
fn query_matches_subset_masks() {
    let mut world: World<u32> = World::new();
    world.register_component(A).unwrap();
    world.register_component(B).unwrap();
    world.create_entity(vec![(A, 1), (B, 2)]).unwrap();
    world.create_entity(vec![(A, 3)]).unwrap();
    world.create_entity(vec![(B, 4)]).unwrap();
    world.create_entity(vec![(A, 5), (B, 6)]).unwrap();

    assert_eq!(ids(&world, &[A, B]), vec![0, 3]);
    assert_eq!(ids(&world, &[B, A]), vec![0, 3]);
}

fn s1(mut world: World<u32>) -> World<u32> {
    world.create_entity(vec![(A, 1)]).unwrap();
    world
}

fn s2(mut world: World<u32>) -> World<u32> {
    world.create_entity(vec![(A, 2)]).unwrap();
    world
}

fn s3(mut world: World<u32>) -> World<u32> {
    world.create_entity(vec![(A, 3)]).unwrap();
    world
}

fn s4(mut world: World<u32>) -> World<u32> {
    world.create_entity(vec![(A, 4)]).unwrap();
    world
}

// Dispatcher staging: S1, S2(S1), S3(S1), S4(S2, S3) compile to the
// stages [[S1], [S2, S3], [S4]], and dispatching runs stages in order.
#[test]
fn staging_respects_dependencies() {
    let systems: Systems<Sys> = Systems::new()
        .with(s1 as Sys, "s1", &[])
        .with(s2, "s2", &["s1"])
        .with(s3, "s3", &["s1"])
        .with(s4, "s4", &["s2", "s3"]);
    let dispatcher = systems.build_dispatcher().unwrap();

    let names: Vec<Vec<&str>> = dispatcher
        .0
        .iter()
        .map(|stage| stage.iter().map(|s| s.name.as_str()).collect())
        .collect();
    assert_eq!(names, vec![vec!["s1"], vec!["s2", "s3"], vec!["s4"]]);

    let mut world: World<u32> = World::new();
    world.register_component(A).unwrap();
    world = dispatcher.dispatch(world);

    let entities = world.entities();
    assert_eq!(entities.get_component(0, A).unwrap(), &1);
    assert_eq!(entities.get_component(3, A).unwrap(), &4);
}

fn write_a(mut world: World<u32>) -> World<u32> {
    world.entities_mut().add_component_by_entity_id(A, 11, 0).unwrap();
    world
}

fn write_b(mut world: World<u32>) -> World<u32> {
    world.entities_mut().add_component_by_entity_id(B, 22, 0).unwrap();
    world
}

fn seed(mut world: World<u32>) -> World<u32> {
    world.create_entity(vec![]).unwrap();
    world
}

// Two same-stage systems writing disjoint columns both land completely:
// neither observes a partial write of the other.
#[test]
fn disjoint_columns_both_written() {
    let systems: Systems<Sys> = Systems::new()
        .with(seed as Sys, "seed", &[])
        .with(write_a, "write_a", &["seed"])
        .with(write_b, "write_b", &["seed"]);
    let dispatcher = systems.build_dispatcher().unwrap();

    let mut world: World<u32> = World::new();
    world.register_component(A).unwrap();
    world.register_component(B).unwrap();
    world = dispatcher.dispatch(world);

    assert_eq!(world.entities().get_component(0, A).unwrap(), &11);
    assert_eq!(world.entities().get_component(0, B).unwrap(), &22);
}

// Bit assignment stability: keys registered in order get strictly
// increasing bits, and the bits never change afterwards.
#[test]
fn bits_increase_and_stay() {
    let mut world: World<u32> = World::new();
    let keys = [9u64, 4, 7, 2];
    for k in keys {
        world.register_component(k).unwrap();
    }
    let mut last: Option<u32> = None;
    for k in keys {
        let bit = world.entities().get_bitmask(k).unwrap();
        if let Some(prev) = last {
            assert!(bit > prev);
        }
        last = Some(bit);
    }
    assert!(matches!(world.register_component(7), Err(EntityError::DuplicateRegistration)));
    assert_eq!(world.entities().get_bitmask(7), Some(2));
}

#[test]
fn unregistered_component_errors() {
    let mut world: World<u32> = World::new();
    world.register_component(A).unwrap();
    assert!(matches!(
        world.create_entity(vec![(B, 1)]),
        Err(EntityError::ComponentNotRegistered)
    ));
    // All-or-nothing creation: nothing was allocated.
    assert_eq!(world.entities().slot_count(), 0);
    assert!(matches!(
        world.create_entity(vec![(A, 1), (B, 2)]),
        Err(EntityError::ComponentNotRegistered)
    ));
    assert_eq!(world.entities().slot_count(), 0);

    world.create_entity(vec![(A, 1)]).unwrap();
    assert!(matches!(
        world.entities().get_component(0, B),
        Err(EntityError::ComponentNotInQuery)
    ));
}

#[test]
fn duplicate_key_last_value_wins() {
    let mut world: World<u32> = World::new();
    world.register_component(A).unwrap();
    world.create_entity(vec![(A, 1), (A, 2)]).unwrap();
    assert_eq!(world.entities().get_component(0, A).unwrap(), &2);
}

#[test]
fn unknown_dependency_is_refused() {
    let systems: Systems<Sys> = Systems::new().with(s1 as Sys, "s1", &["nowhere"]);
    assert!(matches!(systems.build_dispatcher(), Err(DispatcherError::UnknownDependency)));
}

#[test]
fn cyclic_dependency_is_refused() {
    let systems: Systems<Sys> = Systems::new().with(s1 as Sys, "s1", &["s2"]).with(s2, "s2", &["s1"]);
    assert!(matches!(systems.build_dispatcher(), Err(DispatcherError::CyclicDependency)));
}

#[test]
fn batch_creates_same_components() {
    let mut world: World<u32> = World::new();
    world.register_component(A).unwrap();
    world.create_entity_batch(vec![(A, 8)], 4).unwrap();
    assert_eq!(world.entities().slot_count(), 4);
    assert_eq!(ids(&world, &[A]), vec![0, 1, 2, 3]);
    for s in 0..4 {
        assert_eq!(world.entities().get_component(s, A).unwrap(), &8);
    }
}

#[test]
fn old_world_and_resource_revisions() {
    let mut old_world = magma_ecs::world::World::new();
    old_world.push((), None);
    old_world.push((), Some(0));

    let mut store: magma_ecs::resource::Resource<u32> = Default::default();
    store.add(3, 30);
    store.add(3, 31);
    assert_eq!(store.get_ref(3), Some(&31));
    store.remove(3);
    assert_eq!(store.get_ref(3), None);
}
