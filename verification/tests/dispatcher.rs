use magma_ecs::systems::dispatcher::Dispatcher;
use magma_ecs::systems::Systems;
use magma_ecs::World;

type Sys = fn(World<u32>) -> World<u32>;

const K: u64 = 1;

fn value(world: &World<u32>, slot: usize) -> u32 {
    *world.entities().get_component(slot, K).unwrap()
}

fn system_1(mut world: World<u32>) -> World<u32> {
    world.create_entity(vec![(K, 1u32)]).unwrap();
    world
}

fn system_2(mut world: World<u32>) -> World<u32> {
    world.create_entity(vec![(K, 2u32)]).unwrap();
    world
}

fn system_3(mut world: World<u32>) -> World<u32> {
    let handles = {
        let q = world.query().with_component(K).unwrap();
        q.run()
    };
    for entity in handles {
        let comp = entity.component_mut(world.entities_mut(), K).unwrap();
        *comp += 1;
    }
    world.create_entity(vec![(K, 3u32)]).unwrap();
    world
}

fn system_4(mut world: World<u32>) -> World<u32> {
    world.create_entity(vec![(K, 4u32)]).unwrap();
    world
}

fn four_systems() -> Systems<Sys> {
    Systems::new()
        .with(system_1 as Sys, "system_1", &[])
        .with(system_2, "system_2", &["system_1"])
        .with(system_3, "system_3", &["system_1"])
        .with(system_4, "system_4", &["system_2", "system_3"])
}

#[test]
fn create_dispatcher() {
    let mut world: World<u32> = World::new();
    world.register_component(K).unwrap();

    let dispatcher = Dispatcher::from_systems(four_systems()).unwrap();
    world = (dispatcher.0[0][0].run)(world);
    world = (dispatcher.0[1][0].run)(world);

    let handles = {
        let q = world.query().with_component(K).unwrap();
        q.run()
    };
    assert_eq!(value(&world, handles[0].id), 1);
    assert_eq!(value(&world, handles[1].id), 2);
}

#[test]
fn dispatcher_dispatch() {
    let mut world: World<u32> = World::new();
    world.register_component(K).unwrap();

    let dispatcher = Dispatcher::from_systems(four_systems()).unwrap();

    world = dispatcher.dispatch(world);

    let handles = {
        let q = world.query().with_component(K).unwrap();
        q.run()
    };
    assert_eq!(value(&world, handles[0].id), 2);
    assert_eq!(value(&world, handles[3].id), 4);
}
