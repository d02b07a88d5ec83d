use magma_ecs::systems::Systems;
use magma_ecs::World;

type Sys = fn(World<u32>) -> World<u32>;

const K: u64 = 1;

fn system_1(mut world: World<u32>) -> World<u32> {
    world.create_entity(vec![(K, 1u32)]).unwrap();
    world
}

fn system_2(mut world: World<u32>) -> World<u32> {
    world.create_entity(vec![(K, 2u32)]).unwrap();
    world
}

fn system_3(mut world: World<u32>) -> World<u32> {
    world.create_entity(vec![(K, 3u32)]).unwrap();
    world
}

fn system_4(mut world: World<u32>) -> World<u32> {
    world.create_entity(vec![(K, 4u32)]).unwrap();
    world
}

#[test]
fn systems_create_systems() {
    let systems: Systems<Sys> = Systems::new()
        .with(system_1 as Sys, "system_1", &[])
        .with(system_2, "system_2", &["system_1"]);
    assert_eq!(systems.0[1].name, "system_2");
}

#[test]
fn add_systems() {
    let mut systems: Systems<Sys> = Systems::new();
    systems.add(system_1 as Sys, "system_1", &[]);
    systems.add(system_2, "system_2", &["system_1"]);
}

#[test]
fn build_dispatcher() {
    let systems: Systems<Sys> = Systems::new()
        .with(system_1 as Sys, "system_1", &[])
        .with(system_2, "system_2", &["system_1"]);
    systems.build_dispatcher().unwrap();
}

#[test]
fn create_systems() {
    let _: Systems<Sys> = Systems::new()
        .with(system_1 as Sys, "system_1", &[])
        .with(system_2, "system_2", &["system_1"])
        .with(system_3, "system_3", &["system_1"])
        .with(system_4, "system_4", &["system_2", "system_3"]);
}
