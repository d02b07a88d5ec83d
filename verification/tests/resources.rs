use magma_ecs::error::ResourceError;
use magma_ecs::resources::Resources;
use magma_ecs::World;

const K: u64 = 5;

#[test]
fn resources_add_resource() {
    let mut resources: Resources<u32> = Resources::default();
    resources.add(K, 10).unwrap();
    assert_eq!(resources.resource_ref(K).unwrap(), &10);
}

#[test]
fn resources_remove_resource() {
    let mut resources: Resources<u32> = Resources::default();
    resources.add(K, 10).unwrap();
    resources.remove(K);
    assert!(matches!(resources.resource_ref(K), Err(ResourceError::ResourceDoesNotExist)));
}

#[test]
fn resources_get_resource() {
    let mut resources: Resources<u32> = Resources::default();
    resources.add(K, 32).unwrap();
    *resources.resource_mut(K).unwrap() += 1;
    assert_eq!(resources.resource_ref(K).unwrap(), &33);
}

#[test]
fn add_resource() {
    let mut world: World<u32> = World::new();
    world.add_resource(K, 10).unwrap();
}

#[test]
fn remove_resource() {
    let mut world: World<u32> = World::new();
    world.add_resource(K, 10).unwrap();
    world.remove_resource(K);
}

#[test]
fn get_resource() {
    let mut world: World<u32> = World::new();
    world.add_resource(K, 32).unwrap();
    *world.resource_mut(K).unwrap() += 1;
    assert_eq!(world.resource_ref(K).unwrap(), &33);
}

#[test]
fn add_resource_twice() {
    let mut world: World<u32> = World::new();
    world.add_resource(K, 1).unwrap();
    assert!(matches!(world.add_resource(K, 2), Err(ResourceError::ResourceAlreadyPresent)));
    assert_eq!(world.resource_ref(K).unwrap(), &1);
}
