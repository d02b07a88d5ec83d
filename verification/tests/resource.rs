use magma_ecs::resource::Resource;

struct Time(pub u64);

const TIME: u64 = 1;

fn init_resource() -> Resource<Time> {
    let mut resources = Resource::default();
    let time = Time(20);

    resources.add(TIME, time);
    resources
}

#[test]
fn resource_add_resource() {
    let resources = init_resource();

    let extracted_time = resources.get_ref(TIME).unwrap();
    assert_eq!(extracted_time.0, 20);
}

#[test]
fn resource_get_resource() {
    let resources = init_resource();

    if let Some(extracted_time) = resources.get_ref(TIME) {
        assert_eq!(extracted_time.0, 20);
    }
}

#[test]
fn get_resource_mut() {
    let mut resources = init_resource();
    {
        let time: &mut Time = resources.get_mut(TIME).unwrap();
        time.0 += 1;
    }
    let time = resources.get_ref(TIME).unwrap();
    assert_eq!(time.0, 21);
}

#[test]
fn resource_remove_resource() {
    let mut resources = init_resource();
    resources.remove(TIME);
    assert!(resources.get_ref(TIME).is_none())
}
