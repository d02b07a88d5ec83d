use magma_ecs::entities::query::Query;
use magma_ecs::entities::Entities;
use magma_ecs::error::EntityError;

#[derive(Clone, Copy, Debug, PartialEq)]
enum Comp {
    Whole(u32),
    Fraction(f32),
}

const KU: u64 = 10;
const KF: u64 = 20;

#[test]
fn query_with_component() {
    let mut entities: Entities<Comp> = Entities::default();
    entities.register_component(KU).unwrap();
    entities.register_component(KF).unwrap();
    entities
        .create_entity(vec![(KU, Comp::Whole(1)), (KF, Comp::Fraction(1.0))])
        .unwrap();

    let query = Query::new(&entities).with_component(KU).unwrap().with_component(KF).unwrap();
    let handles = query.run();
    assert_eq!(handles.len(), 1);
    assert_eq!(handles[0].id, 0);
    assert!(matches!(
        Query::new(&entities).with_component(99),
        Err(EntityError::ComponentNotRegistered)
    ));
}

#[test]
fn run_query() {
    let mut entities: Entities<Comp> = Entities::default();
    entities.register_component(KU).unwrap();
    entities.register_component(KF).unwrap();
    entities
        .create_entity(vec![(KU, Comp::Whole(10)), (KF, Comp::Fraction(20.0))])
        .unwrap();
    entities.create_entity(vec![(KU, Comp::Whole(5))]).unwrap();
    entities.create_entity(vec![(KF, Comp::Fraction(20.0))]).unwrap();
    entities
        .create_entity(vec![(KU, Comp::Whole(15)), (KF, Comp::Fraction(25.0))])
        .unwrap();

    let handles = Query::new(&entities)
        .with_component(KU)
        .unwrap()
        .with_component(KF)
        .unwrap()
        .run();
    assert_eq!(handles.len(), 2);
    match handles[0].component_ref(&entities, KU).unwrap() {
        Comp::Whole(v) => assert!(*v == 10 || *v == 15),
        other => panic!("expected a whole-number component, got {:?}", other),
    }
}
