use fonehum::storage::{StorageLocation, DEFAULT_ARCHETYPE_HASH};
use fonehum::{ComponentId, EcsError, StorageError, World, WorldError};

#[derive(Debug, PartialEq)]
enum C {
    Health(usize),
    Age(usize),
    Name(&'static str),
}

const HEALTH: ComponentId = 1;
const AGE: ComponentId = 2;
const NAME: ComponentId = 3;

fn location(world: &World<C>, entity: usize) -> StorageLocation {
    world.entity_location(entity).unwrap()
}

#[test]
fn world_can_spawn_entities() -> Result<(), EcsError> {
    let mut world: World<C> = World::new();

    let entity = world.spawn_entity()?;
    assert_eq!(entity, 0);
    assert_eq!(world.num_entities(), 1);
    assert!(world.entity_location(1).is_err());
    assert_eq!(location(&world, 0).hash, DEFAULT_ARCHETYPE_HASH);
    assert_eq!(location(&world, 0).row, 0);

    Ok(())
}

#[test]
fn can_add_components_to_entities() -> Result<(), EcsError> {
    let mut world: World<C> = World::new();

    let e0 = world.spawn_entity()?;
    world.add_component_to_entity(e0, HEALTH, C::Health(10))?;

    let e1 = world.spawn_entity()?;
    world.add_component_to_entity(e1, HEALTH, C::Health(20))?;
    world.add_component_to_entity(e1, AGE, C::Age(20))?;

    let e2 = world.spawn_entity()?;
    world.add_component_to_entity(e2, HEALTH, C::Health(30))?;
    world.add_component_to_entity(e2, AGE, C::Age(30))?;
    world.add_component_to_entity(e2, NAME, C::Name("E2"))?;

    let e3 = world.spawn_entity()?;
    world.add_component_to_entity(e3, HEALTH, C::Health(10))?;
    world.add_component_to_entity(e3, HEALTH, C::Health(40))?;

    assert_eq!(world.num_entities(), 4);
    assert_eq!(location(&world, e0).row, 0);
    assert_eq!(location(&world, e1).row, 0);
    assert_eq!(location(&world, e2).row, 0);
    assert_eq!(location(&world, e3).row, 1);

    Ok(())
}

#[test]
fn can_remove_component_from_entities() -> Result<(), EcsError> {
    let mut world: World<C> = World::new();

    {
        let entity = world.spawn_entity()?;
        world.add_component_to_entity(entity, HEALTH, C::Health(20))?;
        world.add_component_to_entity(entity, AGE, C::Age(20))?;
        let old_hash = location(&world, entity).hash;

        let removed = world.remove_component_from_entity(entity, HEALTH)?.unwrap();
        let new_hash = location(&world, entity).hash;

        assert_eq!(removed, C::Health(20));
        assert_ne!(old_hash, new_hash);
    }

    {
        let entity = world.spawn_entity()?;
        world.add_component_to_entity(entity, HEALTH, C::Health(30))?;
        world.add_component_to_entity(entity, AGE, C::Age(30))?;
        world.add_component_to_entity(entity, NAME, C::Name("E1"))?;
        let old_hash = location(&world, entity).hash;

        let removed = world.remove_component_from_entity(entity, NAME)?.unwrap();
        let new_hash = location(&world, entity).hash;

        assert_eq!(removed, C::Name("E1"));
        assert_ne!(old_hash, new_hash);
    }

    {
        let entity = world.spawn_entity()?;
        world.add_component_to_entity(entity, AGE, C::Age(40))?;
        world.add_component_to_entity(entity, NAME, C::Name("E2"))?;
        let old_hash = location(&world, entity).hash;

        let removed = world.remove_component_from_entity(entity, NAME)?.unwrap();
        let new_hash = location(&world, entity).hash;

        assert_eq!(removed, C::Name("E2"));
        assert_ne!(old_hash, new_hash);
    }

    assert_eq!(world.num_entities(), 3);

    Ok(())
}

#[test]
fn can_get_component_for_entity() -> Result<(), EcsError> {
    let mut world: World<C> = World::new();

    let entity = world.spawn_entity()?;
    world.add_component_to_entity(entity, HEALTH, C::Health(100))?;
    world.add_component_to_entity(entity, AGE, C::Age(25))?;

    let health = world.get_component(entity, HEALTH)?;
    assert_eq!(*health, C::Health(100));

    let age = world.get_component_mut(entity, AGE)?;
    assert_eq!(*age, C::Age(25));

    *age = C::Age(200);
    assert_eq!(*world.get_component(entity, AGE)?, C::Age(200));

    Ok(())
}

#[test]
fn unknown_entity_is_refused() {
    let mut world: World<C> = World::new();
    let missing = EcsError::WorldError(WorldError::InvalidEntityArchetype(5));
    assert_eq!(world.add_component_to_entity(5, HEALTH, C::Health(1)), Err(EcsError::WorldError(WorldError::InvalidEntityArchetype(5))));
    assert_eq!(world.remove_component_from_entity(5, HEALTH), Err(missing));
    assert!(world.get_component(5, HEALTH).is_err());
    assert!(world.get_component_mut(5, HEALTH).is_err());
    assert_eq!(world.num_entities(), 0);
}

#[test]
fn missing_component_is_reported() -> Result<(), EcsError> {
    let mut world: World<C> = World::new();
    let e = world.spawn_entity()?;
    world.add_component_to_entity(e, HEALTH, C::Health(1))?;
    assert_eq!(
        world.get_component(e, AGE),
        Err(EcsError::StorageError(StorageError::InvalidComponentTable(AGE)))
    );
    assert_eq!(world.remove_component_from_entity(e, AGE)?, None);
    assert_eq!(*world.get_component(e, HEALTH)?, C::Health(1));
    Ok(())
}

#[test]
fn detach_round_trips_fingerprint_and_value() -> Result<(), EcsError> {
    // Spawn, attach Health(20) and Age(20), detach Health, attach it again.
    let mut world: World<C> = World::new();
    let e = world.spawn_entity()?;
    world.add_component_to_entity(e, HEALTH, C::Health(20))?;
    world.add_component_to_entity(e, AGE, C::Age(20))?;
    let f1 = location(&world, e).hash;

    assert_eq!(world.remove_component_from_entity(e, HEALTH)?, Some(C::Health(20)));
    let f2 = location(&world, e).hash;
    assert_ne!(f1, f2);

    world.add_component_to_entity(e, HEALTH, C::Health(20))?;
    assert_eq!(location(&world, e).hash, f1);
    assert_eq!(*world.get_component(e, HEALTH)?, C::Health(20));
    assert_eq!(*world.get_component(e, AGE)?, C::Age(20));
    Ok(())
}

#[test]
fn attach_then_detach_restores_archetype() -> Result<(), EcsError> {
    let mut world: World<C> = World::new();
    let e = world.spawn_entity()?;
    world.add_component_to_entity(e, AGE, C::Age(3))?;
    let before = location(&world, e).hash;
    world.add_component_to_entity(e, NAME, C::Name("n"))?;
    assert_eq!(*world.get_component(e, NAME)?, C::Name("n"));
    assert_eq!(world.remove_component_from_entity(e, NAME)?, Some(C::Name("n")));
    assert_eq!(location(&world, e).hash, before);
    assert_eq!(*world.get_component(e, AGE)?, C::Age(3));
    Ok(())
}

#[test]
fn attach_order_does_not_matter() -> Result<(), EcsError> {
    let mut world: World<C> = World::new();
    let a = world.spawn_entity()?;
    world.add_component_to_entity(a, HEALTH, C::Health(1))?;
    world.add_component_to_entity(a, AGE, C::Age(2))?;
    world.add_component_to_entity(a, NAME, C::Name("x"))?;
    let b = world.spawn_entity()?;
    world.add_component_to_entity(b, NAME, C::Name("x"))?;
    world.add_component_to_entity(b, HEALTH, C::Health(1))?;
    world.add_component_to_entity(b, AGE, C::Age(2))?;

    assert_eq!(location(&world, a).hash, location(&world, b).hash);
    for id in [HEALTH, AGE, NAME] {
        assert_eq!(world.get_component(a, id)?, world.get_component(b, id)?);
    }

    let mut other: World<C> = World::new();
    let c = other.spawn_entity()?;
    other.add_component_to_entity(c, AGE, C::Age(2))?;
    other.add_component_to_entity(c, NAME, C::Name("x"))?;
    other.add_component_to_entity(c, HEALTH, C::Health(1))?;
    assert_eq!(location(&other, c).hash, location(&world, a).hash);
    Ok(())
}

#[test]
fn swap_remove_moves_last_row_into_hole() -> Result<(), EcsError> {
    let mut world: World<C> = World::new();
    let e0 = world.spawn_entity()?;
    let e1 = world.spawn_entity()?;
    let e2 = world.spawn_entity()?;
    world.add_component_to_entity(e0, HEALTH, C::Health(10))?;
    world.add_component_to_entity(e1, HEALTH, C::Health(11))?;
    world.add_component_to_entity(e2, HEALTH, C::Health(12))?;
    let health_table = location(&world, e1).hash;
    let vacated = location(&world, e1).row;
    assert_eq!(vacated, 1);
    assert_eq!(location(&world, e2).row, 2);

    assert_eq!(world.remove_component_from_entity(e1, HEALTH)?, Some(C::Health(11)));
    assert_eq!(location(&world, e2), StorageLocation { hash: health_table, row: vacated });
    assert_eq!(*world.get_component_mut(e2, HEALTH)?, C::Health(12));
    assert_eq!(*world.get_component(e0, HEALTH)?, C::Health(10));
    assert_eq!(world.archetype_num_entities(health_table), Some(2));
    Ok(())
}

#[test]
fn second_attach_is_an_update() -> Result<(), EcsError> {
    let mut world: World<C> = World::new();
    let e = world.spawn_entity()?;
    world.add_component_to_entity(e, HEALTH, C::Health(10))?;
    let before = location(&world, e);
    let rows = world.archetype_num_entities(before.hash);
    world.add_component_to_entity(e, HEALTH, C::Health(40))?;
    assert_eq!(location(&world, e), before);
    assert_eq!(world.archetype_num_entities(before.hash), rows);
    assert_eq!(*world.get_component(e, HEALTH)?, C::Health(40));
    Ok(())
}

#[test]
fn locations_stay_valid_through_mixed_operations() -> Result<(), EcsError> {
    let mut world: World<C> = World::new();
    let mut ids = Vec::new();
    for i in 0..6usize {
        let e = world.spawn_entity()?;
        ids.push(e);
        if i % 2 == 0 {
            world.add_component_to_entity(e, HEALTH, C::Health(i))?;
        }
        if i % 3 == 0 {
            world.add_component_to_entity(e, AGE, C::Age(i))?;
        }
    }
    world.remove_component_from_entity(ids[0], HEALTH)?;
    world.remove_component_from_entity(ids[3], AGE)?;
    world.add_component_to_entity(ids[5], NAME, C::Name("five"))?;
    for (i, e) in ids.iter().enumerate() {
        let l = location(&world, *e);
        let rows = world.archetype_num_entities(l.hash).unwrap();
        assert!(l.row < rows);
        if i % 2 == 0 && i != 0 {
            assert_eq!(*world.get_component(*e, HEALTH)?, C::Health(i));
        }
    }
    assert_eq!(*world.get_component(ids[0], AGE)?, C::Age(0));
    assert!(world.get_component(ids[0], HEALTH).is_err());
    assert!(world.get_component(ids[3], AGE).is_err());
    assert_eq!(*world.get_component(ids[5], NAME)?, C::Name("five"));
    Ok(())
}

#[test]
fn matching_tables_follow_the_index() -> Result<(), EcsError> {
    let mut world: World<C> = World::new();
    let a = world.spawn_entity()?;
    world.add_component_to_entity(a, HEALTH, C::Health(1))?;
    let b = world.spawn_entity()?;
    world.add_component_to_entity(b, HEALTH, C::Health(2))?;
    world.add_component_to_entity(b, AGE, C::Age(2))?;
    let only_health = location(&world, a).hash;
    let health_age = location(&world, b).hash;

    let mut with_health = world.matching_tables(&vec![HEALTH]);
    with_health.sort();
    let mut expected = vec![only_health, health_age];
    expected.sort();
    assert_eq!(with_health, expected);
    assert_eq!(world.matching_tables(&vec![AGE, HEALTH]), vec![health_age]);
    assert_eq!(world.matching_tables(&vec![NAME]), Vec::<u64>::new());
    // Every table matches the empty request, including the empty archetype.
    assert_eq!(world.matching_tables(&vec![]).len(), 3);
    Ok(())
}

#[test]
fn query_entities_lists_each_match_once() -> Result<(), EcsError> {
    let mut world: World<C> = World::new();
    let a = world.spawn_entity()?;
    let b = world.spawn_entity()?;
    let c = world.spawn_entity()?;
    world.add_component_to_entity(a, HEALTH, C::Health(1))?;
    world.add_component_to_entity(b, HEALTH, C::Health(2))?;
    world.add_component_to_entity(b, AGE, C::Age(2))?;
    world.add_component_to_entity(c, AGE, C::Age(3))?;

    let mut with_health = world.query_entities(&vec![HEALTH]);
    with_health.sort();
    assert_eq!(with_health, vec![a, b]);
    assert_eq!(world.query_entities(&vec![HEALTH, AGE]), vec![b]);
    let mut all = world.query_entities(&vec![]);
    all.sort();
    assert_eq!(all, vec![a, b, c]);
    Ok(())
}
