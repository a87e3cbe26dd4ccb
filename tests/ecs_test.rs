use fonehum::{ComponentId, Context, Ecs, EcsError, Query, StorageError, System};

#[derive(Debug, PartialEq)]
enum C {
    Health(usize),
    Age(usize),
}

const HEALTH: ComponentId = 10;
const AGE: ComponentId = 20;

fn health_of(ctx: &Context<C>, e: usize) -> usize {
    match ctx.world().get_component(e, HEALTH) {
        Ok(C::Health(h)) => *h,
        other => panic!("no health: {:?}", other),
    }
}

fn age_of(ctx: &Context<C>, e: usize) -> usize {
    match ctx.world().get_component(e, AGE) {
        Ok(C::Age(a)) => *a,
        other => panic!("no age: {:?}", other),
    }
}

fn set_health(ctx: &mut Context<C>, e: usize, value: usize) {
    let slot = ctx.world_mut().get_component_mut(e, HEALTH).unwrap();
    *slot = C::Health(value);
}

fn set_age(ctx: &mut Context<C>, e: usize, value: usize) {
    let slot = ctx.world_mut().get_component_mut(e, AGE).unwrap();
    *slot = C::Age(value);
}

fn entities(query: Query) -> Vec<usize> {
    let mut out = Vec::new();
    let mut it = query.iter();
    while let Some(e) = it.next() {
        out.push(e);
    }
    out
}

enum Step {
    SpawnOne,
    SpawnTwo,
    Check,
    CheckPairs,
}

impl System<C> for Step {
    fn run(&mut self, ctx: &mut Context<C>) -> Result<(), EcsError> {
        match self {
            Step::SpawnOne => {
                let _entity = ctx.spawn()?.with(ctx, HEALTH, C::Health(100))?.with(ctx, AGE, C::Age(100))?.build();
                Ok(())
            }
            Step::SpawnTwo => {
                ctx.spawn()?.with(ctx, HEALTH, C::Health(30))?.with(ctx, AGE, C::Age(100))?.build();
                ctx.spawn()?.with(ctx, HEALTH, C::Health(30))?.build();
                Ok(())
            }
            Step::Check => query_system1(ctx),
            Step::CheckPairs => query_system2(ctx),
        }
    }
}

// Queries over one component, read and then written.
fn query_system1(ctx: &mut Context<C>) -> Result<(), EcsError> {
    let health_query1 = ctx.query(vec![HEALTH])?;
    assert_eq!(health_query1.num_entities(), 2);
    for e in entities(health_query1) {
        assert_eq!(health_of(ctx, e), 30);
    }

    let health_query3 = ctx.query(vec![HEALTH])?;
    assert_eq!(health_query3.num_entities(), 2);
    for e in entities(health_query3) {
        assert_eq!(health_of(ctx, e), 30);
        set_health(ctx, e, 40);
    }

    let health_query4 = ctx.query(vec![HEALTH])?;
    assert_eq!(health_query4.num_entities(), 2);
    for e in entities(health_query4) {
        assert_eq!(health_of(ctx, e), 40);
        set_health(ctx, e, 50);
    }

    Ok(())
}

// Queries over two components, read and then written.
fn query_system2(ctx: &mut Context<C>) -> Result<(), EcsError> {
    let e = ctx.query(vec![HEALTH, AGE])?.single()?;
    assert_eq!(health_of(ctx, e), 50);
    assert_eq!(age_of(ctx, e), 100);

    let e = ctx.query(vec![HEALTH, AGE])?.single()?;
    set_health(ctx, e, 40);
    let e = ctx.query(vec![HEALTH, AGE])?.single()?;
    assert_eq!(health_of(ctx, e), 40);
    set_age(ctx, e, 45);

    let q = ctx.query(vec![HEALTH, AGE])?;
    let values = q.fetch(ctx.world(), 0)?;
    assert_eq!(values, vec![&C::Health(40), &C::Age(45)]);
    Ok(())
}

#[test]
fn ecs_test_can_spawn_entities() -> Result<(), EcsError> {
    Ecs::new().add_system(Step::SpawnOne).run()
}

#[test]
fn can_query_entities() -> Result<(), EcsError> {
    Ecs::new()
        .add_system(Step::SpawnTwo)
        .add_system(Step::Check)
        .add_system(Step::CheckPairs)
        .run()
}

struct Fails;

impl System<C> for Fails {
    fn run(&mut self, _ctx: &mut Context<C>) -> Result<(), EcsError> {
        Err(EcsError::CardinalityError(0))
    }
}

#[test]
fn run_stops_at_first_error() {
    assert_eq!(Ecs::<C, Fails>::new().add_system(Fails).run(), Err(EcsError::CardinalityError(0)));
}

#[test]
fn single_query_yields_both_values() -> Result<(), EcsError> {
    // Spawn e=0 with Health(100) and Age(100); the pair query has exactly that entity.
    let mut ctx = Context::new(fonehum::World::new());
    let e = ctx.spawn()?.with(&mut ctx, HEALTH, C::Health(100))?.with(&mut ctx, AGE, C::Age(100))?.build();
    assert_eq!(e, 0);
    let q = ctx.query(vec![HEALTH, AGE])?;
    assert_eq!(q.single()?, 0);
    assert_eq!(q.fetch(ctx.world(), 0)?, vec![&C::Health(100), &C::Age(100)]);
    Ok(())
}

#[test]
fn queries_match_supersets_only() -> Result<(), EcsError> {
    let mut ctx = Context::new(fonehum::World::new());
    let e0 = ctx.spawn()?.with(&mut ctx, HEALTH, C::Health(30))?.with(&mut ctx, AGE, C::Age(100))?.build();
    let e1 = ctx.spawn()?.with(&mut ctx, HEALTH, C::Health(30))?.build();
    let health = ctx.query(vec![HEALTH])?;
    assert_eq!(health.num_entities(), 2);
    let mut found = entities(health);
    found.sort();
    assert_eq!(found, vec![e0, e1]);
    for e in found {
        assert_eq!(health_of(&ctx, e), 30);
    }
    let pair = ctx.query(vec![HEALTH, AGE])?;
    assert_eq!(pair.num_entities(), 1);
    assert_eq!(pair.fetch(ctx.world(), 0)?, vec![&C::Health(30), &C::Age(100)]);
    Ok(())
}

#[test]
fn writes_through_a_query_are_seen_by_the_next() -> Result<(), EcsError> {
    let mut ctx = Context::new(fonehum::World::new());
    ctx.spawn()?.with(&mut ctx, HEALTH, C::Health(30))?.build();
    ctx.spawn()?.with(&mut ctx, HEALTH, C::Health(30))?.build();
    for e in entities(ctx.query(vec![HEALTH])?) {
        set_health(&mut ctx, e, 40);
    }
    let after = ctx.query(vec![HEALTH])?;
    for i in 0..after.num_entities() {
        assert_eq!(after.fetch(ctx.world(), i)?, vec![&C::Health(40)]);
    }
    Ok(())
}

#[test]
fn query_errors() -> Result<(), EcsError> {
    let mut ctx = Context::new(fonehum::World::new());
    assert_eq!(ctx.query(vec![HEALTH, HEALTH]).err(), Some(EcsError::AliasConflict(HEALTH)));
    let none = ctx.query(vec![HEALTH])?;
    assert_eq!(none.single(), Err(EcsError::CardinalityError(0)));
    assert_eq!(none.entity(0), None);
    ctx.spawn()?.with(&mut ctx, HEALTH, C::Health(1))?.build();
    ctx.spawn()?.with(&mut ctx, HEALTH, C::Health(2))?.build();
    let two = ctx.query(vec![HEALTH])?;
    assert_eq!(two.single(), Err(EcsError::CardinalityError(2)));
    assert_eq!(
        two.fetch(ctx.world(), 2).err(),
        Some(EcsError::StorageError(StorageError::BadRow { row: 2, len: 2 }))
    );
    Ok(())
}
