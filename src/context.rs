use vstd::prelude::*;

use crate::query::Query;
use crate::storage::{StorageLocation, DEFAULT_ARCHETYPE_HASH};
use crate::world::World;
use crate::{ComponentId, EcsError, EntityId};

verus! {

/// The handle through which systems reach the world.
pub struct Context<V> {
    world: World<V>,
}

impl<V> Context<V> {
    /// The world behind the handle.
    pub closed spec fn view_world(&self) -> World<V> {
        self.world
    }

    /// The world keeps its invariant.
    pub open spec fn wf(&self) -> bool {
        self.view_world().inv()
    }

    /// Creates a context around `world`.
    pub fn new(world: World<V>) -> (r: Self)
        requires
            world.inv(),
        ensures
            r.wf(),
            r.view_world() == world,
    {
        Context { world }
    }

    /// Read access to the world.
    pub fn world(&self) -> (r: &World<V>)
        ensures
            *r == self.view_world(),
    {
        &self.world
    }

    /// Write access to the world.
    pub fn world_mut(&mut self) -> (r: &mut World<V>)
        ensures
            *r == old(self).view_world(),
            final(self).view_world() == *final(r),
    {
        &mut self.world
    }

    /// Spawns an entity and returns a builder that attaches its components.
    pub fn spawn(&mut self) -> (r: Result<EntityBuilder, EcsError>)
        requires
            old(self).wf(),
        ensures
            final(self).wf(),
            r is Err <==> old(self).view_world().entity_count() == usize::MAX,
            r is Err ==> final(self).view_world() == old(self).view_world(),
            r is Ok ==> {
                let e = r->Ok_0.entity();
                &&& e == old(self).view_world().entity_count()
                &&& final(self).view_world().entity_count() == e + 1
                &&& final(self).view_world().components(e as int) == Map::<ComponentId, V>::empty()
                &&& final(self).view_world().location(e as int).hash == DEFAULT_ARCHETYPE_HASH
                &&& forall|x: int|
                    0 <= x < e ==> #[trigger] final(self).view_world().components(x)
                        == old(self).view_world().components(x)
            },
    {
        let entity = self.world.spawn_entity()?;
        Ok(EntityBuilder { entity })
    }

    /// Builds a query over the entities that have every component of `component_ids`.
    pub fn query(&self, component_ids: Vec<ComponentId>) -> (r: Result<Query, EcsError>)
        requires
            self.wf(),
        ensures
            r is Err <==> !component_ids@.no_duplicates(),
            r is Ok ==> {
                let q = r->Ok_0;
                &&& q.requested() == component_ids@
                &&& q.matched().no_duplicates()
                &&& forall|e: EntityId| #[trigger] q.matched().contains(e) <==> e
                    < self.view_world().entity_count() && self.view_world().has_all(
                    e as int,
                    component_ids@,
                )
            },
    {
        Query::new(&self.world, component_ids)
    }
}

/// Attaches components to a freshly spawned entity.
pub struct EntityBuilder {
    entity: EntityId,
}

impl EntityBuilder {
    /// The entity being built.
    pub closed spec fn entity(&self) -> EntityId {
        self.entity
    }

    /// Attaches `component` as the component `component_id` of the entity being built.
    pub fn with<V>(self, ctx: &mut Context<V>, component_id: ComponentId, component: V) -> (r:
        Result<Self, EcsError>)
        requires
            old(ctx).wf(),
        ensures
            final(ctx).wf(),
            r is Ok ==> r->Ok_0.entity() == self.entity(),
            self.entity() >= old(ctx).view_world().entity_count() ==> r is Err,
            self.entity() < old(ctx).view_world().entity_count() ==> (r is Err
                <==> old(ctx).view_world().attach_collides(self.entity() as int, component_id)),
            r is Err ==> final(ctx).view_world() == old(ctx).view_world(),
            r is Ok ==> {
                &&& final(ctx).view_world().components(self.entity() as int) == old(
                    ctx,
                ).view_world().components(self.entity() as int).insert(component_id, component)
                &&& forall|x: int|
                    0 <= x < old(ctx).view_world().entity_count() && x != self.entity()
                        ==> #[trigger] final(ctx).view_world().components(x) == old(
                        ctx,
                    ).view_world().components(x)
            },
    {
        ctx.world.add_component_to_entity(self.entity, component_id, component)?;
        Ok(self)
    }

    /// Finishes the entity and returns its id.
    pub fn build(self) -> (r: EntityId)
        ensures
            r == self.entity(),
    {
        self.entity
    }
}

} // verus!
