use vstd::prelude::*;

pub mod context;
pub mod ecs;
pub mod query;
pub mod storage;
pub mod world;

pub use context::{Context, EntityBuilder};
pub use ecs::Ecs;
pub use query::{Query, QueryIter};
pub use storage::StorageError;
pub use world::{World, WorldError};

verus! {

/// An entity in the ECS, represented as a dense index.
pub type EntityId = usize;

/// Identifier of a component type, assigned by the host.
pub type ComponentId = u64;

/// A system to be run by the ECS.
pub trait System<V> {
    /// Runs the system once on the world behind `ctx`.
    fn run(&mut self, ctx: &mut Context<V>) -> (r: Result<(), EcsError>)
        requires
            old(ctx).wf(),
        ensures
            final(ctx).wf(),
    ;
}

/// Possible errors returned from the ECS.
#[derive(Debug, PartialEq, Eq, Structural)]
pub enum EcsError {
    /// An error of a world operation.
    WorldError(WorldError),
    /// An error of the archetype storage.
    StorageError(StorageError),
    /// A component type was requested twice by one query.
    AliasConflict(ComponentId),
    /// `single` was called on a query that did not match exactly one entity; the number it
    /// matched.
    CardinalityError(usize),
}

} // verus!
