use vstd::prelude::*;

use crate::context::Context;
use crate::world::World;
use crate::System;

verus! {

/// Runs systems one after another, in the order they were added.
struct Scheduler<S> {
    systems: Vec<S>,
}

impl<S> Scheduler<S> {
    /// Creates a scheduler without systems.
    fn new() -> (r: Self)
        ensures
            r.systems@.len() == 0,
    {
        Scheduler { systems: Vec::new() }
    }

    /// Adds a system after the ones already there.
    fn add_system(&mut self, system: S)
        ensures
            final(self).systems@ == old(self).systems@.push(system),
    {
        self.systems.push(system);
    }

    /// Runs every system, in insertion order, on `ctx`; stops at the first error.
    fn run<V>(self, ctx: &mut Context<V>) -> (r: Result<(), crate::EcsError>)
        where
            S: System<V>,
        requires
            old(ctx).wf(),
        ensures
            final(ctx).wf(),
    {
        let mut systems = self.systems;
        let mut i: usize = 0;
        while i < systems.len()
            invariant
                ctx.wf(),
                0 <= i <= systems@.len(),
            decreases systems@.len() - i,
        {
            systems[i].run(ctx)?;
            i = i + 1;
        }
        Ok(())
    }
}

/// An entity component system: a world and the systems that run on it.
pub struct Ecs<V, S> {
    world: World<V>,
    scheduler: Scheduler<S>,
}

impl<V, S: System<V>> Ecs<V, S> {
    /// The systems, in the order they will run.
    pub closed spec fn systems(&self) -> Seq<S> {
        self.scheduler.systems@
    }

    /// The world's invariant holds.
    pub closed spec fn wf(&self) -> bool {
        self.world.inv()
    }

    /// Creates an ECS with an empty world and no systems.
    pub fn new() -> (r: Self)
        ensures
            r.wf(),
            r.systems().len() == 0,
    {
        Ecs { world: World::new(), scheduler: Scheduler::new() }
    }

    /// Adds a system; it runs after the ones added before it.
    pub fn add_system(self, system: S) -> (r: Self)
        requires
            self.wf(),
        ensures
            r.wf(),
            r.systems() == self.systems().push(system),
    {
        let mut ecs = self;
        ecs.scheduler.add_system(system);
        ecs
    }

    /// Runs every system once, in the order they were added, and stops at the first error.
    pub fn run(self) -> (r: Result<(), crate::EcsError>)
        requires
            self.wf(),
    {
        let mut ctx = Context::new(self.world);
        self.scheduler.run(&mut ctx)
    }
}

} // verus!
