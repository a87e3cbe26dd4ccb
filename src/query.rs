use vstd::prelude::*;

use crate::storage::StorageError;
use crate::world::World;
use crate::{ComponentId, EcsError, EntityId};

verus! {

/// The entities that have every one of a list of component types, in iteration order:
/// table by table, each table in row order.
pub struct Query {
    component_ids: Vec<ComponentId>,
    entities: Vec<EntityId>,
}

impl Query {
    /// The requested component ids, in request order.
    pub closed spec fn requested(&self) -> Seq<ComponentId> {
        self.component_ids@
    }

    /// The matched entities, in iteration order.
    pub closed spec fn matched(&self) -> Seq<EntityId> {
        self.entities@
    }

    /// Resolves a query over `component_ids` against `world`.
    ///
    /// A component id that is requested twice would hand out two references to one value,
    /// so it is refused.
    pub fn new<V>(world: &World<V>, component_ids: Vec<ComponentId>) -> (r: Result<Query, EcsError>)
        requires
            world.inv(),
        ensures
            r is Err <==> !component_ids@.no_duplicates(),
            r is Err ==> exists|c: ComponentId| r == Err::<Query, EcsError>(EcsError::AliasConflict(c)),
            r is Ok ==> {
                let q = r->Ok_0;
                &&& q.requested() == component_ids@
                &&& q.matched().no_duplicates()
                &&& forall|e: EntityId| #[trigger] q.matched().contains(e) <==> e < world.entity_count()
                    && world.has_all(e as int, component_ids@)
            },
    {
        let mut i: usize = 0;
        while i < component_ids.len()
            invariant
                0 <= i <= component_ids@.len(),
                forall|x: int, y: int| 0 <= x < i && 0 <= y < component_ids@.len() && x != y ==> component_ids@[x] != component_ids@[y],
            decreases component_ids@.len() - i,
        {
            let mut j: usize = 0;
            while j < component_ids.len()
                invariant
                    0 <= i < component_ids@.len(),
                    0 <= j <= component_ids@.len(),
                    forall|x: int, y: int| 0 <= x < i && 0 <= y < component_ids@.len() && x != y ==> component_ids@[x] != component_ids@[y],
                    forall|y: int| 0 <= y < j && y != i ==> component_ids@[i as int] != component_ids@[y],
                decreases component_ids@.len() - j,
            {
                if j != i && component_ids[i] == component_ids[j] {
                    return Err(EcsError::AliasConflict(component_ids[i]));
                }
                j = j + 1;
            }
            i = i + 1;
        }
        let entities = world.query_entities(&component_ids);
        Ok(Query { component_ids, entities })
    }

    /// Number of entities the query matched.
    pub fn num_entities(&self) -> (r: usize)
        ensures
            r == self.matched().len(),
    {
        self.entities.len()
    }

    /// The `i`-th matched entity.
    pub fn entity(&self, i: usize) -> (r: Option<EntityId>)
        ensures
            i < self.matched().len() ==> r == Some(self.matched()[i as int]),
            i >= self.matched().len() ==> r is None,
    {
        if i < self.entities.len() {
            Some(self.entities[i])
        } else {
            None
        }
    }

    /// The only matched entity; an error unless the query matched exactly one.
    pub fn single(&self) -> (r: Result<EntityId, EcsError>)
        ensures
            self.matched().len() == 1 ==> r == Ok::<EntityId, EcsError>(self.matched()[0]),
            self.matched().len() != 1 ==> r == Err::<EntityId, EcsError>(
                EcsError::CardinalityError(self.matched().len() as usize),
            ),
    {
        if self.entities.len() != 1 {
            return Err(EcsError::CardinalityError(self.entities.len()));
        }
        Ok(self.entities[0])
    }

    /// The values of the requested components of the `i`-th matched entity, in request
    /// order.
    pub fn fetch<'a, V>(&self, world: &'a World<V>, i: usize) -> (r: Result<Vec<&'a V>, EcsError>)
        requires
            world.inv(),
        ensures
            i >= self.matched().len() ==> r == Err::<Vec<&'a V>, EcsError>(
                EcsError::StorageError(StorageError::BadRow { row: i, len: self.matched().len() as usize }),
            ),
            i < self.matched().len() && self.matched()[i as int] < world.entity_count()
                && world.has_all(self.matched()[i as int] as int, self.requested()) ==> r is Ok,
            r is Ok ==> {
                let e = self.matched()[i as int] as int;
                &&& r->Ok_0@.len() == self.requested().len()
                &&& forall|k: int|
                    0 <= k < self.requested().len() ==> *(#[trigger] r->Ok_0@[k]) == world.components(e)[self.requested()[k]]
            },
    {
        if i >= self.entities.len() {
            return Err(EcsError::StorageError(StorageError::BadRow { row: i, len: self.entities.len() }));
        }
        let entity = self.entities[i];
        let mut values: Vec<&'a V> = Vec::new();
        let mut k: usize = 0;
        while k < self.component_ids.len()
            invariant
                world.inv(),
                i < self.entities@.len(),
                entity == self.entities@[i as int],
                0 <= k <= self.component_ids@.len(),
                values@.len() == k,
                forall|j: int|
                    0 <= j < k ==> *(#[trigger] values@[j]) == world.components(entity as int)[self.component_ids@[j]],
                entity < world.entity_count() && world.has_all(entity as int, self.component_ids@) ==> forall|j: int|
                    0 <= j < self.component_ids@.len() ==> world.components(entity as int).contains_key(#[trigger] self.component_ids@[j]),
            decreases self.component_ids@.len() - k,
        {
            let value = world.get_component(entity, self.component_ids[k])?;
            values.push(value);
            k = k + 1;
        }
        Ok(values)
    }

    /// An iterator over the matched entities.
    pub fn iter(self) -> (r: QueryIter)
        ensures
            r.query() == self,
            r.position() == 0,
    {
        QueryIter { query: self, position: 0 }
    }
}

/// Walks the entities of a query in iteration order.
pub struct QueryIter {
    query: Query,
    position: usize,
}

impl QueryIter {
    pub closed spec fn query(&self) -> Query {
        self.query
    }

    pub closed spec fn position(&self) -> nat {
        self.position as nat
    }

    /// The next entity, or `None` once all have been handed out.
    pub fn next(&mut self) -> (r: Option<EntityId>)
        ensures
            final(self).query() == old(self).query(),
            old(self).position() < old(self).query().matched().len() ==> r == Some(
                old(self).query().matched()[old(self).position() as int],
            ) && final(self).position() == old(self).position() + 1,
            old(self).position() >= old(self).query().matched().len() ==> r is None
                && final(self).position() == old(self).position(),
    {
        if self.position < self.query.entities.len() {
            let e = self.query.entities[self.position];
            self.position = self.position + 1;
            Some(e)
        } else {
            None
        }
    }
}

} // verus!
