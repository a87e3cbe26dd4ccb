use vstd::prelude::*;

use std::collections::HashMap;

use crate::storage::archetype_map::ArchetypeMap;
use crate::storage::archetype_table::{lemma_prefix_step, ArchetypeTable};
use crate::storage::{
    component_hash, fingerprint, lemma_fingerprint_empty, lemma_fingerprint_insert,
    lemma_fingerprint_remove, mix, ArchetypeHash, StorageError, StorageLocation,
    DEFAULT_ARCHETYPE_HASH,
};
use crate::{ComponentId, EcsError, EntityId};

verus! {

broadcast use vstd::std_specs::hash::group_hash_axioms;

/// Possible errors of world operations.
#[derive(Debug, PartialEq, Eq, Structural)]
pub enum WorldError {
    /// The default archetype table does not exist.
    InvalidDefaultArchetypeTable,
    /// The entity does not exist.
    InvalidEntityArchetype(EntityId),
    /// The table at this fingerprint belongs to another set of component types.
    InvalidArchetypeHash(ArchetypeHash),
    /// No further entity id can be handed out.
    EntityLimitReached,
}

/// Contains the entities and components of the ECS.
///
/// Entities are grouped into archetype tables by the exact set of component types they carry.
pub struct World<V> {
    /// Total number of entities.
    num_entities: usize,
    /// Maps archetype fingerprints to their tables.
    archetype_map: ArchetypeMap<V>,
    /// Maps each entity to its position in an archetype table.
    entity_map: Vec<StorageLocation>,
    /// Maps each component id to the fingerprints of the archetypes that have it.
    associated_archetype_map: HashMap<ComponentId, Vec<ArchetypeHash>>,
}

/// The components of an entity after attaching `pairs`, in order, to one whose components
/// were `m`.
pub open spec fn attached<V>(m: Map<ComponentId, V>, pairs: Seq<(ComponentId, V)>) -> Map<ComponentId, V>
    decreases pairs.len(),
{
    if pairs.len() == 0 {
        m
    } else {
        attached(m, pairs.drop_last()).insert(pairs.last().0, pairs.last().1)
    }
}

/// The component ids of `pairs` are distinct.
pub open spec fn distinct_ids<V>(pairs: Seq<(ComponentId, V)>) -> bool {
    forall|i: int, j: int| 0 <= i < pairs.len() && 0 <= j < pairs.len() && i != j ==> #[trigger] pairs[i].0 != #[trigger] pairs[j].0
}

proof fn lemma_attached_lookup<V>(pairs: Seq<(ComponentId, V)>)
    requires
        distinct_ids(pairs),
    ensures
        forall|c: ComponentId| #[trigger] attached(Map::<ComponentId, V>::empty(), pairs).contains_key(c)
            <==> exists|i: int| 0 <= i < pairs.len() && pairs[i].0 == c,
        forall|i: int| 0 <= i < pairs.len() ==> #[trigger] attached(Map::<ComponentId, V>::empty(), pairs)[pairs[i].0] == pairs[i].1,
    decreases pairs.len(),
{
    if pairs.len() > 0 {
        let rest = pairs.drop_last();
        assert(distinct_ids(rest)) by {
            assert forall|i: int, j: int| 0 <= i < rest.len() && 0 <= j < rest.len() && i != j implies #[trigger] rest[i].0 != #[trigger] rest[j].0 by {
                assert(rest[i] == pairs[i] && rest[j] == pairs[j]);
            }
        }
        lemma_attached_lookup(rest);
        let last = pairs.len() - 1;
        assert forall|c: ComponentId| #[trigger] attached(Map::<ComponentId, V>::empty(), pairs).contains_key(c)
            <==> exists|i: int| 0 <= i < pairs.len() && pairs[i].0 == c by {
            if attached(Map::<ComponentId, V>::empty(), rest).contains_key(c) {
                let i = choose|i: int| 0 <= i < rest.len() && rest[i].0 == c;
                assert(pairs[i] == rest[i]);
            }
            if exists|i: int| 0 <= i < pairs.len() && pairs[i].0 == c {
                let i = choose|i: int| 0 <= i < pairs.len() && pairs[i].0 == c;
                if i < last {
                    assert(rest[i] == pairs[i]);
                }
            }
        }
        assert forall|i: int| 0 <= i < pairs.len() implies #[trigger] attached(Map::<ComponentId, V>::empty(), pairs)[pairs[i].0] == pairs[i].1 by {
            assert(attached(Map::<ComponentId, V>::empty(), pairs) == attached(Map::<ComponentId, V>::empty(), rest).insert(pairs[last].0, pairs[last].1));
            if i < last {
                assert(rest[i] == pairs[i]);
                assert(pairs[i].0 != pairs[last].0);
                assert(attached(Map::<ComponentId, V>::empty(), rest)[rest[i].0] == rest[i].1);
            }
        }
    }
}

/// Attaching the same components in another order gives the same components: with the
/// fingerprint determined by the components, the order of attachment is irrelevant.
pub proof fn lemma_attach_order_irrelevant<V>(order_a: Seq<(ComponentId, V)>, order_b: Seq<(ComponentId, V)>)
    requires
        distinct_ids(order_a),
        distinct_ids(order_b),
        order_a.to_set() == order_b.to_set(),
    ensures
        attached(Map::<ComponentId, V>::empty(), order_a) == attached(Map::<ComponentId, V>::empty(), order_b),
{
    lemma_attached_lookup(order_a);
    lemma_attached_lookup(order_b);
    let m1 = attached(Map::<ComponentId, V>::empty(), order_a);
    let m2 = attached(Map::<ComponentId, V>::empty(), order_b);
    assert forall|c: ComponentId| #[trigger] m1.contains_key(c) <==> m2.contains_key(c) by {
        if m1.contains_key(c) {
            let i = choose|i: int| 0 <= i < order_a.len() && order_a[i].0 == c;
            assert(order_a.to_set().contains(order_a[i]));
            assert(order_b.to_set().contains(order_a[i]));
            let j = choose|j: int| 0 <= j < order_b.len() && order_b[j] == order_a[i];
            assert(order_b[j].0 == c);
        }
        if m2.contains_key(c) {
            let j = choose|j: int| 0 <= j < order_b.len() && order_b[j].0 == c;
            assert(order_b.to_set().contains(order_b[j]));
            assert(order_a.to_set().contains(order_b[j]));
            let i = choose|i: int| 0 <= i < order_a.len() && order_a[i] == order_b[j];
            assert(order_a[i].0 == c);
        }
    }
    assert forall|c: ComponentId| m1.contains_key(c) implies #[trigger] m1[c] == m2[c] by {
        let i = choose|i: int| 0 <= i < order_a.len() && order_a[i].0 == c;
        assert(order_a.to_set().contains(order_a[i]));
        assert(order_b.to_set().contains(order_a[i]));
        let j = choose|j: int| 0 <= j < order_b.len() && order_b[j] == order_a[i];
        assert(m2[order_b[j].0] == order_b[j].1);
        assert(m1[order_a[i].0] == order_a[i].1);
    }
    assert(m1 =~= m2);
}

/// Whether the index `m` lists the fingerprint `h` under `c`.
spec fn listed(m: Map<ComponentId, Vec<ArchetypeHash>>, c: ComponentId, h: ArchetypeHash) -> bool {
    m.contains_key(c) && m[c]@.contains(h)
}

/// Appending `hash` to the list of `c` adds exactly the pair `(c, hash)` to the index.
proof fn lemma_index_push(
    prev: Map<ComponentId, Vec<ArchetypeHash>>,
    next: Map<ComponentId, Vec<ArchetypeHash>>,
    c: ComponentId,
    hash: ArchetypeHash,
    prev_list: Seq<ArchetypeHash>,
)
    requires
        prev.contains_key(c) ==> prev_list == prev[c]@,
        !prev.contains_key(c) ==> prev_list.len() == 0,
        !(prev.contains_key(c) && prev[c]@.contains(hash)),
        next.contains_key(c),
        next[c]@ == prev_list.push(hash),
        forall|c2: ComponentId| c2 != c ==> (#[trigger] next.contains_key(c2) == prev.contains_key(c2)),
        forall|c2: ComponentId| c2 != c && prev.contains_key(c2) ==> #[trigger] next[c2] == prev[c2],
        forall|c2: ComponentId| #[trigger] prev.contains_key(c2) ==> prev[c2]@.no_duplicates(),
    ensures
        forall|c2: ComponentId, h: ArchetypeHash| #[trigger]
            listed(next, c2, h) <==> listed(prev, c2, h) || (c2 == c && h == hash),
        forall|c2: ComponentId| #[trigger] next.contains_key(c2) ==> next[c2]@.no_duplicates(),
{
    let l = prev_list.push(hash);
    assert(!prev_list.contains(hash));
    assert forall|h: ArchetypeHash| #[trigger] l.contains(h) <==> prev_list.contains(h) || h == hash by {
        if l.contains(h) {
            let m = choose|m: int| 0 <= m < l.len() && #[trigger] l[m] == h;
            if m < prev_list.len() {
                assert(prev_list[m] == h);
            }
        }
        if prev_list.contains(h) {
            let m = choose|m: int| 0 <= m < prev_list.len() && #[trigger] prev_list[m] == h;
            assert(l[m] == h);
        }
        if h == hash {
            assert(l[prev_list.len() as int] == hash);
        }
    }
    assert forall|c2: ComponentId, h: ArchetypeHash| #[trigger]
        listed(next, c2, h) <==> listed(prev, c2, h) || (c2 == c && h == hash) by {
        if c2 != c {
            if prev.contains_key(c2) {
                assert(next[c2] == prev[c2]);
            }
        } else {
            assert(next[c2]@.contains(h) == l.contains(h));
        }
    }
    assert forall|c2: ComponentId| #[trigger] next.contains_key(c2) implies next[c2]@.no_duplicates() by {
        if c2 == c {
            assert forall|x: int, y: int| 0 <= x < l.len() && 0 <= y < l.len() && x != y implies l[x] != l[y] by {
                if x < prev_list.len() && y < prev_list.len() {
                    assert(prev_list[x] != prev_list[y]);
                } else if x < prev_list.len() {
                    assert(prev_list.contains(prev_list[x]));
                } else if y < prev_list.len() {
                    assert(prev_list.contains(prev_list[y]));
                }
            }
        } else {
            assert(next[c2] == prev[c2]);
        }
    }
}

impl<V> World<V> {
    /// Number of entities spawned so far.
    pub closed spec fn entity_count(&self) -> nat {
        self.entity_map@.len()
    }

    /// Where the entity `e` is stored.
    pub closed spec fn location(&self, e: int) -> StorageLocation {
        self.entity_map@[e]
    }

    /// Whether an archetype table with fingerprint `h` exists.
    pub closed spec fn has_table(&self, h: ArchetypeHash) -> bool {
        self.archetype_map.contains(h)
    }

    /// The component ids that have a column in the table with fingerprint `h`.
    pub closed spec fn table_columns(&self, h: ArchetypeHash) -> Set<ComponentId> {
        self.archetype_map.table(h).column_set()
    }

    /// Number of rows of the table with fingerprint `h`.
    pub closed spec fn table_rows(&self, h: ArchetypeHash) -> nat {
        self.archetype_map.table(h).n()
    }

    /// Number of slots in the column for `c` of the table with fingerprint `h`.
    pub closed spec fn column_len(&self, h: ArchetypeHash, c: ComponentId) -> nat {
        self.archetype_map.table(h).col(c).len()
    }

    /// The entity stored at `row` of the table with fingerprint `h`.
    pub closed spec fn table_entity(&self, h: ArchetypeHash, row: int) -> EntityId {
        self.archetype_map.table(h).entities@[row]
    }

    /// Whether the per-component index lists the fingerprint `h` under `c`.
    pub closed spec fn indexed(&self, c: ComponentId, h: ArchetypeHash) -> bool {
        listed(self.associated_archetype_map@, c, h)
    }

    /// The components of entity `e`, by component id.
    pub closed spec fn components(&self, e: int) -> Map<ComponentId, V> {
        self.archetype_map.table(self.entity_map@[e].hash).row_components(
            self.entity_map@[e].row as int,
        )
    }

    spec fn table_at(&self, i: int) -> ArchetypeTable<V> {
        self.archetype_map.tables@[i]
    }

    /// Every table's fingerprint is the fingerprint of its column set, and its slots are full.
    closed spec fn inv_tables(&self) -> bool {
        forall|i: int|
            0 <= i < self.archetype_map.tables@.len() ==> (#[trigger] self.table_at(i)).hash
                == fingerprint(self.table_at(i).column_set()) && self.table_at(i).full()
    }

    /// Every entity is stored at a live row that records it.
    closed spec fn inv_entities(&self) -> bool {
        forall|e: int|
            0 <= e < self.entity_map@.len() ==> {
                let l = #[trigger] self.entity_map@[e];
                &&& self.archetype_map.contains(l.hash)
                &&& l.row < self.archetype_map.table(l.hash).n()
                &&& self.archetype_map.table(l.hash).entities@[l.row as int] == e
            }
    }

    /// Every row records an entity whose location is that row.
    closed spec fn inv_rows(&self) -> bool {
        forall|i: int, r: int|
            0 <= i < self.archetype_map.tables@.len() && 0 <= r < self.table_at(i).n() ==> {
                let e = #[trigger] self.table_at(i).entities@[r];
                &&& e < self.entity_map@.len()
                &&& self.entity_map@[e as int] == StorageLocation {
                    hash: self.table_at(i).hash,
                    row: r as usize,
                }
            }
    }

    /// The per-component index lists exactly the tables that have each component.
    closed spec fn inv_index(&self) -> bool {
        &&& forall|c: ComponentId, h: ArchetypeHash| #[trigger]
            self.indexed(c, h) <==> self.archetype_map.contains(h)
                && self.archetype_map.table(h).has(c)
        &&& forall|c: ComponentId| #[trigger]
            self.associated_archetype_map@.contains_key(c)
                ==> self.associated_archetype_map@[c]@.no_duplicates()
    }

    /// The world's invariant.
    pub closed spec fn inv(&self) -> bool {
        &&& self.archetype_map.wf()
        &&& self.archetype_map.contains(DEFAULT_ARCHETYPE_HASH)
        &&& self.archetype_map.table(DEFAULT_ARCHETYPE_HASH).component_tables@.len() == 0
        &&& self.num_entities == self.entity_map@.len()
        &&& self.inv_tables()
        &&& self.inv_entities()
        &&& self.inv_rows()
        &&& self.inv_index()
    }

    /// Creates a world with no entities and only the empty archetype.
    pub fn new() -> (r: Self)
        ensures
            r.inv(),
            r.entity_count() == 0,
            forall|h: ArchetypeHash| #[trigger] r.has_table(h) <==> h == DEFAULT_ARCHETYPE_HASH,
            r.table_columns(DEFAULT_ARCHETYPE_HASH) == Set::<ComponentId>::empty(),
    {
        let default_archetype_table = ArchetypeTable::new(DEFAULT_ARCHETYPE_HASH);
        let mut archetype_map = ArchetypeMap::new();
        archetype_map.add_archetype_table(default_archetype_table);
        let r = World {
            num_entities: 0,
            archetype_map,
            entity_map: Vec::new(),
            associated_archetype_map: HashMap::new(),
        };
        proof {
            lemma_fingerprint_empty();
            assert(r.archetype_map.table(DEFAULT_ARCHETYPE_HASH).column_set() =~= Set::empty());
            assert forall|i: int| 0 <= i < r.archetype_map.tables@.len() implies (
            #[trigger] r.table_at(i)).hash == fingerprint(r.table_at(i).column_set())
                && r.table_at(i).full() by {
                assert(i == 0);
                assert(r.table_at(i).column_set() =~= Set::empty());
            }
            assert forall|c: ComponentId, h: ArchetypeHash| #[trigger]
                r.indexed(c, h) <==> r.archetype_map.contains(h) && r.archetype_map.table(h).has(
                    c,
                ) by {
                if r.archetype_map.contains(h) {
                    assert(r.archetype_map.table(h).ids().len() == 0);
                }
            }
        }
        r
    }

    /// Attaching `c` to `e` would lead to a table at the new fingerprint that belongs to another
    /// set of component types.
    pub closed spec fn attach_collides(&self, e: int, c: ComponentId) -> bool {
        let h = self.location(e).hash;
        let target = mix(h, c);
        &&& !self.components(e).contains_key(c)
        &&& self.has_table(target)
        &&& self.table_columns(target) != self.table_columns(h).insert(c)
    }

    /// Detaching `c` from `e` would lead to a table at the new fingerprint that belongs to
    /// another set of component types.
    pub closed spec fn detach_collides(&self, e: int, c: ComponentId) -> bool {
        let h = self.location(e).hash;
        let target = mix(h, c);
        &&& self.components(e).contains_key(c)
        &&& self.has_table(target)
        &&& self.table_columns(target) != self.table_columns(h).remove(c)
    }

    /// Returns the number of entities.
    pub fn num_entities(&self) -> (r: usize)
        requires
            self.inv(),
        ensures
            r == self.entity_count(),
    {
        self.num_entities
    }

    /// Adds an entity, with no components, to the world.
    pub fn spawn_entity(&mut self) -> (r: Result<EntityId, EcsError>)
        requires
            old(self).inv(),
        ensures
            final(self).inv(),
            r is Err <==> old(self).entity_count() == usize::MAX,
            r is Err ==> r == Err::<EntityId, EcsError>(
                EcsError::WorldError(WorldError::EntityLimitReached),
            ) && *final(self) == *old(self),
            r is Ok ==> {
                let e = r->Ok_0;
                &&& e == old(self).entity_count()
                &&& final(self).entity_count() == old(self).entity_count() + 1
                &&& final(self).components(e as int) == Map::<ComponentId, V>::empty()
                &&& final(self).location(e as int) == StorageLocation {
                    hash: DEFAULT_ARCHETYPE_HASH,
                    row: old(self).table_rows(DEFAULT_ARCHETYPE_HASH) as usize,
                }
                &&& forall|x: int|
                    0 <= x < old(self).entity_count() ==> #[trigger] final(self).components(x)
                        == old(self).components(x) && final(self).location(x) == old(self).location(x)
                &&& forall|h: ArchetypeHash| #[trigger]
                    final(self).has_table(h) == old(self).has_table(h)
            },
    {
        if self.num_entities == usize::MAX {
            return Err(EcsError::WorldError(WorldError::EntityLimitReached));
        }
        let entity = self.num_entities;
        let i = match self.archetype_map.table_index(DEFAULT_ARCHETYPE_HASH) {
            Some(i) => i,
            None => {
                return Err(EcsError::WorldError(WorldError::InvalidDefaultArchetypeTable));
            },
        };
        let ghost old_world = *self;
        let ghost old_table = self.archetype_map.tables@[i as int];
        assert(self.table_at(i as int) == old_table);
        self.archetype_map.tables[i].add_entity(entity);
        let row = self.archetype_map.tables[i].num_entities() - 1;
        self.entity_map.push(StorageLocation { hash: DEFAULT_ARCHETYPE_HASH, row });
        self.num_entities = self.num_entities + 1;
        proof {
            let new_table = self.table_at(i as int);
            assert(new_table.ids() =~= old_table.ids());
            assert(new_table.ids().len() == 0);
            assert forall|h: ArchetypeHash| #[trigger] self.archetype_map.contains(h) implies
                self.archetype_map.table(h) == if h == DEFAULT_ARCHETYPE_HASH { new_table } else { old_world.archetype_map.table(h) } by {
            }
            assert forall|x: int| 0 <= x < old_world.entity_count() implies #[trigger] self.components(x)
                == old_world.components(x) && self.location(x) == old_world.location(x) by {
                assert(self.entity_map@[x] == old_world.entity_map@[x]);
                let l = self.entity_map@[x];
                assert(self.components(x) =~= old_world.components(x));
            }
            assert(self.components(entity as int) =~= Map::<ComponentId, V>::empty());
            assert(old_world.inv_tables() && old_world.inv_rows());
            assert forall|j: int| 0 <= j < self.archetype_map.tables@.len() implies (
            #[trigger] self.table_at(j)).hash == fingerprint(self.table_at(j).column_set())
                && self.table_at(j).full() by {
                if j == i {
                    assert(new_table.column_set() =~= old_table.column_set());
                    assert(old_world.table_at(j) == old_table);
                } else {
                    assert(self.table_at(j) == old_world.table_at(j));
                }
            }
            assert forall|j: int, r: int|
                0 <= j < self.archetype_map.tables@.len() && 0 <= r < self.table_at(j).n() implies {
                let e = #[trigger] self.table_at(j).entities@[r];
                &&& e < self.entity_map@.len()
                &&& self.entity_map@[e as int] == StorageLocation {
                    hash: self.table_at(j).hash,
                    row: r as usize,
                }
            } by {
                if j == i {
                    assert(old_world.table_at(j) == old_table);
                    if r < old_table.n() {
                        assert(self.table_at(j).entities@[r] == old_world.table_at(j).entities@[r]);
                    }
                } else {
                    assert(self.table_at(j) == old_world.table_at(j));
                }
            }
            assert(old_world.inv_index());
            assert forall|c: ComponentId, h: ArchetypeHash| #[trigger]
                self.indexed(c, h) <==> self.archetype_map.contains(h)
                    && self.archetype_map.table(h).has(c) by {
                assert(self.indexed(c, h) == old_world.indexed(c, h));
                if self.archetype_map.contains(h) {
                    assert(self.archetype_map.table(h).ids() == old_world.archetype_map.table(h).ids());
                }
            }
        }
        Ok(entity)
    }

    /// Adds a table without rows and lists its fingerprint under each of its components.
    fn add_table(&mut self, table: ArchetypeTable<V>) -> (r: usize)
        requires
            old(self).inv(),
            table.wf(),
            table.n() == 0,
            !old(self).archetype_map.contains(table.hash),
            table.hash == fingerprint(table.column_set()),
        ensures
            final(self).inv(),
            r == old(self).archetype_map.tables@.len(),
            final(self).archetype_map.tables@ == old(self).archetype_map.tables@.push(table),
            final(self).archetype_map.index@ == old(self).archetype_map.index@.insert(table.hash, r),
            final(self).entity_map == old(self).entity_map,
            final(self).num_entities == old(self).num_entities,
            final(self).archetype_map.table(table.hash) == table,
            forall|h: ArchetypeHash| #[trigger] final(self).has_table(h) == (old(self).has_table(h) || h == table.hash),
            forall|h: ArchetypeHash| #[trigger] old(self).archetype_map.contains(h) ==> final(self).archetype_map.table(h) == old(self).archetype_map.table(h),
            forall|x: int| 0 <= x < old(self).entity_count() ==> #[trigger] final(self).components(x) == old(self).components(x),
    {
        let ghost old_world = *self;
        let hash = table.hash;
        let mut i: usize = 0;
        while i < table.component_tables.len()
            invariant
                table.wf(),
                hash == table.hash,
                0 <= i <= table.component_tables@.len(),
                self.archetype_map == old_world.archetype_map,
                self.entity_map == old_world.entity_map,
                self.num_entities == old_world.num_entities,
                old_world.inv(),
                !old_world.archetype_map.contains(hash),
                forall|c: ComponentId, h: ArchetypeHash| #[trigger]
                    self.indexed(c, h) <==> old_world.indexed(c, h) || (h == hash
                        && table.ids().subrange(0, i as int).contains(c)),
                forall|c: ComponentId| #[trigger]
                    self.associated_archetype_map@.contains_key(c)
                        ==> self.associated_archetype_map@[c]@.no_duplicates(),
            decreases table.component_tables@.len() - i,
        {
            let c = table.component_tables[i].component_id;
            proof {
                assert(table.ids()[i as int] == c);
                lemma_prefix_step(table.ids(), i as int);
                assert(!table.ids().subrange(0, i as int).contains(c)) by {
                    let s0 = table.ids().subrange(0, i as int);
                    if s0.contains(c) {
                        let m = choose|m: int| 0 <= m < s0.len() && #[trigger] s0[m] == c;
                        assert(table.ids()[m] == c);
                    }
                }
                assert(!self.indexed(c, hash)) by {
                    assert(old_world.inv_index());
                }
            }
            let ghost prev = self.associated_archetype_map@;
            assert forall|c2: ComponentId, h: ArchetypeHash| #[trigger]
                listed(prev, c2, h) <==> old_world.indexed(c2, h) || (h == hash
                    && table.ids().subrange(0, i as int).contains(c2)) by {
                assert(self.indexed(c2, h) == listed(prev, c2, h));
            }
            let mut list = match self.associated_archetype_map.remove(&c) {
                Some(list) => list,
                None => Vec::new(),
            };
            let ghost prev_list = list@;
            assert(prev.contains_key(c) ==> prev_list == prev[c]@);
            assert(!prev.contains_key(c) ==> prev_list.len() == 0);
            list.push(hash);
            self.associated_archetype_map.insert(c, list);
            proof {
                lemma_index_push(prev, self.associated_archetype_map@, c, hash, prev_list);
                assert forall|c2: ComponentId, h: ArchetypeHash| #[trigger]
                    self.indexed(c2, h) <==> old_world.indexed(c2, h) || (h == hash
                        && table.ids().subrange(0, i + 1).contains(c2)) by {
                    assert(listed(prev, c2, h) <==> old_world.indexed(c2, h) || (h == hash
                        && table.ids().subrange(0, i as int).contains(c2)));
                    assert(self.indexed(c2, h) == listed(self.associated_archetype_map@, c2, h));
                    assert(table.ids().subrange(0, i + 1).contains(c2) == (table.ids().subrange(0, i as int).contains(c2) || c2 == c));
                }
            }
            i = i + 1;
        }
        let ghost after_loop = *self;
        let r = self.archetype_map.tables.len();
        self.archetype_map.add_archetype_table(table);
        proof {
            assert(table.ids().subrange(0, table.ids().len() as int) =~= table.ids());
            assert(old_world.inv_tables() && old_world.inv_entities() && old_world.inv_rows() && old_world.inv_index());
            assert(forall|j: int| 0 <= j < r ==> #[trigger] self.table_at(j) == old_world.table_at(j));
            assert(self.table_at(r as int) == table);
            assert forall|h: ArchetypeHash| #[trigger] old_world.archetype_map.contains(h) implies
                self.archetype_map.contains(h) && self.archetype_map.table(h) == old_world.archetype_map.table(h) by {
            }
            assert(self.archetype_map.table(hash) == table);
            assert forall|c: ComponentId, h: ArchetypeHash| #[trigger]
                self.indexed(c, h) <==> self.archetype_map.contains(h)
                    && self.archetype_map.table(h).has(c) by {
                assert(old_world.indexed(c, h) <==> old_world.archetype_map.contains(h)
                    && old_world.archetype_map.table(h).has(c));
                assert(self.indexed(c, h) == after_loop.indexed(c, h));
                assert(self.indexed(c, h) <==> old_world.indexed(c, h) || (h == hash && table.has(c)));
                if h != hash {
                    assert(self.archetype_map.contains(h) == old_world.archetype_map.contains(h));
                    if old_world.archetype_map.contains(h) {
                        assert(self.archetype_map.table(h) == old_world.archetype_map.table(h));
                    }
                } else {
                    assert(!old_world.indexed(c, h));
                }
            }
            assert forall|e: int| 0 <= e < self.entity_map@.len() implies {
                let l = #[trigger] self.entity_map@[e];
                &&& self.archetype_map.contains(l.hash)
                &&& l.row < self.archetype_map.table(l.hash).n()
                &&& self.archetype_map.table(l.hash).entities@[l.row as int] == e
            } by {
                let l = self.entity_map@[e];
                assert(old_world.entity_map@[e] == l);
            }
            assert forall|j: int, row: int|
                0 <= j < self.archetype_map.tables@.len() && 0 <= row < self.table_at(j).n() implies {
                let e = #[trigger] self.table_at(j).entities@[row];
                &&& e < self.entity_map@.len()
                &&& self.entity_map@[e as int] == StorageLocation {
                    hash: self.table_at(j).hash,
                    row: row as usize,
                }
            } by {
                assert(j < r);
                assert(self.table_at(j) == old_world.table_at(j));
            }
            assert(self.inv_tables());
            assert forall|x: int| 0 <= x < old_world.entity_count() implies #[trigger] self.components(x) == old_world.components(x) by {
                let l = self.entity_map@[x];
                assert(old_world.archetype_map.contains(l.hash));
            }
        }
        r
    }

    /// Moves `entity` from its table into the table at position `dst_i`, whose columns are
    /// those of the entity's table with `component_id` added (`added` holds its value) or
    /// removed (the removed value is returned).
    ///
    /// The entity's old table is compacted by moving its last row into the vacated one.
    fn relocate(
        &mut self,
        entity: EntityId,
        dst_i: usize,
        component_id: ComponentId,
        added: Option<V>,
    ) -> (r: Option<V>)
        requires
            old(self).inv(),
            entity < old(self).entity_count(),
            dst_i < old(self).archetype_map.tables@.len(),
            forall|d: ComponentId| #[trigger]
                old(self).table_at(dst_i as int).has(d) <==> if d == component_id {
                    !old(self).archetype_map.table(old(self).location(entity as int).hash).has(d)
                } else {
                    old(self).archetype_map.table(old(self).location(entity as int).hash).has(d)
                },
            added is Some <==> !old(self).archetype_map.table(old(self).location(entity as int).hash).has(
                component_id,
            ),
        ensures
            final(self).inv(),
            final(self).entity_count() == old(self).entity_count(),
            final(self).location(entity as int) == (StorageLocation {
                hash: old(self).table_at(dst_i as int).hash,
                row: old(self).table_at(dst_i as int).n() as usize,
            }),
            added is Some ==> final(self).components(entity as int) == old(self).components(
                entity as int,
            ).insert(component_id, added->Some_0),
            added is None ==> final(self).components(entity as int) == old(self).components(
                entity as int,
            ).remove(component_id) && r == Some(old(self).components(entity as int)[component_id]),
            forall|x: int|
                0 <= x < old(self).entity_count() && x != entity ==> #[trigger] final(self).components(x)
                    == old(self).components(x),
            ({
                let l = old(self).location(entity as int);
                let displaced = old(self).table_entity(l.hash, old(self).table_rows(l.hash) - 1);
                &&& displaced != entity ==> final(self).location(displaced as int) == l
                &&& forall|x: int|
                    0 <= x < old(self).entity_count() && x != entity && x != displaced
                        ==> #[trigger] final(self).location(x) == old(self).location(x)
            }),
            forall|h: ArchetypeHash| #[trigger] final(self).has_table(h) == old(self).has_table(h),
            final(self).archetype_map.tables@.len() == old(self).archetype_map.tables@.len(),
    {
        let ghost old_world = *self;
        let loc = self.entity_map[entity];
        proof {
            assert(old_world.inv_entities() && old_world.inv_rows() && old_world.inv_tables());
            assert(old_world.entity_map@[entity as int] == loc);
        }
        let src_i = match self.archetype_map.table_index(loc.hash) {
            Some(i) => i,
            None => {
                return None;
            },
        };
        let ghost src_t = old_world.table_at(src_i as int);
        let ghost dst_t = old_world.table_at(dst_i as int);
        proof {
            assert(src_t == old_world.archetype_map.table(loc.hash));
            if src_i == dst_i {
                assert(dst_t.has(component_id) != src_t.has(component_id));
            }
            assert(src_t.full() && dst_t.full());
        }
        self.archetype_map.tables[dst_i].add_entity(entity);
        let dst_row = self.archetype_map.tables[dst_i].num_entities() - 1;
        let ghost dst_added = self.archetype_map.tables@[dst_i as int];
        match added {
            Some(value) => {
                let _ = self.archetype_map.tables[dst_i].update_component_value(
                    dst_row,
                    component_id,
                    value,
                );
            },
            None => {},
        }
        let ghost dst_mid = self.archetype_map.tables@[dst_i as int];
        let mut src = ArchetypeTable::new(DEFAULT_ARCHETYPE_HASH);
        std::mem::swap(&mut src, &mut self.archetype_map.tables[src_i]);
        assert(src == src_t);
        let last_row = src.num_entities() - 1;
        let displaced = src.entities[last_row];
        let taken = src.move_entity(
            &mut self.archetype_map.tables[dst_i],
            loc.row,
            dst_row,
            component_id,
        );
        let ghost src_moved = src;
        std::mem::swap(&mut src, &mut self.archetype_map.tables[src_i]);
        assert(self.archetype_map.tables@[src_i as int] == src_moved);
        if displaced != entity {
            self.entity_map[displaced] = loc;
        }
        let dst_hash = self.archetype_map.tables[dst_i].hash;
        self.entity_map[entity] = StorageLocation { hash: dst_hash, row: dst_row };
        proof {
            let src_n = self.table_at(src_i as int);
            let dst_n = self.table_at(dst_i as int);
            assert(forall|j: int|
                0 <= j < self.archetype_map.tables@.len() && j != src_i && j != dst_i
                    ==> #[trigger] self.table_at(j) == old_world.table_at(j));
            assert(self.archetype_map.index == old_world.archetype_map.index);
            assert(src_n.hash == src_t.hash && dst_n.hash == dst_t.hash);
            assert(src_n.ids() == src_t.ids() && dst_n.ids() == dst_t.ids());
            assert(src_n.column_set() == src_t.column_set());
            assert(dst_n.column_set() == dst_t.column_set());
            assert(self.archetype_map.wf()) by {
                assert forall|j: int| 0 <= j < self.archetype_map.tables@.len() implies (
                #[trigger] self.archetype_map.tables@[j]).wf() by {
                    assert(self.table_at(j) == self.archetype_map.tables@[j]);
                    assert(old_world.table_at(j) == old_world.archetype_map.tables@[j]);
                }
            }
            assert forall|h: ArchetypeHash| #[trigger] self.archetype_map.contains(h) implies
                self.archetype_map.table(h) == if h == src_t.hash { src_n } else if h == dst_t.hash { dst_n } else { old_world.archetype_map.table(h) } by {
            }
            assert(src_t.hash != dst_t.hash);
            assert forall|d: ComponentId| #[trigger] dst_n.has(d) implies {
                &&& dst_t.has(d)
                &&& dst_n.col(d).len() == dst_t.n() + 1
                &&& forall|row: int| 0 <= row < dst_t.n() ==> #[trigger] dst_n.col(d)[row] == dst_t.col(d)[row]
                &&& dst_n.col(d)[dst_row as int] == if src_t.has(d) {
                    src_t.col(d)[loc.row as int]
                } else {
                    added
                }
            } by {
                assert(dst_t.has(d));
                assert(dst_added.has(d));
                assert(dst_added.col(d) == dst_t.col(d).push(None));
                assert(dst_mid.has(d));
                if d == component_id && added is Some {
                    assert(dst_mid.col(d) == dst_added.col(d).update(dst_row as int, added));
                } else {
                    assert(dst_mid.col(d) == dst_added.col(d));
                }
                assert(dst_n.col(d).len() == dst_t.n() + 1) by {
                    assert(dst_t.wf());
                    let k = dst_t.ids().index_of(d);
                    assert(dst_t.ids()[k] == d);
                    assert(dst_t.component_tables@[k].rows().len() == dst_t.n());
                }
                if !src_t.has(d) {
                    assert(d == component_id);
                }
            }
            // full columns
            assert(src_n.full()) by {
                assert forall|c: ComponentId, row: int| src_n.has(c) && 0 <= row < src_n.n() implies
                    (#[trigger] src_n.col(c)[row]) is Some by {
                    assert(src_n == src_moved);
                    assert(src_t.has(c));
                    if row != loc.row {
                        assert(src_t.col(c)[row] is Some);
                    } else {
                        assert(src_t.col(c)[src_t.n() - 1] is Some);
                    }
                }
            }
            assert(dst_n.full()) by {
                assert forall|c: ComponentId, row: int| dst_n.has(c) && 0 <= row < dst_n.n() implies
                    (#[trigger] dst_n.col(c)[row]) is Some by {
                    assert(dst_n.has(c));
                    if row < dst_t.n() {
                        assert(dst_t.col(c)[row] is Some);
                    } else if src_t.has(c) {
                        assert(src_t.col(c)[loc.row as int] is Some);
                    } else {
                        assert(dst_t.has(c));
                        assert(c == component_id);
                        assert(dst_mid.col(c)[row] is Some);
                    }
                }
            }
            assert(self.inv_tables()) by {
                assert forall|j: int| 0 <= j < self.archetype_map.tables@.len() implies (
                #[trigger] self.table_at(j)).hash == fingerprint(self.table_at(j).column_set())
                    && self.table_at(j).full() by {
                    assert(old_world.table_at(j).hash == fingerprint(old_world.table_at(j).column_set()));
                }
            }
            assert(self.inv_index()) by {
                assert(old_world.inv_index());
                assert forall|c: ComponentId, h: ArchetypeHash| #[trigger]
                    self.indexed(c, h) <==> self.archetype_map.contains(h)
                        && self.archetype_map.table(h).has(c) by {
                    assert(self.indexed(c, h) == old_world.indexed(c, h));
                }
            }
            assert(self.inv_entities()) by {
                assert forall|e: int| 0 <= e < self.entity_map@.len() implies {
                    let l = #[trigger] self.entity_map@[e];
                    &&& self.archetype_map.contains(l.hash)
                    &&& l.row < self.archetype_map.table(l.hash).n()
                    &&& self.archetype_map.table(l.hash).entities@[l.row as int] == e
                } by {
                    let ol = old_world.entity_map@[e];
                    if e != entity && e != displaced {
                        assert(self.entity_map@[e] == ol);
                        if ol.hash == src_t.hash {
                            assert(src_t.entities@[ol.row as int] == e);
                            assert(ol.row != loc.row);
                            assert(ol.row != src_t.n() - 1);
                        }
                    }
                }
            }
            assert(self.inv_rows()) by {
                assert forall|j: int, row: int|
                    0 <= j < self.archetype_map.tables@.len() && 0 <= row < self.table_at(j).n() implies {
                    let e = #[trigger] self.table_at(j).entities@[row];
                    &&& e < self.entity_map@.len()
                    &&& self.entity_map@[e as int] == StorageLocation {
                        hash: self.table_at(j).hash,
                        row: row as usize,
                    }
                } by {
                    if j == src_i {
                        if row == loc.row {
                            assert(src_n.entities@[row] == displaced);
                        } else {
                            assert(src_n.entities@[row] == src_t.entities@[row]);
                            assert(old_world.table_at(j).entities@[row] == src_t.entities@[row]);
                            let e = src_t.entities@[row];
                            assert(old_world.entity_map@[e as int] == StorageLocation { hash: src_t.hash, row: row as usize });
                        }
                    } else if j == dst_i {
                        if row < dst_t.n() {
                            assert(dst_n.entities@[row] == dst_t.entities@[row]);
                            assert(old_world.table_at(j).entities@[row] == dst_t.entities@[row]);
                        }
                    } else {
                        assert(self.table_at(j) == old_world.table_at(j));
                    }
                }
            }
            // the moved entity
            assert(self.entity_map@[entity as int] == StorageLocation { hash: dst_t.hash, row: dst_row });
            assert(self.archetype_map.table(dst_t.hash) == dst_n);
            assert forall|d: ComponentId| src_t.has(d) implies #[trigger] src_t.col(d)[loc.row as int] == Some(old_world.components(entity as int)[d]) by {
                assert(src_t.col(d)[loc.row as int] is Some);
            }
            let m_new = self.components(entity as int);
            let m_old = old_world.components(entity as int);
            assert(m_old == src_t.row_components(loc.row as int));
            assert(m_new == dst_n.row_components(dst_row as int));
            assert forall|d: ComponentId| #[trigger] dst_n.has(d) == dst_t.has(d) by {}
            if added is Some {
                assert forall|d: ComponentId| #[trigger] m_new.contains_key(d) == (m_old.contains_key(d) || d == component_id) by {
                    assert(dst_t.has(d) == (if d == component_id { !src_t.has(d) } else { src_t.has(d) }));
                }
                assert forall|d: ComponentId| #[trigger] m_new.contains_key(d) implies m_new[d] == m_old.insert(component_id, added->Some_0)[d] by {
                    assert(dst_n.has(d));
                }
                assert(m_new =~= m_old.insert(component_id, added->Some_0));
            } else {
                assert forall|d: ComponentId| #[trigger] m_new.contains_key(d) == (m_old.contains_key(d) && d != component_id) by {
                    assert(dst_t.has(d) == (if d == component_id { !src_t.has(d) } else { src_t.has(d) }));
                }
                assert forall|d: ComponentId| #[trigger] m_new.contains_key(d) implies m_new[d] == m_old[d] by {
                    assert(dst_n.has(d));
                }
                assert(m_new =~= m_old.remove(component_id));
                assert(src_t.has(component_id));
                assert(!dst_t.has(component_id));
                assert(!dst_mid.has(component_id));
                assert(taken == src_t.col(component_id)[loc.row as int]);
            }
            assert forall|x: int|
                0 <= x < old_world.entity_count() && x != entity implies #[trigger] self.components(x)
                    == old_world.components(x) by {
                let ol = old_world.entity_map@[x];
                let ot = old_world.archetype_map.table(ol.hash);
                let nl = self.entity_map@[x];
                let nt = self.archetype_map.table(nl.hash);
                if x == displaced {
                    assert(ol.hash == src_t.hash);
                    assert(src_t.entities@[ol.row as int] == x);
                    assert(ol.row == src_t.n() - 1);
                    assert(nl == loc);
                    assert(nt == src_n);
                    assert forall|c: ComponentId| #[trigger] nt.has(c) implies nt.col(c)[nl.row as int] == ot.col(c)[ol.row as int] by {
                        assert(src_t.has(c));
                    }
                } else {
                    assert(nl == ol);
                    if ol.hash == src_t.hash {
                        assert(src_t.entities@[ol.row as int] == x);
                        assert(ol.row != src_t.n() - 1);
                        assert(ol.row != loc.row);
                        assert forall|c: ComponentId| #[trigger] nt.has(c) implies nt.col(c)[nl.row as int] == ot.col(c)[ol.row as int] by {
                            assert(src_t.has(c));
                        }
                    } else if ol.hash == dst_t.hash {
                        assert(ol.row < dst_t.n());
                        assert forall|c: ComponentId| #[trigger] nt.has(c) implies nt.col(c)[nl.row as int] == ot.col(c)[ol.row as int] by {
                            assert(dst_n.has(c));
                        }
                    }
                }
                assert(nt.ids() == ot.ids());
                assert(self.components(x) =~= old_world.components(x));
            }
        }
        taken
    }

    /// Attaches the value `component` of the component type `component_id` to `entity`.
    ///
    /// Where the entity already has that component, its value is replaced in place. Otherwise
    /// the entity moves to the archetype with the added component, which is created first
    /// where it does not exist yet.
    pub fn add_component_to_entity(
        &mut self,
        entity: EntityId,
        component_id: ComponentId,
        component: V,
    ) -> (r: Result<(), EcsError>)
        requires
            old(self).inv(),
        ensures
            final(self).inv(),
            final(self).entity_count() == old(self).entity_count(),
            entity >= old(self).entity_count() ==> r == Err::<(), EcsError>(
                EcsError::WorldError(WorldError::InvalidEntityArchetype(entity)),
            ),
            entity < old(self).entity_count() ==> (r is Err <==> old(self).attach_collides(
                entity as int,
                component_id,
            )),
            r is Err ==> *final(self) == *old(self),
            r is Ok ==> {
                &&& final(self).components(entity as int) == old(self).components(
                    entity as int,
                ).insert(component_id, component)
                &&& forall|x: int|
                    0 <= x < old(self).entity_count() && x != entity ==> #[trigger] final(self).components(x)
                        == old(self).components(x)
                &&& final(self).location(entity as int).hash == if old(self).components(
                    entity as int,
                ).contains_key(component_id) {
                    old(self).location(entity as int).hash
                } else {
                    mix(old(self).location(entity as int).hash, component_id)
                }
            },
            r is Ok && old(self).components(entity as int).contains_key(component_id) ==> {
                &&& forall|x: int|
                    0 <= x < old(self).entity_count() ==> #[trigger] final(self).location(x)
                        == old(self).location(x)
                &&& forall|h: ArchetypeHash| #[trigger] final(self).has_table(h) == old(self).has_table(h)
                &&& forall|h: ArchetypeHash| #[trigger]
                    old(self).has_table(h) ==> final(self).table_rows(h) == old(self).table_rows(h)
            },
    {
        if entity >= self.entity_map.len() {
            return Err(EcsError::WorldError(WorldError::InvalidEntityArchetype(entity)));
        }
        let ghost old_world = *self;
        let loc = self.entity_map[entity];
        proof {
            assert(old_world.inv_entities() && old_world.inv_rows() && old_world.inv_tables());
            assert(old_world.entity_map@[entity as int] == loc);
        }
        let src_i = match self.archetype_map.table_index(loc.hash) {
            Some(i) => i,
            None => {
                return Err(EcsError::WorldError(WorldError::InvalidEntityArchetype(entity)));
            },
        };
        let ghost src_t = old_world.table_at(src_i as int);
        proof {
            assert(src_t == old_world.archetype_map.table(loc.hash));
            assert(old_world.components(entity as int).contains_key(component_id) == src_t.has(component_id));
            src_t.lemma_column_set();
        }
        if self.archetype_map.tables[src_i].contains_component(component_id) {
            let _ = self.archetype_map.tables[src_i].update_component_value(
                loc.row,
                component_id,
                component,
            );
            proof {
                let src_n = self.table_at(src_i as int);
                assert(forall|j: int| 0 <= j < self.archetype_map.tables@.len() && j != src_i ==> #[trigger] self.table_at(j) == old_world.table_at(j));
                assert(src_n.column_set() == src_t.column_set());
                assert forall|h: ArchetypeHash| #[trigger] self.archetype_map.contains(h) implies
                    self.archetype_map.table(h) == if h == loc.hash { src_n } else { old_world.archetype_map.table(h) } by {
                }
                assert(self.archetype_map.wf()) by {
                    assert forall|j: int| 0 <= j < self.archetype_map.tables@.len() implies (
                    #[trigger] self.archetype_map.tables@[j]).wf() by {
                        assert(self.table_at(j) == self.archetype_map.tables@[j]);
                        assert(old_world.table_at(j) == old_world.archetype_map.tables@[j]);
                    }
                }
                assert(src_n.full()) by {
                    assert forall|c: ComponentId, row: int| src_n.has(c) && 0 <= row < src_n.n() implies
                        (#[trigger] src_n.col(c)[row]) is Some by {
                        assert(src_t.has(c));
                        assert(src_t.col(c)[row] is Some);
                    }
                }
                assert(self.inv_tables()) by {
                    assert forall|j: int| 0 <= j < self.archetype_map.tables@.len() implies (
                    #[trigger] self.table_at(j)).hash == fingerprint(self.table_at(j).column_set())
                        && self.table_at(j).full() by {
                        assert(old_world.table_at(j).hash == fingerprint(old_world.table_at(j).column_set()));
                    }
                }
                assert(self.inv_index()) by {
                    assert(old_world.inv_index());
                    assert forall|c: ComponentId, h: ArchetypeHash| #[trigger]
                        self.indexed(c, h) <==> self.archetype_map.contains(h)
                            && self.archetype_map.table(h).has(c) by {
                        assert(self.indexed(c, h) == old_world.indexed(c, h));
                    }
                }
                assert(self.inv_entities());
                assert(self.inv_rows()) by {
                    assert forall|j: int, row: int|
                        0 <= j < self.archetype_map.tables@.len() && 0 <= row < self.table_at(j).n() implies {
                        let e = #[trigger] self.table_at(j).entities@[row];
                        &&& e < self.entity_map@.len()
                        &&& self.entity_map@[e as int] == StorageLocation {
                            hash: self.table_at(j).hash,
                            row: row as usize,
                        }
                    } by {
                        assert(self.table_at(j).entities == old_world.table_at(j).entities);
                    }
                }
                assert forall|d: ComponentId| #[trigger] src_n.has(d) implies src_n.col(d)[loc.row as int] == if d == component_id { Some(component) } else { src_t.col(d)[loc.row as int] } by {
                    assert(src_t.has(d));
                }
                assert(self.entity_map@[entity as int] == loc);
                assert(self.archetype_map.table(loc.hash) == src_n);
                assert(self.components(entity as int) =~= old_world.components(entity as int).insert(component_id, component));
                assert forall|x: int|
                    0 <= x < old_world.entity_count() && x != entity implies #[trigger] self.components(x)
                        == old_world.components(x) by {
                    let l = self.entity_map@[x];
                    if l.hash == loc.hash {
                        assert(src_t.entities@[l.row as int] == x);
                        assert(l.row != loc.row);
                    }
                    assert(self.components(x) =~= old_world.components(x));
                }
                assert forall|h: ArchetypeHash| #[trigger] old_world.has_table(h) implies self.table_rows(h) == old_world.table_rows(h) by {
                    assert(self.archetype_map.contains(h));
                }
            }
            return Ok(());
        }
        let new_hash = loc.hash ^ component_hash(component_id);
        let dst_i = match self.archetype_map.table_index(new_hash) {
            Some(i) => {
                if !self.archetype_map.tables[i].columns_match(
                    &self.archetype_map.tables[src_i],
                    component_id,
                ) {
                    proof {
                        let t = old_world.archetype_map.table(new_hash);
                        assert(t == old_world.table_at(i as int));
                        if t.column_set() == src_t.column_set().insert(component_id) {
                            t.lemma_column_set();
                            assert forall|d: ComponentId| #[trigger] t.has(d) <==> if d == component_id {
                                !src_t.has(d)
                            } else {
                                src_t.has(d)
                            } by {
                                assert(t.column_set().contains(d) == src_t.column_set().insert(component_id).contains(d));
                            }
                        }
                    }
                    return Err(EcsError::WorldError(WorldError::InvalidArchetypeHash(new_hash)));
                }
                proof {
                    let t = old_world.table_at(i as int);
                    t.lemma_column_set();
                    assert(t.column_set() =~= src_t.column_set().insert(component_id));
                }
                i
            },
            None => {
                let mut table = ArchetypeTable::new(new_hash);
                table.new_component_tables_from(&self.archetype_map.tables[src_i]);
                table.add_new_component_table(component_id);
                proof {
                    table.lemma_column_set();
                    assert(table.column_set() =~= src_t.column_set().insert(component_id)) by {
                        assert forall|d: ComponentId| #[trigger] table.column_set().contains(d) == src_t.column_set().insert(component_id).contains(d) by {
                            assert(table.has(d) == (src_t.has(d) || d == component_id)) by {
                                if table.has(d) {
                                    let k = choose|k: int| 0 <= k < table.ids().len() && #[trigger] table.ids()[k] == d;
                                    if k < src_t.ids().len() {
                                        assert(src_t.ids()[k] == d);
                                    }
                                }
                                if src_t.has(d) {
                                    let k = choose|k: int| 0 <= k < src_t.ids().len() && #[trigger] src_t.ids()[k] == d;
                                    assert(table.ids()[k] == d);
                                }
                                if d == component_id {
                                    assert(table.ids()[src_t.ids().len() as int] == d);
                                }
                            }
                        }
                    }
                    lemma_fingerprint_insert(src_t.column_set(), component_id);
                }
                self.add_table(table)
            },
        };
        proof {
            assert(new_hash == mix(loc.hash, component_id));
            let cur = *self;
            assert(cur.entity_map@[entity as int] == loc);
            assert(cur.archetype_map.table(loc.hash) == src_t);
            let t = cur.table_at(dst_i as int);
            t.lemma_column_set();
            assert forall|d: ComponentId| #[trigger] t.has(d) <==> if d == component_id {
                !src_t.has(d)
            } else {
                src_t.has(d)
            } by {
                assert(t.column_set().contains(d) == src_t.column_set().insert(component_id).contains(d));
            }
        }
        let _ = self.relocate(entity, dst_i, component_id, Some(component));
        Ok(())
    }

    /// Detaches the component `component_id` from `entity` and returns its value, or `None`
    /// where the entity does not have it.
    ///
    /// The entity moves to the archetype without the component, which is created first where
    /// it does not exist yet. The entity that held the last row of the old table takes the
    /// vacated row.
    pub fn remove_component_from_entity(&mut self, entity: EntityId, component_id: ComponentId) -> (r:
        Result<Option<V>, EcsError>)
        requires
            old(self).inv(),
        ensures
            final(self).inv(),
            final(self).entity_count() == old(self).entity_count(),
            entity >= old(self).entity_count() ==> r == Err::<Option<V>, EcsError>(
                EcsError::WorldError(WorldError::InvalidEntityArchetype(entity)),
            ),
            entity < old(self).entity_count() ==> (r is Err <==> old(self).detach_collides(
                entity as int,
                component_id,
            )),
            r is Err ==> *final(self) == *old(self),
            r == Ok::<Option<V>, EcsError>(None) <==> entity < old(self).entity_count()
                && !old(self).components(entity as int).contains_key(component_id),
            r == Ok::<Option<V>, EcsError>(None) ==> *final(self) == *old(self),
            r matches Ok(Some(v)) ==> {
                let l = old(self).location(entity as int);
                let displaced = old(self).table_entity(l.hash, old(self).table_rows(l.hash) - 1);
                &&& v == old(self).components(entity as int)[component_id]
                &&& final(self).components(entity as int) == old(self).components(
                    entity as int,
                ).remove(component_id)
                &&& forall|x: int|
                    0 <= x < old(self).entity_count() && x != entity ==> #[trigger] final(self).components(x)
                        == old(self).components(x)
                &&& final(self).location(entity as int).hash == mix(l.hash, component_id)
                &&& displaced != entity ==> final(self).location(displaced as int) == l
                &&& forall|x: int|
                    0 <= x < old(self).entity_count() && x != entity && x != displaced
                        ==> #[trigger] final(self).location(x) == old(self).location(x)
            },
    {
        if entity >= self.entity_map.len() {
            return Err(EcsError::WorldError(WorldError::InvalidEntityArchetype(entity)));
        }
        let ghost old_world = *self;
        let loc = self.entity_map[entity];
        proof {
            assert(old_world.inv_entities() && old_world.inv_rows() && old_world.inv_tables());
            assert(old_world.entity_map@[entity as int] == loc);
        }
        let src_i = match self.archetype_map.table_index(loc.hash) {
            Some(i) => i,
            None => {
                return Err(EcsError::WorldError(WorldError::InvalidEntityArchetype(entity)));
            },
        };
        let ghost src_t = old_world.table_at(src_i as int);
        proof {
            assert(src_t == old_world.archetype_map.table(loc.hash));
            assert(old_world.components(entity as int).contains_key(component_id) == src_t.has(component_id));
            src_t.lemma_column_set();
        }
        if !self.archetype_map.tables[src_i].contains_component(component_id) {
            return Ok(None);
        }
        let new_hash = loc.hash ^ component_hash(component_id);
        let dst_i = match self.archetype_map.table_index(new_hash) {
            Some(i) => {
                if !self.archetype_map.tables[i].columns_match(
                    &self.archetype_map.tables[src_i],
                    component_id,
                ) {
                    proof {
                        let t = old_world.archetype_map.table(new_hash);
                        assert(t == old_world.table_at(i as int));
                        if t.column_set() == src_t.column_set().remove(component_id) {
                            t.lemma_column_set();
                            assert forall|d: ComponentId| #[trigger] t.has(d) <==> if d == component_id {
                                !src_t.has(d)
                            } else {
                                src_t.has(d)
                            } by {
                                assert(t.column_set().contains(d) == src_t.column_set().remove(component_id).contains(d));
                            }
                        }
                    }
                    return Err(EcsError::WorldError(WorldError::InvalidArchetypeHash(new_hash)));
                }
                proof {
                    let t = old_world.table_at(i as int);
                    t.lemma_column_set();
                    assert(t.column_set() =~= src_t.column_set().remove(component_id));
                }
                i
            },
            None => {
                let mut table = ArchetypeTable::new(new_hash);
                table.new_component_tables_with(&self.archetype_map.tables[src_i], component_id);
                proof {
                    table.lemma_column_set();
                    assert(table.column_set() =~= src_t.column_set().remove(component_id));
                    lemma_fingerprint_remove(src_t.column_set(), component_id);
                }
                self.add_table(table)
            },
        };
        proof {
            assert(new_hash == mix(loc.hash, component_id));
            let cur = *self;
            assert(cur.entity_map@[entity as int] == loc);
            assert(cur.archetype_map.table(loc.hash) == src_t);
            let t = cur.table_at(dst_i as int);
            t.lemma_column_set();
            assert forall|d: ComponentId| #[trigger] t.has(d) <==> if d == component_id {
                !src_t.has(d)
            } else {
                src_t.has(d)
            } by {
                assert(t.column_set().contains(d) == src_t.column_set().remove(component_id).contains(d));
            }
        }
        let taken = self.relocate(entity, dst_i, component_id, None);
        Ok(taken)
    }

    /// The value of the component `component_id` of `entity`.
    pub fn get_component(&self, entity: EntityId, component_id: ComponentId) -> (r: Result<
        &V,
        EcsError,
    >)
        requires
            self.inv(),
        ensures
            entity >= self.entity_count() ==> r == Err::<&V, EcsError>(
                EcsError::WorldError(WorldError::InvalidEntityArchetype(entity)),
            ),
            entity < self.entity_count() && !self.components(entity as int).contains_key(
                component_id,
            ) ==> r == Err::<&V, EcsError>(
                EcsError::StorageError(StorageError::InvalidComponentTable(component_id)),
            ),
            entity < self.entity_count() && self.components(entity as int).contains_key(component_id)
                ==> r is Ok && *r->Ok_0 == self.components(entity as int)[component_id],
    {
        if entity >= self.entity_map.len() {
            return Err(EcsError::WorldError(WorldError::InvalidEntityArchetype(entity)));
        }
        let loc = self.entity_map[entity];
        proof {
            assert(self.inv_entities() && self.inv_tables());
            assert(self.entity_map@[entity as int] == loc);
        }
        let table = match self.archetype_map.get_archetype_table(loc.hash) {
            Some(table) => table,
            None => {
                return Err(EcsError::WorldError(WorldError::InvalidEntityArchetype(entity)));
            },
        };
        proof {
            let i = self.archetype_map.index@[loc.hash] as int;
            assert(self.table_at(i) == *table);
            assert(table.full());
        }
        match table.get_component(loc.row, component_id) {
            Ok(Some(value)) => Ok(value),
            Ok(None) => Err(EcsError::StorageError(StorageError::InvalidComponentTable(component_id))),
            Err(e) => Err(EcsError::StorageError(e)),
        }
    }

    /// `after` is `before` with the value of the component `c` of entity `e` replaced by `v`.
    pub closed spec fn component_written(before: Self, after: Self, e: int, c: ComponentId, v: V) -> bool {
        let l = before.entity_map@[e];
        let i = before.archetype_map.index@[l.hash] as int;
        &&& after.num_entities == before.num_entities
        &&& after.entity_map == before.entity_map
        &&& after.associated_archetype_map == before.associated_archetype_map
        &&& after.archetype_map.index == before.archetype_map.index
        &&& after.archetype_map.tables@.len() == before.archetype_map.tables@.len()
        &&& forall|j: int|
            0 <= j < before.archetype_map.tables@.len() && j != i ==> #[trigger] after.archetype_map.tables@[j]
                == before.archetype_map.tables@[j]
        &&& ArchetypeTable::value_replaced(
            before.archetype_map.tables@[i],
            after.archetype_map.tables@[i],
            c,
            l.row as int,
            v,
        )
    }

    /// A write through `get_component_mut` replaces one value and keeps the invariant.
    pub proof fn lemma_component_written(before: Self, after: Self, e: int, c: ComponentId, v: V)
        requires
            before.inv(),
            0 <= e < before.entity_count(),
            before.components(e).contains_key(c),
            Self::component_written(before, after, e, c, v),
        ensures
            after.inv(),
            after.entity_count() == before.entity_count(),
            after.components(e) == before.components(e).insert(c, v),
            forall|x: int| 0 <= x < before.entity_count() && x != e ==> #[trigger] after.components(x) == before.components(x),
            forall|x: int| 0 <= x < before.entity_count() ==> #[trigger] after.location(x) == before.location(x),
    {
        let l = before.entity_map@[e];
        let i = before.archetype_map.index@[l.hash] as int;
        assert(before.inv_entities() && before.inv_rows() && before.inv_tables() && before.inv_index());
        let src_t = before.table_at(i);
        let src_n = after.table_at(i);
        assert(src_t == before.archetype_map.table(l.hash));
        ArchetypeTable::lemma_value_replaced(src_t, src_n, c, l.row as int, v);
        assert(src_n.column_set() == src_t.column_set());
        assert(forall|j: int| 0 <= j < after.archetype_map.tables@.len() && j != i ==> #[trigger] after.table_at(j) == before.table_at(j));
        assert forall|h: ArchetypeHash| #[trigger] after.archetype_map.contains(h) implies
            after.archetype_map.table(h) == if h == l.hash { src_n } else { before.archetype_map.table(h) } by {
        }
        assert(after.archetype_map.wf()) by {
            assert forall|j: int| 0 <= j < after.archetype_map.tables@.len() implies (
            #[trigger] after.archetype_map.tables@[j]).wf() by {
                assert(after.table_at(j) == after.archetype_map.tables@[j]);
                assert(before.table_at(j) == before.archetype_map.tables@[j]);
            }
        }
        assert(src_n.full()) by {
            assert forall|d: ComponentId, row: int| src_n.has(d) && 0 <= row < src_n.n() implies
                (#[trigger] src_n.col(d)[row]) is Some by {
                assert(src_t.has(d));
                assert(src_t.col(d)[row] is Some);
            }
        }
        assert(after.inv_tables()) by {
            assert forall|j: int| 0 <= j < after.archetype_map.tables@.len() implies (
            #[trigger] after.table_at(j)).hash == fingerprint(after.table_at(j).column_set())
                && after.table_at(j).full() by {
                assert(before.table_at(j).hash == fingerprint(before.table_at(j).column_set()));
            }
        }
        assert(after.inv_index()) by {
            assert forall|d: ComponentId, h: ArchetypeHash| #[trigger]
                after.indexed(d, h) <==> after.archetype_map.contains(h)
                    && after.archetype_map.table(h).has(d) by {
                assert(after.indexed(d, h) == before.indexed(d, h));
            }
        }
        assert(after.inv_rows()) by {
            assert forall|j: int, row: int|
                0 <= j < after.archetype_map.tables@.len() && 0 <= row < after.table_at(j).n() implies {
                let x = #[trigger] after.table_at(j).entities@[row];
                &&& x < after.entity_map@.len()
                &&& after.entity_map@[x as int] == StorageLocation {
                    hash: after.table_at(j).hash,
                    row: row as usize,
                }
            } by {
                assert(after.table_at(j).entities == before.table_at(j).entities);
            }
        }
        assert(src_t.has(c));
        assert forall|d: ComponentId| #[trigger] src_n.has(d) implies src_n.col(d)[l.row as int] == if d == c { Some(v) } else { src_t.col(d)[l.row as int] } by {
            assert(src_t.has(d));
        }
        assert(after.components(e) =~= before.components(e).insert(c, v));
        assert forall|x: int|
            0 <= x < before.entity_count() && x != e implies #[trigger] after.components(x)
                == before.components(x) by {
            let lx = after.entity_map@[x];
            if lx.hash == l.hash {
                assert(src_t.entities@[lx.row as int] == x);
                assert(lx.row != l.row);
                assert forall|d: ComponentId| #[trigger] src_n.has(d) implies src_n.col(d)[lx.row as int] == src_t.col(d)[lx.row as int] by {
                    assert(src_t.has(d));
                }
            }
            assert(after.components(x) =~= before.components(x));
        }
    }

    /// A mutable reference to the value of the component `component_id` of `entity`.
    ///
    /// What is written through it is described by `component_written`, whose consequences
    /// `lemma_component_written` states.
    pub fn get_component_mut(&mut self, entity: EntityId, component_id: ComponentId) -> (r: Result<
        &mut V,
        EcsError,
    >)
        requires
            old(self).inv(),
        ensures
            entity >= old(self).entity_count() ==> r == Err::<&mut V, EcsError>(
                EcsError::WorldError(WorldError::InvalidEntityArchetype(entity)),
            ),
            entity < old(self).entity_count() && !old(self).components(entity as int).contains_key(
                component_id,
            ) ==> r == Err::<&mut V, EcsError>(
                EcsError::StorageError(StorageError::InvalidComponentTable(component_id)),
            ),
            r is Err ==> *final(self) == *old(self),
            entity < old(self).entity_count() && old(self).components(entity as int).contains_key(component_id)
                ==> r is Ok && *r->Ok_0 == old(self).components(entity as int)[component_id]
                && Self::component_written(*old(self), *final(self), entity as int, component_id, *final(r->Ok_0)),
    {
        if entity >= self.entity_map.len() {
            return Err(EcsError::WorldError(WorldError::InvalidEntityArchetype(entity)));
        }
        let loc = self.entity_map[entity];
        proof {
            assert(self.inv_entities() && self.inv_tables());
            assert(self.entity_map@[entity as int] == loc);
        }
        let i = match self.archetype_map.table_index(loc.hash) {
            Some(i) => i,
            None => {
                return Err(EcsError::WorldError(WorldError::InvalidEntityArchetype(entity)));
            },
        };
        proof {
            assert(self.table_at(i as int) == self.archetype_map.table(loc.hash));
            assert(self.table_at(i as int).full());
            assert(self.table_at(i as int).wf());
        }
        if !self.archetype_map.tables[i].contains_component(component_id) {
            return Err(EcsError::StorageError(StorageError::InvalidComponentTable(component_id)));
        }
        let table = &mut self.archetype_map.tables[i];
        Ok(table.get_component_mut(loc.row, component_id))
    }

    /// Whether the table with fingerprint `h` has every component of `component_ids`.
    pub closed spec fn table_matches(&self, h: ArchetypeHash, component_ids: Seq<ComponentId>) -> bool {
        &&& self.has_table(h)
        &&& forall|k: int| 0 <= k < component_ids.len() ==> self.archetype_map.table(h).has(#[trigger] component_ids[k])
    }

    /// The fingerprints of the tables that have every component of `component_ids`.
    ///
    /// With at least one id, the candidates are those the per-component index lists under
    /// the first id.
    pub fn matching_tables(&self, component_ids: &Vec<ComponentId>) -> (r: Vec<ArchetypeHash>)
        requires
            self.inv(),
        ensures
            r@.no_duplicates(),
            forall|h: ArchetypeHash| #[trigger] r@.contains(h) <==> self.table_matches(h, component_ids@),
    {
        proof {
            assert(self.inv_index() && self.inv_tables());
        }
        let mut result: Vec<ArchetypeHash> = Vec::new();
        if component_ids.len() == 0 {
            let mut i: usize = 0;
            while i < self.archetype_map.tables.len()
                invariant
                    self.inv(),
                    component_ids@.len() == 0,
                    0 <= i <= self.archetype_map.tables@.len(),
                    result@.no_duplicates(),
                    forall|h: ArchetypeHash| #[trigger] result@.contains(h) <==> self.archetype_map.contains(h)
                        && self.archetype_map.index@[h] < i,
                decreases self.archetype_map.tables@.len() - i,
            {
                let h = self.archetype_map.tables[i].hash;
                proof {
                    assert(self.archetype_map.index@[h] == i);
                    assert(!result@.contains(h));
                }
                let ghost prev = result@;
                result.push(h);
                proof {
                    assert forall|g: ArchetypeHash| #[trigger] result@.contains(g) <==> prev.contains(g) || g == h by {
                        if result@.contains(g) {
                            let m = choose|m: int| 0 <= m < result@.len() && #[trigger] result@[m] == g;
                            if m < prev.len() {
                                assert(prev[m] == g);
                            }
                        }
                        if prev.contains(g) {
                            let m = choose|m: int| 0 <= m < prev.len() && #[trigger] prev[m] == g;
                            assert(result@[m] == g);
                        }
                        if g == h {
                            assert(result@[prev.len() as int] == g);
                        }
                    }
                    assert forall|x: int, y: int| 0 <= x < result@.len() && 0 <= y < result@.len() && x != y implies result@[x] != result@[y] by {
                        if x < prev.len() && y < prev.len() {
                            assert(prev[x] != prev[y]);
                        } else if x < prev.len() {
                            assert(prev.contains(prev[x]));
                        } else if y < prev.len() {
                            assert(prev.contains(prev[y]));
                        }
                    }
                }
                i = i + 1;
            }
            return result;
        }
        let first = component_ids[0];
        let candidates = match self.associated_archetype_map.get(&first) {
            Some(list) => list,
            None => {
                proof {
                    assert forall|h: ArchetypeHash| #[trigger] result@.contains(h) <==> self.table_matches(h, component_ids@) by {
                        if self.table_matches(h, component_ids@) {
                            assert(self.archetype_map.table(h).has(component_ids@[0]));
                            assert(self.indexed(first, h));
                        }
                    }
                }
                return result;
            },
        };
        let mut m: usize = 0;
        while m < candidates.len()
            invariant
                self.inv(),
                component_ids@.len() > 0,
                first == component_ids@[0],
                self.associated_archetype_map@.contains_key(first),
                *candidates == self.associated_archetype_map@[first],
                0 <= m <= candidates@.len(),
                result@.no_duplicates(),
                forall|h: ArchetypeHash| #[trigger] result@.contains(h) <==> candidates@.subrange(0, m as int).contains(h)
                    && self.table_matches(h, component_ids@),
            decreases candidates@.len() - m,
        {
            let h = candidates[m];
            proof {
                assert(candidates@.contains(h));
                assert(self.indexed(first, h));
                assert(self.inv_index());
                lemma_prefix_step(candidates@, m as int);
                assert(!candidates@.subrange(0, m as int).contains(h)) by {
                    let s0 = candidates@.subrange(0, m as int);
                    if s0.contains(h) {
                        let k = choose|k: int| 0 <= k < s0.len() && #[trigger] s0[k] == h;
                        assert(candidates@[k] == h);
                        assert(candidates@.no_duplicates());
                    }
                }
            }
            let i = self.archetype_map.table_index(h).unwrap();
            proof {
                assert(self.table_at(i as int) == self.archetype_map.table(h));
            }
            let ghost prev = result@;
            if self.archetype_map.tables[i].contains_all(component_ids) {
                result.push(h);
                proof {
                    assert forall|g: ArchetypeHash| #[trigger] result@.contains(g) <==> prev.contains(g) || g == h by {
                        if result@.contains(g) {
                            let k = choose|k: int| 0 <= k < result@.len() && #[trigger] result@[k] == g;
                            if k < prev.len() {
                                assert(prev[k] == g);
                            }
                        }
                        if prev.contains(g) {
                            let k = choose|k: int| 0 <= k < prev.len() && #[trigger] prev[k] == g;
                            assert(result@[k] == g);
                        }
                        if g == h {
                            assert(result@[prev.len() as int] == g);
                        }
                    }
                    assert forall|x: int, y: int| 0 <= x < result@.len() && 0 <= y < result@.len() && x != y implies result@[x] != result@[y] by {
                        if x < prev.len() && y < prev.len() {
                            assert(prev[x] != prev[y]);
                        } else if x < prev.len() {
                            assert(prev.contains(prev[x]));
                        } else if y < prev.len() {
                            assert(prev.contains(prev[y]));
                        }
                    }
                }
            }
            m = m + 1;
        }
        proof {
            assert(candidates@.subrange(0, candidates@.len() as int) =~= candidates@);
            assert forall|h: ArchetypeHash| #[trigger] result@.contains(h) <==> self.table_matches(h, component_ids@) by {
                if self.table_matches(h, component_ids@) {
                    assert(self.archetype_map.table(h).has(component_ids@[0]));
                    assert(self.indexed(first, h));
                }
            }
        }
        result
    }

    /// Whether entity `e` has every component of `component_ids`.
    pub open spec fn has_all(&self, e: int, component_ids: Seq<ComponentId>) -> bool {
        forall|k: int| 0 <= k < component_ids.len() ==> self.components(e).contains_key(#[trigger] component_ids[k])
    }

    /// The entities that have every component of `component_ids`, table by table, each table
    /// in row order.
    pub fn query_entities(&self, component_ids: &Vec<ComponentId>) -> (r: Vec<EntityId>)
        requires
            self.inv(),
        ensures
            r@.no_duplicates(),
            forall|e: EntityId| #[trigger] r@.contains(e) <==> e < self.entity_count() && self.has_all(e as int, component_ids@),
    {
        let tables = self.matching_tables(component_ids);
        proof {
            assert(self.inv_entities() && self.inv_rows() && self.inv_tables());
        }
        let mut result: Vec<EntityId> = Vec::new();
        let mut m: usize = 0;
        while m < tables.len()
            invariant
                self.inv(),
                tables@.no_duplicates(),
                forall|h: ArchetypeHash| #[trigger] tables@.contains(h) <==> self.table_matches(h, component_ids@),
                0 <= m <= tables@.len(),
                result@.no_duplicates(),
                forall|e: EntityId| #[trigger] result@.contains(e) <==> e < self.entity_count()
                    && tables@.subrange(0, m as int).contains(self.location(e as int).hash),
            decreases tables@.len() - m,
        {
            let h = tables[m];
            proof {
                assert(tables@.contains(h));
                lemma_prefix_step(tables@, m as int);
                assert(!tables@.subrange(0, m as int).contains(h)) by {
                    let s0 = tables@.subrange(0, m as int);
                    if s0.contains(h) {
                        let k = choose|k: int| 0 <= k < s0.len() && #[trigger] s0[k] == h;
                        assert(tables@[k] == h);
                    }
                }
            }
            let i = self.archetype_map.table_index(h).unwrap();
            let table = &self.archetype_map.tables[i];
            proof {
                assert(self.table_at(i as int) == *table);
                assert(table.hash == h);
            }
            let mut row: usize = 0;
            while row < table.entities.len()
                invariant
                    self.inv(),
                    *table == self.table_at(i as int),
                    i < self.archetype_map.tables@.len(),
                    table.hash == h,
                    !tables@.subrange(0, m as int).contains(h),
                    0 <= row <= table.entities@.len(),
                    result@.no_duplicates(),
                    forall|e: EntityId| #[trigger] result@.contains(e) <==> e < self.entity_count()
                        && (tables@.subrange(0, m as int).contains(self.location(e as int).hash)
                        || (self.location(e as int).hash == h && self.location(e as int).row < row)),
                decreases table.entities@.len() - row,
            {
                let e = table.entities[row];
                proof {
                    assert(self.inv_rows());
                    assert(self.table_at(i as int).entities@[row as int] == e);
                    assert(self.entity_map@[e as int] == StorageLocation { hash: h, row: row });
                    assert(!result@.contains(e));
                }
                let ghost prev = result@;
                result.push(e);
                proof {
                    assert forall|g: EntityId| #[trigger] result@.contains(g) <==> prev.contains(g) || g == e by {
                        if result@.contains(g) {
                            let k = choose|k: int| 0 <= k < result@.len() && #[trigger] result@[k] == g;
                            if k < prev.len() {
                                assert(prev[k] == g);
                            }
                        }
                        if prev.contains(g) {
                            let k = choose|k: int| 0 <= k < prev.len() && #[trigger] prev[k] == g;
                            assert(result@[k] == g);
                        }
                        if g == e {
                            assert(result@[prev.len() as int] == g);
                        }
                    }
                    assert forall|x: int, y: int| 0 <= x < result@.len() && 0 <= y < result@.len() && x != y implies result@[x] != result@[y] by {
                        if x < prev.len() && y < prev.len() {
                            assert(prev[x] != prev[y]);
                        } else if x < prev.len() {
                            assert(prev.contains(prev[x]));
                        } else if y < prev.len() {
                            assert(prev.contains(prev[y]));
                        }
                    }
                    assert forall|g: EntityId| #[trigger] result@.contains(g) <==> g < self.entity_count()
                        && (tables@.subrange(0, m as int).contains(self.location(g as int).hash)
                        || (self.location(g as int).hash == h && self.location(g as int).row < row + 1)) by {
                        if g < self.entity_count() && self.location(g as int).hash == h && self.location(g as int).row == row {
                            assert(self.inv_entities());
                            assert(self.archetype_map.table(h) == *table);
                            assert(table.entities@[row as int] == g);
                        }
                    }
                }
                row = row + 1;
            }
            proof {
                assert forall|g: EntityId| #[trigger] result@.contains(g) <==> g < self.entity_count()
                    && tables@.subrange(0, m + 1).contains(self.location(g as int).hash) by {
                    if g < self.entity_count() && self.location(g as int).hash == h {
                        assert(self.inv_entities());
                        assert(self.archetype_map.table(h) == *table);
                    }
                }
            }
            m = m + 1;
        }
        proof {
            assert(tables@.subrange(0, tables@.len() as int) =~= tables@);
            assert forall|e: EntityId| #[trigger] result@.contains(e) <==> e < self.entity_count() && self.has_all(e as int, component_ids@) by {
                if e < self.entity_count() {
                    let l = self.entity_map@[e as int];
                    assert(self.archetype_map.contains(l.hash));
                    assert(self.has_all(e as int, component_ids@) == self.table_matches(l.hash, component_ids@)) by {
                        if self.has_all(e as int, component_ids@) {
                            assert forall|k: int| 0 <= k < component_ids@.len() implies self.archetype_map.table(l.hash).has(#[trigger] component_ids@[k]) by {
                                assert(self.components(e as int).contains_key(component_ids@[k]));
                            }
                        }
                    }
                }
            }
        }
        result
    }

    /// Every entity is stored in an existing table, at a live row that records it.
    pub proof fn lemma_location_valid(&self, e: int)
        requires
            self.inv(),
            0 <= e < self.entity_count(),
        ensures
            self.has_table(self.location(e).hash),
            self.location(e).row < self.table_rows(self.location(e).hash),
            self.table_entity(self.location(e).hash, self.location(e).row as int) == e,
    {
        assert(self.inv_entities());
        assert(self.entity_map@[e] == self.location(e));
    }

    /// All columns of a table have as many slots as the table has rows.
    pub proof fn lemma_columns_equal_length(&self, h: ArchetypeHash, c: ComponentId)
        requires
            self.inv(),
            self.has_table(h),
            self.table_columns(h).contains(c),
        ensures
            self.column_len(h, c) == self.table_rows(h),
    {
        let t = self.archetype_map.table(h);
        assert(t.wf());
        t.lemma_column_set();
        let k = t.ids().index_of(c);
        assert(t.ids()[k] == c);
        assert(t.component_tables@[k].rows().len() == t.n());
    }

    /// The per-component index lists a fingerprint under a component exactly when the table
    /// with that fingerprint has a column for the component.
    pub proof fn lemma_index_exact(&self, c: ComponentId, h: ArchetypeHash)
        requires
            self.inv(),
        ensures
            self.indexed(c, h) <==> self.has_table(h) && self.table_columns(h).contains(c),
    {
        assert(self.inv_index());
        if self.has_table(h) {
            self.archetype_map.table(h).lemma_column_set();
        }
    }

    /// An entity's fingerprint is the fingerprint of the set of its component ids.
    pub proof fn lemma_fingerprint_of_components(&self, e: int)
        requires
            self.inv(),
            0 <= e < self.entity_count(),
        ensures
            self.components(e).dom().finite(),
            self.location(e).hash == fingerprint(self.components(e).dom()),
    {
        assert(self.inv_entities() && self.inv_tables());
        let l = self.entity_map@[e];
        let i = self.archetype_map.index@[l.hash] as int;
        let t = self.table_at(i);
        assert(t == self.archetype_map.table(l.hash));
        t.lemma_column_set();
        assert(self.components(e).dom() =~= t.column_set());
    }

    /// Entities with the same components have the same fingerprint, whatever order the
    /// components were attached in and whichever world they live in.
    pub proof fn lemma_same_components_same_fingerprint(w1: Self, e1: int, w2: Self, e2: int)
        requires
            w1.inv(),
            w2.inv(),
            0 <= e1 < w1.entity_count(),
            0 <= e2 < w2.entity_count(),
            w1.components(e1) == w2.components(e2),
        ensures
            w1.location(e1).hash == w2.location(e2).hash,
    {
        w1.lemma_fingerprint_of_components(e1);
        w2.lemma_fingerprint_of_components(e2);
    }

    /// Attaching a component that an entity lacks and then detaching it gives back the
    /// attached value, the entity's components and its fingerprint.
    ///
    /// `w1` and `removed` are what `add_component_to_entity` and
    /// `remove_component_from_entity` promise.
    pub proof fn lemma_attach_detach_round_trip(
        w0: Self,
        w1: Self,
        w2: Self,
        e: int,
        c: ComponentId,
        v: V,
        removed: V,
    )
        requires
            w0.inv(),
            0 <= e < w0.entity_count(),
            !w0.components(e).contains_key(c),
            w1.components(e) == w0.components(e).insert(c, v),
            w1.location(e).hash == mix(w0.location(e).hash, c),
            removed == w1.components(e)[c],
            w2.components(e) == w1.components(e).remove(c),
            w2.location(e).hash == mix(w1.location(e).hash, c),
        ensures
            removed == v,
            w2.components(e) == w0.components(e),
            w2.location(e).hash == w0.location(e).hash,
    {
        assert(w2.components(e) =~= w0.components(e));
        crate::storage::lemma_mix_involutive(w0.location(e).hash, c);
    }

    /// Where `entity` is stored: its archetype's fingerprint and its row there.
    pub fn entity_location(&self, entity: EntityId) -> (r: Result<StorageLocation, EcsError>)
        requires
            self.inv(),
        ensures
            entity < self.entity_count() ==> r == Ok::<StorageLocation, EcsError>(self.location(entity as int)),
            entity >= self.entity_count() ==> r == Err::<StorageLocation, EcsError>(
                EcsError::WorldError(WorldError::InvalidEntityArchetype(entity)),
            ),
    {
        if entity < self.entity_map.len() {
            Ok(self.entity_map[entity])
        } else {
            Err(EcsError::WorldError(WorldError::InvalidEntityArchetype(entity)))
        }
    }

    /// The number of rows of the archetype table with fingerprint `hash`, if it exists.
    pub fn archetype_num_entities(&self, hash: ArchetypeHash) -> (r: Option<usize>)
        requires
            self.inv(),
        ensures
            r is Some <==> self.has_table(hash),
            r is Some ==> r->Some_0 == self.table_rows(hash),
    {
        match self.archetype_map.get_archetype_table(hash) {
            Some(table) => Some(table.num_entities()),
            None => None,
        }
    }

    /// Two entities that were given the same components in different orders end up in the
    /// same archetype, with the same value for every component.
    ///
    /// `order_a` and `order_b` list the (component id, value) pairs attached, in order, to entities
    /// that had no components; `add_component_to_entity` makes each entity's components
    /// `attached(Map::empty(), p)`.
    pub proof fn lemma_attach_order_fingerprint(
        w1: Self,
        e1: int,
        order_a: Seq<(ComponentId, V)>,
        w2: Self,
        e2: int,
        order_b: Seq<(ComponentId, V)>,
    )
        requires
            w1.inv(),
            w2.inv(),
            0 <= e1 < w1.entity_count(),
            0 <= e2 < w2.entity_count(),
            distinct_ids(order_a),
            distinct_ids(order_b),
            order_a.to_set() == order_b.to_set(),
            w1.components(e1) == attached(Map::<ComponentId, V>::empty(), order_a),
            w2.components(e2) == attached(Map::<ComponentId, V>::empty(), order_b),
        ensures
            w1.location(e1).hash == w2.location(e2).hash,
            w1.components(e1) == w2.components(e2),
    {
        lemma_attach_order_irrelevant(order_a, order_b);
        Self::lemma_same_components_same_fingerprint(w1, e1, w2, e2);
    }
}

} // verus!
