use vstd::prelude::*;

use super::erased_component_table::ErasedComponentTable;
use super::{ArchetypeHash, StorageError};
use crate::{ComponentId, EntityId};

verus! {

/// The columns of one archetype, all with the same number of rows.
///
/// Row `r` of every column belongs to the entity `entities[r]`.
pub struct ArchetypeTable<V> {
    pub(crate) hash: ArchetypeHash,
    pub(crate) entities: Vec<EntityId>,
    pub(crate) component_tables: Vec<ErasedComponentTable<V>>,
}

/// Extending a prefix by one element adds exactly that element.
pub(crate) proof fn lemma_prefix_step<A>(s: Seq<A>, i: int)
    requires
        0 <= i < s.len(),
    ensures
        forall|d: A| #[trigger]
            s.subrange(0, i + 1).contains(d) <==> s.subrange(0, i).contains(d) || d == s[i],
{
    let s0 = s.subrange(0, i);
    let s1 = s.subrange(0, i + 1);
    assert forall|d: A| #[trigger] s1.contains(d) <==> s0.contains(d) || d == s[i] by {
        if s1.contains(d) {
            let m = choose|m: int| 0 <= m < s1.len() && #[trigger] s1[m] == d;
            if m < i {
                assert(s0[m] == d);
            }
        }
        if s0.contains(d) {
            let m = choose|m: int| 0 <= m < s0.len() && #[trigger] s0[m] == d;
            assert(s1[m] == d);
        }
        if d == s[i] {
            assert(s1[i] == d);
        }
    }
}

impl<V> ArchetypeTable<V> {
    /// The component ids of the columns, in column order.
    pub(crate) open spec fn ids(&self) -> Seq<ComponentId> {
        self.component_tables@.map_values(|t: ErasedComponentTable<V>| t.component_id)
    }

    /// The set of component ids that have a column here.
    pub(crate) open spec fn column_set(&self) -> Set<ComponentId> {
        self.ids().to_set()
    }

    pub(crate) open spec fn has(&self, c: ComponentId) -> bool {
        self.ids().contains(c)
    }

    /// The column for `c`.
    pub(crate) open spec fn col(&self, c: ComponentId) -> Seq<Option<V>> {
        self.component_tables@[self.ids().index_of(c)].rows()
    }

    /// Number of rows.
    pub(crate) open spec fn n(&self) -> nat {
        self.entities@.len()
    }

    /// Column ids are distinct and every column has one slot per row.
    pub(crate) open spec fn wf(&self) -> bool {
        &&& self.ids().no_duplicates()
        &&& forall|i: int|
            0 <= i < self.component_tables@.len() ==> (#[trigger] self.component_tables@[i]).rows().len()
                == self.entities@.len()
    }

    /// Every column holds a value at every row.
    pub(crate) open spec fn full(&self) -> bool {
        forall|c: ComponentId, r: int|
            self.has(c) && 0 <= r < self.n() ==> (#[trigger] self.col(c)[r]) is Some
    }

    /// The components of row `r`, by component id.
    pub(crate) open spec fn row_components(&self, r: int) -> Map<ComponentId, V> {
        Map::new(|c: ComponentId| self.has(c), |c: ComponentId| self.col(c)[r]->Some_0)
    }

    /// The column at position `i` is the column of its component id.
    pub(crate) proof fn lemma_col_at(&self, i: int)
        requires
            self.wf(),
            0 <= i < self.component_tables@.len(),
        ensures
            self.has(self.component_tables@[i].component_id),
            self.ids().index_of(self.component_tables@[i].component_id) == i,
            self.col(self.component_tables@[i].component_id) == self.component_tables@[i].rows(),
    {
        let c = self.component_tables@[i].component_id;
        assert(self.ids()[i] == c);
        let j = self.ids().index_of(c);
        assert(self.ids()[j] == c);
    }

    /// The column set is finite and has one element per column.
    pub(crate) proof fn lemma_column_set(&self)
        requires
            self.wf(),
        ensures
            self.column_set().finite(),
            self.column_set().len() == self.component_tables@.len(),
            forall|c: ComponentId| self.has(c) <==> #[trigger] self.column_set().contains(c),
    {
        self.ids().unique_seq_to_set();
    }

    /// Creates an archetype table with no columns and no rows.
    pub(crate) fn new(hash: ArchetypeHash) -> (r: Self)
        ensures
            r.hash == hash,
            r.entities@ == Seq::<EntityId>::empty(),
            r.component_tables@ == Seq::<ErasedComponentTable<V>>::empty(),
            r.wf(),
    {
        ArchetypeTable { hash, entities: Vec::new(), component_tables: Vec::new() }
    }

    /// Returns the number of entities with this archetype.
    pub(crate) fn num_entities(&self) -> (r: usize)
        ensures
            r == self.n(),
    {
        self.entities.len()
    }

    /// The position of the column for `component_id`, if there is one.
    pub(crate) fn find_column(&self, component_id: ComponentId) -> (r: Option<usize>)
        requires
            self.wf(),
        ensures
            r is Some ==> r->Some_0 < self.component_tables@.len() && self.component_tables@[r->Some_0 as int].component_id
                == component_id && self.ids().index_of(component_id) == r->Some_0,
            r is None <==> !self.has(component_id),
    {
        let mut i: usize = 0;
        while i < self.component_tables.len()
            invariant
                self.wf(),
                0 <= i <= self.component_tables@.len(),
                forall|j: int| 0 <= j < i ==> self.component_tables@[j].component_id != component_id,
            decreases self.component_tables@.len() - i,
        {
            if self.component_tables[i].component_id == component_id {
                proof {
                    self.lemma_col_at(i as int);
                }
                return Some(i);
            }
            i = i + 1;
        }
        proof {
            if self.has(component_id) {
                let j = self.ids().index_of(component_id);
                assert(self.ids()[j] == component_id);
            }
        }
        None
    }

    /// Checks if the archetype table has a column for `component_id`.
    pub(crate) fn contains_component(&self, component_id: ComponentId) -> (r: bool)
        requires
            self.wf(),
        ensures
            r == self.has(component_id),
    {
        self.find_column(component_id).is_some()
    }

    /// Appends a row for `entity`, with an empty slot in every column.
    pub(crate) fn add_entity(&mut self, entity: EntityId)
        requires
            old(self).wf(),
        ensures
            final(self).wf(),
            final(self).hash == old(self).hash,
            final(self).ids() == old(self).ids(),
            final(self).entities@ == old(self).entities@.push(entity),
            forall|c: ComponentId| #[trigger]
                old(self).has(c) ==> final(self).col(c) == old(self).col(c).push(None),
    {
        let ghost old_tables = self.component_tables@;
        let mut i: usize = 0;
        while i < self.component_tables.len()
            invariant
                self.hash == old(self).hash,
                self.entities == old(self).entities,
                self.component_tables@.len() == old_tables.len(),
                old_tables == old(self).component_tables@,
                0 <= i <= self.component_tables@.len(),
                forall|j: int|
                    0 <= j < i ==> (#[trigger] self.component_tables@[j]).component_id
                        == old_tables[j].component_id && self.component_tables@[j].rows()
                        == old_tables[j].rows().push(None),
                forall|j: int|
                    i <= j < self.component_tables@.len() ==> #[trigger] self.component_tables@[j]
                        == old_tables[j],
            decreases self.component_tables@.len() - i,
        {
            self.component_tables[i].add_entity();
            i = i + 1;
        }
        self.entities.push(entity);
        assert(self.ids() =~= old(self).ids());
    }

    /// Writes `component` into the column for `component_id` at `row`; returns the value it
    /// replaces.
    pub(crate) fn update_component_value(
        &mut self,
        row: usize,
        component_id: ComponentId,
        component: V,
    ) -> (r: Result<Option<V>, StorageError>)
        requires
            old(self).wf(),
        ensures
            final(self).wf(),
            final(self).hash == old(self).hash,
            final(self).ids() == old(self).ids(),
            final(self).entities == old(self).entities,
            !old(self).has(component_id) ==> r == Err::<Option<V>, StorageError>(
                StorageError::InvalidComponentTable(component_id),
            ),
            old(self).has(component_id) && row >= old(self).n() ==> r is Err,
            r is Ok <==> old(self).has(component_id) && row < old(self).n(),
            r is Ok ==> r->Ok_0 == old(self).col(component_id)[row as int] && final(self).col(
                component_id,
            ) == old(self).col(component_id).update(row as int, Some(component)),
            forall|c: ComponentId| #[trigger]
                old(self).has(c) && c != component_id ==> final(self).col(c) == old(self).col(c),
    {
        match self.find_column(component_id) {
            None => Err(StorageError::InvalidComponentTable(component_id)),
            Some(i) => {
                proof {
                    self.lemma_col_at(i as int);
                }
                let column = &mut self.component_tables[i];
                let r = column.table.update_component_value(row, component);
                proof {
                    assert(self.ids() =~= old(self).ids());
                    assert forall|c: ComponentId| #[trigger]
                        old(self).has(c) && c != component_id implies self.col(c) == old(self).col(
                            c,
                        ) by {
                        let j = old(self).ids().index_of(c);
                        assert(old(self).ids()[j] == c);
                    }
                }
                r
            },
        }
    }

    /// Moves the entity at `src_row` of `self` into the (already added) row `dst_row` of
    /// `other`.
    ///
    /// Each column that both tables have carries its value over; a column that only `self` has
    /// drops it; a column that only `other` has is left for the caller to fill. `self` is
    /// compacted by moving its last row into `src_row`.
    ///
    /// Returns the value that the column for `taken` held at `src_row`, where `other` has no
    /// such column.
    pub(crate) fn move_entity(
        &mut self,
        other: &mut Self,
        src_row: usize,
        dst_row: usize,
        taken: ComponentId,
    ) -> (r: Option<V>)
        requires
            old(self).wf(),
            old(other).wf(),
            src_row < old(self).n(),
            dst_row < old(other).n(),
        ensures
            final(self).wf(),
            final(other).wf(),
            final(self).hash == old(self).hash,
            final(other).hash == old(other).hash,
            final(self).ids() == old(self).ids(),
            final(other).ids() == old(other).ids(),
            final(self).entities@ == old(self).entities@.update(
                src_row as int,
                old(self).entities@.last(),
            ).drop_last(),
            final(other).entities == old(other).entities,
            old(self).has(taken) && !old(other).has(taken) ==> r == old(self).col(taken)[src_row as int],
            forall|c: ComponentId| #[trigger]
                old(self).has(c) ==> final(self).col(c) == old(self).col(c).update(
                    src_row as int,
                    old(self).col(c).last(),
                ).drop_last(),
            forall|c: ComponentId| #[trigger]
                old(other).has(c) ==> final(other).col(c) == if old(self).has(c) {
                    old(other).col(c).update(dst_row as int, old(self).col(c)[src_row as int])
                } else {
                    old(other).col(c)
                },
    {
        let ghost old_self = *old(self);
        let ghost old_other = *old(other);
        let mut taken_value: Option<V> = None;
        let mut i: usize = 0;
        while i < self.component_tables.len()
            invariant
                old_self.ids().subrange(0, i as int).contains(taken) && !old_other.has(taken)
                    ==> taken_value == old_self.col(taken)[src_row as int],
                old_self == *old(self),
                old_other == *old(other),
                old_self.wf(),
                old_other.wf(),
                src_row < old_self.n(),
                dst_row < old_other.n(),
                self.hash == old_self.hash,
                self.entities == old_self.entities,
                other.hash == old_other.hash,
                other.entities == old_other.entities,
                self.component_tables@.len() == old_self.component_tables@.len(),
                other.component_tables@.len() == old_other.component_tables@.len(),
                0 <= i <= self.component_tables@.len(),
                forall|j: int|
                    0 <= j < self.component_tables@.len() ==> (#[trigger] self.component_tables@[j]).component_id
                        == old_self.component_tables@[j].component_id,
                forall|k: int|
                    0 <= k < other.component_tables@.len() ==> (#[trigger] other.component_tables@[k]).component_id
                        == old_other.component_tables@[k].component_id,
                forall|j: int|
                    0 <= j < i ==> (#[trigger] self.component_tables@[j]).rows()
                        == old_self.component_tables@[j].rows().update(
                        src_row as int,
                        old_self.component_tables@[j].rows().last(),
                    ).drop_last(),
                forall|j: int|
                    i <= j < self.component_tables@.len() ==> (#[trigger] self.component_tables@[j]).rows()
                        == old_self.component_tables@[j].rows(),
                forall|k: int|
                    0 <= k < other.component_tables@.len() ==> (#[trigger] other.component_tables@[k]).rows()
                        == if old_self.ids().subrange(0, i as int).contains(
                        old_other.ids()[k],
                    ) {
                        old_other.component_tables@[k].rows().update(
                            dst_row as int,
                            old_self.col(old_other.ids()[k])[src_row as int],
                        )
                    } else {
                        old_other.component_tables@[k].rows()
                    },
            decreases self.component_tables@.len() - i,
        {
            let component_id = self.component_tables[i].component_id;
            proof {
                old_self.lemma_col_at(i as int);
                assert(old_self.ids()[i as int] == component_id);
            }
            let ghost pre_other = other.component_tables@;
            let ghost pre_col = self.component_tables@[i as int];
            let ghost mut moved_to: int = -1;
            assert(other.ids() =~= old_other.ids());
            match other.find_column(component_id) {
                Some(j) => {
                    proof {
                        old_other.lemma_col_at(j as int);
                        moved_to = j as int;
                    }
                    let _ = self.component_tables[i].move_entity(
                        &mut other.component_tables[j],
                        src_row,
                        dst_row,
                    );
                    assert(other.component_tables@[j as int].rows() == pre_other[j as int].rows().update(
                        dst_row as int,
                        pre_col.rows()[src_row as int],
                    ));
                },
                None => {
                    let value = self.component_tables[i].table.swap_remove_entity(src_row);
                    if component_id == taken {
                        taken_value = value;
                    }
                },
            }
            assert(forall|k: int|
                0 <= k < other.component_tables@.len() && k != moved_to ==> #[trigger] other.component_tables@[k]
                    == pre_other[k]);
            assert(moved_to != -1 ==> old_other.ids()[moved_to] == component_id);
            assert(moved_to == -1 ==> !old_other.has(component_id));
            assert(pre_col.rows() == old_self.col(component_id));
            proof {
                assert forall|k: int| 0 <= k < other.component_tables@.len() implies (
                #[trigger] other.component_tables@[k]).rows() == if old_self.ids().subrange(
                    0,
                    i + 1,
                ).contains(old_other.ids()[k]) {
                    old_other.component_tables@[k].rows().update(
                        dst_row as int,
                        old_self.col(old_other.ids()[k])[src_row as int],
                    )
                } else {
                    old_other.component_tables@[k].rows()
                } by {
                    let c = old_other.ids()[k];
                    lemma_prefix_step(old_self.ids(), i as int);
                    let s0 = old_self.ids().subrange(0, i as int);
                    let s1 = old_self.ids().subrange(0, i + 1);
                    if c == component_id {
                        if moved_to == -1 {
                            assert(old_other.ids()[k] == c);
                        } else {
                            assert(old_other.ids().no_duplicates());
                            assert(k == moved_to);
                        }
                        assert(s1[i as int] == c);
                        assert(!s0.contains(c)) by {
                            if s0.contains(c) {
                                let m = choose|m: int| 0 <= m < s0.len() && #[trigger] s0[m] == c;
                                assert(old_self.ids()[m] == c);
                            }
                        }
                    } else {
                        if s1.contains(c) {
                            let m = choose|m: int| 0 <= m < s1.len() && #[trigger] s1[m] == c;
                            assert(s0[m] == c);
                        }
                        if s0.contains(c) {
                            let m = choose|m: int| 0 <= m < s0.len() && #[trigger] s0[m] == c;
                            assert(s1[m] == c);
                        }
                    }
                }
            }
            proof {
                lemma_prefix_step(old_self.ids(), i as int);
                if old_self.ids().subrange(0, i + 1).contains(taken) && !old_other.has(taken) {
                    if taken != component_id {
                        assert(old_self.ids().subrange(0, i as int).contains(taken));
                    }
                }
            }
            i = i + 1;
        }
        self.entities.swap_remove(src_row);
        proof {
            assert(self.ids() =~= old_self.ids());
            assert(other.ids() =~= old_other.ids());
            assert(old_self.ids().subrange(0, old_self.ids().len() as int) =~= old_self.ids());
            assert(old_self.ids().subrange(0, old_self.ids().len() as int).contains(taken) == old_self.has(taken));
            assert forall|c: ComponentId| #[trigger]
                old_self.has(c) implies self.col(c) == old_self.col(c).update(
                    src_row as int,
                    old_self.col(c).last(),
                ).drop_last() by {
                let j = old_self.ids().index_of(c);
                assert(old_self.ids()[j] == c);
            }
            assert forall|c: ComponentId| #[trigger]
                old_other.has(c) implies other.col(c) == if old_self.has(c) {
                    old_other.col(c).update(dst_row as int, old_self.col(c)[src_row as int])
                } else {
                    old_other.col(c)
                } by {
                let k = old_other.ids().index_of(c);
                assert(old_other.ids()[k] == c);
            }
            assert forall|j: int| 0 <= j < self.component_tables@.len() implies (
            #[trigger] self.component_tables@[j]).rows().len() == self.entities@.len() by {
                assert(old_self.component_tables@[j].rows().len() == old_self.entities@.len());
            }
            assert forall|k: int| 0 <= k < other.component_tables@.len() implies (
            #[trigger] other.component_tables@[k]).rows().len() == other.entities@.len() by {
                assert(old_other.component_tables@[k].rows().len() == old_other.entities@.len());
                let c = old_other.ids()[k];
                if old_self.has(c) {
                    let j = old_self.ids().index_of(c);
                    assert(old_self.ids()[j] == c);
                    assert(old_self.component_tables@[j].rows().len() == old_self.entities@.len());
                }
            }
        }
        taken_value
    }

    /// Adds an empty column for every column of `other`.
    pub(crate) fn new_component_tables_from(&mut self, other: &Self)
        requires
            old(self).wf(),
            old(self).component_tables@.len() == 0,
            old(self).n() == 0,
            other.wf(),
        ensures
            final(self).wf(),
            final(self).hash == old(self).hash,
            final(self).entities == old(self).entities,
            final(self).ids() == other.ids(),
    {
        let mut i: usize = 0;
        while i < other.component_tables.len()
            invariant
                other.wf(),
                self.hash == old(self).hash,
                self.entities == old(self).entities,
                self.entities@.len() == 0,
                0 <= i <= other.component_tables@.len(),
                self.ids() == other.ids().subrange(0, i as int),
                forall|j: int|
                    0 <= j < self.component_tables@.len() ==> (#[trigger] self.component_tables@[j]).rows().len()
                        == 0,
            decreases other.component_tables@.len() - i,
        {
            let ghost prev = self.ids();
            let column = other.component_tables[i].clone_component_type();
            self.component_tables.push(column);
            assert(self.ids() =~= prev.push(other.ids()[i as int]));
            assert(self.ids() =~= other.ids().subrange(0, i + 1));
            i = i + 1;
        }
        assert(other.ids().subrange(0, other.ids().len() as int) =~= other.ids());
    }

    /// Adds an empty column for every column of `other` except the one for `excluded`.
    pub(crate) fn new_component_tables_with(&mut self, other: &Self, excluded: ComponentId)
        requires
            old(self).wf(),
            old(self).component_tables@.len() == 0,
            old(self).n() == 0,
            other.wf(),
        ensures
            final(self).wf(),
            final(self).hash == old(self).hash,
            final(self).entities == old(self).entities,
            forall|c: ComponentId| #[trigger] final(self).has(c) <==> other.has(c) && c != excluded,
    {
        let mut i: usize = 0;
        while i < other.component_tables.len()
            invariant
                other.wf(),
                self.hash == old(self).hash,
                self.entities == old(self).entities,
                self.entities@.len() == 0,
                0 <= i <= other.component_tables@.len(),
                self.ids().no_duplicates(),
                forall|c: ComponentId| #[trigger]
                    self.has(c) <==> other.ids().subrange(0, i as int).contains(c) && c != excluded,
                forall|j: int|
                    0 <= j < self.component_tables@.len() ==> (#[trigger] self.component_tables@[j]).rows().len()
                        == 0,
            decreases other.component_tables@.len() - i,
        {
            let ghost prev = self.ids();
            let ghost s0 = other.ids().subrange(0, i as int);
            let ghost s1 = other.ids().subrange(0, i + 1);
            assert forall|d: ComponentId| #[trigger]
                prev.contains(d) <==> s0.contains(d) && d != excluded by {
                assert(self.has(d) == prev.contains(d));
            }
            let c = other.component_tables[i].component_id;
            assert(other.ids()[i as int] == c);
            assert(!s0.contains(c)) by {
                if s0.contains(c) {
                    let m = choose|m: int| 0 <= m < s0.len() && #[trigger] s0[m] == c;
                    assert(other.ids()[m] == c);
                }
            }
            assert forall|d: ComponentId| #[trigger] s1.contains(d) <==> s0.contains(d) || d == c by {
                assert(s1[i as int] == c);
                if s1.contains(d) {
                    let m = choose|m: int| 0 <= m < s1.len() && #[trigger] s1[m] == d;
                    if m < i {
                        assert(s0[m] == d);
                    }
                }
                if s0.contains(d) {
                    let m = choose|m: int| 0 <= m < s0.len() && #[trigger] s0[m] == d;
                    assert(s1[m] == d);
                }
            }
            if c != excluded {
                assert(!prev.contains(c)) by {
                    if prev.contains(c) {
                        let m = choose|m: int| 0 <= m < prev.len() && #[trigger] prev[m] == c;
                        assert(self.has(prev[m]));
                    }
                }
                let column = other.component_tables[i].clone_component_type();
                self.component_tables.push(column);
                assert(self.ids() =~= prev.push(c));
                assert(self.ids().no_duplicates()) by {
                    assert forall|x: int, y: int|
                        0 <= x < self.ids().len() && 0 <= y < self.ids().len() && x != y implies
                        self.ids()[x] != self.ids()[y] by {
                        if x < prev.len() && y < prev.len() {
                            assert(prev[x] != prev[y]);
                        } else if x < prev.len() {
                            assert(prev.contains(prev[x]));
                        } else if y < prev.len() {
                            assert(prev.contains(prev[y]));
                        }
                    }
                }
                assert forall|d: ComponentId| #[trigger]
                    self.has(d) <==> prev.contains(d) || d == c by {
                    if self.has(d) {
                        let m = choose|m: int| 0 <= m < self.ids().len() && #[trigger] self.ids()[m] == d;
                        if m < prev.len() {
                            assert(prev[m] == d);
                        }
                    }
                    if prev.contains(d) {
                        let m = choose|m: int| 0 <= m < prev.len() && #[trigger] prev[m] == d;
                        assert(self.ids()[m] == d);
                    }
                    if d == c {
                        assert(self.ids()[prev.len() as int] == d);
                    }
                }
            }
            assert forall|d: ComponentId| #[trigger]
                self.has(d) <==> s1.contains(d) && d != excluded by {
                if c != excluded {
                    assert(self.has(d) <==> prev.contains(d) || d == c);
                } else {
                    assert(self.ids() == prev);
                }
                assert(prev.contains(d) <==> s0.contains(d) && d != excluded);
                assert(s1.contains(d) <==> s0.contains(d) || d == c);
            }
            i = i + 1;
        }
        assert(other.ids().subrange(0, other.ids().len() as int) =~= other.ids());
    }

    /// Adds an empty column for `component_id` to a table without rows.
    pub(crate) fn add_new_component_table(&mut self, component_id: ComponentId)
        requires
            old(self).wf(),
            old(self).n() == 0,
            !old(self).has(component_id),
        ensures
            final(self).wf(),
            final(self).hash == old(self).hash,
            final(self).entities == old(self).entities,
            final(self).ids() == old(self).ids().push(component_id),
    {
        self.component_tables.push(ErasedComponentTable::new(component_id));
        assert(self.ids() =~= old(self).ids().push(component_id));
    }

    /// The value of `component_id` at `row`; `Ok(None)` where the row holds none.
    pub(crate) fn get_component(&self, row: usize, component_id: ComponentId) -> (r: Result<
        Option<&V>,
        StorageError,
    >)
        requires
            self.wf(),
        ensures
            !self.has(component_id) ==> r == Err::<Option<&V>, StorageError>(
                StorageError::InvalidComponentTable(component_id),
            ),
            self.has(component_id) && row < self.n() && self.col(component_id)[row as int] is Some
                ==> r is Ok && r->Ok_0 is Some && *r->Ok_0->Some_0 == self.col(
                component_id,
            )[row as int]->Some_0,
            self.has(component_id) && !(row < self.n() && self.col(component_id)[row as int] is Some)
                ==> r is Ok && r->Ok_0 is None,
    {
        match self.find_column(component_id) {
            None => Err(StorageError::InvalidComponentTable(component_id)),
            Some(i) => {
                proof {
                    self.lemma_col_at(i as int);
                }
                let column = self.component_tables[i].as_component_table(component_id)?;
                Ok(column.get(row))
            },
        }
    }

    /// `after` is `before` with the value of `c` at `row` replaced by `v`.
    pub(crate) open spec fn value_replaced(before: Self, after: Self, c: ComponentId, row: int, v: V) -> bool {
        &&& after.hash == before.hash
        &&& after.entities == before.entities
        &&& after.component_tables@.len() == before.component_tables@.len()
        &&& forall|i: int|
            0 <= i < before.component_tables@.len() ==> (#[trigger] after.component_tables@[i]).component_id
                == before.component_tables@[i].component_id && after.component_tables@[i].rows() == if before.component_tables@[i].component_id
                == c {
                before.component_tables@[i].rows().update(row, Some(v))
            } else {
                before.component_tables@[i].rows()
            }
    }

    /// What `value_replaced` means column by column.
    pub(crate) proof fn lemma_value_replaced(before: Self, after: Self, c: ComponentId, row: int, v: V)
        requires
            before.wf(),
            before.has(c),
            0 <= row < before.n(),
            Self::value_replaced(before, after, c, row, v),
        ensures
            after.wf(),
            after.ids() == before.ids(),
            after.col(c) == before.col(c).update(row, Some(v)),
            forall|d: ComponentId| #[trigger] before.has(d) && d != c ==> after.col(d) == before.col(d),
    {
        assert(after.ids() =~= before.ids());
        let i = before.ids().index_of(c);
        assert(before.ids()[i] == c);
        assert forall|d: ComponentId| #[trigger] before.has(d) && d != c implies after.col(d) == before.col(d) by {
            let j = before.ids().index_of(d);
            assert(before.ids()[j] == d);
        }
    }

    /// A mutable reference to the value of `component_id` at `row`.
    pub(crate) fn get_component_mut(&mut self, row: usize, component_id: ComponentId) -> (r: &mut V)
        requires
            old(self).wf(),
            old(self).has(component_id),
            row < old(self).n(),
            old(self).col(component_id)[row as int] is Some,
        ensures
            *r == old(self).col(component_id)[row as int]->Some_0,
            Self::value_replaced(*old(self), *final(self), component_id, row as int, *final(r)),
    {
        let i = self.find_column(component_id).unwrap();
        proof {
            self.lemma_col_at(i as int);
            assert(self.ids().no_duplicates());
            assert forall|j: int| 0 <= j < self.component_tables@.len() && j != i implies
                #[trigger] self.component_tables@[j].component_id != component_id by {
                assert(self.ids()[j] == self.component_tables@[j].component_id);
                assert(self.ids()[i as int] == component_id);
            }
        }
        let column = &mut self.component_tables[i];
        let slot = &mut column.table.components[row];
        slot.as_mut().unwrap()
    }

    /// Whether the columns of `self` are those of `base` with `toggled` added or removed.
    pub(crate) fn columns_match(&self, base: &Self, toggled: ComponentId) -> (r: bool)
        requires
            self.wf(),
            base.wf(),
        ensures
            r <==> forall|d: ComponentId| #[trigger]
                self.has(d) <==> if d == toggled {
                    !base.has(d)
                } else {
                    base.has(d)
                },
    {
        if self.contains_component(toggled) == base.contains_component(toggled) {
            return false;
        }
        let mut i: usize = 0;
        while i < self.component_tables.len()
            invariant
                self.wf(),
                base.wf(),
                0 <= i <= self.component_tables@.len(),
                forall|j: int|
                    0 <= j < i ==> #[trigger] self.ids()[j] == toggled || base.has(self.ids()[j]),
            decreases self.component_tables@.len() - i,
        {
            let d = self.component_tables[i].component_id;
            assert(self.ids()[i as int] == d);
            if d != toggled && !base.contains_component(d) {
                assert(self.has(d));
                return false;
            }
            i = i + 1;
        }
        let mut k: usize = 0;
        while k < base.component_tables.len()
            invariant
                self.wf(),
                base.wf(),
                0 <= k <= base.component_tables@.len(),
                forall|j: int|
                    0 <= j < k ==> #[trigger] base.ids()[j] == toggled || self.has(base.ids()[j]),
            decreases base.component_tables@.len() - k,
        {
            let d = base.component_tables[k].component_id;
            assert(base.ids()[k as int] == d);
            if d != toggled && !self.contains_component(d) {
                assert(base.has(d));
                return false;
            }
            k = k + 1;
        }
        assert forall|d: ComponentId| #[trigger]
            self.has(d) <==> if d == toggled {
                !base.has(d)
            } else {
                base.has(d)
            } by {
            if self.has(d) && d != toggled {
                let j = self.ids().index_of(d);
                assert(self.ids()[j] == d);
            }
            if base.has(d) && d != toggled {
                let j = base.ids().index_of(d);
                assert(base.ids()[j] == d);
            }
        }
        true
    }

    /// Whether the table has a column for every id in `component_ids`.
    pub(crate) fn contains_all(&self, component_ids: &Vec<ComponentId>) -> (r: bool)
        requires
            self.wf(),
        ensures
            r <==> forall|k: int| 0 <= k < component_ids@.len() ==> self.has(#[trigger] component_ids@[k]),
    {
        let mut k: usize = 0;
        while k < component_ids.len()
            invariant
                self.wf(),
                0 <= k <= component_ids@.len(),
                forall|j: int| 0 <= j < k ==> self.has(#[trigger] component_ids@[j]),
            decreases component_ids@.len() - k,
        {
            if !self.contains_component(component_ids[k]) {
                return false;
            }
            k = k + 1;
        }
        true
    }
}

} // verus!
