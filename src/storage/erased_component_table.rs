use vstd::prelude::*;

use super::component_table::ComponentTable;
use super::StorageError;
use crate::ComponentId;

verus! {

/// A column tagged with the component type it stores.
///
/// Archetype tables hold columns of many component types side by side; the tag is what
/// tells them apart, and every typed access checks it first.
pub struct ErasedComponentTable<V> {
    pub(crate) component_id: ComponentId,
    pub(crate) table: ComponentTable<V>,
}

impl<V> ErasedComponentTable<V> {
    /// The slots of the column, in row order.
    pub(crate) open spec fn rows(&self) -> Seq<Option<V>> {
        self.table.rows()
    }

    /// Creates an empty column for the component type `component_id`.
    pub(crate) fn new(component_id: ComponentId) -> (r: Self)
        ensures
            r.component_id == component_id,
            r.rows() == Seq::<Option<V>>::empty(),
    {
        ErasedComponentTable { component_id, table: ComponentTable::new() }
    }

    /// The typed column, provided that it stores `component_id`.
    pub(crate) fn as_component_table(&self, component_id: ComponentId) -> (r: Result<
        &ComponentTable<V>,
        StorageError,
    >)
        ensures
            component_id == self.component_id ==> r is Ok && r->Ok_0 == &self.table,
            component_id != self.component_id ==> r == Err::<&ComponentTable<V>, StorageError>(
                StorageError::FailedConcreteCast(component_id),
            ),
    {
        if component_id == self.component_id {
            Ok(&self.table)
        } else {
            Err(StorageError::FailedConcreteCast(component_id))
        }
    }

    /// Appends an empty slot for a new row.
    pub(crate) fn add_entity(&mut self)
        ensures
            final(self).component_id == old(self).component_id,
            final(self).rows() == old(self).rows().push(None),
    {
        self.table.add_entity();
    }

    /// Moves the slot at `src_row` of `self` into `dst_row` of `other`.
    ///
    /// `self` is compacted by moving its last slot into `src_row`. Both columns must store the
    /// same component type.
    pub(crate) fn move_entity(&mut self, other: &mut Self, src_row: usize, dst_row: usize) -> (r:
        Result<(), StorageError>)
        ensures
            final(self).component_id == old(self).component_id,
            final(other).component_id == old(other).component_id,
            r is Ok <==> (old(self).component_id == old(other).component_id && src_row < old(
                self,
            ).rows().len() && dst_row < old(other).rows().len()),
            old(self).component_id != old(other).component_id ==> r == Err::<(), StorageError>(
                StorageError::FailedConcreteCast(old(self).component_id),
            ),
            r is Ok ==> final(self).rows() == old(self).rows().update(
                src_row as int,
                old(self).rows().last(),
            ).drop_last() && final(other).rows() == old(other).rows().update(
                dst_row as int,
                old(self).rows()[src_row as int],
            ),
            r is Err ==> final(self).rows() == old(self).rows() && final(other).rows() == old(
                other,
            ).rows(),
    {
        if self.component_id != other.component_id {
            return Err(StorageError::FailedConcreteCast(self.component_id));
        }
        let len = self.table.len();
        if src_row >= len {
            return Err(StorageError::BadRow { row: src_row, len });
        }
        let other_len = other.table.len();
        if dst_row >= other_len {
            return Err(StorageError::BadRow { row: dst_row, len: other_len });
        }
        let value = self.table.swap_remove_entity(src_row);
        other.table.components.set(dst_row, value);
        Ok(())
    }

    /// A new, empty column of the same component type.
    pub(crate) fn clone_component_type(&self) -> (r: Self)
        ensures
            r.component_id == self.component_id,
            r.rows() == Seq::<Option<V>>::empty(),
    {
        ErasedComponentTable::new(self.component_id)
    }
}

} // verus!
