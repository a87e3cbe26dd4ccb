use vstd::prelude::*;

use super::StorageError;

verus! {

/// A dense column of optional values for one component type.
///
/// Slot `i` holds the value for row `i` of the archetype table that owns the column.
pub struct ComponentTable<V> {
    pub(crate) components: Vec<Option<V>>,
}

impl<V> ComponentTable<V> {
    /// The slots of the column, in row order.
    pub(crate) open spec fn rows(&self) -> Seq<Option<V>> {
        self.components@
    }

    /// Creates an empty column.
    pub(crate) fn new() -> (r: Self)
        ensures
            r.rows() == Seq::<Option<V>>::empty(),
    {
        ComponentTable { components: Vec::new() }
    }

    /// Number of rows in the column.
    pub(crate) fn len(&self) -> (r: usize)
        ensures
            r == self.rows().len(),
    {
        self.components.len()
    }

    /// Appends an empty slot for a new row.
    pub(crate) fn add_entity(&mut self)
        ensures
            final(self).rows() == old(self).rows().push(None),
    {
        self.components.push(None);
    }

    /// Writes `component` into `row` and returns the value it replaces.
    pub(crate) fn update_component_value(&mut self, row: usize, component: V) -> (r: Result<
        Option<V>,
        StorageError,
    >)
        ensures
            row < old(self).rows().len() ==> r == Ok::<Option<V>, StorageError>(
                old(self).rows()[row as int],
            ) && final(self).rows() == old(self).rows().update(row as int, Some(component)),
            row >= old(self).rows().len() ==> r == Err::<Option<V>, StorageError>(
                StorageError::BadRow { row, len: old(self).rows().len() as usize },
            ) && final(self).rows() == old(self).rows(),
    {
        let len = self.components.len();
        if row >= len {
            return Err(StorageError::BadRow { row, len });
        }
        let slot = &mut self.components[row];
        let prev = slot.take();
        *slot = Some(component);
        Ok(prev)
    }

    /// Removes `row` by moving the last slot into it, and returns the removed slot.
    pub(crate) fn swap_remove_entity(&mut self, row: usize) -> (r: Option<V>)
        requires
            row < old(self).rows().len(),
        ensures
            r == old(self).rows()[row as int],
            final(self).rows() == old(self).rows().update(row as int, old(self).rows().last()).drop_last(),
    {
        self.components.swap_remove(row)
    }

    /// The value at `row`, if the row exists and holds one.
    pub(crate) fn get(&self, row: usize) -> (r: Option<&V>)
        ensures
            row < self.rows().len() && self.rows()[row as int] is Some ==> r is Some && *r->Some_0
                == self.rows()[row as int]->Some_0,
            !(row < self.rows().len() && self.rows()[row as int] is Some) ==> r is None,
    {
        if row < self.components.len() {
            self.components[row].as_ref()
        } else {
            None
        }
    }
}

} // verus!
