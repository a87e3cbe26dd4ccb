use vstd::prelude::*;

use std::collections::HashMap;

use super::archetype_table::ArchetypeTable;
use super::ArchetypeHash;

verus! {

broadcast use vstd::std_specs::hash::group_hash_axioms;

/// The archetype tables, each reachable from its fingerprint.
pub struct ArchetypeMap<V> {
    pub(crate) tables: Vec<ArchetypeTable<V>>,
    pub(crate) index: HashMap<ArchetypeHash, usize>,
}

impl<V> ArchetypeMap<V> {
    /// The index maps each table's fingerprint to the table's position, and nothing else.
    pub(crate) open spec fn wf(&self) -> bool {
        &&& forall|h: ArchetypeHash| #[trigger]
            self.index@.contains_key(h) ==> self.index@[h] < self.tables@.len()
                && self.tables@[self.index@[h] as int].hash == h
        &&& forall|i: int|
            0 <= i < self.tables@.len() ==> self.index@.contains_key(
                (#[trigger] self.tables@[i]).hash,
            ) && self.index@[self.tables@[i].hash] == i
        &&& forall|i: int| 0 <= i < self.tables@.len() ==> (#[trigger] self.tables@[i]).wf()
    }

    pub(crate) open spec fn contains(&self, h: ArchetypeHash) -> bool {
        self.index@.contains_key(h)
    }

    /// The table whose fingerprint is `h`.
    pub(crate) open spec fn table(&self, h: ArchetypeHash) -> ArchetypeTable<V> {
        self.tables@[self.index@[h] as int]
    }

    /// Creates an empty archetype map.
    pub(crate) fn new() -> (r: Self)
        ensures
            r.wf(),
            r.tables@.len() == 0,
            forall|h: ArchetypeHash| !r.contains(h),
    {
        ArchetypeMap { tables: Vec::new(), index: HashMap::new() }
    }

    /// Adds a table under its own fingerprint.
    pub(crate) fn add_archetype_table(&mut self, table: ArchetypeTable<V>)
        requires
            old(self).wf(),
            table.wf(),
            !old(self).contains(table.hash),
        ensures
            final(self).wf(),
            final(self).tables@ == old(self).tables@.push(table),
            final(self).index@ == old(self).index@.insert(table.hash, old(self).tables@.len() as usize),
    {
        let position = self.tables.len();
        self.index.insert(table.hash, position);
        self.tables.push(table);
    }

    /// The position of the table with fingerprint `hash`, if there is one.
    pub(crate) fn table_index(&self, hash: ArchetypeHash) -> (r: Option<usize>)
        requires
            self.wf(),
        ensures
            r is Some <==> self.contains(hash),
            r is Some ==> r->Some_0 == self.index@[hash] && r->Some_0 < self.tables@.len(),
    {
        match self.index.get(&hash) {
            Some(i) => Some(*i),
            None => None,
        }
    }

    /// Gets the archetype table with the specified fingerprint.
    pub(crate) fn get_archetype_table(&self, hash: ArchetypeHash) -> (r: Option<&ArchetypeTable<V>>)
        requires
            self.wf(),
        ensures
            r is Some <==> self.contains(hash),
            r is Some ==> *r->Some_0 == self.table(hash),
    {
        match self.table_index(hash) {
            Some(i) => Some(&self.tables[i]),
            None => None,
        }
    }
}

} // verus!
