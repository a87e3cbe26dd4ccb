use vstd::prelude::*;

use std::collections::hash_map::DefaultHasher;
use std::hash::Hasher;
use vstd::set::fold::{is_fun_commutative, lemma_fold_empty, lemma_fold_insert};
use vstd::std_specs::hash::DefaultHasherAdditionalSpecFns;

use crate::ComponentId;

pub(crate) mod archetype_map;
pub(crate) mod archetype_table;
pub(crate) mod component_table;
pub(crate) mod erased_component_table;

verus! {

/// The fingerprint of an archetype: a 64-bit identity derived from its set of component ids.
pub type ArchetypeHash = u64;

/// Fingerprint of the archetype with no components.
pub const DEFAULT_ARCHETYPE_HASH: u64 = 0xffff_ffff_ffff_ffff;

/// Possible errors caused by storage types.
#[derive(Debug, PartialEq, Eq, Structural)]
pub enum StorageError {
    /// A row index outside the column.
    BadRow { row: usize, len: usize },
    /// The archetype table has no column for this component type.
    InvalidComponentTable(ComponentId),
    /// A column was used as a column of another component type.
    FailedConcreteCast(ComponentId),
}

/// The location of an entity: the fingerprint of its archetype table and its row there.
#[derive(Debug, Clone, Copy, PartialEq, Eq, Structural)]
pub struct StorageLocation {
    /// Fingerprint of the archetype.
    pub hash: ArchetypeHash,
    /// Row of the entity in the archetype table.
    pub row: usize,
}

/// The little-endian bytes of a component id, as they are fed to the hasher.
pub open spec fn id_bytes(id: ComponentId) -> Seq<u8> {
    seq![
        id as u8,
        (id >> 8u64) as u8,
        (id >> 16u64) as u8,
        (id >> 24u64) as u8,
        (id >> 32u64) as u8,
        (id >> 40u64) as u8,
        (id >> 48u64) as u8,
        (id >> 56u64) as u8,
    ]
}

/// The 64-bit hash of a component id: std's `DefaultHasher` over the id's bytes.
pub open spec fn spec_component_hash(id: ComponentId) -> u64 {
    DefaultHasher::spec_finish(seq![id_bytes(id)])
}

/// Toggles the component `id` in the fingerprint `fp`.
pub open spec fn mix(fp: u64, id: ComponentId) -> u64 {
    fp ^ spec_component_hash(id)
}

/// `mix` as a fold step.
pub open spec fn mix_step() -> spec_fn(u64, ComponentId) -> u64 {
    |fp: u64, id: ComponentId| mix(fp, id)
}

/// The fingerprint of a set of component ids: the sentinel mixed with every id of the set.
pub open spec fn fingerprint(ids: Set<ComponentId>) -> u64 {
    ids.fold(DEFAULT_ARCHETYPE_HASH, mix_step())
}

/// Hashes a component id.
pub fn component_hash(id: ComponentId) -> (r: u64)
    ensures
        r == spec_component_hash(id),
{
    let bytes: [u8; 8] = [
        id as u8,
        (id >> 8u64) as u8,
        (id >> 16u64) as u8,
        (id >> 24u64) as u8,
        (id >> 32u64) as u8,
        (id >> 40u64) as u8,
        (id >> 48u64) as u8,
        (id >> 56u64) as u8,
    ];
    assert(bytes@ =~= id_bytes(id));
    let mut hasher = DefaultHasher::new();
    hasher.write(bytes.as_slice());
    hasher.finish()
}

/// Mixing the same component id twice gives back the fingerprint.
pub proof fn lemma_mix_involutive(fp: u64, id: ComponentId)
    ensures
        mix(mix(fp, id), id) == fp,
{
    let h = spec_component_hash(id);
    assert((fp ^ h) ^ h == fp) by (bit_vector);
}

/// The order in which component ids are mixed does not matter.
pub proof fn lemma_mix_commutative()
    ensures
        is_fun_commutative(mix_step()),
{
    assert forall|a1: ComponentId, a2: ComponentId, b: u64|
        #[trigger] mix_step()(mix_step()(b, a2), a1) == mix_step()(mix_step()(b, a1), a2) by {
        let h1 = spec_component_hash(a1);
        let h2 = spec_component_hash(a2);
        assert((b ^ h2) ^ h1 == (b ^ h1) ^ h2) by (bit_vector);
    }
}

/// The archetype with no components has the sentinel fingerprint.
pub proof fn lemma_fingerprint_empty()
    ensures
        fingerprint(Set::<ComponentId>::empty()) == DEFAULT_ARCHETYPE_HASH,
{
    lemma_fold_empty(DEFAULT_ARCHETYPE_HASH, mix_step());
}

/// Adding a component id to an archetype mixes it into the fingerprint.
pub proof fn lemma_fingerprint_insert(ids: Set<ComponentId>, id: ComponentId)
    requires
        ids.finite(),
        !ids.contains(id),
    ensures
        fingerprint(ids.insert(id)) == mix(fingerprint(ids), id),
{
    lemma_mix_commutative();
    lemma_fold_insert(ids, DEFAULT_ARCHETYPE_HASH, mix_step(), id);
}

/// Removing a component id from an archetype mixes it out of the fingerprint.
pub proof fn lemma_fingerprint_remove(ids: Set<ComponentId>, id: ComponentId)
    requires
        ids.finite(),
        ids.contains(id),
    ensures
        fingerprint(ids.remove(id)) == mix(fingerprint(ids), id),
{
    lemma_fingerprint_insert(ids.remove(id), id);
    assert(ids.remove(id).insert(id) =~= ids);
    lemma_mix_involutive(fingerprint(ids.remove(id)), id);
}

} // verus!
