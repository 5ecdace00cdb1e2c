//! The map from the storage of a shared data buffer to the slot that the
//! builder gave it, kept in hashbrown's `HashMap`.

use vstd::prelude::*;

verus! {

/// hashbrown's `HashMap` from storage ids to buffer slots. hashbrown's map
/// carries an allocator parameter bounded by a trait that the crate does not
/// export, so the map is held here, out of Verus's sight, and read only
/// through the functions below.
#[verifier::external_body]
pub struct SlotMap {
    map: hashbrown::HashMap<u64, u32>,
}

/// The entries of a map from storage ids to buffer slots.
pub uninterp spec fn slot_entries(m: &SlotMap) -> Map<u64, u32>;

/// `hashbrown::HashMap::new`: a map without entries.
#[verifier::external_body]
pub(crate) fn slot_map_new() -> (slots: SlotMap)
    ensures
        slot_entries(&slots).dom().is_empty(),
{
    SlotMap { map: hashbrown::HashMap::new() }
}

/// `hashbrown::HashMap::get`: the slot stored under `id`, if any.
#[verifier::external_body]
pub(crate) fn slot_map_get(m: &SlotMap, id: u64) -> (r: Option<u32>)
    ensures
        slot_entries(m).dom().contains(id) ==> r == Some(slot_entries(m)[id]),
        !slot_entries(m).dom().contains(id) ==> r is None,
{
    m.map.get(&id).copied()
}

/// `hashbrown::HashMap::insert`: stores `slot` under `id`, replacing what
/// was there.
#[verifier::external_body]
pub(crate) fn slot_map_insert(m: &mut SlotMap, id: u64, slot: u32)
    ensures
        slot_entries(final(m)) == slot_entries(old(m)).insert(id, slot),
{
    m.map.insert(id, slot);
}

/// `hashbrown::HashMap::clear`: removes every entry.
#[verifier::external_body]
pub(crate) fn slot_map_clear(slots: &mut SlotMap)
    ensures
        slot_entries(final(slots)).dom().is_empty(),
{
    slots.map.clear();
}

} // verus!
