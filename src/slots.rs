use vstd::prelude::*;
use slotmap::{DefaultKey, Key, KeyData, SlotMap};

verus! {

/// A slot map from entity keys to positions in a store. Verus sees it only
/// through the names and functions below.
#[verifier::external_body]
pub struct PositionSlots {
    map: SlotMap<DefaultKey, usize>,
}

/// What the slot map holds: each live key, as the number that
/// `KeyData::as_ffi` gives for it, mapped to its value.
pub uninterp spec fn slot_positions(m: PositionSlots) -> Map<u64, usize>;

/// The length of the slot map's internal slot vector (live and free slots,
/// and the sentinel slot).
pub uninterp spec fn slot_count(m: PositionSlots) -> nat;

/// Relies on `SlotMap::with_capacity`: the map starts empty, with only its
/// sentinel slot.
#[verifier::external_body]
pub(crate) fn slots_with_capacity(capacity: usize) -> (r: PositionSlots)
    requires
        capacity <= 0x1_0000,
    ensures
        slot_positions(r).dom() == Set::<u64>::empty(),
        slot_count(r) <= 1,
{
    PositionSlots { map: SlotMap::with_capacity(capacity) }
}

/// Relies on `SlotMap::insert` and `KeyData::as_ffi`: the value is stored
/// under a key that no live entry has, and at most one slot is added. The
/// insert panics only when no slot is free and the slot vector already
/// holds `u32::MAX` slots.
#[verifier::external_body]
pub(crate) fn slots_insert(m: &mut PositionSlots, value: usize) -> (k: u64)
    requires
        slot_count(*old(m)) < u32::MAX,
    ensures
        !slot_positions(*old(m)).contains_key(k),
        slot_positions(*final(m)) == slot_positions(*old(m)).insert(k, value),
        slot_count(*final(m)) <= slot_count(*old(m)) + 1,
{
    m.map.insert(value).data().as_ffi()
}

/// Relies on `SlotMap::get` and `KeyData::from_ffi`: a number that
/// `as_ffi` gave for a live key finds that key's value.
#[verifier::external_body]
pub(crate) fn slots_get(m: &PositionSlots, k: u64) -> (r: Option<usize>)
    ensures
        slot_positions(*m).contains_key(k) ==> r == Some(slot_positions(*m)[k]),
{
    m.map.get(DefaultKey::from(KeyData::from_ffi(k))).copied()
}

} // verus!
