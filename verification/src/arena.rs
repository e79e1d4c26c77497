use vstd::prelude::*;
use crate::network::{same_record, NodeHierarchy};
use crate::payload::{slot_of, storable};

verus! {

/// The slot map that stores the node records under generational keys.
///
/// A key is handled as the 64-bit integer that `KeyData::as_ffi` gives for it.
#[verifier::external_body]
pub struct NodeArena {
    slots: slotmap::SlotMap<slotmap::DefaultKey, NodeHierarchy>,
}

/// The records held by the arena, by key.
pub uninterp spec fn arena_entries(a: NodeArena) -> Map<u64, NodeHierarchy>;

/// The keys that the arena has held and holds no more: those under which a
/// record was removed from it, or from the arena that it is a clone of.
pub uninterp spec fn arena_retired(a: NodeArena) -> Set<u64>;

/// How many removals an arena takes before the generation of a slot can
/// come round again: a slot's generation is a 32-bit number that grows by
/// two with each record that the slot has held.
pub const MAX_RETIRED: u64 = 0x8000_0000;

/// The integers that stand for a key: those with an odd generation, which is
/// what `KeyData::from_ffi` maps to a key with the same integer.
pub open spec fn is_key(k: u64) -> bool {
    k & 0x1_0000_0000 != 0
}

/// `SlotMap::with_key`: an arena without records, which has held none.
#[verifier::external_body]
pub(crate) fn arena_new() -> (a: NodeArena)
    ensures
        arena_entries(a) == (Map::<u64, NodeHierarchy>::empty()),
        arena_retired(a) == Set::<u64>::empty(),
{
    NodeArena { slots: slotmap::SlotMap::with_key() }
}

/// `copy` has the keys of `a`, and under each key a record with the same data.
pub open spec fn same_entries(a: Map<u64, NodeHierarchy>, copy: Map<u64, NodeHierarchy>) -> bool {
    &&& a.dom() == copy.dom()
    &&& forall|k: u64| #[trigger] a.dom().contains(k) ==> same_record(a[k], copy[k])
}

/// `SlotMap::clone`: an arena with the same keys, which holds under each key
/// the clone of the record; every slot keeps its generation, so that the
/// same keys count as held before.
#[verifier::external_body]
pub(crate) fn arena_clone(a: &NodeArena) -> (copy: NodeArena)
    ensures
        same_entries(arena_entries(*a), arena_entries(copy)),
        arena_retired(copy) == arena_retired(*a),
{
    NodeArena { slots: a.slots.clone() }
}

/// `SlotMap::len`: the number of records.
#[verifier::external_body]
pub(crate) fn arena_len(a: &NodeArena) -> (n: usize)
    ensures
        n == arena_entries(*a).dom().len(),
{
    a.slots.len()
}

/// `SlotMap::keys`: the keys of all records, each once, in the order of
/// their slots.
#[verifier::external_body]
pub(crate) fn arena_keys(a: &NodeArena) -> (keys: Vec<u64>)
    ensures
        keys@.no_duplicates(),
        forall|k: u64| keys@.contains(k) <==> arena_entries(*a).dom().contains(k),
{
    a.slots.keys().map(|k| slotmap::Key::data(&k).as_ffi()).collect()
}

/// `SlotMap::insert`: the record is stored under a new key, which stands
/// for a slot that no live record is in and that is not the last of all.
/// The key is the slot with the generation that follows the last one that
/// the slot had, so that it is none of the keys held before, as long as no
/// generation has come round: that takes `MAX_RETIRED` removals. The slot
/// map panics when all of its 2^32 - 2 slots are taken, which the bound on
/// the number of records rules out.
#[verifier::external_body]
pub(crate) fn arena_insert(a: &mut NodeArena, rec: NodeHierarchy) -> (k: u64)
    requires
        arena_entries(*old(a)).dom().len() < 0xffff_fffe,
        arena_retired(*old(a)).finite(),
        arena_retired(*old(a)).len() < MAX_RETIRED,
    ensures
        storable(k),
        forall|j: u64| arena_entries(*old(a)).dom().contains(j) ==> slot_of(j) != slot_of(k),
        !arena_retired(*old(a)).contains(k),
        arena_entries(*final(a)) == arena_entries(*old(a)).insert(k, rec),
        arena_retired(*final(a)) == arena_retired(*old(a)),
{
    slotmap::Key::data(&a.slots.insert(rec)).as_ffi()
}

/// `SlotMap::remove`: the record under the key leaves the arena and is
/// returned, and the key counts as held before; where there is none,
/// nothing changes.
#[verifier::external_body]
pub(crate) fn arena_remove(a: &mut NodeArena, k: u64) -> (rec: Option<NodeHierarchy>)
    requires
        is_key(k),
    ensures
        rec == (if arena_entries(*old(a)).dom().contains(k) {
            Some(arena_entries(*old(a))[k])
        } else {
            None
        }),
        arena_entries(*final(a)) == arena_entries(*old(a)).remove(k),
        arena_retired(*final(a)) == (if arena_entries(*old(a)).dom().contains(k) {
            arena_retired(*old(a)).insert(k)
        } else {
            arena_retired(*old(a))
        }),
{
    a.slots.remove(slotmap::KeyData::from_ffi(k).into())
}

/// `SlotMap::get`: the record under the key, if there is one.
#[verifier::external_body]
pub(crate) fn arena_get(a: &NodeArena, k: u64) -> (rec: Option<&NodeHierarchy>)
    requires
        is_key(k),
    ensures
        rec == (if arena_entries(*a).dom().contains(k) {
            Some(&arena_entries(*a)[k])
        } else {
            None
        }),
{
    a.slots.get(slotmap::KeyData::from_ffi(k).into())
}

/// `SlotMap::get_mut`: exclusive access to the record under a live key. What
/// the caller leaves in the record is what the arena then holds under the key.
#[verifier::external_body]
pub(crate) fn arena_get_mut(a: &mut NodeArena, k: u64) -> (rec: &mut NodeHierarchy)
    requires
        is_key(k),
        arena_entries(*old(a)).dom().contains(k),
    ensures
        *rec == arena_entries(*old(a))[k],
        arena_entries(*final(a)) == arena_entries(*old(a)).insert(k, *final(rec)),
        arena_retired(*final(a)) == arena_retired(*old(a)),
{
    a.slots.get_mut(slotmap::KeyData::from_ffi(k).into()).unwrap()
}

} // verus!
