use vstd::prelude::*;
use crate::arena::is_key;

verus! {

/// A value of any type, as it is attached to a node: a box of which only the
/// type of the content can be asked.
#[verifier::external_body]
pub struct Payload {
    inner: Box<dyn std::any::Any>,
}

/// The secondary map that stores the payloads under the keys of their nodes.
#[verifier::external_body]
pub struct PayloadStore {
    data: slotmap::SecondaryMap<slotmap::DefaultKey, Payload>,
}

/// The payloads held by the store, by key.
pub uninterp spec fn payload_entries(s: PayloadStore) -> Map<u64, Payload>;

/// The slot that a key stands for.
pub open spec fn slot_of(k: u64) -> u64 {
    k & 0xffff_ffff
}

/// The keys that a secondary map stores a value for: all but the null key,
/// whose slot is the last.
pub open spec fn storable(k: u64) -> bool {
    is_key(k) && slot_of(k) != 0xffff_ffff
}

/// No two of the keys stand for the same slot.
pub open spec fn slots_distinct(keys: Set<u64>) -> bool {
    forall|j: u64, k: u64|
        keys.contains(j) && keys.contains(k) && j != k ==> slot_of(j) != slot_of(k)
}

/// `Box::new`: packs a value as a payload.
#[verifier::external_body]
pub(crate) fn pack<T: 'static>(data: T) -> (p: Payload) {
    Payload { inner: Box::new(data) }
}

/// `<dyn Any>::downcast_ref`: the content of a payload, where it is of the
/// type asked for.
#[verifier::external_body]
pub(crate) fn unpack<T: 'static>(p: &Payload) -> (r: Option<&T>) {
    p.inner.downcast_ref::<T>()
}

/// `SecondaryMap::new`: a store without payloads.
#[verifier::external_body]
pub(crate) fn store_new() -> (s: PayloadStore)
    ensures
        payload_entries(s) == (Map::<u64, Payload>::empty()),
{
    PayloadStore { data: slotmap::SecondaryMap::new() }
}

/// `SecondaryMap::insert`: the payload is stored under the key, in place of
/// the one that may be there. A secondary map holds one value for each
/// slot, and none for the null key: the call is for a key whose slot no
/// other key of the store stands for.
#[verifier::external_body]
pub(crate) fn store_put(s: &mut PayloadStore, k: u64, p: Payload)
    requires
        storable(k),
        forall|j: u64|
            payload_entries(*old(s)).dom().contains(j) && j != k ==> slot_of(j) != slot_of(k),
    ensures
        payload_entries(*final(s)) == payload_entries(*old(s)).insert(k, p),
{
    s.data.insert(slotmap::KeyData::from_ffi(k).into(), p);
}

/// `SecondaryMap::remove`: the payload under the key leaves the store and
/// is returned; where there is none, nothing changes.
#[verifier::external_body]
pub(crate) fn store_take(s: &mut PayloadStore, k: u64) -> (p: Option<Payload>)
    requires
        is_key(k),
    ensures
        p == (if payload_entries(*old(s)).dom().contains(k) {
            Some(payload_entries(*old(s))[k])
        } else {
            None
        }),
        payload_entries(*final(s)) == payload_entries(*old(s)).remove(k),
{
    s.data.remove(slotmap::KeyData::from_ffi(k).into())
}

/// `SecondaryMap::get`: the payload under the key, if there is one.
#[verifier::external_body]
pub(crate) fn store_get(s: &PayloadStore, k: u64) -> (p: Option<&Payload>)
    requires
        is_key(k),
    ensures
        p == (if payload_entries(*s).dom().contains(k) {
            Some(&payload_entries(*s)[k])
        } else {
            None
        }),
{
    s.data.get(slotmap::KeyData::from_ffi(k).into())
}

} // verus!
