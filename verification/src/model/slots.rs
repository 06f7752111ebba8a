use vstd::prelude::*;

use slotmap::{DefaultKey, Key, KeyData, SlotMap};

use crate::model::{PlaceData, TransitionData};

verus! {

/// The slot map that holds the places of a net. Verus does not read inside it:
/// what it holds is `place_slots`, and each method it is used through has a
/// wrapper below.
#[verifier::external_body]
pub struct PlaceSlots {
    inner: SlotMap<DefaultKey, PlaceData>,
}

/// The slot map that holds the transitions of a net. Verus does not read inside
/// it: what it holds is `transition_slots`, and each method it is used through
/// has a wrapper below.
#[verifier::external_body]
pub struct TransitionSlots {
    inner: SlotMap<DefaultKey, TransitionData>,
}

/// Whether `k` has the shape of a key that a slot map hands out, written as a
/// 64-bit integer (`KeyData::as_ffi`: version in the high half, slot index in
/// the low half): an occupied slot always has an odd version.
pub open spec fn slot_key(k: u64) -> bool {
    (k / 0x1_0000_0000) % 2 == 1
}

/// The slot index of a key written as a 64-bit integer.
pub open spec fn slot_index(k: u64) -> int {
    (k % 0x1_0000_0000) as int
}

/// What a slot map of places holds, by key (written as a 64-bit integer).
pub uninterp spec fn place_slots(m: PlaceSlots) -> Map<u64, PlaceData>;

/// What a slot map of transitions holds, by key (written as a 64-bit integer).
pub uninterp spec fn transition_slots(m: TransitionSlots) -> Map<u64, TransitionData>;

/// `SlotMap::new`: an empty map.
#[verifier::external_body]
pub(crate) fn place_slots_new() -> (r: PlaceSlots)
    ensures
        place_slots(r).dom().len() == 0,
        place_slots(r).dom().finite(),
{
    PlaceSlots { inner: SlotMap::new() }
}

/// `SlotMap::insert`: stores `v` under a key that the map did not hold, whose
/// version is odd, and returns that key (`KeyData::as_ffi`). It panics only when
/// the map is full, which the bound on its length rules out.
#[verifier::external_body]
pub(crate) fn place_slots_insert(m: &mut PlaceSlots, v: PlaceData) -> (k: u64)
    requires
        place_slots(*old(m)).dom().finite(),
        place_slots(*old(m)).dom().len() + 2 < 0x1_0000_0000,
    ensures
        slot_key(k),
        !place_slots(*old(m)).dom().contains(k),
        place_slots(*final(m)) == place_slots(*old(m)).insert(k, v),
{
    m.inner.insert(v).data().as_ffi()
}

/// `SlotMap::clone`: a map with the same keys, each with a clone of its value
/// (a place's label and tokens, copied).
#[verifier::external_body]
pub(crate) fn place_slots_clone(m: &PlaceSlots) -> (r: PlaceSlots)
    ensures
        place_slots(r) == place_slots(*m),
{
    PlaceSlots { inner: m.inner.clone() }
}

/// `SlotMap::get`: the value stored under `k`, if any. For a key of the shape
/// `slot_key` states, `KeyData::from_ffi` gives back the key that `as_ffi` wrote.
#[verifier::external_body]
pub(crate) fn place_slots_get(m: &PlaceSlots, k: u64) -> (r: Option<&PlaceData>)
    requires
        slot_key(k),
    ensures
        match r {
            Some(v) => place_slots(*m).dom().contains(k) && *v == place_slots(*m)[k],
            None => !place_slots(*m).dom().contains(k),
        },
{
    let key: DefaultKey = KeyData::from_ffi(k).into();
    m.inner.get(key)
}

/// `IndexMut` of `SlotMap`: replaces the value stored under `k`, which the map holds.
#[verifier::external_body]
pub(crate) fn place_slots_set(m: &mut PlaceSlots, k: u64, v: PlaceData)
    requires
        slot_key(k),
        place_slots(*old(m)).dom().contains(k),
    ensures
        place_slots(*final(m)) == place_slots(*old(m)).insert(k, v),
{
    let key: DefaultKey = KeyData::from_ffi(k).into();
    m.inner[key] = v;
}

/// `SlotMap::get_mut`, narrowed to the label: a mutable borrow of the label of
/// the place stored under `k`, if any; what is written through it becomes that
/// place's label, and nothing else changes.
#[verifier::external_body]
pub(crate) fn place_slots_label_mut(m: &mut PlaceSlots, k: u64) -> (r: Option<&mut String>)
    requires
        slot_key(k),
    ensures
        r is Some <==> place_slots(*old(m)).dom().contains(k),
        r is None ==> place_slots(*final(m)) == place_slots(*old(m)),
        r matches Some(s) ==> *s == place_slots(*old(m))[k].label && place_slots(*final(m)) == place_slots(*old(m)).insert(
            k,
            PlaceData { label: *final(s), tokens: place_slots(*old(m))[k].tokens },
        ),
{
    let key: DefaultKey = KeyData::from_ffi(k).into();
    m.inner.get_mut(key).map(|d| &mut d.label)
}

/// `SlotMap::remove`: takes out the value stored under `k`, if any.
#[verifier::external_body]
pub(crate) fn place_slots_remove(m: &mut PlaceSlots, k: u64) -> (r: Option<PlaceData>)
    requires
        slot_key(k),
    ensures
        match r {
            Some(v) => place_slots(*old(m)).dom().contains(k) && v == place_slots(*old(m))[k],
            None => !place_slots(*old(m)).dom().contains(k),
        },
        place_slots(*final(m)) == place_slots(*old(m)).remove(k),
{
    let key: DefaultKey = KeyData::from_ffi(k).into();
    m.inner.remove(key)
}

/// `SlotMap::keys`: every key the map holds, once each, in slot order (the
/// iterator walks the slots by index and skips the vacant ones).
#[verifier::external_body]
pub(crate) fn place_slots_keys(m: &PlaceSlots) -> (r: Vec<u64>)
    ensures
        r@.no_duplicates(),
        forall|k: u64| r@.contains(k) <==> place_slots(*m).dom().contains(k),
        forall|i: int, j: int| 0 <= i < j < r@.len() ==> slot_index(r@[i]) < slot_index(r@[j]),
{
    let mut r = Vec::new();
    for key in m.inner.keys() {
        r.push(key.data().as_ffi());
    }
    r
}

/// `SlotMap::new`: an empty map.
#[verifier::external_body]
pub(crate) fn transition_slots_new() -> (r: TransitionSlots)
    ensures
        transition_slots(r).dom().len() == 0,
        transition_slots(r).dom().finite(),
{
    TransitionSlots { inner: SlotMap::new() }
}

/// `SlotMap::insert`: stores `v` under a key that the map did not hold, whose
/// version is odd, and returns that key (`KeyData::as_ffi`). It panics only when
/// the map is full, which the bound on its length rules out.
#[verifier::external_body]
pub(crate) fn transition_slots_insert(m: &mut TransitionSlots, v: TransitionData) -> (k: u64)
    requires
        transition_slots(*old(m)).dom().finite(),
        transition_slots(*old(m)).dom().len() + 2 < 0x1_0000_0000,
    ensures
        slot_key(k),
        !transition_slots(*old(m)).dom().contains(k),
        transition_slots(*final(m)) == transition_slots(*old(m)).insert(k, v),
{
    m.inner.insert(v).data().as_ffi()
}

/// `SlotMap::clone`: a map with the same keys, each with a clone of its value
/// (a transition's label and arcs, copied).
#[verifier::external_body]
pub(crate) fn transition_slots_clone(m: &TransitionSlots) -> (r: TransitionSlots)
    ensures
        transition_slots(r) == transition_slots(*m),
{
    TransitionSlots { inner: m.inner.clone() }
}

/// `SlotMap::get`: the value stored under `k`, if any. For a key of the shape
/// `slot_key` states, `KeyData::from_ffi` gives back the key that `as_ffi` wrote.
#[verifier::external_body]
pub(crate) fn transition_slots_get(m: &TransitionSlots, k: u64) -> (r: Option<&TransitionData>)
    requires
        slot_key(k),
    ensures
        match r {
            Some(v) => transition_slots(*m).dom().contains(k) && *v == transition_slots(*m)[k],
            None => !transition_slots(*m).dom().contains(k),
        },
{
    let key: DefaultKey = KeyData::from_ffi(k).into();
    m.inner.get(key)
}

/// `IndexMut` of `SlotMap`: replaces the value stored under `k`, which the map holds.
#[verifier::external_body]
pub(crate) fn transition_slots_set(m: &mut TransitionSlots, k: u64, v: TransitionData)
    requires
        slot_key(k),
        transition_slots(*old(m)).dom().contains(k),
    ensures
        transition_slots(*final(m)) == transition_slots(*old(m)).insert(k, v),
{
    let key: DefaultKey = KeyData::from_ffi(k).into();
    m.inner[key] = v;
}

/// `SlotMap::get_mut`, narrowed to the label: a mutable borrow of the label of
/// the transition stored under `k`, if any; what is written through it becomes
/// that transition's label, and nothing else changes.
#[verifier::external_body]
pub(crate) fn transition_slots_label_mut(m: &mut TransitionSlots, k: u64) -> (r: Option<&mut String>)
    requires
        slot_key(k),
    ensures
        r is Some <==> transition_slots(*old(m)).dom().contains(k),
        r is None ==> transition_slots(*final(m)) == transition_slots(*old(m)),
        r matches Some(s) ==> *s == transition_slots(*old(m))[k].label && transition_slots(*final(m)) == transition_slots(*old(m)).insert(
            k,
            TransitionData {
                label: *final(s),
                inputs: transition_slots(*old(m))[k].inputs,
                outputs: transition_slots(*old(m))[k].outputs,
            },
        ),
{
    let key: DefaultKey = KeyData::from_ffi(k).into();
    m.inner.get_mut(key).map(|d| &mut d.label)
}

/// `SlotMap::remove`: takes out the value stored under `k`, if any.
#[verifier::external_body]
pub(crate) fn transition_slots_remove(m: &mut TransitionSlots, k: u64) -> (r: Option<TransitionData>)
    requires
        slot_key(k),
    ensures
        match r {
            Some(v) => transition_slots(*old(m)).dom().contains(k) && v == transition_slots(*old(m))[k],
            None => !transition_slots(*old(m)).dom().contains(k),
        },
        transition_slots(*final(m)) == transition_slots(*old(m)).remove(k),
{
    let key: DefaultKey = KeyData::from_ffi(k).into();
    m.inner.remove(key)
}

/// `SlotMap::keys`: every key the map holds, once each, in slot order (the
/// iterator walks the slots by index and skips the vacant ones).
#[verifier::external_body]
pub(crate) fn transition_slots_keys(m: &TransitionSlots) -> (r: Vec<u64>)
    ensures
        r@.no_duplicates(),
        forall|k: u64| r@.contains(k) <==> transition_slots(*m).dom().contains(k),
        forall|i: int, j: int| 0 <= i < j < r@.len() ==> slot_index(r@[i]) < slot_index(r@[j]),
{
    let mut r = Vec::new();
    for key in m.inner.keys() {
        r.push(key.data().as_ffi());
    }
    r
}

} // verus!
