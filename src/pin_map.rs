//! The label table of the dispatcher, kept in heapless's `FnvIndexMap`.
//!
//! The map sits in a private field of a struct that Verus does not look into;
//! what the methods below do to its entries is taken from heapless's source.
use vstd::prelude::*;

use crate::wire::PinLabel;

verus! {

/// How many pins a dispatcher can hold.
pub const PIN_CAPACITY: usize = 64;

/// Labels mapped to positions, in insertion order.
#[verifier::external_body]
pub struct PinMap {
    map: heapless::FnvIndexMap<PinLabel, usize, PIN_CAPACITY>,
}

/// The entries of a label map, in insertion order.
pub uninterp spec fn pin_map_entries(m: PinMap) -> Seq<(PinLabel, usize)>;

/// `k` is the key of some entry.
pub open spec fn has_key(entries: Seq<(PinLabel, usize)>, k: PinLabel) -> bool {
    exists|i: int| 0 <= i < entries.len() && #[trigger] entries[i].0 == k
}

impl PinMap {
    /// Relies on `heapless::IndexMap::new`: the map starts with no entries.
    #[verifier::external_body]
    pub(crate) fn new() -> (r: PinMap)
        ensures
            pin_map_entries(r) == Seq::<(PinLabel, usize)>::empty(),
    {
        PinMap { map: heapless::FnvIndexMap::new() }
    }

    /// Relies on `heapless::IndexMap::insert`: a key not yet present is
    /// appended after the other entries, unless the map is full, when it is
    /// handed back and the map is left as it was.
    #[verifier::external_body]
    pub(crate) fn insert(&mut self, k: PinLabel, v: usize) -> (r: Result<Option<usize>, (PinLabel, usize)>)
        requires
            !has_key(pin_map_entries(*old(self)), k),
        ensures
            r == (if pin_map_entries(*old(self)).len() < PIN_CAPACITY {
                Ok::<Option<usize>, (PinLabel, usize)>(None)
            } else {
                Err::<Option<usize>, (PinLabel, usize)>((k, v))
            }),
            pin_map_entries(*final(self)) == (if pin_map_entries(*old(self)).len() < PIN_CAPACITY {
                pin_map_entries(*old(self)).push((k, v))
            } else {
                pin_map_entries(*old(self))
            }),
    {
        self.map.insert(k, v)
    }

    /// Relies on `heapless::IndexMap::get`: the value of the entry with key `k`, if any.
    #[verifier::external_body]
    pub(crate) fn get(&self, k: PinLabel) -> (r: Option<usize>)
        ensures
            r is Some <==> has_key(pin_map_entries(*self), k),
            r matches Some(v) ==> exists|i: int|
                0 <= i < pin_map_entries(*self).len() && #[trigger] pin_map_entries(*self)[i] == (k, v),
    {
        self.map.get(&k).copied()
    }

    /// Relies on `heapless::IndexMap::contains_key`: whether some entry has key `k`.
    #[verifier::external_body]
    pub(crate) fn contains_key(&self, k: PinLabel) -> (r: bool)
        ensures
            r == has_key(pin_map_entries(*self), k),
    {
        self.map.contains_key(&k)
    }

    /// Relies on `heapless::IndexMap::iter`: the entries in insertion order.
    #[verifier::external_body]
    pub(crate) fn entries(&self) -> (r: Vec<(PinLabel, usize)>)
        ensures
            r@ == pin_map_entries(*self),
    {
        self.map.iter().map(|(k, v)| (*k, *v)).collect()
    }
}

} // verus!
