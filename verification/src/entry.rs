//! Per-key entry slots.
//!
//! An entry holds the state of one key's value cell. `Live` carries the
//! current value, `Empty` is the tombstone left by a removal, and
//! `Expunged` marks an entry that is present in the read snapshot but
//! absent from the dirty overlay; a store to an expunged entry must go
//! through the map's slow path, which first unexpunges it and installs
//! it back into the overlay.

use vstd::prelude::*;

verus! {

/// The state of an entry's value cell.
pub enum Slot<V> {
    /// The key is present with this value.
    Live(V),
    /// Tombstone: the key is logically absent.
    Empty,
    /// The key is logically absent and the entry is not in the dirty
    /// overlay; stores must go through the map's slow path.
    Expunged,
}

/// A per-key cell. The map's tiers refer to entries by arena index, so
/// one entry may be reachable from the read snapshot and the dirty
/// overlay at once.
pub struct Entry<V> {
    slot: Slot<V>,
}

impl<V> Entry<V> {
    /// The entry's current state.
    pub closed spec fn state(&self) -> Slot<V> {
        self.slot
    }

    /// A fresh entry: live when a value is given, a tombstone otherwise.
    pub fn new(value: Option<V>) -> (e: Entry<V>)
        ensures
            e.state() == match value {
                Some(v) => Slot::Live(v),
                None => Slot::<V>::Empty,
            },
    {
        match value {
            Some(v) => Entry { slot: Slot::Live(v) },
            None => Entry { slot: Slot::Empty },
        }
    }

    /// Reads the value: `Some` exactly in the live state.
    pub fn load(&self) -> (r: Option<&V>)
        ensures
            match r {
                Some(v) => self.state() == Slot::Live(*v),
                None => !(self.state() is Live),
            },
    {
        match &self.slot {
            Slot::Live(v) => Some(v),
            _ => None,
        }
    }

    /// The transition Live -> Empty. Returns the detached value when the
    /// entry was live; leaves Empty and Expunged unchanged.
    pub fn remove(&mut self) -> (r: Option<V>)
        ensures
            match r {
                Some(v) => old(self).state() == Slot::Live(v) && final(self).state()
                    is Empty,
                None => !(old(self).state() is Live) && *final(self) == *old(self),
            },
    {
        let mut taken = Slot::Empty;
        core::mem::swap(&mut self.slot, &mut taken);
        match taken {
            Slot::Live(v) => Some(v),
            Slot::Empty => None,
            Slot::Expunged => {
                self.slot = Slot::Expunged;
                None
            },
        }
    }

    /// Stores the value unless the entry is expunged; on an expunged
    /// entry the value is handed back and nothing changes. Returns the
    /// displaced value, if the entry was live.
    pub(crate) fn try_store(&mut self, value: V) -> (r: Result<Option<V>, V>)
        ensures
            match r {
                Ok(displaced) => {
                    &&& !(old(self).state() is Expunged)
                    &&& final(self).state() == Slot::Live(value)
                    &&& match displaced {
                        Some(w) => old(self).state() == Slot::Live(w),
                        None => old(self).state() is Empty,
                    }
                },
                Err(v) => {
                    &&& old(self).state() is Expunged
                    &&& *final(self) == *old(self)
                    &&& v == value
                },
            },
    {
        let mut taken = Slot::Empty;
        core::mem::swap(&mut self.slot, &mut taken);
        match taken {
            Slot::Expunged => {
                self.slot = Slot::Expunged;
                Err(value)
            },
            Slot::Live(w) => {
                self.slot = Slot::Live(value);
                Ok(Some(w))
            },
            Slot::Empty => {
                self.slot = Slot::Live(value);
                Ok(None)
            },
        }
    }

    /// The transition Expunged -> Empty, taken under the map's lock.
    /// Returns whether the entry had been expunged; the caller must then
    /// install the entry into the dirty overlay.
    pub fn unexpunge_locked(&mut self) -> (r: bool)
        ensures
            r == (old(self).state() is Expunged),
            old(self).state() is Expunged ==> final(self).state() is Empty,
            !(old(self).state() is Expunged) ==> *final(self) == *old(self),
    {
        match &self.slot {
            Slot::Expunged => {
                self.slot = Slot::Empty;
                true
            },
            _ => false,
        }
    }

    /// The transition Empty -> Expunged, taken under the map's lock
    /// while the dirty overlay is rebuilt. Returns whether the entry is
    /// expunged afterwards; a live entry is left as it is.
    pub fn try_unexpunge_locked(&mut self) -> (r: bool)
        ensures
            old(self).state() is Live ==> *final(self) == *old(self) && !r,
            !(old(self).state() is Live) ==> final(self).state() is Expunged && r,
    {
        match &self.slot {
            Slot::Live(_) => false,
            _ => {
                self.slot = Slot::Expunged;
                true
            },
        }
    }

    /// Unconditional store, taken under the map's lock. Returns the
    /// displaced value, if the entry was live.
    pub(crate) fn store_locked(&mut self, value: V) -> (displaced: Option<V>)
        ensures
            final(self).state() == Slot::Live(value),
            match displaced {
                Some(w) => old(self).state() == Slot::Live(w),
                None => !(old(self).state() is Live),
            },
    {
        let mut taken = Slot::Live(value);
        core::mem::swap(&mut self.slot, &mut taken);
        match taken {
            Slot::Live(w) => Some(w),
            _ => None,
        }
    }
}

} // verus!
