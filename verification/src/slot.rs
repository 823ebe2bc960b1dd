//! The slots of the table's array.

use vstd::prelude::*;

verus! {

/// One element of the slot array.
pub enum Slot<K, V> {
    /// Nothing was ever stored here.
    NeverUsed,
    /// Holds an entry.
    Live { key: K, value: V },
    /// Held an entry once, which was deleted since.
    FormerlyLive,
}

impl<K: View, V> View for Slot<K, V> {
    type V = Slot<K::V, V>;

    /// The same slot with its key, if it has one, replaced by the key's view.
    open spec fn view(&self) -> Slot<K::V, V> {
        match *self {
            Slot::NeverUsed => Slot::NeverUsed,
            Slot::Live { key, value } => Slot::Live { key: key@, value },
            Slot::FormerlyLive => Slot::FormerlyLive,
        }
    }
}

} // verus!
