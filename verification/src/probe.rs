//! The probe walk: where the search for a key starts, how it moves, and
//! where it ends.
//!
//! Everything here is stated over a sequence of slots whose keys are views.

use crate::key::{digest, Key};
use crate::slot::Slot;
use vstd::prelude::*;

verus! {

/// Whether a probe walk for `id` ends at `slot`. It goes on only over live
/// slots that hold another key.
pub open spec fn halts<Id, V>(slot: Slot<Id, V>, id: Id) -> bool {
    match slot {
        Slot::Live { key, .. } => key == id,
        _ => true,
    }
}

/// The index `d` steps after `start` in an array of `n` slots, where the
/// step after the last slot leads to the first.
pub open spec fn ahead(start: int, d: int, n: int) -> int {
    if start + d < n {
        start + d
    } else {
        start + d - n
    }
}

/// The number of steps that lead from `from` forward to `to`.
pub open spec fn dist(from: int, to: int, n: int) -> int {
    if to >= from {
        to - from
    } else {
        to - from + n
    }
}

/// The walk for `id` that starts at `start` does not end `e` steps later.
pub open spec fn walks_on<Id, V>(slots: Seq<Slot<Id, V>>, start: int, id: Id, e: int) -> bool {
    !halts(slots[ahead(start, e, slots.len() as int)], id)
}

/// The walk for `id` that starts at `start` ends after exactly `d` steps:
/// the slot reached then is the first on its way that halts it.
pub open spec fn stops_after<Id, V>(slots: Seq<Slot<Id, V>>, start: int, id: Id, d: int) -> bool {
    &&& 0 <= d < slots.len()
    &&& !walks_on(slots, start, id, d)
    &&& forall|e: int| 0 <= e < d ==> #[trigger] walks_on(slots, start, id, e)
}

/// The number of steps of the walk for `id` that starts at `start`.
pub open spec fn walk_len<Id, V>(slots: Seq<Slot<Id, V>>, start: int, id: Id) -> int {
    choose|d: int| stops_after(slots, start, id, d)
}

/// The index at which the walk for `id` that starts at `start` ends.
pub open spec fn walk_end<Id, V>(slots: Seq<Slot<Id, V>>, start: int, id: Id) -> int {
    ahead(start, walk_len(slots, start, id), slots.len() as int)
}

/// The home index of a key in an array of `n` slots: its digest modulo `n`.
pub open spec fn home<K: Key>(id: K::V, n: nat) -> int {
    (digest::<K>(id) as int) % (n as int)
}

/// The index at which the probe walk for `id` ends.
pub open spec fn probe_stop<K: Key, V>(slots: Seq<Slot<K::V, V>>, id: K::V) -> int {
    walk_end(slots, home::<K>(id, slots.len()), id)
}

/// What a search for `id` finds: the value of the slot at which the probe
/// walk ends, if that slot is live and holds `id`.
pub open spec fn lookup<K: Key, V>(slots: Seq<Slot<K::V, V>>, id: K::V) -> Option<V> {
    match slots[probe_stop::<K, V>(slots, id)] {
        Slot::Live { key, value } => if key == id {
            Some(value)
        } else {
            None
        },
        _ => None,
    }
}

/// The number of live slots.
pub open spec fn live_count<Id, V>(slots: Seq<Slot<Id, V>>) -> nat
    decreases slots.len(),
{
    if slots.len() == 0 {
        0
    } else {
        live_count(slots.drop_last()) + if slots.last() is Live {
            1nat
        } else {
            0nat
        }
    }
}

/// A walk has at most one length.
pub proof fn lemma_walk_len_unique<Id, V>(
    slots: Seq<Slot<Id, V>>,
    start: int,
    id: Id,
    d1: int,
    d2: int,
)
    requires
        stops_after(slots, start, id, d1),
        stops_after(slots, start, id, d2),
    ensures
        d1 == d2,
{
    if d1 < d2 {
        assert(walks_on(slots, start, id, d1));
    } else if d2 < d1 {
        assert(walks_on(slots, start, id, d2));
    }
}

/// Once a walk is known to end after `d` steps, `walk_len` and `walk_end`
/// are known.
pub proof fn lemma_walk_known<Id, V>(slots: Seq<Slot<Id, V>>, start: int, id: Id, d: int)
    requires
        stops_after(slots, start, id, d),
    ensures
        walk_len(slots, start, id) == d,
        walk_end(slots, start, id) == ahead(start, d, slots.len() as int),
{
    lemma_walk_len_unique(slots, start, id, d, walk_len(slots, start, id));
}

/// A walk that has gone on for `d` steps ends before it has been around the
/// array, provided that some slot halts it.
pub proof fn lemma_walk_ends_from<Id, V>(
    slots: Seq<Slot<Id, V>>,
    start: int,
    id: Id,
    d: int,
    at: int,
)
    requires
        0 <= start < slots.len(),
        0 <= at < slots.len(),
        halts(slots[at], id),
        0 <= d <= dist(start, at, slots.len() as int),
        forall|e: int| 0 <= e < d ==> #[trigger] walks_on(slots, start, id, e),
    ensures
        exists|len: int| d <= len <= dist(start, at, slots.len() as int) && stops_after(slots, start, id, len),
    decreases dist(start, at, slots.len() as int) - d,
{
    let n = slots.len() as int;
    if walks_on(slots, start, id, d) {
        assert(ahead(start, dist(start, at, n), n) == at);
        assert(d < dist(start, at, n));
        assert forall|e: int| 0 <= e < d + 1 implies #[trigger] walks_on(slots, start, id, e) by {
            if e < d {
            }
        }
        lemma_walk_ends_from(slots, start, id, d + 1, at);
    } else {
        assert(stops_after(slots, start, id, d));
    }
}

/// Where some slot halts the walk for `id`, the walk ends, on a slot that
/// halts it, and `walk_len` is the number of its steps.
pub proof fn lemma_walk_ends<Id, V>(slots: Seq<Slot<Id, V>>, start: int, id: Id, at: int)
    requires
        0 <= start < slots.len(),
        0 <= at < slots.len(),
        halts(slots[at], id),
    ensures
        stops_after(slots, start, id, walk_len(slots, start, id)),
        walk_len(slots, start, id) <= dist(start, at, slots.len() as int),
        0 <= walk_end(slots, start, id) < slots.len(),
        halts(slots[walk_end(slots, start, id)], id),
{
    lemma_walk_ends_from(slots, start, id, 0, at);
    let len = choose|len: int|
        0 <= len <= dist(start, at, slots.len() as int) && stops_after(slots, start, id, len);
    lemma_walk_known(slots, start, id, len);
}

/// The walk after one slot has been replaced. It ends after `d` steps if it
/// went on for at least `d` steps before, the slot it then reaches halts it,
/// and the new slot does not halt it or lies no fewer than `d` steps away.
pub proof fn lemma_walk_after_update<Id, V>(
    slots: Seq<Slot<Id, V>>,
    at: int,
    slot: Slot<Id, V>,
    start: int,
    id: Id,
    d: int,
)
    requires
        0 <= start < slots.len(),
        0 <= at < slots.len(),
        stops_after(slots, start, id, walk_len(slots, start, id)),
        0 <= d <= walk_len(slots, start, id),
        halts(slots.update(at, slot)[ahead(start, d, slots.len() as int)], id),
        !halts(slot, id) || dist(start, at, slots.len() as int) >= d,
    ensures
        stops_after(slots.update(at, slot), start, id, d),
        walk_len(slots.update(at, slot), start, id) == d,
        walk_end(slots.update(at, slot), start, id) == ahead(start, d, slots.len() as int),
{
    let after = slots.update(at, slot);
    assert forall|e: int| 0 <= e < d implies #[trigger] walks_on(after, start, id, e) by {
        assert(walks_on(slots, start, id, e));
    }
    lemma_walk_known(after, start, id, d);
}

/// Not every slot is live where fewer slots are live than there are slots.
pub proof fn lemma_room<Id, V>(slots: Seq<Slot<Id, V>>)
    requires
        live_count(slots) < slots.len(),
    ensures
        exists|i: int| 0 <= i < slots.len() && !(#[trigger] slots[i] is Live),
    decreases slots.len(),
{
    if slots.last() is Live {
        let rest = slots.drop_last();
        lemma_room(rest);
        let i = choose|i: int| 0 <= i < rest.len() && !(#[trigger] rest[i] is Live);
        assert(slots[i] == rest[i]);
    } else {
        assert(!(slots[slots.len() - 1] is Live));
    }
}

/// Replacing one slot changes the number of live slots by what the old and
/// the new slot count.
pub proof fn lemma_live_count_update<Id, V>(slots: Seq<Slot<Id, V>>, i: int, slot: Slot<Id, V>)
    requires
        0 <= i < slots.len(),
    ensures
        live_count(slots.update(i, slot)) + (if slots[i] is Live { 1nat } else { 0nat })
            == live_count(slots) + (if slot is Live { 1nat } else { 0nat }),
    decreases slots.len(),
{
    let after = slots.update(i, slot);
    if i == slots.len() - 1 {
        assert(after.drop_last() =~= slots.drop_last());
    } else {
        assert(after.drop_last() =~= slots.drop_last().update(i, slot));
        lemma_live_count_update(slots.drop_last(), i, slot);
    }
}

} // verus!
