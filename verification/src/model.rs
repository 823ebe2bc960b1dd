//! What the operations of the table do to the sequence of its slots.

use crate::key::Key;
use crate::probe::{
    ahead, dist, halts, home, lemma_live_count_update, lemma_room, lemma_walk_after_update,
    lemma_walk_ends, live_count, lookup, probe_stop, stops_after, walk_len, walks_on,
};
use crate::slot::Slot;
use vstd::prelude::*;

verus! {

/// An array of `n` slots that were never used.
pub open spec fn fresh<Id, V>(n: nat) -> Seq<Slot<Id, V>> {
    Seq::new(n, |i: int| Slot::NeverUsed)
}

/// The slot `e` steps after the home index of the key that slot `i` holds
/// has been used.
pub open spec fn path_used<K: Key, V>(slots: Seq<Slot<K::V, V>>, i: int, e: int) -> bool {
    !(slots[ahead(home::<K>(slots[i]->key, slots.len()), e, slots.len() as int)] is NeverUsed)
}

/// Every live slot is reached from the home index of its key over slots that
/// have been used.
pub open spec fn reachable<K: Key, V>(slots: Seq<Slot<K::V, V>>) -> bool {
    forall|i: int, e: int|
        0 <= i < slots.len() && slots[i] is Live && 0 <= e < dist(
            home::<K>(slots[i]->key, slots.len()),
            i,
            slots.len() as int,
        ) ==> #[trigger] path_used::<K, V>(slots, i, e)
}

/// An array that a table can hold: it has a slot, and its live slots are
/// reachable.
pub open spec fn laid_out<K: Key, V>(slots: Seq<Slot<K::V, V>>) -> bool {
    &&& slots.len() >= 1
    &&& reachable::<K, V>(slots)
}

/// Not every slot is live.
pub open spec fn roomy<Id, V>(slots: Seq<Slot<Id, V>>) -> bool {
    live_count(slots) < slots.len()
}

/// The array after `id` has been stored with `value` at the slot where the
/// probe walk for `id` ends.
pub open spec fn placed<K: Key, V>(slots: Seq<Slot<K::V, V>>, id: K::V, value: V) -> Seq<
    Slot<K::V, V>,
> {
    slots.update(probe_stop::<K, V>(slots, id), Slot::Live { key: id, value })
}

/// The array after a deletion of `id`: the slot where the probe walk for
/// `id` ends is formerly live if it was live, and nothing changes otherwise.
pub open spec fn after_delete<K: Key, V>(slots: Seq<Slot<K::V, V>>, id: K::V) -> Seq<
    Slot<K::V, V>,
> {
    if slots[probe_stop::<K, V>(slots, id)] is Live {
        slots.update(probe_stop::<K, V>(slots, id), Slot::FormerlyLive)
    } else {
        slots
    }
}

/// In an array with room, the probe walk for any key ends, on a slot that
/// halts it.
pub proof fn lemma_probe_stop<K: Key, V>(slots: Seq<Slot<K::V, V>>, id: K::V)
    requires
        roomy(slots),
    ensures
        0 <= home::<K>(id, slots.len()) < slots.len(),
        0 <= probe_stop::<K, V>(slots, id) < slots.len(),
        halts(slots[probe_stop::<K, V>(slots, id)], id),
        stops_after(
            slots,
            home::<K>(id, slots.len()),
            id,
            walk_len(slots, home::<K>(id, slots.len()), id),
        ),
        dist(home::<K>(id, slots.len()), probe_stop::<K, V>(slots, id), slots.len() as int)
            == walk_len(slots, home::<K>(id, slots.len()), id),
{
    lemma_room(slots);
    let at = choose|i: int| 0 <= i < slots.len() && !(#[trigger] slots[i] is Live);
    lemma_walk_ends(slots, home::<K>(id, slots.len()), id, at);
}

/// Storing a key keeps the array laid out, makes the key found with its new
/// value, and adds a live slot unless the key's walk ended on one.
pub proof fn lemma_placed<K: Key, V>(slots: Seq<Slot<K::V, V>>, id: K::V, value: V)
    requires
        laid_out::<K, V>(slots),
        roomy(slots),
    ensures
        laid_out::<K, V>(placed::<K, V>(slots, id, value)),
        placed::<K, V>(slots, id, value).len() == slots.len(),
        live_count(placed::<K, V>(slots, id, value)) == live_count(slots) + (if slots[probe_stop::<
            K,
            V,
        >(slots, id)] is Live {
            0nat
        } else {
            1nat
        }),
        probe_stop::<K, V>(placed::<K, V>(slots, id, value), id) == probe_stop::<K, V>(slots, id),
        lookup::<K, V>(placed::<K, V>(slots, id, value), id) == Some(value),
{
    let n = slots.len();
    let start = home::<K>(id, n);
    let len = walk_len(slots, start, id);
    let stop = probe_stop::<K, V>(slots, id);
    let after = placed::<K, V>(slots, id, value);
    lemma_probe_stop::<K, V>(slots, id);
    lemma_live_count_update(slots, stop, Slot::Live { key: id, value });
    lemma_walk_after_update(slots, stop, Slot::Live { key: id, value }, start, id, len);
    assert forall|i: int, e: int|
        0 <= i < after.len() && after[i] is Live && 0 <= e < dist(
            home::<K>(after[i]->key, after.len()),
            i,
            after.len() as int,
        ) implies #[trigger] path_used::<K, V>(after, i, e) by {
        if i == stop {
            assert(walks_on(slots, start, id, e));
        } else {
            assert(path_used::<K, V>(slots, i, e));
        }
    }
}

/// A deletion keeps the array laid out and leaves the key unfound. It takes
/// one live slot away if the key was found, and changes nothing otherwise.
pub proof fn lemma_after_delete<K: Key, V>(slots: Seq<Slot<K::V, V>>, id: K::V)
    requires
        laid_out::<K, V>(slots),
        roomy(slots),
    ensures
        laid_out::<K, V>(after_delete::<K, V>(slots, id)),
        after_delete::<K, V>(slots, id).len() == slots.len(),
        live_count(after_delete::<K, V>(slots, id)) + (if lookup::<K, V>(slots, id) is Some {
            1nat
        } else {
            0nat
        }) == live_count(slots),
        lookup::<K, V>(slots, id) is Some <==> slots[probe_stop::<K, V>(slots, id)] is Live,
        probe_stop::<K, V>(after_delete::<K, V>(slots, id), id) == probe_stop::<K, V>(slots, id),
        lookup::<K, V>(after_delete::<K, V>(slots, id), id) is None,
{
    let n = slots.len();
    let start = home::<K>(id, n);
    let len = walk_len(slots, start, id);
    let stop = probe_stop::<K, V>(slots, id);
    let after = after_delete::<K, V>(slots, id);
    lemma_probe_stop::<K, V>(slots, id);
    if slots[stop] is Live {
        lemma_live_count_update(slots, stop, Slot::FormerlyLive);
        lemma_walk_after_update(slots, stop, Slot::FormerlyLive, start, id, len);
        assert forall|i: int, e: int|
            0 <= i < after.len() && after[i] is Live && 0 <= e < dist(
                home::<K>(after[i]->key, after.len()),
                i,
                after.len() as int,
            ) implies #[trigger] path_used::<K, V>(after, i, e) by {
            assert(path_used::<K, V>(slots, i, e));
        }
    }
}

/// The array `target` after every live entry of `source` has been stored in
/// it, in the order of their slots.
pub open spec fn refilled<K: Key, V>(
    source: Seq<Slot<K::V, V>>,
    target: Seq<Slot<K::V, V>>,
) -> Seq<Slot<K::V, V>>
    decreases source.len(),
{
    if source.len() == 0 {
        target
    } else {
        let sofar = refilled::<K, V>(source.drop_last(), target);
        match source.last() {
            Slot::Live { key, value } => placed::<K, V>(sofar, key, value),
            _ => sofar,
        }
    }
}

/// The array after a doubling: a fresh array of twice the length, into which
/// every live entry has been stored anew.
pub open spec fn grown<K: Key, V>(slots: Seq<Slot<K::V, V>>) -> Seq<Slot<K::V, V>> {
    refilled::<K, V>(slots, fresh(2 * slots.len()))
}

/// At least half of the slots are live: the load factor has reached one
/// half.
pub open spec fn crowded<Id, V>(slots: Seq<Slot<Id, V>>) -> bool {
    2 * live_count(slots) >= slots.len()
}

/// The array is empty, or fewer than half of its slots are live.
pub open spec fn calm<Id, V>(slots: Seq<Slot<Id, V>>) -> bool {
    live_count(slots) == 0 || !crowded(slots)
}

/// The array once it has been doubled until fewer than half of its slots are
/// live. One doubling does it, but for an array all of whose slots are live,
/// which takes two.
pub open spec fn settled<K: Key, V>(slots: Seq<Slot<K::V, V>>) -> Seq<Slot<K::V, V>> {
    if crowded(slots) {
        let once = grown::<K, V>(slots);
        if crowded(once) {
            grown::<K, V>(once)
        } else {
            once
        }
    } else {
        slots
    }
}

/// The array after `id` has been put with `value`: the entry is stored, and
/// the array then doubled as long as half of its slots are live.
pub open spec fn after_put<K: Key, V>(slots: Seq<Slot<K::V, V>>, id: K::V, value: V) -> Seq<
    Slot<K::V, V>,
> {
    settled::<K, V>(placed::<K, V>(slots, id, value))
}

/// Refilling keeps the target laid out and of its length, and adds to its
/// live slots at most as many as the source has.
pub proof fn lemma_refilled<K: Key, V>(source: Seq<Slot<K::V, V>>, target: Seq<Slot<K::V, V>>)
    requires
        laid_out::<K, V>(target),
        live_count(target) + source.len() < target.len(),
    ensures
        laid_out::<K, V>(refilled::<K, V>(source, target)),
        refilled::<K, V>(source, target).len() == target.len(),
        live_count(target) <= live_count(refilled::<K, V>(source, target)),
        live_count(refilled::<K, V>(source, target)) <= live_count(target) + live_count(source),
        live_count(source) <= source.len(),
    decreases source.len(),
{
    if source.len() > 0 {
        let sofar = refilled::<K, V>(source.drop_last(), target);
        lemma_refilled::<K, V>(source.drop_last(), target);
        match source.last() {
            Slot::Live { key, value } => {
                lemma_placed::<K, V>(sofar, key, value);
            },
            _ => {},
        }
    }
}

/// A fresh array with a slot is laid out.
pub proof fn lemma_fresh_laid_out<K: Key, V>(n: nat)
    requires
        n >= 1,
    ensures
        laid_out::<K, V>(fresh::<K::V, V>(n)),
        live_count(fresh::<K::V, V>(n)) == 0,
{
    lemma_fresh_is_empty::<K::V, V>(n);
}

/// A doubling keeps the array laid out, doubles its length and adds no live
/// slot.
pub proof fn lemma_grown<K: Key, V>(slots: Seq<Slot<K::V, V>>)
    requires
        slots.len() >= 1,
    ensures
        laid_out::<K, V>(grown::<K, V>(slots)),
        grown::<K, V>(slots).len() == 2 * slots.len(),
        live_count(grown::<K, V>(slots)) <= live_count(slots),
        live_count(slots) <= slots.len(),
{
    lemma_fresh_laid_out::<K, V>(2 * slots.len());
    lemma_refilled::<K, V>(slots, fresh(2 * slots.len()));
}

/// Settling keeps the array laid out and leaves fewer than half of its slots
/// live. It doubles the array once where half of the slots were live, and
/// once more where all of them were and keep their entries.
pub proof fn lemma_settled<K: Key, V>(slots: Seq<Slot<K::V, V>>)
    requires
        laid_out::<K, V>(slots),
    ensures
        laid_out::<K, V>(settled::<K, V>(slots)),
        !crowded(settled::<K, V>(slots)),
        live_count(settled::<K, V>(slots)) <= live_count(slots),
        !crowded(slots) ==> settled::<K, V>(slots) == slots,
        crowded(slots) && live_count(grown::<K, V>(slots)) < slots.len() ==> settled::<K, V>(slots)
            == grown::<K, V>(slots),
        crowded(slots) && live_count(grown::<K, V>(slots)) >= slots.len() ==> settled::<K, V>(slots)
            == grown::<K, V>(grown::<K, V>(slots)),
        settled::<K, V>(slots).len() == slots.len() || settled::<K, V>(slots).len() == 2
            * slots.len() || settled::<K, V>(slots).len() == 4 * slots.len(),
{
    if crowded(slots) {
        let once = grown::<K, V>(slots);
        lemma_grown::<K, V>(slots);
        if crowded(once) {
            lemma_grown::<K, V>(once);
        }
    }
}

/// A put into a calm array leaves it laid out, with fewer than half of its
/// slots live. The array keeps its length or doubles it; only an array of
/// one slot doubles twice.
pub proof fn lemma_after_put<K: Key, V>(slots: Seq<Slot<K::V, V>>, id: K::V, value: V)
    requires
        laid_out::<K, V>(slots),
        calm(slots),
    ensures
        laid_out::<K, V>(after_put::<K, V>(slots, id, value)),
        !crowded(after_put::<K, V>(slots, id, value)),
        after_put::<K, V>(slots, id, value).len() == slots.len() || after_put::<K, V>(
            slots,
            id,
            value,
        ).len() == 2 * slots.len() || (slots.len() == 1 && after_put::<K, V>(
            slots,
            id,
            value,
        ).len() == 4),
{
    let stored = placed::<K, V>(slots, id, value);
    lemma_placed::<K, V>(slots, id, value);
    lemma_settled::<K, V>(stored);
    if crowded(stored) {
        lemma_grown::<K, V>(stored);
    }
}

/// No slot of a fresh array is live.
pub proof fn lemma_fresh_is_empty<Id, V>(n: nat)
    ensures
        live_count(fresh::<Id, V>(n)) == 0,
    decreases n,
{
    if n > 0 {
        assert(fresh::<Id, V>(n).drop_last() =~= fresh::<Id, V>((n - 1) as nat));
        lemma_fresh_is_empty::<Id, V>((n - 1) as nat);
    }
}

} // verus!
