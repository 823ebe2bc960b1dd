//! What holds of the operations taken together.
//!
//! A search ends at a slot whose entry was deleted, so a deletion can hide
//! an entry that lies beyond it, and a later put of the hidden key stores it
//! a second time. The laws below say when that cannot happen: they speak of
//! keys that are `sole`, and of arrays whose entries are `all_found`.

use crate::content::{
    all_found, holds, holds_at, lemma_after_put_key, lemma_fresh_all_found, lemma_grown_content,
    lemma_last_value_sole, no_formerly_live, sole,
};
use crate::key::Key;
use crate::model::{
    after_delete, after_put, calm, crowded, fresh, grown, laid_out, lemma_after_delete,
    lemma_after_put, lemma_fresh_laid_out, lemma_grown, lemma_placed, lemma_probe_stop,
    path_used, placed, roomy,
};
use crate::probe::{
    ahead, dist, home, lemma_walk_after_update, lemma_walk_ends, live_count, lookup, probe_stop,
    walk_len,
};
use crate::slot::Slot;
use vstd::prelude::*;

verus! {

/// The probe walk for `id` steps over slot `j` before it ends.
pub open spec fn steps_over<K: Key, V>(slots: Seq<Slot<K::V, V>>, id: K::V, j: int) -> bool {
    dist(home::<K>(id, slots.len()), j, slots.len() as int) < walk_len(
        slots,
        home::<K>(id, slots.len()),
        id,
    )
}

/// A fresh array is laid out and calm, holds nothing, and all of its
/// entries are found.
pub proof fn law_fresh<K: Key, V>(n: nat)
    requires
        n >= 1,
    ensures
        laid_out::<K, V>(fresh::<K::V, V>(n)),
        calm(fresh::<K::V, V>(n)),
        all_found::<K, V>(fresh::<K::V, V>(n)),
        forall|k: K::V| !holds(fresh::<K::V, V>(n), k),
        forall|k: K::V| lookup::<K, V>(fresh::<K::V, V>(n), k) is None,
{
    let blank = fresh::<K::V, V>(n);
    lemma_fresh_laid_out::<K, V>(n);
    lemma_fresh_all_found::<K, V>(n);
    assert forall|k: K::V| lookup::<K, V>(blank, k) is None by {
        lemma_probe_stop::<K, V>(blank, k);
    }
}

/// A key that has been put is found with the value it was put with, if it
/// was sole before or the array was not doubled.
pub proof fn law_put_then_get<K: Key, V>(slots: Seq<Slot<K::V, V>>, id: K::V, value: V)
    requires
        laid_out::<K, V>(slots),
        calm(slots),
        sole::<K, V>(slots, id) || !crowded(placed::<K, V>(slots, id, value)),
    ensures
        lookup::<K, V>(after_put::<K, V>(slots, id, value), id) == Some(value),
{
    lemma_placed::<K, V>(slots, id, value);
    if sole::<K, V>(slots, id) {
        lemma_after_put_key::<K, V>(slots, id, value, id);
    }
}

/// A put of one key leaves the search for any other sole key as it was.
pub proof fn law_put_keeps_other<K: Key, V>(
    slots: Seq<Slot<K::V, V>>,
    id: K::V,
    value: V,
    other: K::V,
)
    requires
        laid_out::<K, V>(slots),
        calm(slots),
        sole::<K, V>(slots, other),
        other != id,
    ensures
        lookup::<K, V>(after_put::<K, V>(slots, id, value), other) == lookup::<K, V>(slots, other),
        sole::<K, V>(after_put::<K, V>(slots, id, value), other),
        holds(after_put::<K, V>(slots, id, value), other) <==> holds(slots, other),
{
    lemma_after_put_key::<K, V>(slots, id, value, other);
}

/// A put keeps all entries found where they all were.
pub proof fn law_put_keeps_all_found<K: Key, V>(slots: Seq<Slot<K::V, V>>, id: K::V, value: V)
    requires
        laid_out::<K, V>(slots),
        calm(slots),
        all_found::<K, V>(slots),
    ensures
        all_found::<K, V>(after_put::<K, V>(slots, id, value)),
        laid_out::<K, V>(after_put::<K, V>(slots, id, value)),
        calm(after_put::<K, V>(slots, id, value)),
{
    lemma_after_put::<K, V>(slots, id, value);
    let after = after_put::<K, V>(slots, id, value);
    assert forall|k: K::V| #[trigger] sole::<K, V>(after, k) by {
        assert(sole::<K, V>(slots, k));
        lemma_after_put_key::<K, V>(slots, id, value, k);
    }
}

/// Putting a key twice with one value gives the array that putting it once
/// gives.
pub proof fn law_put_twice<K: Key, V>(slots: Seq<Slot<K::V, V>>, id: K::V, value: V)
    requires
        laid_out::<K, V>(slots),
        calm(slots),
        sole::<K, V>(slots, id) || !crowded(placed::<K, V>(slots, id, value)),
    ensures
        after_put::<K, V>(after_put::<K, V>(slots, id, value), id, value) == after_put::<K, V>(
            slots,
            id,
            value,
        ),
{
    let once = after_put::<K, V>(slots, id, value);
    law_put_then_get::<K, V>(slots, id, value);
    lemma_after_put::<K, V>(slots, id, value);
    lemma_probe_stop::<K, V>(once, id);
    assert(placed::<K, V>(once, id, value) =~= once);
}

/// A key that has been deleted is not found. If it was sole before, the
/// array no longer holds it.
pub proof fn law_delete_then_get<K: Key, V>(slots: Seq<Slot<K::V, V>>, id: K::V)
    requires
        laid_out::<K, V>(slots),
        roomy(slots),
    ensures
        lookup::<K, V>(after_delete::<K, V>(slots, id), id) is None,
        sole::<K, V>(after_delete::<K, V>(slots, id), id) <== sole::<K, V>(slots, id),
        sole::<K, V>(slots, id) ==> !holds(after_delete::<K, V>(slots, id), id),
{
    let after = after_delete::<K, V>(slots, id);
    lemma_after_delete::<K, V>(slots, id);
    lemma_probe_stop::<K, V>(slots, id);
    if sole::<K, V>(slots, id) {
        assert forall|i: int| !holds_at(after, i, id) by {
            if holds_at(after, i, id) {
                assert(holds_at(slots, i, id));
            }
        }
    }
}

/// A deletion of one key hides every other key whose probe walk steps over
/// the slot that is freed, and leaves the search for any other key as it
/// was. It adds no key to the array.
pub proof fn law_delete_other<K: Key, V>(slots: Seq<Slot<K::V, V>>, id: K::V, other: K::V)
    requires
        laid_out::<K, V>(slots),
        roomy(slots),
        other != id,
    ensures
        lookup::<K, V>(after_delete::<K, V>(slots, id), other) == if lookup::<K, V>(slots, id)
            is Some && steps_over::<K, V>(slots, other, probe_stop::<K, V>(slots, id)) {
            None
        } else {
            lookup::<K, V>(slots, other)
        },
        holds(after_delete::<K, V>(slots, id), other) <==> holds(slots, other),
{
    let n = slots.len() as int;
    let after = after_delete::<K, V>(slots, id);
    let freed = probe_stop::<K, V>(slots, id);
    let start = home::<K>(other, slots.len());
    let len = walk_len(slots, start, other);
    lemma_after_delete::<K, V>(slots, id);
    lemma_probe_stop::<K, V>(slots, id);
    lemma_probe_stop::<K, V>(slots, other);
    if slots[freed] is Live {
        let steps = if steps_over::<K, V>(slots, other, freed) {
            dist(start, freed, n)
        } else {
            len
        };
        assert(ahead(start, dist(start, freed, n), n) == freed);
        lemma_walk_after_update(slots, freed, Slot::FormerlyLive, start, other, steps);
    }
    if holds(after, other) {
        let i = choose|i: int| holds_at(after, i, other);
        assert(holds_at(slots, i, other));
    }
    if holds(slots, other) {
        let i = choose|i: int| holds_at(slots, i, other);
        assert(holds_at(after, i, other));
    }
}

/// A key that the array does not hold is not found.
pub proof fn law_absent_is_not_found<K: Key, V>(slots: Seq<Slot<K::V, V>>, id: K::V)
    requires
        roomy(slots),
        !holds(slots, id),
    ensures
        lookup::<K, V>(slots, id) is None,
        sole::<K, V>(slots, id),
{
    lemma_probe_stop::<K, V>(slots, id);
    if lookup::<K, V>(slots, id) is Some {
        assert(holds_at(slots, probe_stop::<K, V>(slots, id), id));
    }
    assert forall|i: int| #[trigger] holds_at(slots, i, id) implies i == probe_stop::<K, V>(
        slots,
        id,
    ) by {
        assert(holds(slots, id));
    }
}

/// A doubling loses nothing where all entries were found: the search for
/// any key finds what it found before.
pub proof fn law_grown_keeps_content<K: Key, V>(slots: Seq<Slot<K::V, V>>, id: K::V)
    requires
        laid_out::<K, V>(slots),
        roomy(slots),
        sole::<K, V>(slots, id),
    ensures
        lookup::<K, V>(grown::<K, V>(slots), id) == lookup::<K, V>(slots, id),
        all_found::<K, V>(grown::<K, V>(slots)),
{
    lemma_grown_content::<K, V>(slots);
    lemma_probe_stop::<K, V>(slots, id);
    lemma_last_value_sole::<K, V>(slots, id);
}

/// After a put fewer than half of the slots are live.
pub proof fn law_put_leaves_room<K: Key, V>(slots: Seq<Slot<K::V, V>>, id: K::V, value: V)
    requires
        laid_out::<K, V>(slots),
        calm(slots),
    ensures
        2 * live_count(after_put::<K, V>(slots, id, value)) < after_put::<K, V>(
            slots,
            id,
            value,
        ).len(),
        laid_out::<K, V>(after_put::<K, V>(slots, id, value)),
        calm(after_put::<K, V>(slots, id, value)),
{
    lemma_after_put::<K, V>(slots, id, value);
}

/// The array never shrinks. A deletion keeps its length. A put keeps it or
/// doubles it, and doubles it twice only where the array had a single slot.
pub proof fn law_capacity_steps<K: Key, V>(slots: Seq<Slot<K::V, V>>, id: K::V, value: V)
    requires
        laid_out::<K, V>(slots),
        calm(slots),
    ensures
        after_delete::<K, V>(slots, id).len() == slots.len(),
        after_put::<K, V>(slots, id, value).len() == slots.len() || after_put::<K, V>(
            slots,
            id,
            value,
        ).len() == 2 * slots.len() || (slots.len() == 1 && after_put::<K, V>(
            slots,
            id,
            value,
        ).len() == 4),
        grown::<K, V>(slots).len() == 2 * slots.len(),
{
    lemma_after_put::<K, V>(slots, id, value);
    lemma_after_delete::<K, V>(slots, id);
    lemma_grown::<K, V>(slots);
}

/// The probe walk for a key that slot `i` holds ends on a slot that has been
/// used: on slot `i`, or on one before it on the way.
pub proof fn lemma_walk_meets_used<K: Key, V>(slots: Seq<Slot<K::V, V>>, id: K::V, i: int)
    requires
        laid_out::<K, V>(slots),
        holds_at(slots, i, id),
    ensures
        0 <= probe_stop::<K, V>(slots, id) < slots.len(),
        !(slots[probe_stop::<K, V>(slots, id)] is NeverUsed),
{
    let n = slots.len() as int;
    let start = home::<K>(id, slots.len());
    lemma_walk_ends(slots, start, id, i);
    let len = walk_len(slots, start, id);
    if len < dist(start, i, n) {
        assert(path_used::<K, V>(slots, i, len));
    }
}

/// Where the probe walk for a key ends on a slot that was never used, the
/// array does not hold the key.
pub proof fn law_never_used_is_absent<K: Key, V>(slots: Seq<Slot<K::V, V>>, id: K::V)
    requires
        laid_out::<K, V>(slots),
        slots[probe_stop::<K, V>(slots, id)] is NeverUsed,
    ensures
        !holds(slots, id),
        lookup::<K, V>(slots, id) is None,
{
    if holds(slots, id) {
        let i = choose|i: int| holds_at(slots, i, id);
        lemma_walk_meets_used::<K, V>(slots, id, i);
    }
}

/// Where no slot is formerly live, the search for a key finds a value
/// exactly when the array holds the key.
pub proof fn law_found_iff_held<K: Key, V>(slots: Seq<Slot<K::V, V>>, id: K::V)
    requires
        laid_out::<K, V>(slots),
        roomy(slots),
        no_formerly_live(slots),
    ensures
        holds(slots, id) <==> lookup::<K, V>(slots, id) is Some,
{
    lemma_probe_stop::<K, V>(slots, id);
    if holds(slots, id) {
        let i = choose|i: int| holds_at(slots, i, id);
        lemma_walk_meets_used::<K, V>(slots, id, i);
    }
    if lookup::<K, V>(slots, id) is Some {
        assert(holds_at(slots, probe_stop::<K, V>(slots, id), id));
    }
}

} // verus!
