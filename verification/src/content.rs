//! Which keys an array holds, which of them a search finds, and what the
//! operations keep of both.

use crate::key::Key;
use crate::model::{
    after_put, calm, crowded, fresh, grown, laid_out, lemma_fresh_laid_out, lemma_grown,
    lemma_placed, lemma_probe_stop, lemma_refilled, placed, refilled, roomy,
};
use crate::probe::{halts, home, lemma_walk_after_update, live_count, lookup, probe_stop, walk_len};
use crate::slot::Slot;
use vstd::prelude::*;

verus! {

/// Slot `i` is live and holds `id`.
pub open spec fn holds_at<Id, V>(slots: Seq<Slot<Id, V>>, i: int, id: Id) -> bool {
    0 <= i < slots.len() && slots[i] is Live && slots[i]->key == id
}

/// Some live slot holds `id`.
pub open spec fn holds<Id, V>(slots: Seq<Slot<Id, V>>, id: Id) -> bool {
    exists|i: int| holds_at(slots, i, id)
}

/// No live slot holds `id` but the one, if any, at which the probe walk for
/// `id` ends. A search for such a key tells whether the array holds it.
pub open spec fn sole<K: Key, V>(slots: Seq<Slot<K::V, V>>, id: K::V) -> bool {
    forall|i: int| #[trigger] holds_at(slots, i, id) ==> i == probe_stop::<K, V>(slots, id)
}

/// Every live entry is found by the search for its key. This holds of an
/// array as long as nothing has been deleted since it was made or doubled.
pub open spec fn all_found<K: Key, V>(slots: Seq<Slot<K::V, V>>) -> bool {
    forall|id: K::V| #[trigger] sole::<K, V>(slots, id)
}

/// No two live slots hold the same key.
pub open spec fn distinct<Id, V>(slots: Seq<Slot<Id, V>>) -> bool {
    forall|i: int, j: int, id: Id|
        #[trigger] holds_at(slots, i, id) && #[trigger] holds_at(slots, j, id) ==> i == j
}

/// No slot is formerly live.
pub open spec fn no_formerly_live<Id, V>(slots: Seq<Slot<Id, V>>) -> bool {
    forall|i: int| 0 <= i < slots.len() ==> !(#[trigger] slots[i] is FormerlyLive)
}

/// The value of the last live slot that holds `id`.
pub open spec fn last_value<Id, V>(slots: Seq<Slot<Id, V>>, id: Id) -> Option<V>
    decreases slots.len(),
{
    if slots.len() == 0 {
        None
    } else if holds_at(slots, slots.len() - 1, id) {
        Some(slots.last()->value)
    } else {
        last_value(slots.drop_last(), id)
    }
}

/// All entries of a fresh array are found: it has none.
pub proof fn lemma_fresh_all_found<K: Key, V>(n: nat)
    ensures
        all_found::<K, V>(fresh::<K::V, V>(n)),
        forall|k: K::V| !holds(fresh::<K::V, V>(n), k),
{
    let blank = fresh::<K::V, V>(n);
    assert forall|k: K::V| #[trigger] sole::<K, V>(blank, k) by {}
    assert forall|k: K::V| !holds(blank, k) by {
        if holds(blank, k) {
            let i = choose|i: int| holds_at(blank, i, k);
        }
    }
}

/// Where the search for a key finds a value, the array holds the key.
pub proof fn lemma_found_is_held<K: Key, V>(slots: Seq<Slot<K::V, V>>, id: K::V)
    requires
        0 <= probe_stop::<K, V>(slots, id) < slots.len(),
        lookup::<K, V>(slots, id) is Some,
    ensures
        holds(slots, id),
        holds_at(slots, probe_stop::<K, V>(slots, id), id),
{
    assert(holds_at(slots, probe_stop::<K, V>(slots, id), id));
}

/// Where every holder of a key is the slot `at`, the last value of the key
/// is that of slot `at`.
pub proof fn lemma_last_value_at<Id, V>(slots: Seq<Slot<Id, V>>, id: Id, at: int)
    requires
        forall|i: int| #[trigger] holds_at(slots, i, id) ==> i == at,
    ensures
        last_value(slots, id) == if holds_at(slots, at, id) {
            Some(slots[at]->value)
        } else {
            None
        },
    decreases slots.len(),
{
    if slots.len() > 0 && !holds_at(slots, slots.len() - 1, id) {
        let rest = slots.drop_last();
        assert forall|i: int| #[trigger] holds_at(rest, i, id) implies i == at by {
            assert(holds_at(slots, i, id));
        }
        lemma_last_value_at(rest, id, at);
    }
}

/// For a sole key, the last value is what the search finds.
pub proof fn lemma_last_value_sole<K: Key, V>(slots: Seq<Slot<K::V, V>>, id: K::V)
    requires
        sole::<K, V>(slots, id),
        0 <= probe_stop::<K, V>(slots, id) < slots.len(),
        halts(slots[probe_stop::<K, V>(slots, id)], id),
    ensures
        last_value(slots, id) == lookup::<K, V>(slots, id),
        holds(slots, id) <==> lookup::<K, V>(slots, id) is Some,
{
    lemma_last_value_at(slots, id, probe_stop::<K, V>(slots, id));
    if holds(slots, id) {
        let i = choose|i: int| holds_at(slots, i, id);
        assert(holds_at(slots, i, id));
    }
}

/// A last value belongs to a holder of the key.
pub proof fn lemma_last_value_held<Id, V>(slots: Seq<Slot<Id, V>>, id: Id)
    ensures
        last_value(slots, id) is Some <==> holds(slots, id),
    decreases slots.len(),
{
    if slots.len() > 0 {
        let rest = slots.drop_last();
        lemma_last_value_held(rest, id);
        if holds_at(slots, slots.len() - 1, id) {
        } else {
            if holds(rest, id) {
                let i = choose|i: int| holds_at(rest, i, id);
                assert(holds_at(slots, i, id));
            }
            if holds(slots, id) {
                let i = choose|i: int| holds_at(slots, i, id);
                assert(holds_at(rest, i, id));
            }
        }
    } else {
        if holds(slots, id) {
            let i = choose|i: int| holds_at(slots, i, id);
        }
    }
}

/// Storing a key leaves every other key that the search found where it was.
pub proof fn lemma_placed_found_stays<K: Key, V>(
    slots: Seq<Slot<K::V, V>>,
    id: K::V,
    value: V,
    other: K::V,
)
    requires
        roomy(slots),
        other != id,
        slots[probe_stop::<K, V>(slots, other)] is Live,
    ensures
        probe_stop::<K, V>(placed::<K, V>(slots, id, value), other) == probe_stop::<K, V>(
            slots,
            other,
        ),
        lookup::<K, V>(placed::<K, V>(slots, id, value), other) == lookup::<K, V>(slots, other),
{
    let start = home::<K>(other, slots.len());
    lemma_probe_stop::<K, V>(slots, id);
    lemma_probe_stop::<K, V>(slots, other);
    lemma_walk_after_update(
        slots,
        probe_stop::<K, V>(slots, id),
        Slot::Live { key: id, value },
        start,
        other,
        walk_len(slots, start, other),
    );
}

/// Storing a key keeps every sole key sole. The stored key is found with
/// its new value; the search for any other sole key finds what it found.
pub proof fn lemma_placed_sole<K: Key, V>(
    slots: Seq<Slot<K::V, V>>,
    id: K::V,
    value: V,
    k: K::V,
)
    requires
        laid_out::<K, V>(slots),
        roomy(slots),
        sole::<K, V>(slots, k),
    ensures
        sole::<K, V>(placed::<K, V>(slots, id, value), k),
        k == id ==> lookup::<K, V>(placed::<K, V>(slots, id, value), k) == Some(value),
        k != id && (roomy(placed::<K, V>(slots, id, value)) || holds(slots, k)) ==> lookup::<K, V>(
            placed::<K, V>(slots, id, value),
            k,
        ) == lookup::<K, V>(slots, k),
        holds(placed::<K, V>(slots, id, value), k) <==> k == id || holds(slots, k),
{
    let after = placed::<K, V>(slots, id, value);
    let stop = probe_stop::<K, V>(slots, id);
    lemma_placed::<K, V>(slots, id, value);
    lemma_probe_stop::<K, V>(slots, id);
    lemma_probe_stop::<K, V>(slots, k);
    assert(holds_at(after, stop, id));
    if k == id {
        assert forall|i: int| #[trigger] holds_at(after, i, k) implies i == probe_stop::<K, V>(
            after,
            k,
        ) by {
            if i != stop {
                assert(holds_at(slots, i, k));
            }
        }
        if holds(slots, k) {
            let i = choose|i: int| holds_at(slots, i, k);
            assert(holds_at(slots, i, k));
        }
    } else {
        let at = probe_stop::<K, V>(slots, k);
        if slots[at] is Live {
            lemma_placed_found_stays::<K, V>(slots, id, value, k);
            assert(holds_at(slots, at, k));
            assert(holds_at(after, at, k));
        }
        assert forall|i: int| #[trigger] holds_at(after, i, k) implies i == probe_stop::<K, V>(
            after,
            k,
        ) by {
            assert(holds_at(slots, i, k));
        }
        if holds(after, k) {
            let i = choose|i: int| holds_at(after, i, k);
            assert(holds_at(slots, i, k));
        }
        if holds(slots, k) {
            let i = choose|i: int| holds_at(slots, i, k);
            assert(holds_at(slots, i, k));
            assert(holds_at(after, i, k));
        }
        if roomy(after) && !(slots[at] is Live) {
            lemma_probe_stop::<K, V>(after, k);
            let landed = probe_stop::<K, V>(after, k);
            if after[landed] is Live {
                assert(holds_at(after, landed, k));
                assert(holds_at(slots, landed, k));
            }
        }
    }
}

/// Storing a key in an array whose entries are all found leaves them all
/// found.
pub proof fn lemma_placed_all_found<K: Key, V>(slots: Seq<Slot<K::V, V>>, id: K::V, value: V)
    requires
        laid_out::<K, V>(slots),
        roomy(slots),
        all_found::<K, V>(slots),
    ensures
        all_found::<K, V>(placed::<K, V>(slots, id, value)),
{
    let after = placed::<K, V>(slots, id, value);
    assert forall|k: K::V| #[trigger] sole::<K, V>(after, k) by {
        assert(sole::<K, V>(slots, k));
        lemma_placed_sole::<K, V>(slots, id, value, k);
    }
}

/// Storing a key does not change the last value of any other key.
pub proof fn lemma_last_value_placed<K: Key, V>(
    slots: Seq<Slot<K::V, V>>,
    id: K::V,
    value: V,
    other: K::V,
)
    requires
        roomy(slots),
        other != id,
    ensures
        last_value(placed::<K, V>(slots, id, value), other) == last_value(slots, other),
{
    lemma_probe_stop::<K, V>(slots, id);
    lemma_last_value_update(
        slots,
        probe_stop::<K, V>(slots, id),
        Slot::Live { key: id, value },
        other,
    );
}

/// Replacing a slot that does not hold a key by another that does not hold
/// it either leaves the last value of that key as it was.
pub proof fn lemma_last_value_update<Id, V>(
    slots: Seq<Slot<Id, V>>,
    at: int,
    slot: Slot<Id, V>,
    id: Id,
)
    requires
        0 <= at < slots.len(),
        !holds_at(slots, at, id),
        !(slot is Live && slot->key == id),
    ensures
        last_value(slots.update(at, slot), id) == last_value(slots, id),
    decreases slots.len(),
{
    let after = slots.update(at, slot);
    if at == slots.len() - 1 {
        assert(after.drop_last() =~= slots.drop_last());
    } else {
        assert(after.drop_last() =~= slots.drop_last().update(at, slot));
        if !holds_at(slots, slots.len() - 1, id) {
            lemma_last_value_update(slots.drop_last(), at, slot, id);
        }
    }
}

/// Refilling an array whose entries are all found leaves them all found.
/// The search for a key then finds the last value that the source had for
/// it, or else what it found in the target.
pub proof fn lemma_refilled_content<K: Key, V>(
    source: Seq<Slot<K::V, V>>,
    target: Seq<Slot<K::V, V>>,
)
    requires
        laid_out::<K, V>(target),
        all_found::<K, V>(target),
        live_count(target) + source.len() < target.len(),
    ensures
        all_found::<K, V>(refilled::<K, V>(source, target)),
        forall|k: K::V| #[trigger]
            lookup::<K, V>(refilled::<K, V>(source, target), k) == (match last_value(source, k) {
                Some(v) => Some(v),
                None => lookup::<K, V>(target, k),
            }),
        no_formerly_live(target) ==> no_formerly_live(refilled::<K, V>(source, target)),
    decreases source.len(),
{
    if source.len() > 0 {
        let rest = source.drop_last();
        let sofar = refilled::<K, V>(rest, target);
        lemma_refilled_content::<K, V>(rest, target);
        lemma_refilled::<K, V>(rest, target);
        lemma_refilled::<K, V>(source, target);
        match source.last() {
            Slot::Live { key, value } => {
                let after = placed::<K, V>(sofar, key, value);
                lemma_placed_all_found::<K, V>(sofar, key, value);
                lemma_probe_stop::<K, V>(sofar, key);
                assert forall|k: K::V| #[trigger]
                    lookup::<K, V>(after, k) == (match last_value(source, k) {
                        Some(v) => Some(v),
                        None => lookup::<K, V>(target, k),
                    }) by {
                    assert(sole::<K, V>(sofar, k));
                    lemma_placed_sole::<K, V>(sofar, key, value, k);
                }
            },
            _ => {},
        }
    }
}

/// A doubling leaves every entry found and no slot formerly live. The
/// search for a key then finds the last value that the array had for it.
pub proof fn lemma_grown_content<K: Key, V>(slots: Seq<Slot<K::V, V>>)
    requires
        slots.len() >= 1,
    ensures
        all_found::<K, V>(grown::<K, V>(slots)),
        no_formerly_live(grown::<K, V>(slots)),
        forall|k: K::V| #[trigger]
            lookup::<K, V>(grown::<K, V>(slots), k) == last_value(slots, k),
{
    let blank = fresh::<K::V, V>(2 * slots.len());
    lemma_fresh_laid_out::<K, V>(2 * slots.len());
    lemma_fresh_all_found::<K, V>(2 * slots.len());
    lemma_refilled_content::<K, V>(slots, blank);
    assert forall|k: K::V| #[trigger]
        lookup::<K, V>(grown::<K, V>(slots), k) == last_value(slots, k) by {
        lemma_probe_stop::<K, V>(blank, k);
    }
}

/// Where all entries are found, no two live slots hold the same key.
pub proof fn lemma_all_found_distinct<K: Key, V>(slots: Seq<Slot<K::V, V>>)
    requires
        all_found::<K, V>(slots),
    ensures
        distinct(slots),
{
    assert forall|i: int, j: int, id: K::V|
        #[trigger] holds_at(slots, i, id) && #[trigger] holds_at(slots, j, id) implies i == j by {
        assert(sole::<K, V>(slots, id));
    }
}

/// Refilling from a source without a key twice, none of whose keys the
/// target holds, adds a live slot for each live slot of the source.
pub proof fn lemma_refilled_count<K: Key, V>(
    source: Seq<Slot<K::V, V>>,
    target: Seq<Slot<K::V, V>>,
)
    requires
        laid_out::<K, V>(target),
        all_found::<K, V>(target),
        live_count(target) + source.len() < target.len(),
        distinct(source),
        forall|k: K::V| #[trigger] holds(source, k) ==> !holds(target, k),
    ensures
        live_count(refilled::<K, V>(source, target)) == live_count(target) + live_count(source),
    decreases source.len(),
{
    if source.len() > 0 {
        let rest = source.drop_last();
        let sofar = refilled::<K, V>(rest, target);
        assert(distinct(rest)) by {
            assert forall|i: int, j: int, id: K::V|
                #[trigger] holds_at(rest, i, id) && #[trigger] holds_at(rest, j, id) implies i
                == j by {
                assert(holds_at(source, i, id) && holds_at(source, j, id));
            }
        }
        assert forall|k: K::V| #[trigger] holds(rest, k) implies !holds(target, k) by {
            let i = choose|i: int| holds_at(rest, i, k);
            assert(holds_at(source, i, k));
            assert(holds(source, k));
        }
        lemma_refilled_count::<K, V>(rest, target);
        lemma_refilled_content::<K, V>(rest, target);
        lemma_refilled::<K, V>(rest, target);
        match source.last() {
            Slot::Live { key, value } => {
                lemma_placed::<K, V>(sofar, key, value);
                lemma_probe_stop::<K, V>(sofar, key);
                lemma_probe_stop::<K, V>(target, key);
                assert(holds_at(source, source.len() - 1, key));
                assert(holds(source, key));
                lemma_last_value_held(rest, key);
                if holds(rest, key) {
                    let i = choose|i: int| holds_at(rest, i, key);
                    assert(holds_at(source, i, key));
                }
                if lookup::<K, V>(target, key) is Some {
                    lemma_found_is_held::<K, V>(target, key);
                }
                assert(lookup::<K, V>(sofar, key) is None);
            },
            _ => {},
        }
    }
}

/// A doubling of an array without a key twice keeps the number of live
/// slots.
pub proof fn lemma_grown_count<K: Key, V>(slots: Seq<Slot<K::V, V>>)
    requires
        slots.len() >= 1,
        distinct(slots),
    ensures
        live_count(grown::<K, V>(slots)) == live_count(slots),
{
    let blank = fresh::<K::V, V>(2 * slots.len());
    lemma_fresh_laid_out::<K, V>(2 * slots.len());
    lemma_fresh_all_found::<K, V>(2 * slots.len());
    lemma_refilled_count::<K, V>(slots, blank);
}

/// After a doubling the search for any key finds the last value that the
/// array had for it, and the array holds the keys that it held.
pub proof fn lemma_grown_key<K: Key, V>(slots: Seq<Slot<K::V, V>>, k: K::V)
    requires
        slots.len() >= 1,
    ensures
        roomy(grown::<K, V>(slots)),
        sole::<K, V>(grown::<K, V>(slots), k),
        lookup::<K, V>(grown::<K, V>(slots), k) == last_value(slots, k),
        holds(grown::<K, V>(slots), k) <==> holds(slots, k),
{
    let after = grown::<K, V>(slots);
    lemma_grown::<K, V>(slots);
    lemma_grown_content::<K, V>(slots);
    assert(sole::<K, V>(after, k));
    lemma_probe_stop::<K, V>(after, k);
    lemma_last_value_sole::<K, V>(after, k);
    lemma_last_value_held(slots, k);
}

/// A put into a calm array keeps every sole key sole. The key that was put
/// is then found with its new value, if it was sole; the search for any
/// other sole key finds what it found before.
pub proof fn lemma_after_put_key<K: Key, V>(
    slots: Seq<Slot<K::V, V>>,
    id: K::V,
    value: V,
    k: K::V,
)
    requires
        laid_out::<K, V>(slots),
        calm(slots),
        sole::<K, V>(slots, k),
    ensures
        sole::<K, V>(after_put::<K, V>(slots, id, value), k),
        lookup::<K, V>(after_put::<K, V>(slots, id, value), k) == if k == id {
            Some(value)
        } else {
            lookup::<K, V>(slots, k)
        },
        holds(after_put::<K, V>(slots, id, value), k) <==> k == id || holds(
            slots,
            k,
        ),
{
    let stored = placed::<K, V>(slots, id, value);
    lemma_placed::<K, V>(slots, id, value);
    lemma_placed_sole::<K, V>(slots, id, value, k);
    lemma_probe_stop::<K, V>(slots, id);
    lemma_probe_stop::<K, V>(slots, k);
    lemma_last_value_sole::<K, V>(slots, k);
    if crowded(stored) {
        let once = grown::<K, V>(stored);
        lemma_grown_key::<K, V>(stored, k);
        if k == id {
            lemma_last_value_sole::<K, V>(stored, k);
        } else {
            lemma_last_value_placed::<K, V>(slots, id, value, k);
        }
        if crowded(once) {
            lemma_grown_key::<K, V>(once, k);
            lemma_probe_stop::<K, V>(once, k);
            lemma_last_value_sole::<K, V>(once, k);
        }
    }
}

} // verus!
