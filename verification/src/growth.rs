//! How the array grows under a run of puts.

use crate::content::{
    all_found, holds, holds_at, lemma_after_put_key, lemma_all_found_distinct, lemma_grown_content,
    lemma_grown_count, lemma_placed_all_found, sole,
};
use crate::key::Key;
use crate::laws::{law_fresh, law_put_keeps_all_found};
use crate::model::{
    after_put, calm, crowded, fresh, grown, laid_out, lemma_fresh_laid_out, lemma_grown,
    lemma_placed, lemma_probe_stop, placed,
};
use crate::probe::{live_count, lookup, probe_stop};
use crate::slot::Slot;
use vstd::arithmetic::power2::{
    lemma2_to64, lemma_pow2_strictly_increases, lemma_pow2_unfold, pow2,
};
use vstd::prelude::*;

verus! {

/// The array after the keys have been put in their order, each with the
/// value at its place in `values`.
pub open spec fn put_all<K: Key, V>(
    slots: Seq<Slot<K::V, V>>,
    keys: Seq<K::V>,
    values: Seq<V>,
) -> Seq<Slot<K::V, V>>
    decreases keys.len(),
{
    if keys.len() == 0 {
        slots
    } else {
        after_put::<K, V>(
            put_all::<K, V>(slots, keys.drop_last(), values.drop_last()),
            keys.last(),
            values.last(),
        )
    }
}

/// The length of an array of `len` slots once a put has made `live` of its
/// slots live.
pub open spec fn next_len(len: nat, live: nat) -> nat {
    if 2 * live < len {
        len
    } else if live < len {
        2 * len
    } else {
        4 * len
    }
}

/// A put of a key that the array does not hold adds a live slot, and the
/// array grows as `next_len` says.
pub proof fn lemma_put_new_key<K: Key, V>(slots: Seq<Slot<K::V, V>>, id: K::V, value: V)
    requires
        laid_out::<K, V>(slots),
        calm(slots),
        all_found::<K, V>(slots),
        !holds(slots, id),
    ensures
        live_count(after_put::<K, V>(slots, id, value)) == live_count(slots) + 1,
        after_put::<K, V>(slots, id, value).len() == next_len(slots.len(), live_count(slots) + 1),
{
    let stored = placed::<K, V>(slots, id, value);
    lemma_placed::<K, V>(slots, id, value);
    lemma_probe_stop::<K, V>(slots, id);
    if slots[probe_stop::<K, V>(slots, id)] is Live {
        assert(holds_at(slots, probe_stop::<K, V>(slots, id), id));
    }
    lemma_placed_all_found::<K, V>(slots, id, value);
    lemma_all_found_distinct::<K, V>(stored);
    if crowded(stored) {
        let once = grown::<K, V>(stored);
        lemma_grown::<K, V>(stored);
        lemma_grown_count::<K, V>(stored);
        if crowded(once) {
            lemma_grown_content::<K, V>(stored);
            lemma_all_found_distinct::<K, V>(once);
            lemma_grown::<K, V>(once);
            lemma_grown_count::<K, V>(once);
        }
    }
}

/// A put into an array whose entries are all found adds a live slot unless
/// the key was found, and the array grows as `next_len` says.
pub proof fn lemma_put_counts<K: Key, V>(slots: Seq<Slot<K::V, V>>, id: K::V, value: V)
    requires
        laid_out::<K, V>(slots),
        calm(slots),
        all_found::<K, V>(slots),
    ensures
        live_count(after_put::<K, V>(slots, id, value)) == live_count(slots) + (if lookup::<K, V>(
            slots,
            id,
        ) is Some {
            0nat
        } else {
            1nat
        }),
        after_put::<K, V>(slots, id, value).len() == next_len(
            slots.len(),
            live_count(after_put::<K, V>(slots, id, value)),
        ),
{
    lemma_probe_stop::<K, V>(slots, id);
    lemma_placed::<K, V>(slots, id, value);
    if lookup::<K, V>(slots, id) is Some {
        assert(slots[probe_stop::<K, V>(slots, id)] is Live);
    } else {
        assert(sole::<K, V>(slots, id));
        if holds(slots, id) {
            let i = choose|i: int| holds_at(slots, i, id);
            assert(holds_at(slots, i, id));
        }
        lemma_put_new_key::<K, V>(slots, id, value);
    }
}

/// The length of an array that started fresh with `c` slots, once `n` keys
/// that all differ have been put.
pub open spec fn len_after(c: nat, n: nat) -> nat
    decreases n,
{
    if n == 0 {
        c
    } else {
        next_len(len_after(c, (n - 1) as nat), n)
    }
}

/// After puts of keys that all differ into a fresh array, the array is laid
/// out and calm, all of its entries are found, it holds the keys that were
/// put and no others, one live slot for each, and its length is `len_after`.
pub proof fn lemma_put_all<K: Key, V>(c: nat, keys: Seq<K::V>, values: Seq<V>)
    requires
        c >= 1,
        keys.no_duplicates(),
        values.len() == keys.len(),
    ensures
        laid_out::<K, V>(put_all::<K, V>(fresh(c), keys, values)),
        calm(put_all::<K, V>(fresh(c), keys, values)),
        all_found::<K, V>(put_all::<K, V>(fresh(c), keys, values)),
        live_count(put_all::<K, V>(fresh(c), keys, values)) == keys.len(),
        forall|k: K::V| #[trigger]
            holds(put_all::<K, V>(fresh(c), keys, values), k) <==> keys.contains(k),
        put_all::<K, V>(fresh(c), keys, values).len() == len_after(c, keys.len()),
    decreases keys.len(),
{
    let after = put_all::<K, V>(fresh(c), keys, values);
    if keys.len() == 0 {
        law_fresh::<K, V>(c);
        lemma_fresh_laid_out::<K, V>(c);
        assert forall|k: K::V| #[trigger] holds(after, k) <==> keys.contains(k) by {}
    } else {
        let before = put_all::<K, V>(fresh(c), keys.drop_last(), values.drop_last());
        let id = keys.last();
        lemma_put_all::<K, V>(c, keys.drop_last(), values.drop_last());
        if holds(before, id) {
            assert(keys.drop_last().contains(id));
            let i = choose|i: int| 0 <= i < keys.drop_last().len() && keys.drop_last()[i] == id;
            assert(keys[i] == keys[keys.len() - 1]);
        }
        lemma_put_new_key::<K, V>(before, id, values.last());
        law_put_keeps_all_found::<K, V>(before, id, values.last());
        assert forall|k: K::V| #[trigger] holds(after, k) <==> keys.contains(k) by {
            assert(sole::<K, V>(before, k));
            lemma_after_put_key::<K, V>(before, id, values.last(), k);
            if keys.contains(k) {
                let i = choose|i: int| 0 <= i < keys.len() && keys[i] == k;
                if i < keys.len() - 1 {
                    assert(keys.drop_last()[i] == k);
                }
            }
            if keys.drop_last().contains(k) {
                let i = choose|i: int| 0 <= i < keys.drop_last().len() && keys.drop_last()[i] == k;
                assert(keys[i] == k);
            }
            if k == id {
                assert(keys[keys.len() - 1] == k);
            }
        }
    }
}

/// `len_after(c, n)` is `c` doubled some number of times, which this
/// function returns. It is more than `2 * n`, and the doubling before it is
/// not.
pub proof fn lemma_len_after(c: nat, n: nat) -> (j: nat)
    requires
        c >= 1,
    ensures
        len_after(c, n) == c * pow2(j),
        2 * n < len_after(c, n),
        j >= 1 ==> 2 * n >= c * pow2((j - 1) as nat),
    decreases n,
{
    assert(pow2(0) == 1) by {
        lemma2_to64();
    }
    if n == 0 {
        0
    } else {
        let j0 = lemma_len_after(c, (n - 1) as nat);
        lemma_pow2_unfold(j0 + 1);
        lemma_pow2_unfold(j0 + 2);
        assert(c * pow2(j0 + 1) == 2 * (c * pow2(j0))) by (nonlinear_arith)
            requires
                pow2(j0 + 1) == 2 * pow2(j0),
        ;
        assert(c * pow2(j0 + 2) == 4 * (c * pow2(j0))) by (nonlinear_arith)
            requires
                pow2(j0 + 2) == 2 * pow2(j0 + 1),
                pow2(j0 + 1) == 2 * pow2(j0),
        ;
        let len = len_after(c, (n - 1) as nat);
        if 2 * n < len {
            j0
        } else if n < len {
            j0 + 1
        } else {
            j0 + 2
        }
    }
}

/// Doubling more often gives no less.
pub proof fn lemma_doublings_grow(c: nat, i: nat, j: nat)
    requires
        i <= j,
    ensures
        c * pow2(i) <= c * pow2(j),
{
    if i < j {
        lemma_pow2_strictly_increases(i, j);
    }
    assert(c * pow2(i) <= c * pow2(j)) by (nonlinear_arith)
        requires
            pow2(i) <= pow2(j),
    ;
}

/// After puts of `n` keys that all differ into a fresh array of `c` slots,
/// the array has more than `2 * n` slots, their number is `c` doubled some
/// number of times, and no smaller such number is more than `2 * n`. One
/// slot is live for each key.
pub proof fn law_capacity_after_puts<K: Key, V>(c: nat, keys: Seq<K::V>, values: Seq<V>)
    requires
        c >= 1,
        keys.no_duplicates(),
        values.len() == keys.len(),
    ensures
        put_all::<K, V>(fresh(c), keys, values).len() > 2 * keys.len(),
        exists|j: nat| put_all::<K, V>(fresh(c), keys, values).len() == c * #[trigger] pow2(j),
        forall|j: nat|
            c * #[trigger] pow2(j) > 2 * keys.len() ==> put_all::<K, V>(
                fresh(c),
                keys,
                values,
            ).len() <= c * pow2(j),
        live_count(put_all::<K, V>(fresh(c), keys, values)) == keys.len(),
{
    let n = keys.len();
    let cap = put_all::<K, V>(fresh(c), keys, values).len();
    lemma_put_all::<K, V>(c, keys, values);
    let j = lemma_len_after(c, n);
    assert(cap == c * pow2(j));
    assert forall|i: nat| c * #[trigger] pow2(i) > 2 * n implies cap <= c * pow2(i) by {
        if i >= j {
            lemma_doublings_grow(c, j, i);
        } else {
            lemma_doublings_grow(c, i, (j - 1) as nat);
        }
    }
}

} // verus!
