//! The table itself.

use crate::content::{
    all_found, distinct, last_value, lemma_after_put_key, lemma_grown_content, lemma_grown_count,
    no_formerly_live, sole,
};
use crate::growth::{lemma_put_counts, next_len};
use crate::key::{digest, Key};
use crate::laws::{law_fresh, law_put_keeps_all_found};
use crate::model::{
    after_delete, after_put, calm, crowded, fresh, grown, lemma_after_delete,
    lemma_after_put, lemma_fresh_laid_out, lemma_grown, lemma_placed, lemma_refilled, placed,
    reachable, refilled, roomy,
};
use crate::probe::{
    ahead, halts, home, lemma_room, lemma_walk_ends, lemma_walk_known, live_count, lookup,
    probe_stop, stops_after, walk_len, walks_on,
};
use crate::slot::Slot;
use std::collections::hash_map::DefaultHasher;
use std::hash::Hasher;
use vstd::prelude::*;

verus! {

/// A map from keys to values, kept in an array of slots that is searched by
/// linear probing.
///
/// A search for a key ends at the first slot that is not a live slot with
/// another key. It therefore ends at a slot whose entry was deleted, and does
/// not find a key that was stored beyond such a slot. Every doubling of the
/// array lays all entries out anew and makes them all findable again.
pub struct HashTable<K: Key, V> {
    size: usize,
    table: Vec<Slot<K, V>>,
    current_size: usize,
}

impl<K: Key, V> View for HashTable<K, V> {
    type V = Seq<Slot<K::V, V>>;

    /// The slot array, each key seen by its view.
    closed spec fn view(&self) -> Seq<Slot<K::V, V>> {
        self.table@.map_values(|slot: Slot<K, V>| slot@)
    }
}

impl<K: Key, V> HashTable<K, V> {
    /// The two counters agree with the slot array.
    pub closed spec fn counted(&self) -> bool {
        &&& self.size == self.table.len()
        &&& self.current_size == live_count(self@)
    }

    /// What holds of a table at any time: its counters agree with the slot
    /// array, it has a slot, and every live slot is reached from the home
    /// index of its key over slots that have been used.
    pub open spec fn inv(&self) -> bool {
        &&& self.counted()
        &&& self@.len() >= 1
        &&& reachable::<K, V>(self@)
    }

    /// What holds of a table between two operations: `inv`, and the table
    /// is empty or fewer than half of its slots are live.
    pub open spec fn wf(&self) -> bool {
        &&& self.inv()
        &&& calm(self@)
    }

    /// Makes a table of `size` slots, none of them used.
    pub fn new(size: usize) -> (t: Self)
        requires
            size > 0,
        ensures
            t.wf(),
            t@ == fresh::<K::V, V>(size as nat),
            t@.len() == size,
            live_count(t@) == 0,
            all_found::<K, V>(t@),
            forall|id: K::V| #[trigger] lookup::<K, V>(t@, id) is None,
    {
        let t = HashTable { size, table: Self::blank(size), current_size: 0 };
        proof {
            assert(t@ =~= fresh::<K::V, V>(size as nat));
            lemma_fresh_laid_out::<K, V>(size as nat);
            law_fresh::<K, V>(size as nat);
        }
        t
    }

    /// An array of `size` slots that were never used.
    fn blank(size: usize) -> (table: Vec<Slot<K, V>>)
        ensures
            table.len() == size,
            forall|i: int| 0 <= i < size ==> table[i] is NeverUsed,
    {
        let mut table: Vec<Slot<K, V>> = Vec::new();
        while table.len() < size
            invariant
                table.len() <= size,
                forall|i: int| 0 <= i < table.len() ==> table[i] is NeverUsed,
            decreases size - table.len(),
        {
            table.push(Slot::NeverUsed);
        }
        table
    }

    /// The number of slots.
    pub fn capacity(&self) -> (c: usize)
        requires
            self.inv(),
        ensures
            c == self@.len(),
    {
        self.size
    }

    /// The number of live slots.
    pub fn occupancy(&self) -> (c: usize)
        requires
            self.inv(),
        ensures
            c == live_count(self@),
    {
        self.current_size
    }

    /// The digest of a key.
    pub fn hash(&self, key: &K) -> (h: u64)
        ensures
            h == digest::<K>(key@),
    {
        let mut hasher = DefaultHasher::new();
        key.feed(&mut hasher);
        proof {
            assert(Seq::<Seq<u8>>::empty() + K::written(key@) =~= K::written(key@));
        }
        hasher.finish()
    }

    /// Tells whether the probe walk for `key` goes on beyond the slot `index`.
    fn passes(&self, index: usize, key: &K) -> (b: bool)
        requires
            index < self@.len(),
        ensures
            b == !halts(self@[index as int], key@),
    {
        match &self.table[index] {
            Slot::Live { key: held, .. } => !held.same(key),
            _ => false,
        }
    }

    /// The index at which the probe walk for `key` ends: that of the live
    /// slot that holds `key`, or that of the first slot on the way that is
    /// not live.
    pub fn find_slot(&self, key: &K) -> (r: Option<usize>)
        requires
            self.inv(),
            live_count(self@) < self@.len(),
        ensures
            r matches Some(index) && index == probe_stop::<K, V>(self@, key@),
            0 <= probe_stop::<K, V>(self@, key@) < self@.len(),
            halts(self@[probe_stop::<K, V>(self@, key@)], key@),
    {
        let hash = self.hash(key);
        let mut index = (hash % (self.size as u64)) as usize;
        let ghost start = index as int;
        let ghost steps = 0int;
        let ghost at = 0int;
        proof {
            lemma_room(self@);
            at = choose|i: int| 0 <= i < self@.len() && !(#[trigger] self@[i] is Live);
            lemma_walk_ends(self@, start, key@, at);
        }
        while self.passes(index, key)
            invariant
                self.inv(),
                self.size == self@.len(),
                index < self.size,
                start == home::<K>(key@, self@.len()),
                0 <= steps < self@.len(),
                index == ahead(start, steps, self@.len() as int),
                stops_after(self@, start, key@, walk_len(self@, start, key@)),
                forall|e: int| 0 <= e < steps ==> #[trigger] walks_on(self@, start, key@, e),
            decreases self@.len() - steps,
        {
            proof {
                let len = walk_len(self@, start, key@);
                if len <= steps {
                    assert(walks_on(self@, start, key@, len));
                }
                steps = steps + 1;
                if index + 1 < self.size {
                    vstd::arithmetic::div_mod::lemma_small_mod((index + 1) as nat, self.size as nat);
                } else {
                    vstd::arithmetic::div_mod::lemma_mod_self_0(self.size as int);
                }
            }
            index = (index + 1) % self.size;
        }
        proof {
            assert(stops_after(self@, start, key@, steps));
            lemma_walk_known(self@, start, key@, steps);
        }
        Some(index)
    }

    /// The value stored for `key`, if the search for `key` finds it.
    pub fn get(&self, key: &K) -> (r: Option<&V>)
        requires
            self.wf(),
        ensures
            r == (match lookup::<K, V>(self@, key@) {
                Some(v) => Some(&v),
                None => None,
            }),
    {
        match self.find_slot(key) {
            Some(index) => match &self.table[index] {
                Slot::Live { key: held, value } => if held.same(key) {
                    Some(value)
                } else {
                    None
                },
                _ => None,
            },
            None => None,
        }
    }

    /// Stores `val` under `key` at the slot where the probe walk for `key`
    /// ends, whatever the number of live slots becomes.
    fn place(&mut self, key: K, val: V)
        requires
            old(self).inv(),
            roomy(old(self)@),
        ensures
            final(self).inv(),
            final(self)@ == placed::<K, V>(old(self)@, key@, val),
    {
        proof {
            lemma_placed::<K, V>(self@, key@, val);
        }
        let index = match self.find_slot(&key) {
            Some(index) => index,
            None => 0,
        };
        let adds = match &self.table[index] {
            Slot::Live { .. } => false,
            _ => true,
        };
        self.table[index] = Slot::Live { key, value: val };
        if adds {
            self.current_size += 1;
        }
        proof {
            assert(self@ =~= placed::<K, V>(old(self)@, key@, val));
        }
    }

    /// Stores `val` under `key`, in place of the value that the search for
    /// `key` finds, if it finds one. Doubles the slot array if half of the
    /// slots are live afterwards. Never fails.
    pub fn put(&mut self, key: K, val: V) -> (r: Result<(), &str>)
        requires
            old(self).wf(),
            old(self)@.len() * 2 <= usize::MAX,
        ensures
            r is Ok,
            final(self).wf(),
            final(self)@ == after_put::<K, V>(old(self)@, key@, val),
            2 * live_count(final(self)@) < final(self)@.len(),
            final(self)@.len() == old(self)@.len()
                || final(self)@.len() == 2 * old(self)@.len()
                || (old(self)@.len() == 1 && final(self)@.len() == 4),
            sole::<K, V>(old(self)@, key@) || final(self)@.len() == old(self)@.len()
                ==> lookup::<K, V>(final(self)@, key@) == Some(val),
            all_found::<K, V>(old(self)@) ==> all_found::<K, V>(final(self)@),
            all_found::<K, V>(old(self)@) ==> live_count(final(self)@)
                == live_count(old(self)@) + (if lookup::<K, V>(old(self)@, key@) is Some {
                    0nat
                } else {
                    1nat
                }),
            all_found::<K, V>(old(self)@) ==> final(self)@.len()
                == next_len(old(self)@.len(), live_count(final(self)@)),
    {
        proof {
            lemma_placed::<K, V>(self@, key@, val);
            lemma_after_put::<K, V>(self@, key@, val);
            if sole::<K, V>(self@, key@) {
                lemma_after_put_key::<K, V>(self@, key@, val, key@);
            }
            if all_found::<K, V>(self@) {
                law_put_keeps_all_found::<K, V>(self@, key@, val);
                lemma_put_counts::<K, V>(self@, key@, val);
            }
            if crowded(placed::<K, V>(self@, key@, val)) {
                lemma_grown::<K, V>(placed::<K, V>(self@, key@, val));
            }
        }
        self.place(key, val);
        if 2 * self.current_size >= self.size {
            proof {
                lemma_grown::<K, V>(self@);
            }
            self.resize();
            if 2 * self.current_size >= self.size {
                self.resize();
            }
        }
        Ok(())
    }

    /// Doubles the slot array: allocates a fresh array of twice the length
    /// and stores every live entry anew, in the order of the old slots.
    /// Afterwards no slot is formerly live and every entry is found. Of two
    /// live slots that held one key, the value of the later one is kept.
    pub fn resize(&mut self)
        requires
            old(self).inv(),
            old(self)@.len() * 2 <= usize::MAX,
        ensures
            final(self).inv(),
            final(self)@ == grown::<K, V>(old(self)@),
            final(self)@.len() == 2 * old(self)@.len(),
            live_count(final(self)@) <= live_count(old(self)@),
            distinct(old(self)@) ==> live_count(final(self)@) == live_count(old(self)@),
            old(self).wf() ==> final(self).wf(),
            all_found::<K, V>(final(self)@),
            no_formerly_live(final(self)@),
            forall|id: K::V| #[trigger]
                lookup::<K, V>(final(self)@, id) == last_value(old(self)@, id),
    {
        let ghost source = self@;
        proof {
            lemma_grown_content::<K, V>(source);
            if distinct(source) {
                lemma_grown_count::<K, V>(source);
            }
        }
        let new_size = self.size * 2;
        let mut old_table = Self::blank(new_size);
        core::mem::swap(&mut self.table, &mut old_table);
        self.size = new_size;
        self.current_size = 0;
        proof {
            assert(self@ =~= fresh::<K::V, V>(new_size as nat));
            lemma_fresh_laid_out::<K, V>(new_size as nat);
            assert(source.take(0) =~= Seq::<Slot<K::V, V>>::empty());
            lemma_grown::<K, V>(source);
        }
        let mut index: usize = 0;
        while index < old_table.len()
            invariant
                self.inv(),
                index <= old_table.len() == source.len(),
                new_size == 2 * source.len(),
                forall|i: int| index <= i < source.len() ==> (#[trigger] old_table[i])@ == source[i],
                self@ == refilled::<K, V>(source.take(index as int), fresh(new_size as nat)),
            decreases old_table.len() - index,
        {
            let mut slot = Slot::NeverUsed;
            core::mem::swap(&mut slot, &mut old_table[index]);
            proof {
                let before = source.take(index as int);
                let upto = source.take(index + 1);
                assert(upto.drop_last() =~= before);
                assert(upto.last() == source[index as int]);
                lemma_fresh_laid_out::<K, V>(new_size as nat);
                lemma_refilled::<K, V>(before, fresh(new_size as nat));
            }
            match slot {
                Slot::Live { key, value } => {
                    self.place(key, value);
                },
                _ => {},
            }
            index += 1;
        }
        proof {
            assert(source.take(index as int) =~= source);
        }
    }

    /// Removes the entry of `key`, if the search for `key` finds one.
    pub fn delete(&mut self, key: &K)
        requires
            old(self).wf(),
        ensures
            final(self).wf(),
            final(self)@ == after_delete::<K, V>(old(self)@, key@),
            final(self)@.len() == old(self)@.len(),
            lookup::<K, V>(final(self)@, key@) is None,
            live_count(final(self)@) == live_count(old(self)@) - (if lookup::<K, V>(old(self)@, key@)
                is Some {
                1int
            } else {
                0int
            }),
    {
        proof {
            lemma_after_delete::<K, V>(self@, key@);
        }
        let index = match self.find_slot(key) {
            Some(index) => index,
            None => 0,
        };
        let found = match &self.table[index] {
            Slot::Live { key: held, .. } => held.same(key),
            _ => false,
        };
        if found {
            self.table[index] = Slot::FormerlyLive;
            self.current_size -= 1;
            proof {
                assert(self@ =~= after_delete::<K, V>(old(self)@, key@));
            }
        }
    }
}

} // verus!
