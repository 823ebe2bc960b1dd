//! What the table asks of a key type: an equality test and a way to hash.

use std::collections::hash_map::DefaultHasher;
use std::hash::Hash;
use vstd::prelude::*;
use vstd::std_specs::hash::DefaultHasherAdditionalSpecFns;

verus! {

/// A type whose values can serve as keys of a table.
///
/// A key is known to the table by its view: two keys with the same view are
/// the same key, and what a key feeds to a hasher depends on its view alone.
/// The trait is implemented here for `i32` and for `String`. An
/// implementation for another type has to meet the two contracts below: the
/// table finds a key again only if they hold.
pub trait Key: View + Sized {
    /// The writes that a key with the view `id` makes to a hasher.
    spec fn written(id: Self::V) -> Seq<Seq<u8>>;

    /// Tells whether `self` and `other` are the same key.
    fn same(&self, other: &Self) -> (r: bool)
        ensures
            r == (self@ == other@),
    ;

    /// Feeds the key to `state`.
    fn feed(&self, state: &mut DefaultHasher)
        ensures
            final(state)@ == old(state)@ + Self::written(self@),
    ;
}

/// The 64-bit digest of the key with the view `id`: what a hasher that
/// started empty returns once the key has been fed to it.
pub open spec fn digest<K: Key>(id: K::V) -> u64 {
    DefaultHasher::spec_finish(K::written(id))
}

/// The writes by which the standard library hashes an `i32`. They are fixed
/// for one build of a program, not across platforms or releases.
pub uninterp spec fn i32_written(k: i32) -> Seq<Seq<u8>>;

/// The writes by which the standard library hashes a string of these
/// characters. They are fixed for one build of a program, not across
/// platforms or releases.
pub uninterp spec fn string_written(s: Seq<char>) -> Seq<Seq<u8>>;

/// Calls `<i32 as Hash>::hash` on a `DefaultHasher`. The contract claims that
/// the call only appends writes to the hasher, and that these writes depend on
/// the integer alone.
#[verifier::external_body]
fn feed_i32(key: &i32, state: &mut DefaultHasher)
    ensures
        final(state)@ == old(state)@ + i32_written(*key),
{
    key.hash(state);
}

/// Calls `<String as Hash>::hash` on a `DefaultHasher`. The contract claims
/// that the call only appends writes to the hasher, and that these writes
/// depend on the characters of the string alone.
#[verifier::external_body]
fn feed_string(key: &String, state: &mut DefaultHasher)
    ensures
        final(state)@ == old(state)@ + string_written(key@),
{
    key.hash(state);
}

impl Key for i32 {
    open spec fn written(id: i32) -> Seq<Seq<u8>> {
        i32_written(id)
    }

    fn same(&self, other: &Self) -> (r: bool) {
        *self == *other
    }

    fn feed(&self, state: &mut DefaultHasher) {
        feed_i32(self, state)
    }
}

impl Key for String {
    open spec fn written(id: Seq<char>) -> Seq<Seq<u8>> {
        string_written(id)
    }

    fn same(&self, other: &Self) -> (r: bool) {
        *self == *other
    }

    fn feed(&self, state: &mut DefaultHasher) {
        feed_string(self, state)
    }
}

} // verus!
