//! Sets of placements, each held as its key.
use vstd::prelude::*;
use nohash::{IntSet, NoHashHasher};
use std::hash::BuildHasherDefault;

verus! {

#[verifier::external_type_specification]
#[verifier::external_body]
#[verifier::reject_recursive_types(Item)]
pub struct ExNoHashHasher<Item>(NoHashHasher<Item>);

#[verifier::external_type_specification]
#[verifier::external_body]
#[verifier::reject_recursive_types(Inner)]
pub struct ExBuildHasherDefault<Inner>(BuildHasherDefault<Inner>);

/// An empty set of keys.
pub fn new_key_set() -> (r: IntSet<u32>)
    ensures
        r@ == Set::<u32>::empty(),
{
    IntSet::default()
}

/// Adds `key` to `set` (`HashSet::insert` of std, on a set whose hasher takes the key as its
/// hash). The set afterwards holds what it held and `key`; the result tells whether `key` was
/// new.
#[verifier::external_body]
pub(crate) fn insert_key(set: &mut IntSet<u32>, key: u32) -> (r: bool)
    ensures
        final(set)@ == old(set)@.insert(key),
        r == !old(set)@.contains(key),
{
    set.insert(key)
}

} // verus!
