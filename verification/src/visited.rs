//! The set of content hashes of the boards that a search has expanded.

use rustc_hash::{FxBuildHasher, FxHashSet};
use vstd::prelude::*;

verus! {

/// `rustc_hash::FxBuildHasher`, the hasher factory of `FxHashSet`. Nothing
/// is claimed of it; the declaration only lets the set's type be written.
#[verifier::external_type_specification]
#[verifier::external_body]
pub struct ExFxBuildHasher(FxBuildHasher);

/// A set of content hashes.
pub struct Visited {
    hashes: FxHashSet<u64>,
}

impl View for Visited {
    type V = Set<u64>;

    closed spec fn view(&self) -> Set<u64> {
        self.hashes@
    }
}

/// `HashSet::insert` on an `FxHashSet<u64>`: the value is in the set
/// afterwards, everything that was in it still is, and the result tells
/// whether the value was new.
///
/// Trusted: the set compares `u64` values by equality and the Fx hasher
/// maps equal values to equal digests, so the set behaves as the
/// mathematical set of the values inserted.
#[verifier::external_body]
fn fx_set_insert(set: &mut FxHashSet<u64>, value: u64) -> (fresh: bool)
    ensures
        final(set)@ == old(set)@.insert(value),
        fresh == !old(set)@.contains(value),
{
    set.insert(value)
}

impl Visited {
    /// The empty set.
    pub fn new() -> (visited: Visited)
        ensures
            visited@ == Set::<u64>::empty(),
    {
        Visited { hashes: FxHashSet::default() }
    }

    /// Adds a hash and tells whether it was new.
    pub fn insert(&mut self, hash: u64) -> (fresh: bool)
        ensures
            final(self)@ == old(self)@.insert(hash),
            fresh == !old(self)@.contains(hash),
    {
        fx_set_insert(&mut self.hashes, hash)
    }
}

} // verus!
