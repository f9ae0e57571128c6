use vstd::prelude::*;

use rustc_hash::FxBuildHasher;
use rustc_hash::FxHashSet;

verus! {

/// `rustc_hash::FxBuildHasher`, the hasher of an `FxHashSet`.
#[verifier::external_type_specification]
#[verifier::external_body]
pub struct ExFxBuildHasher(FxBuildHasher);

/// A pair of numbers as an item of a hash set.
pub type Pair = (u64, u64);

/// `HashSet::insert` with `FxBuildHasher`: adds the pair, and tells whether it was missing. Fx hashes
/// equal pairs alike, so the set behaves as one does under any other hasher.
#[verifier::external_body]
pub(crate) fn insert(set: &mut FxHashSet<Pair>, pair: Pair) -> (added: bool)
    ensures
        final(set)@ == old(set)@.insert(pair),
        added == !old(set)@.contains(pair),
{
    set.insert(pair)
}

/// `HashSet::contains` with `FxBuildHasher`: whether the pair is in the set.
#[verifier::external_body]
pub(crate) fn contains(set: &FxHashSet<Pair>, pair: Pair) -> (r: bool)
    ensures
        r == set@.contains(pair),
{
    set.contains(&pair)
}

/// `HashSet::len` with `FxBuildHasher`: how many pairs the set holds.
#[verifier::external_body]
pub(crate) fn len(set: &FxHashSet<Pair>) -> (n: usize)
    ensures
        n == set@.len(),
{
    set.len()
}

} // verus!
