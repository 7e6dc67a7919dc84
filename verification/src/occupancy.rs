use vstd::prelude::*;
use ahash::AHashSet;

verus! {

#[verifier::external_type_specification]
#[verifier::external_body]
#[verifier::reject_recursive_types(T)]
#[verifier::reject_recursive_types(S)]
pub struct ExAHashSet<T, S>(ahash::AHashSet<T, S>);

#[verifier::external_type_specification]
#[verifier::external_body]
pub struct ExRandomState(ahash::RandomState);

/// The keys that an `AHashSet<u64>` holds.
pub uninterp spec fn key_set_contents(set: AHashSet<u64>) -> Set<u64>;

/// Calls `ahash::AHashSet::with_capacity`. Trusted: the new set is empty.
#[verifier::external_body]
pub(crate) fn key_set_with_capacity(capacity: usize) -> (set: AHashSet<u64>)
    ensures
        key_set_contents(set) == Set::<u64>::empty(),
{
    AHashSet::with_capacity(capacity)
}

/// Calls `HashSet::contains` through `AHashSet`. Trusted: true exactly when
/// the key is in the set.
#[verifier::external_body]
pub(crate) fn key_set_contains(set: &AHashSet<u64>, key: u64) -> (found: bool)
    ensures
        found == key_set_contents(*set).contains(key),
{
    set.contains(&key)
}

/// Calls `HashSet::insert` through `AHashSet`. Trusted: afterwards the set
/// holds its old keys and `key`, and the result is true exactly when the key
/// was not there before.
#[verifier::external_body]
pub(crate) fn key_set_insert(set: &mut AHashSet<u64>, key: u64) -> (fresh: bool)
    ensures
        key_set_contents(*final(set)) == key_set_contents(*old(set)).insert(key),
        fresh == !key_set_contents(*old(set)).contains(key),
{
    set.insert(key)
}

/// The voxels that an `AHashSet<(u8, u32, u32)>` holds.
pub uninterp spec fn voxel_set_contents(set: AHashSet<(u8, u32, u32)>) -> Set<(u8, u32, u32)>;

/// Calls `ahash::AHashSet::with_capacity`. Trusted: the new set is empty.
#[verifier::external_body]
pub(crate) fn voxel_set_with_capacity(capacity: usize) -> (set: AHashSet<(u8, u32, u32)>)
    ensures
        voxel_set_contents(set) == Set::<(u8, u32, u32)>::empty(),
{
    AHashSet::with_capacity(capacity)
}

/// Calls `HashSet::contains` through `AHashSet`. Trusted: true exactly when
/// the voxel is in the set (tuples compare field by field).
#[verifier::external_body]
pub(crate) fn voxel_set_contains(set: &AHashSet<(u8, u32, u32)>, voxel: (u8, u32, u32)) -> (found: bool)
    ensures
        found == voxel_set_contents(*set).contains(voxel),
{
    set.contains(&voxel)
}

/// Calls `HashSet::insert` through `AHashSet`. Trusted: afterwards the set
/// holds its old voxels and `voxel`, and the result is true exactly when the
/// voxel was not there before.
#[verifier::external_body]
pub(crate) fn voxel_set_insert(set: &mut AHashSet<(u8, u32, u32)>, voxel: (u8, u32, u32)) -> (fresh: bool)
    ensures
        voxel_set_contents(*final(set)) == voxel_set_contents(*old(set)).insert(voxel),
        fresh == !voxel_set_contents(*old(set)).contains(voxel),
{
    set.insert(voxel)
}

} // verus!
