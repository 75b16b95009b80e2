//! The page table of a buffer-pool shard: a hash map from page ids to frames
//! that hashes with `rustc_hash`.

use rustc_hash::{FxBuildHasher, FxHashMap};
use vstd::prelude::*;

verus! {

/// The hasher factory of `rustc_hash`.
#[verifier::external_type_specification]
#[verifier::external_body]
pub struct ExFxBuildHasher(FxBuildHasher);

/// A map from page ids to frames.
pub type PageTable = FxHashMap<u64, usize>;

/// The largest number of entries that a table makes room for in advance. A map
/// that is asked for more than memory can address panics; this many fit on every
/// machine.
pub const MAX_RESERVED: usize = 0x100_0000;

/// Calls `HashMap::with_capacity_and_hasher` with `rustc_hash::FxBuildHasher`: the
/// map is empty.
#[verifier::external_body]
pub(crate) fn table_new(capacity: usize) -> (m: PageTable)
    requires
        capacity <= MAX_RESERVED,
    ensures
        m@.dom() == Set::<u64>::empty(),
{
    FxHashMap::with_capacity_and_hasher(capacity, FxBuildHasher)
}

/// Calls `HashMap::get` on a map that hashes with `rustc_hash::FxBuildHasher`: the
/// value under the key, if there is one.
#[verifier::external_body]
pub(crate) fn table_get(m: &PageTable, id: u64) -> (r: Option<usize>)
    ensures
        r == (if m@.contains_key(id) {
            Some(m@[id])
        } else {
            None
        }),
{
    m.get(&id).copied()
}

/// Calls `HashMap::insert` on a map that hashes with `rustc_hash::FxBuildHasher`:
/// the key gets the value, the other keys keep theirs.
#[verifier::external_body]
pub(crate) fn table_insert(m: &mut PageTable, id: u64, frame: usize)
    ensures
        final(m)@ == old(m)@.insert(id, frame),
{
    m.insert(id, frame);
}

/// Calls `HashMap::remove` on a map that hashes with `rustc_hash::FxBuildHasher`:
/// the key is gone, the other keys keep their values.
#[verifier::external_body]
pub(crate) fn table_remove(m: &mut PageTable, id: u64)
    ensures
        final(m)@ == old(m)@.remove(id),
{
    m.remove(&id);
}

} // verus!
