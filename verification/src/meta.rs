//! The superblock, page 0: the root of the index and the page of the free-space
//! bitmap.

use vstd::prelude::*;

use crate::bytes::{le64, lemma_le, put, read_u64, set_u64, set_u8, u64_at, zeros};
use crate::constants::PAGE_SIZE;
use crate::page::{META, OFF_PAGE_TYPE};

verus! {

/// Offset of the root's page id.
pub const OFF_ROOT: usize = 24;

/// Offset of the page id of the free-space bitmap.
pub const OFF_FREE_SPACE_PAGE: usize = 32;

/// The root that a superblock names.
pub open spec fn root_of(b: Seq<u8>) -> u64 {
    u64_at(b, OFF_ROOT as int)
}

/// The free-space page that a superblock names.
pub open spec fn free_space_of(b: Seq<u8>) -> u64 {
    u64_at(b, OFF_FREE_SPACE_PAGE as int)
}

/// A superblock with another root.
pub open spec fn with_root(b: Seq<u8>, root: u64) -> Seq<u8> {
    put(b, OFF_ROOT as int, le64(root))
}

/// Makes a page of zeros a superblock.
pub fn init(page: &mut [u8])
    requires
        old(page)@.len() == PAGE_SIZE,
    ensures
        final(page)@ == put(old(page)@, 0, seq![META]),
{
    set_u8(page, OFF_PAGE_TYPE, META);
}

/// Names another root.
pub fn set_root(page: &mut [u8], root: u64)
    requires
        old(page)@.len() == PAGE_SIZE,
    ensures
        final(page)@ == with_root(old(page)@, root),
{
    set_u64(page, OFF_ROOT, root);
}

/// The root.
pub fn read_root(page: &[u8]) -> (root: u64)
    requires
        page@.len() == PAGE_SIZE,
    ensures
        root == root_of(page@),
{
    read_u64(page, OFF_ROOT)
}

/// The page of the free-space bitmap; 0 if there is none.
pub fn read_free_space(page: &[u8]) -> (id: u64)
    requires
        page@.len() == PAGE_SIZE,
    ensures
        id == free_space_of(page@),
{
    read_u64(page, OFF_FREE_SPACE_PAGE)
}

/// The root that was set is the root that is read, and setting it changes
/// nothing else.
pub proof fn law_root_roundtrip(b: Seq<u8>, root: u64)
    requires
        b.len() == PAGE_SIZE,
    ensures
        root_of(with_root(b, root)) == root,
        free_space_of(with_root(b, root)) == free_space_of(b),
        with_root(b, root)[0] == b[0],
{
    lemma_le(0, 0, root);
    let c = with_root(b, root);
    assert(c.subrange(24, 32) =~= le64(root));
    crate::bytes::lemma_holds_int(c, 24, 0, 0, root);
}

/// The superblock has the root at byte 24 and the page of the free-space bitmap at byte 32;
/// naming another root changes no other byte.
pub proof fn law_superblocks_are_laid_out(b: Seq<u8>, root: u64, i: int)
    requires
        b.len() == PAGE_SIZE,
        0 <= i < b.len(),
    ensures
        root_of(b) == u64_at(b, 24),
        free_space_of(b) == u64_at(b, 32),
        !(24 <= i < 32) ==> with_root(b, root)[i] == b[i],
{
    lemma_le(0, 0, root);
}

} // verus!
