//! What all pages have in common: a type byte, a page id, the number of the last
//! log record that changed the page, and a checksum.

use vstd::prelude::*;

use crate::bytes::{
    crc32, crc32_of, le32, le64, lemma_le, put, read_u32, read_u64, slice, u32_at, u64_at,
    write_u32, write_u64, zeros,
};
use crate::constants::PAGE_SIZE;

verus! {

/// Number of a page.
pub type PageId = u64;

/// Number of a log record.
pub type Lsn = u64;

/// Page type of leaves.
pub const LEAF: u8 = 1;

/// Page type of internal pages.
pub const INTERNAL: u8 = 2;

/// Page type of the superblock.
pub const META: u8 = 3;

/// Page type of overflow pages.
pub const OVERFLOW: u8 = 4;

/// Page type of the free-space bitmap.
pub const FREE_SPACE: u8 = 5;

/// Offset of the page type.
pub const OFF_PAGE_TYPE: usize = 0;

/// Offset of the page flags.
pub const OFF_FLAGS: usize = 1;

/// Offset of the page id.
pub const OFF_PAGE_ID: usize = 8;

/// Offset of the number of the last record.
pub const OFF_LSN: usize = 16;

/// Offset of the checksum of a free-space page.
pub const OFF_FREE_SPACE_CHECKSUM: usize = 24;

/// Offset of the checksum of the other pages.
pub const OFF_CHECKSUM: usize = 44;

/// Where a page has its checksum; pages without a known type have none.
pub open spec fn checksum_at(b: Seq<u8>) -> Option<int> {
    if b[0] == FREE_SPACE {
        Some(OFF_FREE_SPACE_CHECKSUM as int)
    } else if LEAF <= b[0] <= OVERFLOW {
        Some(OFF_CHECKSUM as int)
    } else {
        None
    }
}

/// A page with zeros for its checksum.
pub open spec fn blank(b: Seq<u8>) -> Seq<u8> {
    match checksum_at(b) {
        Some(off) => put(b, off, zeros(4)),
        None => b,
    }
}

/// A page with its checksum.
pub open spec fn stamped(b: Seq<u8>) -> Seq<u8> {
    match checksum_at(b) {
        Some(off) => put(b, off, le32(crc32(blank(b)))),
        None => b,
    }
}

/// Whether a page has the checksum that it should have.
pub open spec fn verifies(b: Seq<u8>) -> bool {
    match checksum_at(b) {
        Some(off) => u32_at(b, off) == crc32(blank(b)),
        None => true,
    }
}

/// The number of the last record that changed a page.
pub open spec fn lsn_of(b: Seq<u8>) -> u64 {
    u64_at(b, OFF_LSN as int)
}

/// A page under another record number.
pub open spec fn restamped(b: Seq<u8>, lsn: u64) -> Seq<u8> {
    put(b, OFF_LSN as int, le64(lsn))
}

/// A stamped page verifies; the stamp hides nothing of the page.
pub proof fn law_stamp_verifies(b: Seq<u8>)
    requires
        b.len() == PAGE_SIZE,
    ensures
        stamped(b).len() == PAGE_SIZE,
        verifies(stamped(b)),
        blank(stamped(b)) == blank(b),
        lsn_of(stamped(b)) == lsn_of(b),
{
    if let Some(off) = checksum_at(b) {
        let c = crc32(blank(b));
        lemma_le(0, c, 0);
        let s = stamped(b);
        assert(s[0] == b[0]);
        assert(slice(s, off, 4) =~= le32(c));
        assert(blank(s) =~= blank(b));
        assert(slice(s, 16, 8) =~= slice(b, 16, 8));
    }
}

/// A page that is blanked keeps everything but its checksum.
pub proof fn lemma_blank(b: Seq<u8>)
    requires
        b.len() == PAGE_SIZE,
    ensures
        blank(b).len() == PAGE_SIZE,
        blank(blank(b)) == blank(b),
        lsn_of(blank(b)) == lsn_of(b),
        blank(b)[0] == b[0],
{
    if let Some(off) = checksum_at(b) {
        let s = blank(b);
        assert(s[0] == b[0]);
        assert(blank(s) =~= s);
        assert(slice(s, 16, 8) =~= slice(b, 16, 8));
    }
}

/// Setting the record number and blanking do not disturb each other.
pub proof fn lemma_restamped(b: Seq<u8>, lsn: u64)
    requires
        b.len() == PAGE_SIZE,
    ensures
        restamped(b, lsn).len() == PAGE_SIZE,
        lsn_of(restamped(b, lsn)) == lsn,
        blank(restamped(b, lsn)) == restamped(blank(b), lsn),
        restamped(b, lsn)[0] == b[0],
{
    lemma_le(0, 0, lsn);
    let r = restamped(b, lsn);
    assert(slice(r, 16, 8) =~= le64(lsn));
    assert(r[0] == b[0]);
    assert(blank(r) =~= restamped(blank(b), lsn));
}

/// The number of the last record that changed a page.
pub fn page_lsn(page: &Vec<u8>) -> (lsn: u64)
    requires
        page@.len() == PAGE_SIZE,
    ensures
        lsn == lsn_of(page@),
{
    read_u64(page.as_slice(), OFF_LSN)
}

/// Notes the record that changed a page.
pub fn set_lsn(page: &mut Vec<u8>, lsn: u64)
    requires
        old(page)@.len() == PAGE_SIZE,
    ensures
        final(page)@ == restamped(old(page)@, lsn),
{
    write_u64(page, OFF_LSN, lsn);
}

/// Where a page has its checksum.
fn checksum_offset(page: &Vec<u8>) -> (r: Option<usize>)
    requires
        page@.len() == PAGE_SIZE,
    ensures
        match checksum_at(page@) {
            Some(o) => r == Some(o as usize) && o <= OFF_CHECKSUM,
            None => r is None,
        },
{
    if page[0] == FREE_SPACE {
        Some(OFF_FREE_SPACE_CHECKSUM)
    } else if LEAF <= page[0] && page[0] <= OVERFLOW {
        Some(OFF_CHECKSUM)
    } else {
        None
    }
}

/// Zeroes the checksum of a page.
pub fn clear_checksum(page: &mut Vec<u8>)
    requires
        old(page)@.len() == PAGE_SIZE,
    ensures
        final(page)@ == blank(old(page)@),
{
    if let Some(off) = checksum_offset(page) {
        page.set(off, 0);
        page.set(off + 1, 0);
        page.set(off + 2, 0);
        page.set(off + 3, 0);
        assert(page@ =~= blank(old(page)@));
    }
}

/// Gives a page its checksum.
pub fn stamp_checksum(page: &mut Vec<u8>)
    requires
        old(page)@.len() == PAGE_SIZE,
    ensures
        final(page)@ == stamped(old(page)@),
{
    if let Some(off) = checksum_offset(page) {
        let ghost b = page@;
        clear_checksum(page);
        let c: u32 = crc32_of(page.as_slice());
        write_u32(page, off, c);
        proof {
            lemma_le(0, c, 0);
            assert(page@ =~= stamped(b));
        }
    }
}

/// Checks the checksum of a page: the one it has and the one it should have,
/// where they differ.
pub fn verify_checksum(page: &Vec<u8>) -> (r: Result<(), (u32, u32)>)
    requires
        page@.len() == PAGE_SIZE,
    ensures
        r is Ok <==> verifies(page@),
        r matches Err((e, a)) ==> checksum_at(page@) matches Some(off) && e == u32_at(page@, off)
            && a == crc32(blank(page@)),
{
    match checksum_offset(page) {
        None => Ok(()),
        Some(off) => {
            let expected: u32 = read_u32(page.as_slice(), off);
            let mut copy: Vec<u8> = crate::node::copy_bytes(page);
            clear_checksum(&mut copy);
            let actual: u32 = crc32_of(copy.as_slice());
            if actual == expected {
                Ok(())
            } else {
                Err((expected, actual))
            }
        },
    }
}

/// Which pages verify. A leaf, an internal page, the superblock and an overflow page, types
/// 1 to 4, have at byte 44 the CRC-32 of the page with zeros there; the free-space page,
/// type 5, has it at byte 24; a page of another type has none and always verifies.
pub proof fn law_pages_verify_by_their_checksum(b: Seq<u8>)
    requires
        b.len() == PAGE_SIZE,
    ensures
        1 <= b[0] <= 4 ==> (verifies(b) <==> u32_at(b, 44) == crc32(
            b.update(44, 0).update(45, 0).update(46, 0).update(47, 0),
        )),
        b[0] == 5 ==> (verifies(b) <==> u32_at(b, 24) == crc32(
            b.update(24, 0).update(25, 0).update(26, 0).update(27, 0),
        )),
        b[0] == 0 || b[0] > 5 ==> verifies(b),
{
    let c = b.update(44, 0).update(45, 0).update(46, 0).update(47, 0);
    let d = b.update(24, 0).update(25, 0).update(26, 0).update(27, 0);
    if 1 <= b[0] <= 4 {
        assert(blank(b) =~= c);
    }
    if b[0] == 5 {
        assert(blank(b) =~= d);
    }
}

/// Stamping changes nothing of a page but the four bytes of its checksum.
pub proof fn law_stamps_touch_only_the_checksum(b: Seq<u8>, i: int)
    requires
        b.len() == PAGE_SIZE,
        0 <= i < b.len(),
        1 <= b[0] <= 4 ==> !(44 <= i < 48),
        b[0] == 5 ==> !(24 <= i < 28),
    ensures
        stamped(b)[i] == b[i],
        blank(b)[i] == b[i],
{
    lemma_le(0, crc32(blank(b)), 0);
}

/// The number of a record stands at byte 16, and giving a page another one changes nothing
/// else.
pub proof fn law_record_numbers_stand_at_sixteen(b: Seq<u8>, lsn: u64, i: int)
    requires
        b.len() == PAGE_SIZE,
        0 <= i < b.len(),
    ensures
        lsn_of(b) == u64_at(b, 16),
        lsn_of(restamped(b, lsn)) == lsn,
        !(16 <= i < 24) ==> restamped(b, lsn)[i] == b[i],
{
    lemma_restamped(b, lsn);
    lemma_le(0, 0, lsn);
}

} // verus!
