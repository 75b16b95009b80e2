//! The free-space bitmap page: one bit per page id, set while the page is free.
//! Ids behind the end of the bitmap are not tracked.

use vstd::prelude::*;

use crate::bytes::{le64, put, set_u64, set_u8};
use crate::constants::PAGE_SIZE;
use crate::page::{FREE_SPACE, OFF_PAGE_ID, OFF_PAGE_TYPE};

verus! {

/// First byte of the bitmap.
pub const BITMAP_START: usize = 32;

/// Number of page ids that the bitmap tracks.
pub const CAPACITY: u64 = 32512;

/// Whether a bit of a byte is set.
pub open spec fn bit_set(x: u8, bit: u8) -> bool {
    (x >> bit) & 1 == 1
}

/// Whether a page is marked free.
pub open spec fn is_free(b: Seq<u8>, pid: int) -> bool {
    bit_set(b[BITMAP_START + pid / 8], (pid % 8) as u8)
}

/// The free pages below `n`, in order.
pub open spec fn free_below(b: Seq<u8>, n: nat) -> Seq<u64>
    decreases n,
{
    if n == 0 {
        Seq::empty()
    } else {
        let s = free_below(b, (n - 1) as nat);
        if is_free(b, n - 1) {
            s.push((n - 1) as u64)
        } else {
            s
        }
    }
}

/// Makes a page of zeros a bitmap page.
pub fn init(page: &mut [u8], page_id: u64)
    requires
        old(page)@.len() == PAGE_SIZE,
    ensures
        final(page)@ == put(put(old(page)@, 0, seq![FREE_SPACE]), 8, le64(page_id)),
{
    set_u8(page, OFF_PAGE_TYPE, FREE_SPACE);
    set_u64(page, OFF_PAGE_ID, page_id);
}

/// Where the bit of a page is.
pub fn locate(pid: u64) -> (r: (usize, u8))
    requires
        pid < CAPACITY,
    ensures
        r.0 == BITMAP_START + pid / 8,
        r.0 < PAGE_SIZE,
        r.1 == pid % 8,
        r.1 < 8,
{
    (BITMAP_START + (pid / 8) as usize, (pid % 8) as u8)
}

proof fn lemma_bits(x: u8, k: u8, j: u8)
    requires
        k < 8,
        j < 8,
    ensures
        bit_set(x | (1u8 << k), j) == (j == k || bit_set(x, j)),
        bit_set(x & !(1u8 << k), j) == (j != k && bit_set(x, j)),
{
    assert((((x | (1u8 << k)) >> j) & 1 == 1) == (j == k || (x >> j) & 1 == 1)) by (bit_vector)
        requires
            k < 8,
            j < 8,
    ;
    assert((((x & !(1u8 << k)) >> j) & 1 == 1) == (j != k && (x >> j) & 1 == 1)) by (bit_vector)
        requires
            k < 8,
            j < 8,
    ;
}

/// Whether two pages agree but for the bit of one page id.
pub open spec fn same_but(b0: Seq<u8>, b: Seq<u8>, pid: u64) -> bool {
    &&& b.len() == b0.len()
    &&& forall|i: int|
        0 <= i < b.len() && i != BITMAP_START + pid as int / 8 ==> #[trigger] b[i] == b0[i]
    &&& forall|q: int|
        0 <= q < CAPACITY && q != pid ==> (#[trigger] is_free(b, q) == is_free(b0, q))
}

/// Marks a page as free. Returns whether the bitmap tracks its id.
pub fn set_free(page: &mut [u8], pid: u64) -> (r: bool)
    requires
        old(page)@.len() == PAGE_SIZE,
    ensures
        r == (pid < CAPACITY),
        !r ==> final(page)@ == old(page)@,
        r ==> same_but(old(page)@, final(page)@, pid) && is_free(final(page)@, pid as int),
{
    if pid >= CAPACITY {
        return false;
    }
    let (byte, bit) = locate(pid);
    let x: u8 = page[byte];
    page[byte] = x | (1u8 << bit);
    proof {
        lemma_bits(x, bit, bit);
        assert forall|q: int| 0 <= q < CAPACITY && q != pid implies (#[trigger] is_free(page@, q)
            == is_free(old(page)@, q)) by {
            lemma_bits(x, bit, (q % 8) as u8);
        }
    }
    true
}

/// Marks a page as in use; an id that the bitmap does not track is left alone.
pub fn clear_free(page: &mut [u8], pid: u64)
    requires
        old(page)@.len() == PAGE_SIZE,
    ensures
        pid >= CAPACITY ==> final(page)@ == old(page)@,
        pid < CAPACITY ==> same_but(old(page)@, final(page)@, pid) && !is_free(
            final(page)@,
            pid as int,
        ),
{
    if pid >= CAPACITY {
        return;
    }
    let (byte, bit) = locate(pid);
    let x: u8 = page[byte];
    page[byte] = x & !(1u8 << bit);
    proof {
        lemma_bits(x, bit, bit);
        assert forall|q: int| 0 <= q < CAPACITY && q != pid implies (#[trigger] is_free(page@, q)
            == is_free(old(page)@, q)) by {
            lemma_bits(x, bit, (q % 8) as u8);
        }
    }
}

/// All pages that are marked free, in order.
pub fn scan_free(page: &[u8]) -> (free: Vec<u64>)
    requires
        BITMAP_START <= page@.len(),
        (page@.len() - BITMAP_START) * 8 <= u64::MAX,
    ensures
        free@ == free_below(page@, ((page@.len() - BITMAP_START) * 8) as nat),
{
    let mut free: Vec<u64> = Vec::new();
    let n: usize = page.len();
    let mut byte: usize = BITMAP_START;
    while byte < n
        invariant
            BITMAP_START <= byte <= n,
            n == page@.len(),
            (n - BITMAP_START) * 8 <= u64::MAX,
            free@ == free_below(page@, ((byte - BITMAP_START) * 8) as nat),
        decreases n - byte,
    {
        let base: u64 = (byte - BITMAP_START) as u64 * 8;
        let bits: u8 = page[byte];
        let mut bit: u8 = 0;
        while bit < 8
            invariant
                bit <= 8,
                BITMAP_START <= byte < n,
                n == page@.len(),
                (n - BITMAP_START) * 8 <= u64::MAX,
                base == (byte - BITMAP_START) * 8,
                bits == page@[byte as int],
                free@ == free_below(page@, (base + bit) as nat),
            decreases 8 - bit,
        {
            assert((base + bit) / 8 == byte - BITMAP_START);
            assert((base + bit) % 8 == bit as int);
            if (bits >> bit) & 1 == 1 {
                free.push(base + bit as u64);
            }
            bit = bit + 1;
        }
        byte = byte + 1;
    }
    free
}

/// A scan finds exactly the pages that are marked free.
pub proof fn law_scan_finds_free(b: Seq<u8>, n: nat, pid: u64)
    requires
        n <= u64::MAX,
    ensures
        free_below(b, n).contains(pid) <==> pid < n && is_free(b, pid as int),
        forall|i: int, j: int|
            0 <= i < j < free_below(b, n).len() ==> free_below(b, n)[i] < free_below(b, n)[j],
        forall|i: int| 0 <= i < free_below(b, n).len() ==> #[trigger] free_below(b, n)[i] < n,
    decreases n,
{
    if n > 0 {
        law_scan_finds_free(b, (n - 1) as nat, pid);
        let s = free_below(b, (n - 1) as nat);
        let t = free_below(b, n);
        if is_free(b, n - 1) {
            assert(t[s.len() as int] == (n - 1) as u64);
            if s.contains(pid) {
                let i = choose|i: int| 0 <= i < s.len() && s[i] == pid;
                assert(t[i] == pid);
            }
            if t.contains(pid) && pid != n - 1 {
                let i = choose|i: int| 0 <= i < t.len() && t[i] == pid;
                assert(s[i] == pid);
            }
        }
    }
}

/// Marking a page free and in use again gives the bitmap back.
pub proof fn law_clear_undoes_set(b0: Seq<u8>, b1: Seq<u8>, b2: Seq<u8>, pid: u64)
    requires
        b0.len() == PAGE_SIZE,
        pid < CAPACITY,
        !is_free(b0, pid as int),
        same_but(b0, b1, pid),
        is_free(b1, pid as int),
        same_but(b1, b2, pid),
        !is_free(b2, pid as int),
    ensures
        b2 == b0,
{
    let i = BITMAP_START + pid as int / 8;
    let x = b0[i];
    let y = b2[i];
    assert forall|j: u8| j < 8 implies (#[trigger] bit_set(y, j) == bit_set(x, j)) by {
        let q = (pid as int / 8) * 8 + j;
        assert(q / 8 == pid as int / 8 && q % 8 == j as int);
        if q != pid {
            assert(is_free(b2, q) == is_free(b1, q));
            assert(is_free(b1, q) == is_free(b0, q));
        }
    }
    assert(bit_set(y, 0) == bit_set(x, 0));
    assert(bit_set(y, 1) == bit_set(x, 1));
    assert(bit_set(y, 2) == bit_set(x, 2));
    assert(bit_set(y, 3) == bit_set(x, 3));
    assert(bit_set(y, 4) == bit_set(x, 4));
    assert(bit_set(y, 5) == bit_set(x, 5));
    assert(bit_set(y, 6) == bit_set(x, 6));
    assert(bit_set(y, 7) == bit_set(x, 7));
    assert(x == y) by (bit_vector)
        requires
            (((y >> 0) & 1) == 1) == (((x >> 0) & 1) == 1),
            (((y >> 1) & 1) == 1) == (((x >> 1) & 1) == 1),
            (((y >> 2) & 1) == 1) == (((x >> 2) & 1) == 1),
            (((y >> 3) & 1) == 1) == (((x >> 3) & 1) == 1),
            (((y >> 4) & 1) == 1) == (((x >> 4) & 1) == 1),
            (((y >> 5) & 1) == 1) == (((x >> 5) & 1) == 1),
            (((y >> 6) & 1) == 1) == (((x >> 6) & 1) == 1),
            (((y >> 7) & 1) == 1) == (((x >> 7) & 1) == 1),
    ;
    assert(b2 =~= b0);
}

/// Where the mark of a page is: in byte 32 for the first eight pages, in the next byte for
/// the next eight, and so on, the lowest bit for the first of the eight.
pub proof fn law_marks_are_laid_out_in_order(b: Seq<u8>, pid: u64, x: u8)
    requires
        x == b[32 + pid / 8],
    ensures
        pid % 8 == 0 ==> (is_free(b, pid as int) <==> x % 2 == 1),
        pid % 8 == 1 ==> (is_free(b, pid as int) <==> (x / 2) % 2 == 1),
        pid % 8 == 2 ==> (is_free(b, pid as int) <==> (x / 4) % 2 == 1),
        pid % 8 == 3 ==> (is_free(b, pid as int) <==> (x / 8) % 2 == 1),
        pid % 8 == 4 ==> (is_free(b, pid as int) <==> (x / 16) % 2 == 1),
        pid % 8 == 5 ==> (is_free(b, pid as int) <==> (x / 32) % 2 == 1),
        pid % 8 == 6 ==> (is_free(b, pid as int) <==> (x / 64) % 2 == 1),
        pid % 8 == 7 ==> (is_free(b, pid as int) <==> (x / 128) % 2 == 1),
{
    assert(((x >> 0) & 1 == 1) == (x % 2 == 1) && ((x >> 1) & 1 == 1) == ((x / 2) % 2 == 1) && ((x
        >> 2) & 1 == 1) == ((x / 4) % 2 == 1) && ((x >> 3) & 1 == 1) == ((x / 8) % 2 == 1) && ((x
        >> 4) & 1 == 1) == ((x / 16) % 2 == 1) && ((x >> 5) & 1 == 1) == ((x / 32) % 2 == 1) && ((x
        >> 6) & 1 == 1) == ((x / 64) % 2 == 1) && ((x >> 7) & 1 == 1) == ((x / 128) % 2 == 1))
        by (bit_vector);
}

} // verus!
