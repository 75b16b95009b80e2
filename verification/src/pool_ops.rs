//! Reading and writing whole pages through the buffer pool while no page is in
//! use.

use vstd::prelude::*;

use crate::bytes::{pad_to, zeros};
use crate::constants::{INVALID_FRAME_ID, MAX_FRAMES, NUM_SHARDS, PAGE_SIZE, SHARD_MASK};
use crate::manager::{
    flush_asked, kept, load_error, only_written, rewritten, shard_of, BufferPoolManager,
};
use crate::node::copy_bytes;
use crate::page::blank;
use crate::shard::{io_ok, intact};

verus! {

/// Whether no page is in use.
#[verifier::opaque]
pub open spec fn at_rest(m: BufferPoolManager) -> bool {
    m.wf() && forall|id: u64| #[trigger] m.pins(id) == 0
}

/// Whether the pool has at most moved pages between its frames and the file.
#[verifier::opaque]
pub open spec fn moved(m0: BufferPoolManager, m: BufferPoolManager) -> bool {
    &&& at_rest(m)
    &&& m.same_ids(&m0)
    &&& io_ok(m0.disk, m0.wal, m.disk, m.wal)
    &&& kept(m0, m)
    &&& only_written(m0, m)
}

/// Whether besides that one page has got new bytes, which are to be written.
#[verifier::opaque]
pub open spec fn stored(m0: BufferPoolManager, m: BufferPoolManager, page_id: u64, b: Seq<u8>) -> bool {
    &&& at_rest(m)
    &&& m.same_ids(&m0)
    &&& io_ok(m0.disk, m0.wal, m.disk, m.wal)
    &&& forall|id: u64|
        id != page_id && m0.holds(id) is Some ==> #[trigger] m.holds(id) == m0.holds(id)
    &&& m.dirty(page_id)
    &&& m.holds(page_id) == Some(blank(b))
    &&& rewritten(m0, m)
    &&& flush_asked(m0, m)
    &&& forall|id: u64| #[trigger] m.dirty(id) ==> m0.dirty(id) || id == page_id
}

/// What a pool at rest is.
pub proof fn lemma_at_rest(m: BufferPoolManager)
    requires
        at_rest(m),
    ensures
        m.wf(),
{
    reveal(at_rest);
}

proof fn lemma_free_frame(m: BufferPoolManager, id: u64)
    requires
        at_rest(m),
    ensures
        m.has_frame(id),
        m.wf(),
        m.pins(id) == 0,
{
    reveal(at_rest);
    assert(id & SHARD_MASK < 8) by (bit_vector);
    let i = shard_of(id);
    let s = m.shards@[i];
    assert(s.wf(m.disk));
    assert(s.size() == MAX_FRAMES / NUM_SHARDS);
    let x = s.metadata@[0].page_id;
    if x != INVALID_FRAME_ID {
        assert(s.cached(x));
        assert(shard_of(x) == i);
        assert(m.pins(x) == 0);
    }
    assert(s.metadata@[0].pin_count == 0);
}

/// Reads a page.
pub fn read_page(pool: &mut BufferPoolManager, page_id: u64) -> (b: Vec<u8>)
    requires
        at_rest(*old(pool)),
        intact(old(pool).disk, page_id),
        page_id < old(pool).next_page_id,
        old(pool).holds(page_id) is Some,
    ensures
        moved(*old(pool), *final(pool)),
        b@.len() == PAGE_SIZE,
        blank(b@) == old(pool).holds(page_id)->0,
{
    let ghost m0 = *pool;
    proof {
        lemma_free_frame(m0, page_id);
    }
    let r = pool.fetch_page(page_id);
    let ghost m1 = *pool;
    match r {
        Ok(g) => {
            let b: Vec<u8> = copy_bytes(pool.read(&g));
            pool.release(g);
            proof {
                let m = *pool;
                reveal(at_rest);
                reveal(moved);
                assert(m1.holds(page_id) == m0.holds(page_id));
                assert forall|id: u64| #[trigger] m.pins(id) == 0 by {
                    if id != page_id {
                        assert(m.holds(id) == m1.holds(id));
                        assert(m1.pins(id) == m0.pins(id));
                    }
                }
                assert forall|id: u64| m0.holds(id) is Some implies #[trigger] m.holds(id)
                    == m0.holds(id) by {
                    assert(m1.holds(id) == m0.holds(id));
                    if id == page_id {
                        assert(m.dirty(id) == m1.dirty(id));
                    }
                }
                assert forall|id: u64| #[trigger] m.dirty(id) implies m0.dirty(id) by {
                    if id != page_id {
                        assert(m.holds(id) == m1.holds(id));
                    }
                    assert(m1.dirty(id));
                }
            }
            b
        },
        Err(e) => {
            proof {
                assert(m1.holds(page_id) == m0.holds(page_id));
                assert(load_error(m1.disk, page_id) == Some(e));
                assert(intact(m1.disk, page_id));
                assert(page_id < m1.disk.num_pages);
                assert(false);
            }
            vstd::pervasive::unreached()
        },
    }
}

/// Writes a page, under the number of the record that changes it if there is one.
pub fn write_page(pool: &mut BufferPoolManager, page_id: u64, bytes: Vec<u8>, lsn: Option<u64>)
    requires
        at_rest(*old(pool)),
        intact(old(pool).disk, page_id),
        page_id < old(pool).next_page_id,
        bytes@.len() == PAGE_SIZE,
    ensures
        stored(*old(pool), *final(pool), page_id, bytes@),
{
    let ghost m0 = *pool;
    proof {
        lemma_free_frame(m0, page_id);
    }
    let r = pool.ensure_page(page_id);
    let ghost m1 = *pool;
    match r {
        Ok(g) => {
            let mut g = g;
            pool.write(&mut g, bytes);
            let ghost m2 = *pool;
            if let Some(lsn) = lsn {
                pool.mark_dirty_with_lsn(&mut g, lsn);
            }
            let ghost m3 = *pool;
            pool.release_mut(g);
            proof {
                let m = *pool;
                reveal(at_rest);
                reveal(stored);
                assert forall|id: u64| id != page_id implies #[trigger] m.holds(id) == m1.holds(id)
                    && m.pins(id) == m1.pins(id) && m.dirty(id) == m1.dirty(id) by {
                    assert(m2.holds(id) == m1.holds(id));
                    assert(m3.holds(id) == m2.holds(id));
                }
                assert forall|id: u64| #[trigger] m.pins(id) == 0 by {
                    if id != page_id {
                        assert(m.holds(id) == m1.holds(id));
                        assert(m1.pins(id) == m0.pins(id));
                    }
                }
                assert forall|id: u64| #[trigger] m.dirty(id) implies m0.dirty(id) || id
                    == page_id by {
                    if id != page_id {
                        assert(m.holds(id) == m1.holds(id));
                        assert(m1.dirty(id));
                    }
                }
                assert forall|id: u64|
                    id != page_id && m0.holds(id) is Some implies #[trigger] m.holds(id)
                    == m0.holds(id) by {
                    assert(m1.holds(id) == m0.holds(id));
                }
            }
        },
        Err(e) => {
            proof {
                assert(load_error(m1.disk, page_id) == Some(e));
                assert(intact(m1.disk, page_id));
                assert(false);
            }
        },
    }
}

/// Whether besides a page id has been given out.
#[verifier::opaque]
pub open spec fn grown(m0: BufferPoolManager, m: BufferPoolManager) -> bool {
    &&& at_rest(m)
    &&& m.next_page_id == m0.next_page_id + 1
    &&& m.free_pool@ == m0.free_pool@
    &&& m.free_page == m0.free_page
    &&& io_ok(m0.disk, m0.wal, m.disk, m.wal)
    &&& kept(m0, m)
    &&& only_written(m0, m)
}

/// Gives out the id of a new page.
pub fn new_id(pool: &mut BufferPoolManager) -> (id: u64)
    requires
        at_rest(*old(pool)),
        old(pool).free_pool@.len() == 0,
        old(pool).next_page_id < INVALID_FRAME_ID,
    ensures
        id == old(pool).next_page_id,
        grown(*old(pool), *final(pool)),
{
    let ghost m0 = *pool;
    let id: u64 = pool.next_page_id();
    proof {
        lemma_free_frame(m0, id);
    }
    let r = pool.new_page();
    let ghost m1 = *pool;
    match r {
        Ok(g) => {
            pool.release_mut(g);
            proof {
                let m = *pool;
                reveal(at_rest);
                reveal(grown);
                assert(m0.holds(id) is None) by {
                    crate::manager::lemma_unallocated(m0, id);
                }
                assert forall|x: u64| #[trigger] m.pins(x) == 0 by {
                    if x != id {
                        assert(m.holds(x) == m1.holds(x));
                        assert(m1.pins(x) == m0.pins(x));
                    }
                }
                assert forall|x: u64| m0.holds(x) is Some implies #[trigger] m.holds(x)
                    == m0.holds(x) by {
                    assert(m1.holds(x) == m0.holds(x));
                }
                assert forall|x: u64| #[trigger] m.dirty(x) implies m0.dirty(x) by {
                    if x != id {
                        assert(m.holds(x) == m1.holds(x));
                        assert(m1.dirty(x));
                    } else {
                        assert(m1.dirty(x));
                    }
                }
            }
        },
        Err(_) => {
            assert(false);
        },
    }
    id
}

/// Drops a page from the pool.
pub fn drop_page(pool: &mut BufferPoolManager, page_id: u64)
    requires
        at_rest(*old(pool)),
    ensures
        moved(*old(pool), *final(pool)),
        !final(pool).cached(page_id),
{
    let ghost m0 = *pool;
    proof {
        reveal(at_rest);
        reveal(moved);
        assert(m0.pins(page_id) == 0);
    }
    let r = pool.delete_page(page_id);
    proof {
        let m = *pool;
        assert forall|x: u64| #[trigger] m.pins(x) == 0 by {
            if x != page_id {
                assert(m.pins(x) == m0.pins(x));
            }
        }
    }
}

/// What a page holds, its checksum aside: what the pool has for it if that is to
/// be written, and what the file has otherwise. Pages that are not there hold
/// zeros.
pub open spec fn content(m: BufferPoolManager, id: u64) -> Seq<u8> {
    if m.dirty(id) {
        blank(m.bytes(id))
    } else {
        blank(m.disk.at(id))
    }
}

/// Whether every page that is not a page of zeros is there.
pub open spec fn solid(m: BufferPoolManager) -> bool {
    forall|id: u64| #[trigger] m.holds(id) is None ==> content(m, id) == blank(zeros(PAGE_SIZE as nat))
}

/// Moving pages between frames and file keeps what they hold.
pub proof fn lemma_content_moved(m0: BufferPoolManager, m: BufferPoolManager)
    requires
        moved(m0, m),
    ensures
        forall|id: u64| #[trigger] content(m, id) == content(m0, id),
        m.next_page_id == m0.next_page_id,
        solid(m0) ==> solid(m),
{
    reveal(moved);
    assert forall|id: u64| #[trigger] content(m, id) == content(m0, id) by {
        lemma_content_step(m0, m, id);
    }
    if solid(m0) {
        assert forall|id: u64| #[trigger] m.holds(id) is None implies content(m, id) == blank(
            zeros(PAGE_SIZE as nat),
        ) by {
            if m0.holds(id) is Some {
                assert(m.holds(id) == m0.holds(id));
            }
            assert(content(m, id) == content(m0, id));
        }
    }
}

proof fn lemma_content_step(m0: BufferPoolManager, m: BufferPoolManager, id: u64)
    requires
        m0.holds(id) is Some ==> m.holds(id) == m0.holds(id),
        rewritten(m0, m),
        m.dirty(id) ==> m0.dirty(id),
    ensures
        content(m, id) == content(m0, id),
{
    if m0.holds(id) is None {
        assert(!m0.dirty(id));
        assert(blank(m.disk.at(id)) == blank(m0.disk.at(id)) || m0.holds(id) == Some(
            blank(m.disk.at(id)),
        ));
    } else {
        assert(m.holds(id) == m0.holds(id));
    }
}

/// A page that has got new bytes holds them; the other pages hold what they held.
pub proof fn lemma_content_stored(
    m0: BufferPoolManager,
    m: BufferPoolManager,
    page_id: u64,
    b: Seq<u8>,
)
    requires
        stored(m0, m, page_id, b),
    ensures
        content(m, page_id) == blank(b),
        forall|id: u64| id != page_id ==> #[trigger] content(m, id) == content(m0, id),
        m.next_page_id == m0.next_page_id,
        solid(m0) ==> solid(m),
{
    reveal(stored);
    assert forall|id: u64| id != page_id implies #[trigger] content(m, id) == content(m0, id) by {
        lemma_content_step(m0, m, id);
    }
    if solid(m0) {
        assert forall|id: u64| #[trigger] m.holds(id) is None implies content(m, id) == blank(
            zeros(PAGE_SIZE as nat),
        ) by {
            if m0.holds(id) is Some && id != page_id {
                assert(m.holds(id) == m0.holds(id));
            }
            assert(id != page_id);
            assert(content(m, id) == content(m0, id));
        }
    }
}

/// Giving out an id keeps what the pages hold.
pub proof fn lemma_content_grown(m0: BufferPoolManager, m: BufferPoolManager)
    requires
        grown(m0, m),
    ensures
        forall|id: u64| #[trigger] content(m, id) == content(m0, id),
{
    reveal(grown);
    assert forall|id: u64| #[trigger] content(m, id) == content(m0, id) by {
        lemma_content_step(m0, m, id);
    }
}

/// A pool in front of a file is solid.
pub proof fn lemma_new_solid(m: BufferPoolManager)
    requires
        m.disk.wf(),
        forall|id: u64| #[trigger] m.pins(id) == 0,
        forall|id: u64| id < m.disk.num_pages ==> #[trigger] m.holds(id) is Some,
        forall|id: u64| !(#[trigger] m.dirty(id)) || m.holds(id) is Some,
    ensures
        solid(m),
{
    assert forall|id: u64| #[trigger] m.holds(id) is None implies content(m, id) == blank(
        zeros(PAGE_SIZE as nat),
    ) by {
        assert(!m.dirty(id) || m.holds(id) is Some);
        assert(!m.disk.pages@.contains_key(id));
    }
}

/// The bytes that a page holds.
pub fn page_bytes(pool: &mut BufferPoolManager, page_id: u64) -> (b: Vec<u8>)
    requires
        at_rest(*old(pool)),
        intact(old(pool).disk, page_id),
    ensures
        moved(*old(pool), *final(pool)),
        b@.len() == PAGE_SIZE,
        blank(b@) == content(*old(pool), page_id),
{
    proof {
        lemma_at_rest(*pool);
        lemma_unmoved(*pool);
    }
    if pool.is_dirty(page_id) {
        proof {
            lemma_cached_id(*pool, page_id);
        }
        return read_page(pool, page_id);
    }
    if page_id < pool.disk.num_pages {
        match pool.disk.read_page(page_id) {
            Ok(b) => b,
            Err(_) => vstd::pervasive::unreached(),
        }
    } else {
        let mut b: Vec<u8> = Vec::new();
        pad_to(&mut b, PAGE_SIZE);
        assert(b@ =~= zeros(PAGE_SIZE as nat));
        b
    }
}

proof fn lemma_cached_id(m: BufferPoolManager, id: u64)
    requires
        m.wf(),
        m.cached(id),
    ensures
        id < m.next_page_id,
{
    assert(id & SHARD_MASK < 8) by (bit_vector);
    assert(m.shards@[shard_of(id)].cached(id));
}

proof fn lemma_unmoved(m: BufferPoolManager)
    requires
        at_rest(m),
    ensures
        moved(m, m),
{
    reveal(at_rest);
    reveal(moved);
}

/// What is written to a page is what the page holds, however often the pool moves pages
/// between its frames and the file afterwards; and every other page holds what it held.
pub proof fn law_pages_hold_what_was_written(
    m0: BufferPoolManager,
    m1: BufferPoolManager,
    m: BufferPoolManager,
    page_id: u64,
    b: Seq<u8>,
    other: u64,
)
    requires
        stored(m0, m1, page_id, b),
        moved(m1, m),
    ensures
        content(m, page_id) == blank(b),
        other != page_id ==> content(m, other) == content(m0, other),
{
    lemma_content_stored(m0, m1, page_id, b);
    lemma_content_moved(m1, m);
    assert(content(m, page_id) == content(m1, page_id));
    assert(content(m, other) == content(m1, other));
}

} // verus!
