//! The buffer pool: shards of frames in front of the data file.

use vstd::prelude::*;

use crate::bytes::{crc32, u32_at, zeros};
use crate::constants::{INVALID_FRAME_ID, MAX_FRAMES, NUM_SHARDS, PAGE_SIZE, SHARD_MASK};
use crate::disk::{log_of, DiskManager, IoView};
use crate::error::{BufferPoolError, DiskError};
use crate::free_space::{clear_free, is_free, same_but, CAPACITY};
use crate::meta::{free_space_of, read_free_space};
use crate::node::copy_bytes;
use crate::page::{
    blank, checksum_at, lsn_of, page_lsn, restamped, set_lsn, stamped, verifies, verify_checksum,
};
use crate::page_table::table_get;
use crate::shard::{
    flush_from, flushed, has_rec_lsn, io_ok, lemma_io_trans, lemma_synced, pinned_again, taken,
    written_from, BufferPoolShard, FrameMetadata, PageData,
};
use crate::wal::{
    appended, block_views, record_bytes, Block, BlockView, Wal, WalRecordType, BLK_HAS_FPI,
};

verus! {

/// The buffer pool with its file and its log.
pub struct BufferPoolManager {
    pub shards: Vec<BufferPoolShard>,
    pub next_page_id: u64,
    /// Pages to give out again.
    pub free_pool: Vec<u64>,
    /// The page with the bitmap of free pages.
    pub free_page: u64,
    pub disk: DiskManager,
    pub wal: Wal,
}

/// The shard of a page.
pub open spec fn shard_of(id: u64) -> int {
    (id & SHARD_MASK) as int
}

/// A page that is in use for reading.
pub struct PageReadGuard {
    pub page_id: u64,
    pub frame_id: usize,
}

/// A page that is in use for writing.
pub struct PageWriteGuard {
    pub page_id: u64,
    pub frame_id: usize,
    /// Whether the page has been written to.
    pub dirty: bool,
    /// The record that the write belongs to.
    pub record_lsn: Option<u64>,
}

/// Whether the pool and the file still hold what they held.
pub open spec fn kept(m0: BufferPoolManager, m: BufferPoolManager) -> bool {
    forall|id: u64| m0.holds(id) is Some ==> #[trigger] m.holds(id) == m0.holds(id)
}

/// Whether every page in the file is as it was, or as the pool held it.
pub open spec fn rewritten(m0: BufferPoolManager, m: BufferPoolManager) -> bool {
    forall|id: u64|
        blank(#[trigger] m.disk.at(id)) == blank(m0.disk.at(id)) || m0.holds(id) == Some(
            blank(m.disk.at(id)),
        )
}

/// Whether the log has been made durable no further than a changed page asked for.
pub open spec fn flush_asked(m0: BufferPoolManager, m: BufferPoolManager) -> bool {
    m.wal.flushed_lsn == m0.wal.flushed_lsn || exists|id: u64|
        #![trigger m0.dirty(id)]
        m0.dirty(id) && m.wal.flushed_lsn == Some(lsn_of(m0.holds(id)->0))
}

/// Whether no page has become dirty.
pub open spec fn dirty_only(m0: BufferPoolManager, m: BufferPoolManager) -> bool {
    forall|id: u64| #[trigger] m.dirty(id) ==> m0.dirty(id)
}

/// Whether pages have at most been written as the pool held them.
pub open spec fn only_written(m0: BufferPoolManager, m: BufferPoolManager) -> bool {
    rewritten(m0, m) && flush_asked(m0, m) && dirty_only(m0, m)
}

/// Whether the file has changed at most at pages that were cached.
pub open spec fn file_kept(m0: BufferPoolManager, m: BufferPoolManager) -> bool {
    &&& forall|id: u64| !m0.cached(id) ==> #[trigger] m.disk.at(id) == m0.disk.at(id)
    &&& m.disk.num_pages == m0.disk.num_pages || m0.cached((m.disk.num_pages - 1) as u64)
    &&& only_written(m0, m)
}

/// Whether the pages in use, but for one, are as they were.
pub open spec fn pins_kept(m0: BufferPoolManager, m: BufferPoolManager, page_id: u64) -> bool {
    &&& forall|id: u64|
        id != page_id && #[trigger] m0.pins(id) > 0 ==> m.pins(id) == m0.pins(id) && m.frame(id)
            == m0.frame(id) && m.bytes(id) == m0.bytes(id) && m.dirty(id) == m0.dirty(id)
    &&& forall|id: u64| id != page_id ==> #[trigger] m.pins(id) == m0.pins(id)
}

impl BufferPoolManager {
    pub open spec fn wf(&self) -> bool {
        &&& self.shards@.len() == NUM_SHARDS
        &&& self.disk.wf()
        &&& self.disk.num_pages <= self.next_page_id
        &&& forall|i: int| 0 <= i < NUM_SHARDS ==> (#[trigger] self.shards@[i]).wf(self.disk)
        &&& forall|i: int| 0 <= i < NUM_SHARDS ==> (#[trigger] self.shards@[i]).size() == MAX_FRAMES
            / NUM_SHARDS
        &&& forall|i: int, id: u64|
            0 <= i < NUM_SHARDS && #[trigger] self.shards@[i].cached(id) ==> shard_of(id) == i && id
                < self.next_page_id
    }

    pub open spec fn shard(&self, id: u64) -> BufferPoolShard {
        self.shards@[shard_of(id)]
    }

    /// What the pool and the file hold of a page, its checksum aside.
    pub open spec fn holds(&self, id: u64) -> Option<Seq<u8>> {
        self.shard(id).holds(id, self.disk)
    }

    pub open spec fn cached(&self, id: u64) -> bool {
        self.shard(id).cached(id)
    }

    /// How many users a page has.
    pub open spec fn pins(&self, id: u64) -> int {
        if self.cached(id) {
            self.shard(id).meta(id).pin_count as int
        } else {
            0
        }
    }

    pub open spec fn frame(&self, id: u64) -> int {
        self.shard(id).frame(id)
    }

    pub open spec fn dirty(&self, id: u64) -> bool {
        self.cached(id) && self.shard(id).meta(id).is_dirty
    }

    /// The cached bytes of a page.
    pub open spec fn bytes(&self, id: u64) -> Seq<u8> {
        self.shard(id).bytes(id)
    }

    /// Whether nothing has been written to a new page yet.
    pub open spec fn is_fresh(&self, id: u64) -> bool {
        self.shard(id).fresh@.contains(id)
    }

    /// Whether there is a frame that a page could be put in.
    pub open spec fn has_frame(&self, id: u64) -> bool {
        exists|f: int|
            0 <= f < self.shard(id).size() && (#[trigger] self.shard(id).metadata@[f]).pin_count
                == 0
    }

    /// Whether nothing but frames, file and log differ.
    pub open spec fn same_ids(&self, other: &BufferPoolManager) -> bool {
        &&& self.next_page_id == other.next_page_id
        &&& self.free_pool@ == other.free_pool@
        &&& self.free_page == other.free_page
    }

    /// Whether nothing differs.
    pub open spec fn unchanged(&self, other: &BufferPoolManager) -> bool {
        &&& self.same_ids(other)
        &&& self.shards@ == other.shards@
        &&& self.disk == other.disk
        &&& self.wal == other.wal
    }

    /// Whether a page in use can be let go without a word: it is as it is in the
    /// file, or it will be written anyway, or it is new, or it has other users.
    pub open spec fn settled(&self, id: u64) -> bool {
        self.dirty(id) || self.is_fresh(id) || self.pins(id) > 1 || self.shard(id).in_sync(
            id,
            self.disk,
        )
    }

    /// Whether a guard stands for a page in use.
    pub open spec fn guards(&self, page_id: u64, frame_id: usize) -> bool {
        self.pins(page_id) > 0 && self.frame(page_id) == frame_id
    }

    /// A pool in front of a file. The superblock, where there is a valid one,
    /// names the page of the free-space bitmap.
    pub fn new(disk: DiskManager, wal: Wal) -> (m: BufferPoolManager)
        requires
            disk.wf(),
        ensures
            m.wf(),
            m.next_page_id == disk.num_pages,
            m.free_pool@ == Seq::<u64>::empty(),
            io_ok(disk, wal, m.disk, m.wal),
            forall|id: u64| #[trigger] m.pins(id) == 0,
            forall|id: u64|
                id < disk.num_pages ==> #[trigger] m.holds(id) == Some(blank(disk.at(id))),
            m.free_page == (if load_error(disk, 0) is None {
                free_space_of(disk.at(0))
            } else {
                0
            }),
            disk.num_pages == m.disk.num_pages,
            forall|id: u64| #[trigger] m.disk.at(id) == disk.at(id),
            forall|id: u64| !(#[trigger] m.dirty(id)),
            m.wal.flushed_lsn == wal.flushed_lsn,
    {
        let existing_pages: u64 = disk.num_pages;
        let ghost d0 = disk;
        let ghost w0 = wal;
        let shard_size: usize = MAX_FRAMES / NUM_SHARDS;
        let mut shards: Vec<BufferPoolShard> = Vec::new();
        let mut i: usize = 0;
        while i < NUM_SHARDS
            invariant
                i <= NUM_SHARDS,
                shard_size == MAX_FRAMES / NUM_SHARDS,
                shards@.len() == i,
                forall|j: int, d: DiskManager| 0 <= j < i ==> #[trigger] shards@[j].wf(d),
                forall|j: int| 0 <= j < i ==> (#[trigger] shards@[j]).size() == shard_size,
                forall|j: int, id: u64| 0 <= j < i ==> !(#[trigger] shards@[j].cached(id)),
                forall|j: int, id: u64| 0 <= j < i ==> !(#[trigger] shards@[j].fresh@.contains(id)),
            decreases NUM_SHARDS - i,
        {
            let s = BufferPoolShard::new(shard_size);
            proof {
                assert(s.wf(d0));
                assert forall|id: u64| !(#[trigger] s.fresh@.contains(id)) by {
                    if s.fresh@.contains(id) {
                        assert(s.page_table@.contains_key(id));
                        assert(s.cached(id));
                    }
                }
            }
            shards.push(s);
            i = i + 1;
        }
        let mut pool = BufferPoolManager {
            shards,
            next_page_id: existing_pages,
            free_pool: Vec::new(),
            free_page: 0,
            disk,
            wal,
        };
        let ghost m0 = pool;
        proof {
            assert forall|j: int| 0 <= j < NUM_SHARDS implies (#[trigger] pool.shards@[j]).wf(
                pool.disk,
            ) by {
                assert(pool.shards@[j].wf(d0));
            }
            assert(pool.wf());
            assert forall|id: u64| #[trigger] pool.cached(id) == false by {
                lemma_shard_of(id);
                assert(!pool.shards@[shard_of(id)].cached(id));
            }
            assert forall|id: u64| id < d0.num_pages implies #[trigger] pool.holds(id) == Some(
                blank(d0.at(id)),
            ) by {
                lemma_shard_of(id);
                assert(!pool.shards@[shard_of(id)].cached(id));
                assert(!pool.shards@[shard_of(id)].fresh@.contains(id));
            }
            assert(pool.has_frame(0)) by {
                lemma_shard_of(0);
                let s = pool.shards@[shard_of(0)];
                assert(s.wf(d0));
                assert(s.size() == 10);
                if s.metadata@[0].page_id != INVALID_FRAME_ID {
                    assert(s.cached(s.metadata@[0].page_id));
                }
                assert(s.metadata@[0].pin_count == 0);
            }
        }
        if existing_pages > 0 {
            if let Ok(g) = pool.fetch_page(0) {
                let ghost m1 = pool;
                let free_page: u64 = read_free_space(pool.read(&g).as_slice());
                pool.release(g);
                let ghost m2 = pool;
                pool.free_page = free_page;
                proof {
                    lemma_ids_only(m2, pool);
                    assert forall|id: u64| !(#[trigger] pool.dirty(id)) by {
                        assert(!m0.dirty(id));
                        assert(!m1.dirty(id));
                        if id != 0 {
                            assert(m2.holds(id) == m1.holds(id));
                        }
                        assert(!m2.dirty(id));
                    }
                    assert forall|id: u64| #[trigger] pool.pins(id) == 0 by {
                        if id != 0 {
                            assert(m1.pins(id) == m0.pins(id));
                            assert(m2.holds(id) == m1.holds(id));
                        }
                    }
                    assert forall|id: u64| id < d0.num_pages implies #[trigger] pool.holds(id)
                        == Some(blank(d0.at(id))) by {
                        assert(m0.holds(id) == Some(blank(d0.at(id))));
                        assert(m1.holds(id) == m0.holds(id));
                        if id == 0 {
                            assert(!m1.dirty(0));
                        } else {
                            assert(m2.holds(id) == m1.holds(id));
                        }
                        assert(pool.holds(id) == m2.holds(id));
                    }
                }
            } else {
                proof {
                    assert forall|id: u64| !(#[trigger] pool.dirty(id)) by {
                        assert(!m0.dirty(id));
                    }
                    assert forall|id: u64| #[trigger] pool.pins(id) == 0 by {
                        if id != 0 {
                            assert(pool.pins(id) == m0.pins(id));
                        }
                    }
                }
            }
        }
        pool
    }

    fn get_shard(page_id: u64) -> (i: usize)
        ensures
            i == shard_of(page_id),
            i < NUM_SHARDS,
    {
        assert(page_id & SHARD_MASK < 8) by (bit_vector);
        (page_id & SHARD_MASK) as usize
    }

    fn check_page_id(&self, page_id: u64) -> (r: Result<(), BufferPoolError>)
        ensures
            r is Ok <==> page_id < self.next_page_id,
            r matches Err(e) ==> e == BufferPoolError::PageNotFound(page_id),
    {
        if page_id >= self.next_page_id {
            Err(BufferPoolError::PageNotFound(page_id))
        } else {
            Ok(())
        }
    }

    /// Whether a page is cached and differs from what the file holds of it.
    pub fn is_dirty(&self, page_id: u64) -> (b: bool)
        requires
            self.wf(),
        ensures
            b == self.dirty(page_id),
    {
        let i: usize = Self::get_shard(page_id);
        let s = &self.shards[i];
        assert(self.shards@[i as int].wf(self.disk));
        match table_get(&s.page_table, page_id) {
            Some(f) => {
                assert(self.shards@[i as int].cached(page_id));
                s.metadata[f].is_dirty
            },
            None => false,
        }
    }

    /// The next page id that will be allocated.
    pub fn next_page_id(&self) -> (id: u64)
        ensures
            id == self.next_page_id,
    {
        self.next_page_id
    }

    /// Reads a page from the file into the frame that was taken for it.
    fn load(&mut self, page_id: u64, frame_id: usize) -> (r: Result<(), BufferPoolError>)
        requires
            old(self).loading(page_id, frame_id),
        ensures
            final(self).same_ids(old(self)),
            final(self).disk == old(self).disk,
            final(self).wal == old(self).wal,
            final(self).loaded_or_not(old(self), page_id, frame_id, r is Ok),
            match load_error(old(self).disk, page_id) {
                Some(e) => r == Err::<(), BufferPoolError>(e),
                None => r is Ok && final(self).bytes(page_id) == old(self).disk.at(page_id),
            },
    {
        let i: usize = Self::get_shard(page_id);
        match self.disk.read_page(page_id) {
            Ok(data) => {
                match verify_checksum(&data) {
                    Ok(()) => {
                        let ghost s0 = self.shards@[i as int];
                        self.shards[i].pages.set(frame_id, PageData(data));
                        proof {
                            lemma_bytes_set(s0, self.shards@[i as int], frame_id as int);
                        }
                        self.shards[i].finish_load(page_id, frame_id, true);
                        Ok(())
                    },
                    Err((expected, actual)) => {
                        self.shards[i].finish_load(page_id, frame_id, false);
                        Err(BufferPoolError::PageCorruption { page_id, expected, actual })
                    },
                }
            },
            Err(e) => {
                self.shards[i].finish_load(page_id, frame_id, false);
                Err(BufferPoolError::Disk(e))
            },
        }
    }

    /// Whether a frame waits for its page and all else is in order.
    pub open spec fn loading(&self, page_id: u64, frame_id: usize) -> bool {
        let s = self.shard(page_id);
        &&& self.shards@.len() == NUM_SHARDS
        &&& self.disk.wf()
        &&& s.shape()
        &&& s.cached(page_id)
        &&& s.frame(page_id) == frame_id
        &&& frame_id < s.size()
        &&& s.meta(page_id) == (FrameMetadata {
            page_id,
            pin_count: 1,
            is_dirty: false,
            loading: true,
            rec_lsn: None,
        })
        &&& !s.fresh@.contains(page_id)
    }

    /// What a load leaves: the page in its frame, or the frame empty again.
    pub open spec fn loaded_or_not(
        &self,
        before: &BufferPoolManager,
        page_id: u64,
        frame_id: usize,
        ok: bool,
    ) -> bool {
        let s0 = before.shard(page_id);
        let s = self.shard(page_id);
        &&& self.shards@.len() == NUM_SHARDS
        &&& forall|j: int|
            0 <= j < NUM_SHARDS && j != shard_of(page_id) ==> #[trigger] self.shards@[j]
                == before.shards@[j]
        &&& s.shape()
        &&& s.size() == s0.size()
        &&& s.fresh == s0.fresh
        &&& s.last_checkpoint_redo_point == s0.last_checkpoint_redo_point
        &&& forall|f: int|
            0 <= f < s0.size() && f != frame_id ==> #[trigger] s.pages@[f] == s0.pages@[f]
        &&& ok ==> {
            &&& s.page_table@ == s0.page_table@
            &&& s.metadata@ == s0.metadata@.update(
                frame_id as int,
                FrameMetadata {
                    page_id,
                    pin_count: 1,
                    is_dirty: false,
                    loading: false,
                    rec_lsn: None,
                },
            )
        }
        &&& !ok ==> {
            &&& s.page_table@ == s0.page_table@.remove(page_id)
            &&& s.metadata@ == s0.metadata@.update(frame_id as int, FrameMetadata::empty())
        }
    }

    /// Pins a page that is cached or can be read from the file.
    fn fetch_frame(&mut self, page_id: u64) -> (r: Result<usize, BufferPoolError>)
        requires
            old(self).wf(),
            page_id < old(self).next_page_id,
            old(self).pins(page_id) < u64::MAX,
        ensures
            final(self).fetched(old(self), page_id, r),
    {
        let ghost m0 = *self;
        let i: usize = Self::get_shard(page_id);
        let r = self.shards[i].acquire_frame(page_id, &mut self.disk, &mut self.wal);
        let ghost m1 = *self;
        match r {
            Err(e) => {
                proof {
                    lemma_flush_step(m0, m1, i as int);
                }
                Err(e)
            },
            Ok((frame_id, false)) => {
                proof {
                    lemma_hit(m0, m1, page_id);
                }
                Ok(frame_id)
            },
            Ok((frame_id, true)) => {
                let r = self.load(page_id, frame_id);
                proof {
                    lemma_loaded(m0, m1, *self, page_id, frame_id, r is Ok);
                }
                match r {
                    Ok(()) => Ok(frame_id),
                    Err(e) => Err(e),
                }
            },
        }
    }

    /// What fetching a page does, and when it fails.
    pub open spec fn fetched(
        &self,
        before: &BufferPoolManager,
        page_id: u64,
        r: Result<usize, BufferPoolError>,
    ) -> bool {
        &&& self.wf()
        &&& self.same_ids(before)
        &&& io_ok(before.disk, before.wal, self.disk, self.wal)
        &&& kept(*before, *self)
        &&& pins_kept(*before, *self, page_id)
        &&& file_kept(*before, *self)
        &&& match r {
            Ok(f) => {
                &&& before.cached(page_id) || (before.has_frame(page_id) && load_error(
                    self.disk,
                    page_id,
                ) is None)
                &&& self.guards(page_id, f)
                &&& self.pins(page_id) == before.pins(page_id) + 1
                &&& self.dirty(page_id) == before.dirty(page_id)
                &&& self.bytes(page_id) == (if before.cached(page_id) {
                    before.bytes(page_id)
                } else {
                    self.disk.at(page_id)
                })
                &&& self.is_fresh(page_id) == before.is_fresh(page_id)
                &&& before.pins(page_id) == 0 ==> self.settled(page_id) && (self.holds(
                    page_id,
                ) matches Some(b) ==> blank(self.bytes(page_id)) == b)
            },
            Err(e) => {
                &&& !before.cached(page_id)
                &&& !self.cached(page_id)
                &&& if before.has_frame(page_id) {
                    load_error(self.disk, page_id) == Some(e)
                } else {
                    e == BufferPoolError::NoEvictableFrames
                }
            },
        }
    }

    /// Gets a page for reading. Fails for a page that was never allocated, where
    /// all frames are in use, and where the file does not hold the page or its
    /// checksum is wrong.
    pub fn fetch_page(&mut self, page_id: u64) -> (r: Result<PageReadGuard, BufferPoolError>)
        requires
            old(self).wf(),
            old(self).pins(page_id) < u64::MAX,
        ensures
            page_id >= old(self).next_page_id ==> *final(self) == *old(self) && r == Err::<
                PageReadGuard,
                BufferPoolError,
            >(BufferPoolError::PageNotFound(page_id)),
            page_id < old(self).next_page_id ==> match r {
                Ok(g) => g.page_id == page_id && final(self).fetched(
                    old(self),
                    page_id,
                    Ok(g.frame_id),
                ),
                Err(e) => final(self).fetched(old(self), page_id, Err(e)),
            },
    {
        match self.check_page_id(page_id) {
            Ok(()) => {},
            Err(e) => {
                return Err(e);
            },
        }
        match self.fetch_frame(page_id) {
            Ok(frame_id) => Ok(PageReadGuard { page_id, frame_id }),
            Err(e) => Err(e),
        }
    }

    /// Gets a page for writing. Fails as [`BufferPoolManager::fetch_page`] does.
    pub fn fetch_page_mut(&mut self, page_id: u64) -> (r: Result<PageWriteGuard, BufferPoolError>)
        requires
            old(self).wf(),
            old(self).pins(page_id) < u64::MAX,
        ensures
            page_id >= old(self).next_page_id ==> *final(self) == *old(self) && r == Err::<
                PageWriteGuard,
                BufferPoolError,
            >(BufferPoolError::PageNotFound(page_id)),
            page_id < old(self).next_page_id ==> match r {
                Ok(g) => g.page_id == page_id && !g.dirty && g.record_lsn is None && final(self).fetched(old(self), page_id, Ok(g.frame_id)),
                Err(e) => final(self).fetched(old(self), page_id, Err(e)),
            },
    {
        match self.check_page_id(page_id) {
            Ok(()) => {},
            Err(e) => {
                return Err(e);
            },
        }
        match self.fetch_frame(page_id) {
            Ok(frame_id) => Ok(
                PageWriteGuard { page_id, frame_id, dirty: false, record_lsn: None },
            ),
            Err(e) => Err(e),
        }
    }

    /// The bytes of a page in use.
    pub fn read(&self, g: &PageReadGuard) -> (b: &Vec<u8>)
        requires
            self.wf(),
            self.guards(g.page_id, g.frame_id),
        ensures
            b@ == self.bytes(g.page_id),
            b@.len() == PAGE_SIZE,
    {
        let i: usize = Self::get_shard(g.page_id);
        proof {
            assert(self.shards@[i as int].wf(self.disk));
            assert(self.shards@[i as int].page_table@.contains_key(g.page_id));
        }
        &self.shards[i].pages[g.frame_id].0
    }

    /// The bytes of a page in use for writing.
    pub fn read_mut(&self, g: &PageWriteGuard) -> (b: &Vec<u8>)
        requires
            self.wf(),
            self.guards(g.page_id, g.frame_id),
        ensures
            b@ == self.bytes(g.page_id),
            b@.len() == PAGE_SIZE,
    {
        let i: usize = Self::get_shard(g.page_id);
        proof {
            assert(self.shards@[i as int].wf(self.disk));
            assert(self.shards@[i as int].page_table@.contains_key(g.page_id));
        }
        &self.shards[i].pages[g.frame_id].0
    }

    /// Writes the bytes of a page in use.
    pub fn write(&mut self, g: &mut PageWriteGuard, bytes: Vec<u8>)
        requires
            old(self).wf(),
            old(self).guards(old(g).page_id, old(g).frame_id),
            bytes@.len() == PAGE_SIZE,
        ensures
            final(self).touched(old(self), old(g).page_id),
            final(self).bytes(old(g).page_id) == bytes@,
            final(self).dirty(old(g).page_id) == old(self).dirty(old(g).page_id),
            final(self).pins(old(g).page_id) == old(self).pins(old(g).page_id),
            final(self).is_fresh(old(g).page_id) == old(self).is_fresh(old(g).page_id),
            *final(g) == (PageWriteGuard { dirty: true, ..*old(g) }),
    {
        let ghost m0 = *self;
        let i: usize = Self::get_shard(g.page_id);
        proof {
            assert(self.shards@[i as int].wf(self.disk));
            assert(self.shards@[i as int].page_table@.contains_key(g.page_id));
        }
        self.shards[i].pages.set(g.frame_id, PageData(bytes));
        proof {
            lemma_bytes_set(m0.shards@[i as int], self.shards@[i as int], g.frame_id as int);
            lemma_touched(m0, *self, g.page_id);
        }
        g.dirty = true;
    }

    /// Notes the record that changes a page in use. Returns whether the record
    /// needs the page's full image.
    pub fn mark_dirty_with_lsn(&mut self, g: &mut PageWriteGuard, lsn: u64) -> (r: bool)
        requires
            old(self).wf(),
            old(self).guards(old(g).page_id, old(g).frame_id),
        ensures
            final(self).touched(old(self), old(g).page_id),
            final(self).bytes(old(g).page_id) == old(self).bytes(old(g).page_id),
            final(self).dirty(old(g).page_id),
            final(self).pins(old(g).page_id) == old(self).pins(old(g).page_id),
            *final(g) == (PageWriteGuard { dirty: true, record_lsn: Some(lsn), ..*old(g) }),
            r == (!old(self).dirty(old(g).page_id) && crate::page::lsn_of(
                old(self).bytes(old(g).page_id),
            ) <= old(self).shard(old(g).page_id).last_checkpoint_redo_point),
    {
        let ghost m0 = *self;
        let before: u64 = page_lsn(self.read_mut(g));
        let i: usize = Self::get_shard(g.page_id);
        proof {
            assert(self.shards@[i as int].wf(self.disk));
            assert(self.shards@[i as int].page_table@.contains_key(g.page_id));
        }
        let r: bool = self.shards[i].mark_dirty(g.page_id, lsn, before);
        proof {
            lemma_touched(m0, *self, g.page_id);
        }
        g.dirty = true;
        g.record_lsn = Some(lsn);
        r
    }

    /// Takes one pin off a page.
    fn unpin(&mut self, page_id: u64, is_dirty: bool)
        requires
            old(self).wf(),
            old(self).pins(page_id) > 0,
            is_dirty || old(self).settled(page_id),
        ensures
            final(self).touched(old(self), page_id),
            final(self).bytes(page_id) == old(self).bytes(page_id),
            final(self).dirty(page_id) == (old(self).dirty(page_id) || is_dirty),
            final(self).pins(page_id) == old(self).pins(page_id) - 1,
    {
        let ghost m0 = *self;
        let i: usize = Self::get_shard(page_id);
        proof {
            assert(self.shards@[i as int].wf(self.disk));
            assert(self.shards@[i as int].page_table@.contains_key(page_id));
        }
        self.shards[i].unpin_page(page_id, is_dirty);
        proof {
            lemma_touched(m0, *self, page_id);
        }
    }

    /// Lets a page go that was in use for reading.
    pub fn release(&mut self, g: PageReadGuard)
        requires
            old(self).wf(),
            old(self).guards(g.page_id, g.frame_id),
            old(self).settled(g.page_id),
        ensures
            final(self).touched(old(self), g.page_id),
            final(self).bytes(g.page_id) == old(self).bytes(g.page_id),
            final(self).dirty(g.page_id) == old(self).dirty(g.page_id),
            final(self).pins(g.page_id) == old(self).pins(g.page_id) - 1,
    {
        self.unpin(g.page_id, false);
    }

    /// Lets a page go that was in use for writing. A page that was written to
    /// without a record becomes dirty.
    pub fn release_mut(&mut self, g: PageWriteGuard)
        requires
            old(self).wf(),
            old(self).guards(g.page_id, g.frame_id),
            g.record_lsn is Some ==> old(self).dirty(g.page_id),
            !g.dirty ==> old(self).settled(g.page_id),
        ensures
            final(self).touched(old(self), g.page_id),
            final(self).bytes(g.page_id) == old(self).bytes(g.page_id),
            final(self).dirty(g.page_id) == (old(self).dirty(g.page_id) || g.dirty),
            final(self).pins(g.page_id) == old(self).pins(g.page_id) - 1,
    {
        let needs_dirty_unpin: bool = g.dirty && g.record_lsn.is_none();
        self.unpin(g.page_id, needs_dirty_unpin);
    }

    /// Whether only the cached state of one page differs.
    pub open spec fn touched(&self, before: &BufferPoolManager, page_id: u64) -> bool {
        &&& self.wf()
        &&& self.same_ids(before)
        &&& self.disk == before.disk
        &&& self.wal == before.wal
        &&& self.cached(page_id)
        &&& self.frame(page_id) == before.frame(page_id)
        &&& self.shard(page_id).last_checkpoint_redo_point == before.shard(
            page_id,
        ).last_checkpoint_redo_point
        &&& !self.dirty(page_id) ==> self.holds(page_id) == before.holds(page_id)
        &&& self.dirty(page_id) ==> self.holds(page_id) == Some(blank(self.bytes(page_id)))
        &&& forall|id: u64|
            id != page_id ==> {
                &&& #[trigger] self.holds(id) == before.holds(id)
                &&& self.cached(id) == before.cached(id)
                &&& self.pins(id) == before.pins(id)
                &&& before.cached(id) ==> self.frame(id) == before.frame(id) && self.bytes(id)
                    == before.bytes(id)
                &&& self.dirty(id) == before.dirty(id)
                &&& self.is_fresh(id) == before.is_fresh(id)
            }
    }

    /// Puts a page of zeros into the frame that was taken for it.
    fn load_zeros(&mut self, page_id: u64, frame_id: usize)
        requires
            old(self).loading(page_id, frame_id),
        ensures
            final(self).same_ids(old(self)),
            final(self).disk == old(self).disk,
            final(self).wal == old(self).wal,
            final(self).loaded_or_not(old(self), page_id, frame_id, true),
            final(self).bytes(page_id) == zeros(PAGE_SIZE as nat),
    {
        let i: usize = Self::get_shard(page_id);
        let ghost s0 = self.shards@[i as int];
        self.shards[i].pages.set(frame_id, PageData::new());
        proof {
            lemma_bytes_set(s0, self.shards@[i as int], frame_id as int);
        }
        self.shards[i].finish_load(page_id, frame_id, true);
    }

    /// Notes that nothing has been written to a page yet.
    fn freshen(&mut self, page_id: u64)
        requires
            old(self).wf(),
            old(self).pins(page_id) > 0,
            !old(self).dirty(page_id),
        ensures
            final(self).wf(),
            final(self).same_ids(old(self)),
            final(self).disk == old(self).disk,
            final(self).wal == old(self).wal,
            final(self).is_fresh(page_id),
            forall|id: u64|
                id != page_id ==> #[trigger] final(self).holds(id) == old(self).holds(id)
                    && final(self).is_fresh(id) == old(self).is_fresh(id),
            forall|id: u64| #[trigger] final(self).cached(id) == old(self).cached(id),
            forall|id: u64| #[trigger] final(self).pins(id) == old(self).pins(id),
            forall|id: u64| #[trigger] final(self).frame(id) == old(self).frame(id),
            forall|id: u64| #[trigger] final(self).bytes(id) == old(self).bytes(id),
            forall|id: u64| #[trigger] final(self).dirty(id) == old(self).dirty(id),
    {
        let ghost m0 = *self;
        let i: usize = Self::get_shard(page_id);
        self.shards[i].fresh = Ghost(self.shards@[i as int].fresh@.insert(page_id));
        proof {
            lemma_freshened(m0, *self, page_id);
        }
    }

    /// Pins a page whose bytes do not matter: it becomes a page of zeros.
    fn zero_frame(&mut self, page_id: u64) -> (r: Result<usize, BufferPoolError>)
        requires
            old(self).wf(),
            page_id < old(self).next_page_id,
            old(self).pins(page_id) < u64::MAX,
        ensures
            final(self).zeroed(old(self), page_id, r),
    {
        let ghost m0 = *self;
        let i: usize = Self::get_shard(page_id);
        let r = self.shards[i].acquire_frame(page_id, &mut self.disk, &mut self.wal);
        let ghost m1 = *self;
        match r {
            Err(e) => {
                proof {
                    lemma_flush_step(m0, m1, i as int);
                }
                Err(e)
            },
            Ok((frame_id, false)) => {
                proof {
                    lemma_hit(m0, m1, page_id);
                }
                let mut g = PageWriteGuard { page_id, frame_id, dirty: false, record_lsn: None };
                let blank_page = PageData::new();
                self.write(&mut g, blank_page.0);
                let ghost m2 = *self;
                if !self.shards[i].metadata[frame_id].is_dirty {
                    self.freshen(page_id);
                }
                proof {
                    assert forall|id: u64| id != page_id && m0.holds(id) is Some implies #[trigger] self.holds(
                        id,
                    ) == m0.holds(id) by {
                        assert(m1.holds(id) == m0.holds(id));
                        assert(m2.holds(id) == m1.holds(id));
                    }
                    assert forall|id: u64| id != page_id && #[trigger] m0.pins(id) > 0 implies self.pins(
                        id,
                    ) == m0.pins(id) && self.frame(id) == m0.frame(id) && self.bytes(id) == m0.bytes(id)
                        && self.dirty(id) == m0.dirty(id) by {
                        assert(m1.pins(id) > 0);
                        assert(m2.holds(id) == m1.holds(id));
                        assert(self.pins(id) == m2.pins(id));
                        assert(self.frame(id) == m2.frame(id));
                        assert(self.bytes(id) == m2.bytes(id));
                        assert(self.dirty(id) == m2.dirty(id));
                    }
                    assert forall|id: u64| id != page_id implies #[trigger] self.pins(id)
                        == m0.pins(id) by {
                        assert(m2.holds(id) == m1.holds(id));
                        assert(self.pins(id) == m2.pins(id));
                        assert(m1.pins(id) == m0.pins(id));
                    }
                    assert(self.bytes(page_id) == m2.bytes(page_id));
                    assert(self.pins(page_id) == m2.pins(page_id));
                    assert(self.dirty(page_id) == m2.dirty(page_id));
                    assert(self.frame(page_id) == m2.frame(page_id));
                    assert forall|id: u64| #[trigger] self.dirty(id) implies m0.dirty(id) by {
                        assert(self.dirty(id) == m2.dirty(id));
                        if id != page_id {
                            assert(m2.holds(id) == m1.holds(id));
                        }
                        assert(m1.dirty(id));
                    }
                }
                Ok(frame_id)
            },
            Ok((frame_id, true)) => {
                self.load_zeros(page_id, frame_id);
                let ghost m2 = *self;
                proof {
                    lemma_loaded_base(m0, m1, m2, page_id, frame_id, true);
                }
                self.freshen(page_id);
                proof {
                    assert forall|id: u64| id != page_id && m0.holds(id) is Some implies #[trigger] self.holds(
                        id,
                    ) == m0.holds(id) by {
                        assert(m2.holds(id) == m0.holds(id));
                    }
                    assert forall|id: u64| id != page_id && #[trigger] m0.pins(id) > 0 implies self.pins(
                        id,
                    ) == m0.pins(id) && self.frame(id) == m0.frame(id) && self.bytes(id) == m0.bytes(id)
                        && self.dirty(id) == m0.dirty(id) by {
                        assert(self.pins(id) == m2.pins(id));
                        assert(self.frame(id) == m2.frame(id));
                        assert(self.bytes(id) == m2.bytes(id));
                        assert(self.dirty(id) == m2.dirty(id));
                    }
                    assert(self.bytes(page_id) == m2.bytes(page_id));
                    assert(self.pins(page_id) == m2.pins(page_id));
                    assert(self.dirty(page_id) == m2.dirty(page_id));
                    assert(self.frame(page_id) == m2.frame(page_id));
                    assert forall|id: u64| #[trigger] self.dirty(id) implies m0.dirty(id) by {
                        assert(self.dirty(id) == m2.dirty(id));
                    }
                    assert(only_written(m0, m2));
                }
                Ok(frame_id)
            },
        }
    }

    /// What taking a page of zeros does, and when it fails.
    pub open spec fn zeroed(
        &self,
        before: &BufferPoolManager,
        page_id: u64,
        r: Result<usize, BufferPoolError>,
    ) -> bool {
        &&& self.wf()
        &&& self.same_ids(before)
        &&& io_ok(before.disk, before.wal, self.disk, self.wal)
        &&& pins_kept(*before, *self, page_id)
        &&& only_written(*before, *self)
        &&& forall|id: u64|
            id != page_id && before.holds(id) is Some ==> #[trigger] self.holds(id) == before.holds(
                id,
            )
        &&& match r {
            Ok(f) => {
                &&& before.cached(page_id) || before.has_frame(page_id)
                &&& self.guards(page_id, f)
                &&& self.pins(page_id) == before.pins(page_id) + 1
                &&& self.bytes(page_id) == zeros(PAGE_SIZE as nat)
                &&& self.dirty(page_id) == before.dirty(page_id)
                &&& self.dirty(page_id) || self.is_fresh(page_id)
            },
            Err(e) => {
                &&& e == BufferPoolError::NoEvictableFrames
                &&& !before.cached(page_id)
                &&& !before.has_frame(page_id)
                &&& kept(*before, *self)
            },
        }
    }

    /// Takes a page off the free-space bitmap and logs the bitmap's new image.
    fn claim_recycled(&mut self, pid: u64) -> (r: Result<(), BufferPoolError>)
        requires
            old(self).wf(),
            old(self).pins(old(self).free_page) == 0,
            old(self).wal.next_lsn < u64::MAX,
        ensures
            final(self).claimed(old(self), pid, r),
    {
        let ghost m0 = *self;
        let free_space_id: u64 = self.free_page;
        let mut g = match self.fetch_page_mut(free_space_id) {
            Ok(g) => g,
            Err(e) => {
                return Err(e);
            },
        };
        let ghost m1 = *self;
        let mut image: Vec<u8> = copy_bytes(self.read_mut(&g));
        let ghost b = image@;
        clear_free(image.as_mut_slice(), pid);
        let ghost c = image@;
        let mut blocks: Vec<Block> = Vec::new();
        blocks.push(
            Block {
                page_id: free_space_id,
                blk_flags: BLK_HAS_FPI,
                fpi: Some(copy_bytes(&image)),
                data: None,
            },
        );
        proof {
            assert(block_views(blocks@) =~= image_blocks(free_space_id, c));
        }
        let lsn: u64 = self.wal.append(WalRecordType::PageCompact, 0, &blocks, None);
        let ghost m2 = *self;
        proof {
            lemma_wal_only(m1, m2);
        }
        set_lsn(&mut image, lsn);
        self.write(&mut g, image);
        let ghost m3 = *self;
        self.release_mut(g);
        proof {
            assert(recycled_image(b, c, pid));
            assert(self.bytes(free_space_id) == restamped(c, lsn));
            assert forall|id: u64| id != free_space_id && m0.holds(id) is Some implies #[trigger] self.holds(
                id,
            ) == m0.holds(id) by {
                assert(m1.holds(id) == m0.holds(id));
                assert(m2.holds(id) == m1.holds(id));
                assert(m3.holds(id) == m2.holds(id));
            }
            assert forall|id: u64| id != free_space_id && #[trigger] m0.pins(id) > 0 implies self.pins(
                id,
            ) == m0.pins(id) && self.frame(id) == m0.frame(id) && self.bytes(id) == m0.bytes(id)
                && self.dirty(id) == m0.dirty(id) by {
                assert(m1.pins(id) == m0.pins(id));
                assert(m2.holds(id) == m1.holds(id));
                assert(m3.holds(id) == m2.holds(id));
                assert(self.holds(id) == m3.holds(id));
            }
            assert forall|id: u64| id != free_space_id implies #[trigger] self.pins(id) == m0.pins(
                id,
            ) by {
                assert(m1.pins(id) == m0.pins(id));
                assert(m2.pins(id) == m1.pins(id));
                assert(m3.holds(id) == m2.holds(id));
                assert(self.holds(id) == m3.holds(id));
            }
            let rec = record_bytes(
                appended(lsn, WalRecordType::PageCompact, 0, image_blocks(free_space_id, c), None),
            );
            assert(log_of(m1.disk.out@) + (m1.wal.pending@ + rec) =~= log_of(m1.disk.out@)
                + m1.wal.pending@ + rec);
            assert(self.holds(free_space_id) == Some(blank(restamped(c, lsn))));
            assert(m2.pins(free_space_id) == m1.pins(free_space_id));
            assert(m2.bytes(free_space_id) == m1.bytes(free_space_id));
        }
        Ok(())
    }

    /// What claiming a free page does, and when it fails.
    pub open spec fn claimed(
        &self,
        before: &BufferPoolManager,
        pid: u64,
        r: Result<(), BufferPoolError>,
    ) -> bool {
        let fs = before.free_page;
        &&& self.wf()
        &&& self.same_ids(before)
        &&& pins_kept(*before, *self, fs)
        &&& self.pins(fs) == 0
        &&& forall|id: u64|
            id != fs && before.holds(id) is Some ==> #[trigger] self.holds(id) == before.holds(id)
        &&& match r {
            Ok(()) => {
                let lsn = before.wal.next_lsn;
                &&& fs < before.next_page_id
                &&& self.wal.next_lsn == lsn + 1
                &&& exists|b: Seq<u8>, c: Seq<u8>|
                    {
                        &&& #[trigger] recycled_image(b, c, pid)
                        &&& b == (if before.cached(fs) {
                            before.bytes(fs)
                        } else {
                            self.disk.at(fs)
                        })
                        &&& self.holds(fs) == Some(blank(restamped(c, lsn)))
                        &&& log_of(self.disk.out@) + self.wal.pending@ == log_of(before.disk.out@)
                            + before.wal.pending@ + record_bytes(
                            appended(
                                lsn,
                                WalRecordType::PageCompact,
                                0,
                                image_blocks(fs, c),
                                None,
                            ),
                        )
                    }
            },
            Err(e) => {
                &&& io_ok(before.disk, before.wal, self.disk, self.wal)
                &&& kept(*before, *self)
                &&& if fs >= before.next_page_id {
                    e == BufferPoolError::PageNotFound(fs)
                } else if before.has_frame(fs) {
                    load_error(self.disk, fs) == Some(e)
                } else {
                    e == BufferPoolError::NoEvictableFrames
                }
            },
        }
    }

    /// Makes a new page of zeros: one that can be given out again, or else the
    /// next id. Fails where all frames are in use, or the bitmap of free pages
    /// cannot be read.
    pub fn new_page(&mut self) -> (r: Result<PageWriteGuard, BufferPoolError>)
        requires
            old(self).wf(),
            old(self).next_page_id < INVALID_FRAME_ID,
            old(self).free_pool@.len() > 0 ==> {
                &&& old(self).wal.next_lsn < u64::MAX
                &&& old(self).pins(old(self).free_page) == 0
                &&& old(self).free_pool@.last() < old(self).next_page_id
                &&& old(self).free_pool@.last() != old(self).free_page
                &&& old(self).pins(old(self).free_pool@.last()) < u64::MAX
            },
        ensures
            old(self).free_pool@.len() == 0 ==> {
                let id = old(self).next_page_id;
                &&& final(self).next_page_id == id + 1
                &&& final(self).free_pool@ == old(self).free_pool@
                &&& final(self).free_page == old(self).free_page
                &&& r is Ok <==> old(self).has_frame(id)
                &&& r matches Ok(g) ==> g.page_id == id
                &&& io_ok(old(self).disk, old(self).wal, final(self).disk, final(self).wal)
                &&& only_written(*old(self), *final(self))
                &&& r matches Err(e) ==> e == BufferPoolError::NoEvictableFrames
            },
            old(self).free_pool@.len() > 0 ==> {
                let id = old(self).free_pool@.last();
                &&& final(self).next_page_id == old(self).next_page_id
                &&& final(self).free_page == old(self).free_page
                &&& r matches Ok(g) ==> g.page_id == id && final(self).free_pool@
                    == old(self).free_pool@.drop_last() && exists|p: BufferPoolManager, m:
                    BufferPoolManager| #[trigger]
                    given_again(*old(self), p, m, *final(self), id, Ok(g.frame_id))
                &&& r matches Err(e) ==> {
                    ||| final(self).free_pool@ == old(self).free_pool@ && exists|p:
                        BufferPoolManager, m: BufferPoolManager| #[trigger]
                        not_claimed(*old(self), p, m, *final(self), id, e)
                    ||| exists|p: BufferPoolManager, m: BufferPoolManager| #[trigger]
                        given_again(*old(self), p, m, *final(self), id, Err(e))
                }
            },
            final(self).wf(),
            r matches Ok(g) ==> {
                &&& final(self).guards(g.page_id, g.frame_id)
                &&& final(self).bytes(g.page_id) == zeros(PAGE_SIZE as nat)
                &&& final(self).dirty(g.page_id) || final(self).is_fresh(g.page_id)
                &&& !g.dirty
                &&& g.record_lsn is None
                &&& old(self).free_pool@.len() == 0 ==> final(self).pins(g.page_id) == 1
                    && final(self).is_fresh(g.page_id) && !final(self).dirty(g.page_id)
            },
            forall|id: u64|
                (r matches Ok(g) ==> id != g.page_id) && (old(self).free_pool@.len() > 0 ==> id
                    != old(self).free_page && id != old(self).free_pool@.last()) && old(self).holds(
                    id,
                ) is Some ==> #[trigger] final(self).holds(id) == old(self).holds(id),
            old(self).free_pool@.len() == 0 ==> pins_kept(
                *old(self),
                *final(self),
                old(self).next_page_id,
            ),
    {
        let ghost m0 = *self;
        let recycled: Option<u64> = self.free_pool.pop();
        let ghost mp = *self;
        let page_id: u64 = match recycled {
            Some(pid) => {
                let ghost m1 = *self;
                proof {
                    lemma_ids_only(m0, m1);
                    assert(popped(m0, m1));
                }
                match self.claim_recycled(pid) {
                    Ok(()) => pid,
                    Err(e) => {
                        let ghost m2 = *self;
                        self.free_pool.push(pid);
                        proof {
                            assert(m0.free_pool@ =~= m0.free_pool@.drop_last().push(pid));
                            lemma_ids_only(m2, *self);
                            assert(not_claimed(m0, m1, m2, *self, pid, e));
                        }
                        return Err(e);
                    },
                }
            },
            None => {
                let id: u64 = self.next_page_id;
                self.next_page_id = id + 1;
                proof {
                    lemma_ids_only(m0, *self);
                    lemma_unallocated(m0, id);
                }
                id
            },
        };
        let ghost m3 = *self;
        let r = self.zero_frame(page_id);
        proof {
            if recycled is Some {
                assert(page_id == m0.free_pool@.last());
                assert(self.free_pool@ == m0.free_pool@.drop_last());
                assert(self.next_page_id == m0.next_page_id);
            }
            if recycled is None {
                assert forall|id: u64| #[trigger] m3.pins(id) == m0.pins(id) by {}
                assert forall|id: u64|
                    id != page_id && #[trigger] m0.pins(id) > 0 implies self.pins(id) == m0.pins(id)
                    && self.frame(id) == m0.frame(id) && self.bytes(id) == m0.bytes(id)
                    && self.dirty(id) == m0.dirty(id) by {
                    assert(m3.pins(id) > 0);
                }
            }
        }
        match r {
            Ok(frame_id) => {
                let g = PageWriteGuard { page_id, frame_id, dirty: false, record_lsn: None };
                proof {
                    if recycled is Some {
                        let id = old(self).free_pool@.last();
                        assert(given_again(*old(self), mp, m3, *self, id, Ok(g.frame_id)));
                        assert(exists|p: BufferPoolManager, m: BufferPoolManager| #[trigger]
                            given_again(*old(self), p, m, *self, id, Ok(g.frame_id)));
                    }
                }
                Ok(g)
            },
            Err(e) => {
                assert(recycled is Some ==> given_again(m0, mp, m3, *self, page_id, Err(e)));
                Err(e)
            },
        }
    }

    /// Gets a page for writing that may not exist yet: a page behind the end of
    /// the file becomes a page of zeros, and its id is never allocated again.
    pub fn ensure_page(&mut self, page_id: u64) -> (r: Result<PageWriteGuard, BufferPoolError>)
        requires
            old(self).wf(),
            page_id < INVALID_FRAME_ID,
            old(self).pins(page_id) < u64::MAX,
        ensures
            final(self).ensured(old(self), page_id, r),
    {
        let ghost m0 = *self;
        let old_next: u64 = self.next_page_id;
        if self.next_page_id < page_id + 1 {
            self.next_page_id = page_id + 1;
        }
        let ghost m1 = *self;
        proof {
            lemma_ids_only(m0, m1);
        }
        let i: usize = Self::get_shard(page_id);
        let r = self.shards[i].acquire_frame(page_id, &mut self.disk, &mut self.wal);
        let ghost m2 = *self;
        match r {
            Err(e) => {
                proof {
                    lemma_flush_step(m1, m2, i as int);
                }
                self.next_page_id = old_next;
                proof {
                    lemma_next_back(m0, m1, m2, *self, page_id);
                }
                Err(e)
            },
            Ok((frame_id, false)) => {
                proof {
                    lemma_hit(m1, m2, page_id);
                    lemma_kept_ids(m0, m1, m2, page_id);
                }
                Ok(PageWriteGuard { page_id, frame_id, dirty: false, record_lsn: None })
            },
            Ok((frame_id, true)) => {
                if self.disk.num_pages > page_id {
                    let r = self.load(page_id, frame_id);
                    let ghost m3 = *self;
                    proof {
                        lemma_loaded(m1, m2, m3, page_id, frame_id, r is Ok);
                    }
                    match r {
                        Ok(()) => {
                            proof {
                                lemma_kept_ids(m0, m1, m3, page_id);
                            }
                            Ok(
                                PageWriteGuard {
                                    page_id,
                                    frame_id,
                                    dirty: false,
                                    record_lsn: None,
                                },
                            )
                        },
                        Err(e) => {
                            self.next_page_id = old_next;
                            proof {
                                lemma_next_back(m0, m1, m3, *self, page_id);
                            }
                            Err(e)
                        },
                    }
                } else {
                    self.load_zeros(page_id, frame_id);
                    let ghost m3 = *self;
                    proof {
                        lemma_loaded_base(m1, m2, m3, page_id, frame_id, true);
                    }
                    self.freshen(page_id);
                    proof {
                        assert forall|id: u64| m1.holds(id) is Some implies #[trigger] self.holds(id)
                            == m1.holds(id) by {
                            assert(m3.holds(id) == m1.holds(id));
                        }
                        assert forall|id: u64|
                            id != page_id && #[trigger] m1.pins(id) > 0 implies self.pins(id)
                            == m1.pins(id) && self.frame(id) == m1.frame(id) && self.bytes(id)
                            == m1.bytes(id) && self.dirty(id) == m1.dirty(id) by {
                            assert(self.pins(id) == m3.pins(id));
                            assert(self.frame(id) == m3.frame(id));
                            assert(self.bytes(id) == m3.bytes(id));
                            assert(self.dirty(id) == m3.dirty(id));
                        }
                        assert forall|id: u64| id != page_id implies #[trigger] self.pins(id)
                            == m1.pins(id) by {
                            assert(self.pins(id) == m3.pins(id));
                        }
                        lemma_kept_ids(m0, m1, *self, page_id);
                        assert(self.bytes(page_id) == m3.bytes(page_id));
                        assert(self.pins(page_id) == m3.pins(page_id));
                        assert(self.dirty(page_id) == m3.dirty(page_id));
                        assert(self.frame(page_id) == m3.frame(page_id));
                    }
                    Ok(PageWriteGuard { page_id, frame_id, dirty: false, record_lsn: None })
                }
            },
        }
    }

    /// What ensuring a page does, and when it fails.
    pub open spec fn ensured(
        &self,
        before: &BufferPoolManager,
        page_id: u64,
        r: Result<PageWriteGuard, BufferPoolError>,
    ) -> bool {
        &&& self.wf()
        &&& self.free_pool@ == before.free_pool@
        &&& self.free_page == before.free_page
        &&& io_ok(before.disk, before.wal, self.disk, self.wal)
        &&& kept(*before, *self)
        &&& pins_kept(*before, *self, page_id)
        &&& only_written(*before, *self)
        &&& match r {
            Ok(g) => {
                &&& self.next_page_id == (if before.next_page_id < page_id + 1 {
                    page_id + 1
                } else {
                    before.next_page_id as int
                })
                &&& g.page_id == page_id
                &&& !g.dirty
                &&& g.record_lsn is None
                &&& before.cached(page_id) || (before.has_frame(page_id) && (page_id
                    < self.disk.num_pages ==> load_error(self.disk, page_id) is None))
                &&& self.guards(page_id, g.frame_id)
                &&& self.pins(page_id) == before.pins(page_id) + 1
                &&& self.dirty(page_id) == before.dirty(page_id)
                &&& self.bytes(page_id) == (if before.cached(page_id) {
                    before.bytes(page_id)
                } else if page_id < self.disk.num_pages {
                    self.disk.at(page_id)
                } else {
                    zeros(PAGE_SIZE as nat)
                })
                &&& before.pins(page_id) == 0 ==> self.settled(page_id) && (before.holds(
                    page_id,
                ) matches Some(b) ==> blank(self.bytes(page_id)) == b)
            },
            Err(e) => {
                &&& self.next_page_id == before.next_page_id
                &&& !before.cached(page_id)
                &&& if before.has_frame(page_id) {
                    page_id < self.disk.num_pages && load_error(self.disk, page_id) == Some(e)
                } else {
                    e == BufferPoolError::NoEvictableFrames
                }
            },
        }
    }

    /// Never allocates ids below the given one again.
    pub fn advance_next_page_id(&mut self, target_id: u64)
        requires
            old(self).wf(),
        ensures
            final(self).wf(),
            final(self).next_page_id == (if old(self).next_page_id < target_id {
                target_id
            } else {
                old(self).next_page_id
            }),
            final(self).shards == old(self).shards,
            final(self).disk == old(self).disk,
            final(self).wal == old(self).wal,
            final(self).free_pool == old(self).free_pool,
            final(self).free_page == old(self).free_page,
    {
        let ghost m0 = *self;
        if self.next_page_id < target_id {
            self.next_page_id = target_id;
        }
        proof {
            lemma_ids_only(m0, *self);
        }
    }

    /// Writes a page to the file if it has changed, and makes the file durable.
    pub fn flush_page(&mut self, page_id: u64) -> (r: bool)
        requires
            old(self).wf(),
        ensures
            final(self).wf(),
            final(self).same_ids(old(self)),
            io_ok(old(self).disk, old(self).wal, final(self).disk, final(self).wal),
            kept(*old(self), *final(self)),
            only_written(*old(self), *final(self)),
            forall|id: u64| #[trigger] final(self).pins(id) == old(self).pins(id),
            forall|id: u64| #[trigger] final(self).cached(id) == old(self).cached(id),
            forall|id: u64| #[trigger] final(self).bytes(id) == old(self).bytes(id),
            r == old(self).dirty(page_id),
            r ==> final(self).disk.at(page_id) == stamped(old(self).bytes(page_id))
                && !final(self).dirty(page_id) && final(self).disk.out@.last()
                == IoView::SyncData,
            !r ==> final(self).unchanged(old(self)),
    {
        let ghost m0 = *self;
        let i: usize = Self::get_shard(page_id);
        let ghost s0 = self.shards@[i as int];
        assert(s0.wf(self.disk));
        let r = self.shards[i].flush_page(page_id, &mut self.disk, &mut self.wal);
        proof {
            lemma_flush_step(m0, *self, i as int);
            if r {
                assert(s0.page_table@.contains_key(page_id));
            } else {
                assert(self.shards@ =~= m0.shards@);
            }
        }
        r
    }

    /// Writes all changed pages to the file and makes it durable.
    pub fn flush_all_pages(&mut self)
        requires
            old(self).wf(),
        ensures
            final(self).wf(),
            final(self).same_ids(old(self)),
            io_ok(old(self).disk, old(self).wal, final(self).disk, final(self).wal),
            kept(*old(self), *final(self)),
            only_written(*old(self), *final(self)),
            forall|id: u64| #[trigger] final(self).pins(id) == old(self).pins(id),
            forall|id: u64| #[trigger] final(self).cached(id) == old(self).cached(id),
            forall|id: u64| #[trigger] final(self).bytes(id) == old(self).bytes(id),
            forall|id: u64| !(#[trigger] final(self).dirty(id)),
            final(self).disk.out@.len() > 0,
            final(self).disk.out@.last() == IoView::SyncData,
    {
        let ghost m0 = *self;
        let mut i: usize = 0;
        while i < NUM_SHARDS
            invariant
                i <= NUM_SHARDS,
                m0.wf(),
                self.wf(),
                self.same_ids(&m0),
                io_ok(m0.disk, m0.wal, self.disk, self.wal),
                kept(m0, *self),
                only_written(m0, *self),
                forall|id: u64| #[trigger] self.pins(id) == m0.pins(id),
                forall|id: u64| #[trigger] self.cached(id) == m0.cached(id),
                forall|id: u64| #[trigger] self.bytes(id) == m0.bytes(id),
                forall|j: int, f: int|
                    0 <= j < i && 0 <= f < self.shards@[j].size()
                        ==> !(#[trigger] self.shards@[j].metadata@[f]).is_dirty,
            decreases NUM_SHARDS - i,
        {
            let ghost m1 = *self;
            assert(self.shards@[i as int].wf(self.disk));
            self.shards[i].flush_all_pages_no_sync(&mut self.disk, &mut self.wal);
            proof {
                lemma_flush_step(m1, *self, i as int);
                lemma_rewritten_trans(m0, m1, *self);
                lemma_io_trans(m0.disk, m0.wal, m1.disk, m1.wal, self.disk, self.wal);
                assert forall|id: u64| m0.holds(id) is Some implies #[trigger] self.holds(id)
                    == m0.holds(id) by {
                    assert(m1.holds(id) == m0.holds(id));
                }
                assert forall|id: u64| #[trigger] self.pins(id) == m0.pins(id) by {
                    assert(m1.pins(id) == m0.pins(id));
                }
                assert forall|id: u64| #[trigger] self.cached(id) == m0.cached(id) by {
                    assert(m1.cached(id) == m0.cached(id));
                }
                assert forall|id: u64| #[trigger] self.bytes(id) == m0.bytes(id) by {
                    assert(m1.bytes(id) == m0.bytes(id));
                }
                assert forall|j: int, f: int|
                    0 <= j < i + 1 && 0 <= f < self.shards@[j].size() implies !(
                #[trigger] self.shards@[j].metadata@[f]).is_dirty by {
                    if j < i {
                        assert(self.shards@[j] == m1.shards@[j]);
                        assert(!m1.shards@[j].metadata@[f].is_dirty);
                    }
                }
            }
            i = i + 1;
        }
        let ghost m2 = *self;
        self.disk.sync_data();
        proof {
            lemma_synced(m2.disk, self.disk, m0.disk, m0.wal, self.wal);
            lemma_disk_only(m2, *self);
            assert forall|id: u64| m0.holds(id) is Some implies #[trigger] self.holds(id)
                == m0.holds(id) by {
                assert(m2.holds(id) == m0.holds(id));
            }
            assert forall|id: u64| #[trigger] self.pins(id) == m0.pins(id) by {
                assert(m2.pins(id) == m0.pins(id));
            }
            assert forall|id: u64| #[trigger] self.cached(id) == m0.cached(id) by {
                assert(m2.cached(id) == m0.cached(id));
            }
            assert forall|id: u64| #[trigger] self.bytes(id) == m0.bytes(id) by {
                assert(m2.bytes(id) == m0.bytes(id));
            }
            assert forall|id: u64| !(#[trigger] self.dirty(id)) by {
                lemma_shard_of(id);
                if self.cached(id) {
                    let j = shard_of(id);
                    assert(self.shards@[j].wf(self.disk));
                    assert(self.shards@[j].page_table@.contains_key(id));
                    assert(!m2.shards@[j].metadata@[self.frame(id)].is_dirty);
                }
            }
        }
    }

    /// Drops a page from the cache; a changed page is written first. Fails for a
    /// page in use.
    pub fn delete_page(&mut self, page_id: u64) -> (r: Result<(), BufferPoolError>)
        requires
            old(self).wf(),
        ensures
            final(self).wf(),
            final(self).same_ids(old(self)),
            io_ok(old(self).disk, old(self).wal, final(self).disk, final(self).wal),
            kept(*old(self), *final(self)),
            only_written(*old(self), *final(self)),
            pins_kept(*old(self), *final(self), page_id),
            r is Err <==> old(self).pins(page_id) > 0,
            r matches Err(e) ==> e == BufferPoolError::PinCountError && final(self).unchanged(
                old(self),
            ),
            r is Ok ==> !final(self).cached(page_id),
    {
        let ghost m0 = *self;
        let i: usize = Self::get_shard(page_id);
        let ghost s0 = self.shards@[i as int];
        assert(s0.wf(self.disk));
        let r = self.shards[i].delete_page(page_id, &mut self.disk, &mut self.wal);
        proof {
            if r is Err {
                assert(self.shards@ =~= m0.shards@);
            }
            lemma_deleted(m0, *self, page_id);
        }
        r
    }

    /// The least record number among the changed pages: where redo has to start.
    pub fn min_rec_lsn(&self) -> (r: Option<u64>)
        requires
            self.wf(),
        ensures
            match r {
                None => forall|i: int|
                    0 <= i < NUM_SHARDS ==> (#[trigger] self.shards@[i]).min_rec_lsn is None,
                Some(x) => {
                    &&& exists|i: int|
                        0 <= i < NUM_SHARDS && (#[trigger] self.shards@[i]).min_rec_lsn == Some(x)
                    &&& forall|i: int|
                        0 <= i < NUM_SHARDS ==> ((#[trigger] self.shards@[i]).min_rec_lsn matches Some(
                            y,
                        ) ==> x <= y)
                },
            },
            r is None ==> forall|i: int, f: int|
                0 <= i < NUM_SHARDS && 0 <= f < self.shards@[i].size() ==> !has_rec_lsn(
                    #[trigger] self.shards@[i].metadata@[f],
                ),
            r matches Some(x) ==> forall|i: int, f: int|
                0 <= i < NUM_SHARDS && 0 <= f < self.shards@[i].size() && has_rec_lsn(
                    #[trigger] self.shards@[i].metadata@[f],
                ) ==> x <= self.shards@[i].metadata@[f].rec_lsn->0,
    {
        let mut least: Option<u64> = None;
        let mut i: usize = 0;
        while i < NUM_SHARDS
            invariant
                i <= NUM_SHARDS,
                self.wf(),
                match least {
                    None => forall|j: int|
                        0 <= j < i ==> (#[trigger] self.shards@[j]).min_rec_lsn is None,
                    Some(x) => {
                        &&& exists|j: int|
                            0 <= j < i && (#[trigger] self.shards@[j]).min_rec_lsn == Some(x)
                        &&& forall|j: int|
                            0 <= j < i ==> ((#[trigger] self.shards@[j]).min_rec_lsn matches Some(
                                y,
                            ) ==> x <= y)
                    },
                },
            decreases NUM_SHARDS - i,
        {
            if let Some(x) = self.shards[i].min_rec_lsn {
                match least {
                    None => {
                        least = Some(x);
                    },
                    Some(y) => {
                        if x < y {
                            least = Some(x);
                        }
                    },
                }
            }
            i = i + 1;
        }
        proof {
            assert forall|j: int, f: int|
                0 <= j < NUM_SHARDS && 0 <= f < self.shards@[j].size() && has_rec_lsn(
                    #[trigger] self.shards@[j].metadata@[f],
                ) implies least is Some && least->0 <= self.shards@[j].metadata@[f].rec_lsn->0 by {
                assert(self.shards@[j].wf(self.disk));
                assert(self.shards@[j].min_rec_lsn is Some);
            }
        }
        least
    }

    /// Tells every shard the redo point of a checkpoint.
    pub fn update_checkpoint_redo_point(&mut self, redo_point: u64)
        requires
            old(self).wf(),
        ensures
            final(self).wf(),
            final(self).same_ids(old(self)),
            final(self).disk == old(self).disk,
            final(self).wal == old(self).wal,
            forall|id: u64| #[trigger] final(self).holds(id) == old(self).holds(id),
            forall|id: u64| #[trigger] final(self).pins(id) == old(self).pins(id),
            forall|id: u64| #[trigger] final(self).dirty(id) == old(self).dirty(id),
            forall|i: int|
                0 <= i < NUM_SHARDS ==> (#[trigger] final(self).shards@[i]).last_checkpoint_redo_point == redo_point,
    {
        let ghost m0 = *self;
        let mut i: usize = 0;
        while i < NUM_SHARDS
            invariant
                i <= NUM_SHARDS,
                m0.wf(),
                self.same_ids(&m0),
                self.disk == m0.disk,
                self.wal == m0.wal,
                self.shards@.len() == NUM_SHARDS,
                forall|j: int|
                    0 <= j < NUM_SHARDS ==> #[trigger] self.shards@[j] == (BufferPoolShard {
                        last_checkpoint_redo_point: if j < i {
                            redo_point
                        } else {
                            m0.shards@[j].last_checkpoint_redo_point
                        },
                        ..m0.shards@[j]
                    }),
            decreases NUM_SHARDS - i,
        {
            self.shards[i].last_checkpoint_redo_point = redo_point;
            i = i + 1;
        }
        proof {
            assert forall|j: int| 0 <= j < NUM_SHARDS implies (#[trigger] self.shards@[j]).wf(
                self.disk,
            ) by {
                let s0 = m0.shards@[j];
                let s = self.shards@[j];
                assert(s0.wf(m0.disk));
                assert(s.lists_ok(-1)) by {
                    assert forall|g: int| 0 <= g < s.size() implies (
                    #[trigger] s.replacer.can_evict(g) <==> g != -1 && s.metadata@[g].page_id
                        != INVALID_FRAME_ID && s.metadata@[g].pin_count == 0) by {
                        assert(s0.replacer.can_evict(g) == s.replacer.can_evict(g));
                    }
                }
                assert forall|id: u64| #[trigger]
                    s.cached(id) && !s.meta(id).is_dirty && s.meta(id).pin_count == 0
                        && !s.fresh@.contains(id) implies s.in_sync(id, self.disk) by {
                    assert(s0.cached(id));
                    assert(s0.in_sync(id, m0.disk));
                }
            }
            assert forall|j: int, id: u64|
                0 <= j < NUM_SHARDS && #[trigger] self.shards@[j].cached(id) implies shard_of(id)
                == j && id < self.next_page_id by {
                assert(m0.shards@[j].cached(id));
            }
            assert forall|j: int| 0 <= j < NUM_SHARDS implies (#[trigger] self.shards@[j]).size()
                == MAX_FRAMES / NUM_SHARDS by {
                assert(m0.shards@[j].size() == MAX_FRAMES / NUM_SHARDS);
            }
            assert forall|id: u64| #[trigger] self.holds(id) == m0.holds(id) by {
                lemma_shard_of(id);
            }
            assert forall|id: u64| #[trigger] self.pins(id) == m0.pins(id) by {
                lemma_shard_of(id);
            }
            assert forall|id: u64| #[trigger] self.dirty(id) == m0.dirty(id) by {
                lemma_shard_of(id);
            }
        }
    }
}

/// Writes of the file, in two steps.
proof fn lemma_rewritten_trans(m0: BufferPoolManager, m1: BufferPoolManager, m: BufferPoolManager)
    requires
        only_written(m0, m1),
        only_written(m1, m),
        kept(m0, m1),
    ensures
        only_written(m0, m),
{
    assert forall|id: u64| #[trigger] m.dirty(id) implies m0.dirty(id) by {
        assert(m1.dirty(id));
    }
    if m.wal.flushed_lsn != m1.wal.flushed_lsn {
        let id = choose|id: u64|
            #![trigger m1.dirty(id)]
            m1.dirty(id) && m.wal.flushed_lsn == Some(lsn_of(m1.holds(id)->0));
        assert(m0.dirty(id));
        assert(m1.holds(id) == m0.holds(id));
    }
    assert forall|id: u64|
        blank(#[trigger] m.disk.at(id)) == blank(m0.disk.at(id)) || m0.holds(id) == Some(
            blank(m.disk.at(id)),
        ) by {
        assert(blank(m1.disk.at(id)) == blank(m0.disk.at(id)) || m0.holds(id) == Some(
            blank(m1.disk.at(id)),
        ));
        if blank(m.disk.at(id)) != blank(m1.disk.at(id)) {
            assert(m1.holds(id) == Some(blank(m.disk.at(id))));
            if m0.holds(id) is None {
                assert(!m1.dirty(id)) by {
                    if m1.dirty(id) {
                        assert(m0.dirty(id));
                    }
                }
            }
        }
    }
}

/// The file has been made durable.
proof fn lemma_disk_only(m0: BufferPoolManager, m: BufferPoolManager)
    requires
        m0.wf(),
        m.shards == m0.shards,
        m.same_ids(&m0),
        m.disk.wf(),
        m.disk.pages == m0.disk.pages,
        m.disk.num_pages == m0.disk.num_pages,
    ensures
        m.wf(),
        forall|id: u64| #[trigger] m.holds(id) == m0.holds(id),
        forall|id: u64| #[trigger] m.pins(id) == m0.pins(id),
        forall|id: u64| #[trigger] m.cached(id) == m0.cached(id),
        forall|id: u64| #[trigger] m.bytes(id) == m0.bytes(id),
{
    assert forall|id: u64| #[trigger] m.disk.at(id) == m0.disk.at(id) by {}
    assert forall|j: int| 0 <= j < NUM_SHARDS implies (#[trigger] m.shards@[j]).wf(m.disk) by {
        let s = m0.shards@[j];
        assert(s.wf(m0.disk));
        assert forall|id: u64| #[trigger]
            s.cached(id) && !s.meta(id).is_dirty && s.meta(id).pin_count == 0 && !s.fresh@.contains(
                id,
            ) implies s.in_sync(id, m.disk) by {
            assert(s.in_sync(id, m0.disk));
        }
    }
    assert forall|j: int, id: u64|
        0 <= j < NUM_SHARDS && #[trigger] m.shards@[j].cached(id) implies shard_of(id) == j && id
        < m.next_page_id by {
        assert(m0.shards@[j].cached(id));
    }
    assert forall|j: int| 0 <= j < NUM_SHARDS implies (#[trigger] m.shards@[j]).size() == MAX_FRAMES
        / NUM_SHARDS by {
        assert(m0.shards@[j].size() == MAX_FRAMES / NUM_SHARDS);
    }
    assert forall|id: u64| #[trigger] m.holds(id) == m0.holds(id) by {
        assert(m.disk.at(id) == m0.disk.at(id));
    }
}

/// A page has left the cache.
proof fn lemma_deleted(m0: BufferPoolManager, m: BufferPoolManager, page_id: u64)
    requires
        m0.wf(),
        m.same_ids(&m0),
        m.shards@.len() == NUM_SHARDS,
        forall|j: int|
            0 <= j < NUM_SHARDS && j != shard_of(page_id) ==> #[trigger] m.shards@[j]
                == m0.shards@[j],
        io_ok(m0.disk, m0.wal, m.disk, m.wal),
        m.shard(page_id).wf(m.disk),
        m.shard(page_id).size() == m0.shard(page_id).size(),
        forall|id: u64| #[trigger] m.shard(page_id).cached(id) ==> m0.shard(page_id).cached(id),
        forall|id: u64|
            m0.shard(page_id).holds(id, m0.disk) is Some ==> #[trigger] m.shard(page_id).holds(
                id,
                m.disk,
            ) == m0.shard(page_id).holds(id, m0.disk),
        forall|id: u64|
            id != page_id && #[trigger] m0.shard(page_id).cached(id) ==> m.shard(page_id).cached(id)
                && m.shard(page_id).frame(id) == m0.shard(page_id).frame(id) && m.shard(
                page_id,
            ).bytes(id) == m0.shard(page_id).bytes(id) && m.shard(page_id).meta(id) == m0.shard(
                page_id,
            ).meta(id),
        forall|id: u64| id != page_id ==> #[trigger] m.disk.at(id) == m0.disk.at(id),
        written_from(m0.shard(page_id), m0.disk, m.disk),
        flush_from(m0.shard(page_id), m0.disk, m0.wal, m.wal),
        m.cached(page_id) ==> m.shard(page_id) == m0.shard(page_id),
        !m0.cached(page_id) ==> m.disk == m0.disk,
        m.disk.num_pages == m0.disk.num_pages || (m.disk.num_pages == page_id + 1 && m0.cached(
            page_id,
        )),
    ensures
        m.wf(),
        kept(m0, m),
        pins_kept(m0, m, page_id),
        only_written(m0, m),
{
    let i = shard_of(page_id);
    lemma_shard_of(page_id);
    lemma_others(m0, m, i);
    lemma_rewritten(m0, m, i);
    if m.disk.num_pages != m0.disk.num_pages {
        assert(m0.shards@[i].cached(page_id));
    }
    assert forall|j: int, id: u64|
        0 <= j < NUM_SHARDS && #[trigger] m.shards@[j].cached(id) implies shard_of(id) == j && id
        < m.next_page_id by {
        if j == i {
            assert(m.shard(page_id).cached(id));
        }
        assert(m0.shards@[j].cached(id));
    }
    assert forall|j: int| 0 <= j < NUM_SHARDS implies (#[trigger] m.shards@[j]).size() == MAX_FRAMES
        / NUM_SHARDS by {
        assert(m0.shards@[j].size() == MAX_FRAMES / NUM_SHARDS);
    }
    assert forall|j: int| 0 <= j < NUM_SHARDS implies (#[trigger] m.shards@[j]).wf(m.disk) by {}
    assert forall|id: u64| m0.holds(id) is Some implies #[trigger] m.holds(id) == m0.holds(id) by {
        lemma_shard_of(id);
        if shard_of(id) == i {
            assert(m.shard(page_id).holds(id, m.disk) == m0.shard(page_id).holds(id, m0.disk));
        }
    }
    assert forall|id: u64| id != page_id implies #[trigger] m.pins(id) == m0.pins(id) && (m0.cached(
        id,
    ) ==> m.frame(id) == m0.frame(id) && m.bytes(id) == m0.bytes(id) && m.dirty(id) == m0.dirty(
        id,
    )) by {
        lemma_shard_of(id);
        if shard_of(id) == i {
            if m0.shard(page_id).cached(id) {
                assert(m.shard(page_id).cached(id));
            } else {
                assert(!m.shard(page_id).cached(id));
            }
        }
    }
    assert forall|id: u64| #[trigger] m.dirty(id) implies m0.dirty(id) by {
        lemma_shard_of(id);
        if shard_of(id) == i {
            assert(m.shard(page_id).cached(id));
            assert(m0.shard(page_id).cached(id));
            if id == page_id {
                assert(m.cached(page_id));
            }
        }
    }
    assert forall|id: u64| id != page_id && #[trigger] m0.pins(id) > 0 implies m.pins(id)
        == m0.pins(id) && m.frame(id) == m0.frame(id) && m.bytes(id) == m0.bytes(id) && m.dirty(id)
        == m0.dirty(id) by {
        assert(m.pins(id) == m0.pins(id));
    }
}

/// What is kept from a state that differs only in the next id is kept.
proof fn lemma_kept_ids(
    m0: BufferPoolManager,
    m1: BufferPoolManager,
    m: BufferPoolManager,
    page_id: u64,
)
    requires
        m0.wf(),
        m1.shards == m0.shards,
        m1.disk == m0.disk,
        m1.wal == m0.wal,
        m1.next_page_id >= m0.next_page_id,
        kept(m1, m),
        pins_kept(m1, m, page_id),
        only_written(m1, m),
    ensures
        kept(m0, m),
        pins_kept(m0, m, page_id),
        only_written(m0, m),
{
    lemma_ids_only(m0, m1);
    assert forall|id: u64| #[trigger] m.dirty(id) implies m0.dirty(id) by {
        assert(m1.dirty(id) == m0.dirty(id));
    }
    if m.wal.flushed_lsn != m1.wal.flushed_lsn {
        let id = choose|id: u64|
            #![trigger m1.dirty(id)]
            m1.dirty(id) && m.wal.flushed_lsn == Some(lsn_of(m1.holds(id)->0));
        assert(m0.dirty(id) == m1.dirty(id));
        assert(m1.holds(id) == m0.holds(id));
    }
    assert forall|id: u64|
        blank(#[trigger] m.disk.at(id)) == blank(m0.disk.at(id)) || m0.holds(id) == Some(
            blank(m.disk.at(id)),
        ) by {
        assert(m1.holds(id) == m0.holds(id));
    }
    assert forall|id: u64| m0.holds(id) is Some implies #[trigger] m.holds(id) == m0.holds(id) by {
        assert(m1.holds(id) == m0.holds(id));
    }
    assert forall|id: u64| id != page_id && #[trigger] m0.pins(id) > 0 implies m.pins(id)
        == m0.pins(id) && m.frame(id) == m0.frame(id) && m.bytes(id) == m0.bytes(id) && m.dirty(id)
        == m0.dirty(id) by {
        assert(m1.pins(id) == m0.pins(id));
    }
    assert forall|id: u64| id != page_id implies #[trigger] m.pins(id) == m0.pins(id) by {
        assert(m1.pins(id) == m0.pins(id));
    }
}

/// The next id is as it was, since the page that it was raised for is not cached.
proof fn lemma_next_back(
    m0: BufferPoolManager,
    m1: BufferPoolManager,
    m2: BufferPoolManager,
    m: BufferPoolManager,
    page_id: u64,
)
    requires
        m0.wf(),
        m1.shards == m0.shards,
        m1.disk == m0.disk,
        m1.wal == m0.wal,
        m1.next_page_id >= m0.next_page_id,
        m2.wf(),
        !m2.cached(page_id),
        m2.same_ids(&m1),
        kept(m1, m2),
        pins_kept(m1, m2, page_id),
        only_written(m1, m2),
        m2.disk.num_pages <= m0.next_page_id,
        m.shards == m2.shards,
        m.disk == m2.disk,
        m.wal == m2.wal,
        m.next_page_id == m0.next_page_id,
        forall|id: u64| #[trigger] m2.cached(id) ==> m0.cached(id),
    ensures
        m.wf(),
        kept(m0, m),
        pins_kept(m0, m, page_id),
        only_written(m0, m),
{
    lemma_kept_ids(m0, m1, m2, page_id);
    assert forall|id: u64| #[trigger] m.dirty(id) implies m0.dirty(id) by {
        assert(m2.dirty(id));
    }
    assert forall|id: u64|
        blank(#[trigger] m.disk.at(id)) == blank(m0.disk.at(id)) || m0.holds(id) == Some(
            blank(m.disk.at(id)),
        ) by {
        assert(blank(m2.disk.at(id)) == blank(m0.disk.at(id)) || m0.holds(id) == Some(
            blank(m2.disk.at(id)),
        ));
    }
    assert forall|j: int, id: u64|
        0 <= j < NUM_SHARDS && #[trigger] m.shards@[j].cached(id) implies shard_of(id) == j && id
        < m.next_page_id by {
        assert(m2.shards@[j].cached(id));
        assert(m2.cached(id));
        assert(m0.cached(id));
        assert(m0.shards@[j].cached(id));
    }
    assert forall|j: int| 0 <= j < NUM_SHARDS implies (#[trigger] m.shards@[j]).size() == MAX_FRAMES
        / NUM_SHARDS by {
        assert(m2.shards@[j].size() == MAX_FRAMES / NUM_SHARDS);
    }
    assert forall|j: int| 0 <= j < NUM_SHARDS implies (#[trigger] m.shards@[j]).wf(m.disk) by {
        assert(m2.shards@[j].wf(m2.disk));
    }
    assert forall|id: u64| m0.holds(id) is Some implies #[trigger] m.holds(id) == m0.holds(id) by {
        assert(m2.holds(id) == m0.holds(id));
    }
    assert forall|id: u64| id != page_id && #[trigger] m0.pins(id) > 0 implies m.pins(id)
        == m0.pins(id) && m.frame(id) == m0.frame(id) && m.bytes(id) == m0.bytes(id) && m.dirty(id)
        == m0.dirty(id) by {
        assert(m2.pins(id) == m0.pins(id));
    }
    assert forall|id: u64| id != page_id implies #[trigger] m.pins(id) == m0.pins(id) by {
        assert(m2.pins(id) == m0.pins(id));
    }
}

/// Whether the pool only lacks the page that would be given out again next.
pub open spec fn popped(m0: BufferPoolManager, p: BufferPoolManager) -> bool {
    &&& p.shards == m0.shards
    &&& p.disk == m0.disk
    &&& p.wal == m0.wal
    &&& p.next_page_id == m0.next_page_id
    &&& p.free_page == m0.free_page
    &&& p.free_pool@ == m0.free_pool@.drop_last()
}

/// A free page is claimed and a frame is taken for it, or is not to be had.
pub open spec fn given_again(
    m0: BufferPoolManager,
    p: BufferPoolManager,
    m: BufferPoolManager,
    last: BufferPoolManager,
    id: u64,
    r: Result<usize, BufferPoolError>,
) -> bool {
    popped(m0, p) && m.claimed(&p, id, Ok(())) && last.zeroed(&m, id, r)
}

/// A free page cannot be claimed and stays in the list.
pub open spec fn not_claimed(
    m0: BufferPoolManager,
    p: BufferPoolManager,
    m: BufferPoolManager,
    last: BufferPoolManager,
    id: u64,
    e: BufferPoolError,
) -> bool {
    &&& popped(m0, p)
    &&& m.claimed(&p, id, Err(e))
    &&& last.shards == m.shards
    &&& last.disk == m.disk
    &&& last.wal == m.wal
}

/// The blocks of a record with the full image of one page.
pub open spec fn image_blocks(page_id: u64, image: Seq<u8>) -> Seq<BlockView> {
    seq![BlockView { page_id, blk_flags: BLK_HAS_FPI, fpi: Some(image), data: None }]
}

/// Whether a bitmap page differs from another only in that a page is not free.
pub open spec fn recycled_image(b: Seq<u8>, c: Seq<u8>, pid: u64) -> bool {
    if pid < CAPACITY {
        same_but(b, c, pid) && !is_free(c, pid as int)
    } else {
        c == b
    }
}

/// Only the log differs.
proof fn lemma_wal_only(m0: BufferPoolManager, m: BufferPoolManager)
    requires
        m0.wf(),
        m.shards == m0.shards,
        m.disk == m0.disk,
        m.same_ids(&m0),
    ensures
        m.wf(),
        forall|id: u64| #[trigger] m.holds(id) == m0.holds(id),
        forall|id: u64| #[trigger] m.pins(id) == m0.pins(id),
        forall|id: u64| #[trigger] m.frame(id) == m0.frame(id),
        forall|id: u64| #[trigger] m.bytes(id) == m0.bytes(id),
        forall|id: u64| #[trigger] m.dirty(id) == m0.dirty(id),
        forall|id: u64| #[trigger] m.is_fresh(id) == m0.is_fresh(id),
        forall|id: u64| #[trigger] m.cached(id) == m0.cached(id),
{
    lemma_ids_only(m0, m);
}

/// Only the bookkeeping of ids, and perhaps the log, differs.
proof fn lemma_ids_only(m0: BufferPoolManager, m: BufferPoolManager)
    requires
        m0.wf(),
        m.shards == m0.shards,
        m.disk == m0.disk,
        m.next_page_id >= m0.next_page_id,
    ensures
        m.wf(),
        forall|id: u64| #[trigger] m.holds(id) == m0.holds(id),
        forall|id: u64| #[trigger] m.pins(id) == m0.pins(id),
        forall|id: u64| #[trigger] m.frame(id) == m0.frame(id),
        forall|id: u64| #[trigger] m.bytes(id) == m0.bytes(id),
        forall|id: u64| #[trigger] m.dirty(id) == m0.dirty(id),
        forall|id: u64| #[trigger] m.is_fresh(id) == m0.is_fresh(id),
        forall|id: u64| #[trigger] m.cached(id) == m0.cached(id),
{
    assert forall|j: int, id: u64|
        0 <= j < NUM_SHARDS && #[trigger] m.shards@[j].cached(id) implies shard_of(id) == j && id
        < m.next_page_id by {
        assert(m0.shards@[j].cached(id));
    }
    assert forall|j: int| 0 <= j < NUM_SHARDS implies (#[trigger] m.shards@[j]).size() == MAX_FRAMES
        / NUM_SHARDS by {
        assert(m0.shards@[j].size() == MAX_FRAMES / NUM_SHARDS);
    }
    assert forall|j: int| 0 <= j < NUM_SHARDS implies (#[trigger] m.shards@[j]).wf(m.disk) by {
        assert(m0.shards@[j].wf(m0.disk));
    }
}

/// Nothing is held of a page that was never allocated.
pub proof fn lemma_unallocated(m: BufferPoolManager, id: u64)
    requires
        m.wf(),
        id >= m.next_page_id,
    ensures
        !m.cached(id),
        m.holds(id) is None,
{
    lemma_shard_of(id);
    if m.cached(id) {
        assert(m.shards@[shard_of(id)].cached(id));
    }
}

proof fn lemma_freshened(m0: BufferPoolManager, m: BufferPoolManager, page_id: u64)
    requires
        m0.wf(),
        m0.pins(page_id) > 0,
        !m0.dirty(page_id),
        m.same_ids(&m0),
        m.disk == m0.disk,
        m.wal == m0.wal,
        m.shards@.len() == NUM_SHARDS,
        forall|j: int|
            0 <= j < NUM_SHARDS && j != shard_of(page_id) ==> #[trigger] m.shards@[j]
                == m0.shards@[j],
        m.shard(page_id) == (BufferPoolShard {
            fresh: Ghost(m0.shard(page_id).fresh@.insert(page_id)),
            ..m0.shard(page_id)
        }),
    ensures
        m.wf(),
        m.is_fresh(page_id),
        forall|id: u64|
            id != page_id ==> #[trigger] m.holds(id) == m0.holds(id) && m.is_fresh(id)
                == m0.is_fresh(id),
        forall|id: u64| #[trigger] m.cached(id) == m0.cached(id),
        forall|id: u64| #[trigger] m.pins(id) == m0.pins(id),
        forall|id: u64| #[trigger] m.frame(id) == m0.frame(id),
        forall|id: u64| #[trigger] m.bytes(id) == m0.bytes(id),
        forall|id: u64| #[trigger] m.dirty(id) == m0.dirty(id),
{
    let i = shard_of(page_id);
    lemma_shard_of(page_id);
    lemma_others(m0, m, i);
    let s0 = m0.shards@[i];
    let s = m.shards@[i];
    assert(s0.wf(m0.disk));
    assert(s0.page_table@.contains_key(page_id));
    assert(s.marks_ok());
    assert(s.lists_ok(-1)) by {
        assert forall|g: int| 0 <= g < s.size() implies (#[trigger] s.replacer.can_evict(g) <==> g
            != -1 && s.metadata@[g].page_id != INVALID_FRAME_ID && s.metadata@[g].pin_count == 0) by {
            assert(s0.replacer.can_evict(g) == s.replacer.can_evict(g));
        }
    }
    assert forall|id: u64| #[trigger]
        s.cached(id) && !s.meta(id).is_dirty && s.meta(id).pin_count == 0 && !s.fresh@.contains(
            id,
        ) implies s.in_sync(id, m.disk) by {
        assert(s0.cached(id));
        assert(s0.in_sync(id, m0.disk));
    }
    assert forall|j: int, id: u64|
        0 <= j < NUM_SHARDS && #[trigger] m.shards@[j].cached(id) implies shard_of(id) == j && id
        < m.next_page_id by {
        assert(m0.shards@[j].cached(id));
    }
    assert forall|j: int| 0 <= j < NUM_SHARDS implies (#[trigger] m.shards@[j]).size() == MAX_FRAMES
        / NUM_SHARDS by {
        assert(m0.shards@[j].size() == MAX_FRAMES / NUM_SHARDS);
    }
    assert forall|j: int| 0 <= j < NUM_SHARDS implies (#[trigger] m.shards@[j]).wf(m.disk) by {}
    assert forall|id: u64| id != page_id implies #[trigger] m.holds(id) == m0.holds(id)
        && m.is_fresh(id) == m0.is_fresh(id) by {
        lemma_shard_of(id);
    }
    assert forall|id: u64| #[trigger] m.cached(id) == m0.cached(id) by {
        lemma_shard_of(id);
    }
    assert forall|id: u64| #[trigger] m.pins(id) == m0.pins(id) by {
        lemma_shard_of(id);
    }
    assert forall|id: u64| #[trigger] m.frame(id) == m0.frame(id) by {
        lemma_shard_of(id);
    }
    assert forall|id: u64| #[trigger] m.bytes(id) == m0.bytes(id) by {
        lemma_shard_of(id);
    }
    assert forall|id: u64| #[trigger] m.dirty(id) == m0.dirty(id) by {
        lemma_shard_of(id);
    }
}

/// Only the frame of one page has changed.
proof fn lemma_touched(m0: BufferPoolManager, m: BufferPoolManager, page_id: u64)
    requires
        m0.wf(),
        m0.pins(page_id) > 0,
        m.same_ids(&m0),
        m.disk == m0.disk,
        m.wal == m0.wal,
        m.shards@.len() == NUM_SHARDS,
        forall|j: int|
            0 <= j < NUM_SHARDS && j != shard_of(page_id) ==> #[trigger] m.shards@[j]
                == m0.shards@[j],
        m.shard(page_id).shape(),
        m.shard(page_id).page_table@ == m0.shard(page_id).page_table@,
        m.shard(page_id).size() == m0.shard(page_id).size(),
        m.shard(page_id).last_checkpoint_redo_point == m0.shard(
            page_id,
        ).last_checkpoint_redo_point,
        !m.shard(page_id).meta(page_id).loading,
        forall|f: int|
            0 <= f < m0.shard(page_id).size() && f != m0.frame(page_id) ==> #[trigger] m.shard(
                page_id,
            ).metadata@[f] == m0.shard(page_id).metadata@[f],
        forall|f: int|
            0 <= f < m0.shard(page_id).size() && f != m0.frame(page_id) ==> #[trigger] m.shard(
                page_id,
            ).pages@[f] == m0.shard(page_id).pages@[f],
        m.is_fresh(page_id) ==> m0.is_fresh(page_id),
        m.dirty(page_id) || m.is_fresh(page_id) == m0.is_fresh(page_id),
        !m.dirty(page_id) ==> !m0.dirty(page_id),
        forall|id: u64|
            id != page_id ==> (#[trigger] m.shard(page_id).fresh@.contains(id) == m0.shard(
                page_id,
            ).fresh@.contains(id)),
        m.pins(page_id) > 0 || (m.dirty(page_id) || m.is_fresh(page_id) || m.shard(
            page_id,
        ).in_sync(page_id, m.disk)),
    ensures
        m.touched(&m0, page_id),
{
    let i = shard_of(page_id);
    lemma_shard_of(page_id);
    lemma_others(m0, m, i);
    let s0 = m0.shards@[i];
    let s = m.shards@[i];
    assert(s0.wf(m0.disk));
    assert(s0.page_table@.contains_key(page_id));
    assert forall|id: u64| s0.cached(id) && id != page_id implies s0.frame(id) != s0.frame(page_id)
        && #[trigger] s.meta(id) == s0.meta(id) && s.bytes(id) == s0.bytes(id) by {
        assert(s0.page_table@.contains_key(id));
        assert(s.pages@[s0.frame(id)] == s0.pages@[s0.frame(id)]);
        assert(s.metadata@[s0.frame(id)] == s0.metadata@[s0.frame(id)]);
    }
    assert(s.idle()) by {
        assert forall|f: int| 0 <= f < s.size() implies !(#[trigger] s.metadata@[f]).loading by {
            if f != s0.frame(page_id) {
                assert(s.metadata@[f] == s0.metadata@[f]);
            }
        }
    }
    assert forall|id: u64| #[trigger]
        s.cached(id) && !s.meta(id).is_dirty && s.meta(id).pin_count == 0 && !s.fresh@.contains(
            id,
        ) implies s.in_sync(id, m.disk) by {
        if id != page_id {
            assert(s0.cached(id));
            assert(s.meta(id) == s0.meta(id));
            assert(s0.in_sync(id, m0.disk));
        }
    }
    assert forall|j: int, id: u64|
        0 <= j < NUM_SHARDS && #[trigger] m.shards@[j].cached(id) implies shard_of(id) == j && id
        < m.next_page_id by {
        assert(m0.shards@[j].cached(id));
    }
    assert forall|j: int| 0 <= j < NUM_SHARDS implies (#[trigger] m.shards@[j]).size() == MAX_FRAMES
        / NUM_SHARDS by {
        assert(m0.shards@[j].size() == MAX_FRAMES / NUM_SHARDS);
    }
    assert forall|j: int| 0 <= j < NUM_SHARDS implies (#[trigger] m.shards@[j]).wf(m.disk) by {}
    assert forall|id: u64| id != page_id implies {
        &&& #[trigger] m.holds(id) == m0.holds(id)
        &&& m.cached(id) == m0.cached(id)
        &&& m.pins(id) == m0.pins(id)
        &&& m0.cached(id) ==> m.frame(id) == m0.frame(id) && m.bytes(id) == m0.bytes(id)
        &&& m.dirty(id) == m0.dirty(id)
        &&& m.is_fresh(id) == m0.is_fresh(id)
    } by {
        lemma_shard_of(id);
        if shard_of(id) == i {
            if s0.cached(id) {
                assert(s.meta(id) == s0.meta(id));
            }
            assert(s.fresh@.contains(id) == s0.fresh@.contains(id));
        } else {
            assert(m.shards@[shard_of(id)] == m0.shards@[shard_of(id)]);
        }
    }
}

/// Another shard's work leaves a shard in order, and what is held of its pages.
proof fn lemma_others(m0: BufferPoolManager, m: BufferPoolManager, i: int)
    requires
        m0.wf(),
        0 <= i < NUM_SHARDS,
        m.shards@.len() == NUM_SHARDS,
        forall|j: int| 0 <= j < NUM_SHARDS && j != i ==> #[trigger] m.shards@[j] == m0.shards@[j],
        m0.disk.num_pages <= m.disk.num_pages,
        forall|id: u64|
            !m0.shards@[i].cached(id) && shard_of(id) != i ==> #[trigger] m.disk.at(id)
                == m0.disk.at(id),
    ensures
        forall|j: int| 0 <= j < NUM_SHARDS && j != i ==> (#[trigger] m.shards@[j]).wf(m.disk),
        forall|id: u64|
            shard_of(id) != i && m0.holds(id) is Some ==> #[trigger] m.holds(id) == m0.holds(id),
{
    assert forall|j: int| 0 <= j < NUM_SHARDS && j != i implies (#[trigger] m.shards@[j]).wf(
        m.disk,
    ) by {
        let s = m0.shards@[j];
        assert(s.wf(m0.disk));
        assert forall|id: u64| #[trigger]
            s.cached(id) && !s.meta(id).is_dirty && s.meta(id).pin_count == 0 && !s.fresh@.contains(
                id,
            ) implies s.in_sync(id, m.disk) by {
            assert(shard_of(id) == j);
            if m0.shards@[i].cached(id) {
                assert(shard_of(id) == i);
            }
            assert(s.in_sync(id, m0.disk));
            assert(m.disk.at(id) == m0.disk.at(id));
        }
    }
    assert forall|id: u64| shard_of(id) != i && m0.holds(id) is Some implies #[trigger] m.holds(id)
        == m0.holds(id) by {
        lemma_shard_of(id);
        if m0.shards@[i].cached(id) {
            assert(shard_of(id) == i);
        }
        assert(m.shards@[shard_of(id)] == m0.shards@[shard_of(id)]);
        assert(m.disk.at(id) == m0.disk.at(id));
    }
}

pub proof fn lemma_shard_of(id: u64)
    ensures
        0 <= shard_of(id) < NUM_SHARDS,
{
    assert(id & SHARD_MASK < 8) by (bit_vector);
}

/// What one shard wrote.
proof fn lemma_rewritten(m0: BufferPoolManager, m: BufferPoolManager, i: int)
    requires
        m0.wf(),
        0 <= i < NUM_SHARDS,
        written_from(m0.shards@[i], m0.disk, m.disk),
        flush_from(m0.shards@[i], m0.disk, m0.wal, m.wal),
        forall|id: u64|
            !m0.shards@[i].cached(id) ==> #[trigger] m.disk.at(id) == m0.disk.at(id),
    ensures
        rewritten(m0, m),
        flush_asked(m0, m),
{
    if m.wal.flushed_lsn != m0.wal.flushed_lsn {
        let s0 = m0.shards@[i];
        let id = choose|id: u64|
            #![trigger s0.holds(id, m0.disk)]
            s0.cached(id) && s0.meta(id).is_dirty && m.wal.flushed_lsn == Some(
                lsn_of(s0.holds(id, m0.disk)->0),
            );
        assert(m0.shards@[i].cached(id));
        assert(m0.dirty(id));
    }
    assert forall|id: u64|
        blank(#[trigger] m.disk.at(id)) == blank(m0.disk.at(id)) || m0.holds(id) == Some(
            blank(m.disk.at(id)),
        ) by {
        lemma_shard_of(id);
        if m0.shards@[i].cached(id) {
            assert(shard_of(id) == i);
        }
    }
}

/// A flush in one shard.
proof fn lemma_flush_step(m0: BufferPoolManager, m: BufferPoolManager, i: int)
    requires
        m0.wf(),
        0 <= i < NUM_SHARDS,
        m.same_ids(&m0),
        m.shards@.len() == NUM_SHARDS,
        forall|j: int| 0 <= j < NUM_SHARDS && j != i ==> #[trigger] m.shards@[j] == m0.shards@[j],
        flushed(m0.shards@[i], m0.disk, m0.wal, m.shards@[i], m.disk, m.wal),
    ensures
        m.wf(),
        kept(m0, m),
        file_kept(m0, m),
        forall|id: u64| #[trigger] m.cached(id) == m0.cached(id),
        forall|id: u64| #[trigger] m.bytes(id) == m0.bytes(id),
        forall|id: u64| #[trigger] m.pins(id) == m0.pins(id),
        forall|id: u64| #[trigger] m.frame(id) == m0.frame(id),
        m.shards@[i].metadata@ == m0.shards@[i].metadata@ ==> forall|id: u64| pins_kept(
            m0,
            m,
            id,
        ),
{
    lemma_others(m0, m, i);
    if m.disk.num_pages != m0.disk.num_pages {
        assert(m0.shards@[i].cached((m.disk.num_pages - 1) as u64));
    }
    assert forall|id: u64| !m0.cached(id) implies #[trigger] m.disk.at(id) == m0.disk.at(id) by {
        if m0.shards@[i].cached(id) {
            assert(shard_of(id) == i);
        }
    }
    lemma_rewritten(m0, m, i);
    if m.shards@[i].metadata@ == m0.shards@[i].metadata@ {
        assert forall|id: u64| #[trigger] m.dirty(id) == m0.dirty(id) by {
            lemma_shard_of(id);
        }
        assert forall|id: u64| #[trigger] m.pins(id) == m0.pins(id) by {
            lemma_shard_of(id);
        }
        assert forall|id: u64| #[trigger] m0.pins(id) > 0 implies m.pins(id) == m0.pins(id)
            && m.frame(id) == m0.frame(id) && m.bytes(id) == m0.bytes(id) && m.dirty(id)
            == m0.dirty(id) by {
            lemma_shard_of(id);
            assert(m.pins(id) == m0.pins(id));
            assert(m.dirty(id) == m0.dirty(id));
        }
        assert forall|id: u64| pins_kept(m0, m, id) by {}
    }
    assert(m.shards@[i].wf(m.disk));
    assert forall|j: int, id: u64|
        0 <= j < NUM_SHARDS && #[trigger] m.shards@[j].cached(id) implies shard_of(id) == j && id
        < m.next_page_id by {
        assert(m0.shards@[j].cached(id));
    }
    assert forall|j: int| 0 <= j < NUM_SHARDS implies (#[trigger] m.shards@[j]).size() == MAX_FRAMES
        / NUM_SHARDS by {
        assert(m0.shards@[j].size() == MAX_FRAMES / NUM_SHARDS);
    }
    assert forall|j: int| 0 <= j < NUM_SHARDS implies (#[trigger] m.shards@[j]).wf(m.disk) by {}
    assert forall|id: u64| m0.holds(id) is Some implies #[trigger] m.holds(id) == m0.holds(id) by {
        lemma_shard_of(id);
        if shard_of(id) == i {
            assert(m.shards@[i].holds(id, m.disk) == m0.shards@[i].holds(id, m0.disk));
        }
    }
    assert forall|id: u64| #[trigger] m.cached(id) == m0.cached(id) by {
        lemma_shard_of(id);
    }
    assert forall|id: u64| #[trigger] m.bytes(id) == m0.bytes(id) by {
        lemma_shard_of(id);
    }
    assert forall|id: u64| #[trigger] m.frame(id) == m0.frame(id) by {
        lemma_shard_of(id);
    }
    assert forall|id: u64| #[trigger] m.dirty(id) implies m0.dirty(id) by {
        lemma_shard_of(id);
        if shard_of(id) == i {
            let s0 = m0.shards@[i];
            assert(s0.page_table@.contains_key(id));
            assert(m.shards@[i].metadata@[s0.frame(id)] == s0.metadata@[s0.frame(id)]
                || m.shards@[i].metadata@[s0.frame(id)] == s0.metadata@[s0.frame(id)].clean());
        }
    }
    assert forall|id: u64| #[trigger] m.pins(id) == m0.pins(id) by {
        lemma_shard_of(id);
        if shard_of(id) == i && m0.cached(id) {
            let s0 = m0.shards@[i];
            assert(s0.page_table@.contains_key(id));
            assert(m.shards@[i].metadata@[s0.frame(id)].pin_count == s0.metadata@[s0.frame(
                id,
            )].pin_count);
        }
    }
}

/// A page that was cached gets one more user.
proof fn lemma_hit(m0: BufferPoolManager, m: BufferPoolManager, page_id: u64)
    requires
        m0.wf(),
        m0.cached(page_id),
        m0.pins(page_id) < u64::MAX,
        m.same_ids(&m0),
        m.shards@.len() == NUM_SHARDS,
        forall|j: int|
            0 <= j < NUM_SHARDS && j != shard_of(page_id) ==> #[trigger] m.shards@[j]
                == m0.shards@[j],
        m.disk == m0.disk,
        m.wal == m0.wal,
        m.shard(page_id).wf(m.disk),
        pinned_again(m0.shard(page_id), m.shard(page_id), page_id),
    ensures
        m.fetched(&m0, page_id, Ok(m0.frame(page_id) as usize)),
{
    let i = shard_of(page_id);
    lemma_shard_of(page_id);
    lemma_others(m0, m, i);
    let s0 = m0.shards@[i];
    let s = m.shards@[i];
    assert(s0.wf(m0.disk));
    assert(s0.page_table@.contains_key(page_id));
    assert forall|id: u64| s0.cached(id) && id != page_id implies s0.frame(id) != s0.frame(page_id)
        && #[trigger] s.meta(id) == s0.meta(id) by {
        assert(s0.page_table@.contains_key(id));
    }
    assert forall|j: int, id: u64|
        0 <= j < NUM_SHARDS && #[trigger] m.shards@[j].cached(id) implies shard_of(id) == j && id
        < m.next_page_id by {
        assert(m0.shards@[j].cached(id));
    }
    assert forall|j: int| 0 <= j < NUM_SHARDS implies (#[trigger] m.shards@[j]).size() == MAX_FRAMES
        / NUM_SHARDS by {
        assert(m0.shards@[j].size() == MAX_FRAMES / NUM_SHARDS);
    }
    assert forall|j: int| 0 <= j < NUM_SHARDS implies (#[trigger] m.shards@[j]).wf(m.disk) by {}
    assert forall|id: u64| m0.holds(id) is Some implies #[trigger] m.holds(id) == m0.holds(id) by {
        lemma_shard_of(id);
        if shard_of(id) == i && s0.cached(id) && id != page_id {
            assert(s.meta(id) == s0.meta(id));
        }
    }
    assert forall|id: u64| id != page_id && #[trigger] m0.pins(id) > 0 implies m.pins(id)
        == m0.pins(id) && m.frame(id) == m0.frame(id) && m.bytes(id) == m0.bytes(id) && m.dirty(id)
        == m0.dirty(id) by {
        lemma_shard_of(id);
        if shard_of(id) == i {
            assert(s.meta(id) == s0.meta(id));
        }
    }
    assert forall|id: u64| id != page_id implies #[trigger] m.pins(id) == m0.pins(id) by {
        lemma_shard_of(id);
        if shard_of(id) == i && s0.cached(id) {
            assert(s.meta(id) == s0.meta(id));
        }
    }
    assert forall|id: u64| #[trigger] m.dirty(id) implies m0.dirty(id) by {
        lemma_shard_of(id);
        if shard_of(id) == i && id != page_id {
            assert(s0.cached(id));
            assert(s.meta(id) == s0.meta(id));
        }
    }
    assert(s.meta(page_id).pin_count == s0.meta(page_id).pin_count + 1);
    if m0.pins(page_id) == 0 && !m0.dirty(page_id) && !m0.is_fresh(page_id) {
        assert(s0.in_sync(page_id, m0.disk));
    }
}

/// A page that was not cached gets a frame, and its bytes if they can be read.
proof fn lemma_loaded(
    m0: BufferPoolManager,
    m1: BufferPoolManager,
    m: BufferPoolManager,
    page_id: u64,
    frame_id: usize,
    ok: bool,
)
    requires
        m0.wf(),
        page_id < m0.next_page_id,
        !m0.cached(page_id),
        m1.same_ids(&m0),
        m.same_ids(&m1),
        m1.shards@.len() == NUM_SHARDS,
        forall|j: int|
            0 <= j < NUM_SHARDS && j != shard_of(page_id) ==> #[trigger] m1.shards@[j]
                == m0.shards@[j],
        taken(m0.shard(page_id), m0.disk, m1.shard(page_id), m1.disk, page_id),
        flush_from(m0.shard(page_id), m0.disk, m0.wal, m1.wal),
        m1.frame(page_id) == frame_id,
        io_ok(m0.disk, m0.wal, m1.disk, m1.wal),
        m.disk == m1.disk,
        m.wal == m1.wal,
        m.loaded_or_not(&m1, page_id, frame_id, ok),
        ok ==> load_error(m.disk, page_id) is None && m.bytes(page_id) == m.disk.at(page_id),
        m0.has_frame(page_id),
    ensures
        m.wf(),
        kept(m0, m),
        pins_kept(m0, m, page_id),
        ok ==> m.fetched(&m0, page_id, Ok(frame_id)),
        !ok ==> !m.cached(page_id),
        forall|id: u64| id != page_id && #[trigger] m.cached(id) ==> m0.cached(id),
        file_kept(m0, m),
{
    lemma_loaded_base(m0, m1, m, page_id, frame_id, ok);
}

/// A page that was not cached gets a frame.
#[verifier::rlimit(40)]
proof fn lemma_loaded_base(
    m0: BufferPoolManager,
    m1: BufferPoolManager,
    m: BufferPoolManager,
    page_id: u64,
    frame_id: usize,
    ok: bool,
)
    requires
        m0.wf(),
        page_id < m0.next_page_id,
        !m0.cached(page_id),
        m1.same_ids(&m0),
        m.same_ids(&m1),
        m1.shards@.len() == NUM_SHARDS,
        forall|j: int|
            0 <= j < NUM_SHARDS && j != shard_of(page_id) ==> #[trigger] m1.shards@[j]
                == m0.shards@[j],
        taken(m0.shard(page_id), m0.disk, m1.shard(page_id), m1.disk, page_id),
        flush_from(m0.shard(page_id), m0.disk, m0.wal, m1.wal),
        m1.frame(page_id) == frame_id,
        io_ok(m0.disk, m0.wal, m1.disk, m1.wal),
        m.disk == m1.disk,
        m.wal == m1.wal,
        m.loaded_or_not(&m1, page_id, frame_id, ok),
    ensures
        m.wf(),
        kept(m0, m),
        pins_kept(m0, m, page_id),
        !m0.is_fresh(page_id),
        !m.is_fresh(page_id),
        forall|id: u64| id != page_id && #[trigger] m.cached(id) ==> m0.cached(id),
        file_kept(m0, m),
        m.cached(page_id) == ok,
        ok ==> m.frame(page_id) == frame_id && m.pins(page_id) == 1 && !m.dirty(page_id),
{
    let i = shard_of(page_id);
    lemma_shard_of(page_id);
    let s0 = m0.shards@[i];
    let s1 = m1.shards@[i];
    let s = m.shards@[i];
    lemma_others(m0, m, i);
    if m.disk.num_pages != m0.disk.num_pages {
        assert(m0.shards@[i].cached((m.disk.num_pages - 1) as u64));
    }
    assert(s0.wf(m0.disk));
    assert(s1.page_table@.contains_key(page_id));
    assert forall|id: u64| id != page_id implies #[trigger] s.cached(id) == s1.cached(id) by {}
    assert forall|id: u64| id != page_id && s1.cached(id) implies #[trigger] s.meta(id) == s1.meta(
        id,
    ) && s.frame(id) == s1.frame(id) && s.bytes(id) == s1.bytes(id) by {
        assert(s1.page_table@.contains_key(id));
        assert(s1.frame(id) != frame_id);
        assert(s.pages@[s1.frame(id)] == s1.pages@[s1.frame(id)]);
    }
    assert(s.idle()) by {
        assert forall|f: int| 0 <= f < s.size() implies !(#[trigger] s.metadata@[f]).loading by {
            if f != frame_id {
                assert(s.metadata@[f] == s1.metadata@[f]);
            }
        }
    }
    assert forall|id: u64| #[trigger]
        s.cached(id) && !s.meta(id).is_dirty && s.meta(id).pin_count == 0 && !s.fresh@.contains(
            id,
        ) implies s.in_sync(id, m.disk) by {
        assert(id != page_id);
        assert(s1.cached(id));
        assert(s.meta(id) == s1.meta(id));
        assert(s1.in_sync(id, m1.disk));
    }
    assert forall|j: int, id: u64|
        0 <= j < NUM_SHARDS && #[trigger] m.shards@[j].cached(id) implies shard_of(id) == j && id
        < m.next_page_id by {
        if j == i {
            if id != page_id {
                assert(s1.cached(id));
                assert(m0.shards@[j].cached(id));
            }
        } else {
            assert(m0.shards@[j].cached(id));
        }
    }
    assert forall|j: int| 0 <= j < NUM_SHARDS implies (#[trigger] m.shards@[j]).size() == MAX_FRAMES
        / NUM_SHARDS by {
        assert(m0.shards@[j].size() == MAX_FRAMES / NUM_SHARDS);
    }
    assert forall|j: int| 0 <= j < NUM_SHARDS implies (#[trigger] m.shards@[j]).wf(m.disk) by {}
    assert(s.holds(page_id, m.disk) == s1.holds(page_id, m1.disk));
    assert forall|id: u64| m0.holds(id) is Some implies #[trigger] m.holds(id) == m0.holds(id) by {
        lemma_shard_of(id);
        if shard_of(id) == i {
            if id != page_id {
                assert(s1.holds(id, m1.disk) == s0.holds(id, m0.disk));
                if s1.cached(id) {
                    assert(s.meta(id) == s1.meta(id));
                } else {
                    assert(!s.cached(id));
                }
            } else {
                assert(m1.disk.at(id) == m0.disk.at(id));
            }
        }
    }
    assert forall|id: u64| id != page_id && #[trigger] m0.pins(id) > 0 implies m.pins(id)
        == m0.pins(id) && m.frame(id) == m0.frame(id) && m.bytes(id) == m0.bytes(id) && m.dirty(id)
        == m0.dirty(id) by {
        lemma_shard_of(id);
        if shard_of(id) == i {
            assert(s0.cached(id));
            assert(s1.cached(id));
            assert(s.meta(id) == s1.meta(id));
        } else {
            assert(m.shards@[shard_of(id)] == m0.shards@[shard_of(id)]);
        }
    }
    assert forall|id: u64| id != page_id implies #[trigger] m.pins(id) == m0.pins(id) by {
        lemma_shard_of(id);
        if shard_of(id) == i {
            if s0.cached(id) && s0.meta(id).pin_count > 0 {
                assert(s1.cached(id));
            }
            if s.cached(id) {
                assert(s1.cached(id));
                assert(s.meta(id) == s1.meta(id));
            }
        } else {
            assert(m.shards@[shard_of(id)] == m0.shards@[shard_of(id)]);
        }
    }
    assert forall|id: u64| id != page_id && #[trigger] m.cached(id) implies m0.cached(id) by {
        lemma_shard_of(id);
        if shard_of(id) == i {
            assert(s.cached(id));
            assert(s1.cached(id));
        } else {
            assert(m.shards@[shard_of(id)] == m0.shards@[shard_of(id)]);
        }
    }
    if m.disk.num_pages != m0.disk.num_pages {
        let x = (m.disk.num_pages - 1) as u64;
        assert(m0.shards@[i].cached(x));
        assert(shard_of(x) == i);
    }
    assert forall|id: u64| !m0.cached(id) implies #[trigger] m.disk.at(id) == m0.disk.at(id) by {
        if m0.shards@[i].cached(id) {
            assert(shard_of(id) == i);
        }
    }
    lemma_rewritten(m0, m, i);
    assert forall|id: u64| #[trigger] m.dirty(id) implies m0.dirty(id) by {
        lemma_shard_of(id);
        if shard_of(id) == i {
            assert(s.cached(id));
            assert(id != page_id);
            assert(s1.cached(id));
            assert(s.meta(id) == s1.meta(id));
        } else {
            assert(m.shards@[shard_of(id)] == m0.shards@[shard_of(id)]);
        }
    }
    if m0.is_fresh(page_id) {
        assert(s0.fresh@.contains(page_id));
        assert(s0.page_table@.contains_key(page_id));
    }
}

/// Why a page cannot be read from the file.
pub open spec fn load_error(d: DiskManager, page_id: u64) -> Option<BufferPoolError> {
    if page_id >= d.num_pages {
        Some(BufferPoolError::Disk(DiskError::OutOfBounds(page_id)))
    } else if !verifies(d.at(page_id)) {
        Some(
            BufferPoolError::PageCorruption {
                page_id,
                expected: u32_at(d.at(page_id), checksum_at(d.at(page_id))->0),
                actual: crc32(blank(d.at(page_id))),
            },
        )
    } else {
        None
    }
}

/// New bytes in a frame leave the shard's structures as they are.
proof fn lemma_bytes_set(s0: BufferPoolShard, s: BufferPoolShard, f: int)
    requires
        s0.shape(),
        0 <= f < s0.size(),
        s.pages@.len() == s0.pages@.len(),
        s.pages@[f].0@.len() == PAGE_SIZE,
        forall|g: int| 0 <= g < s0.size() && g != f ==> #[trigger] s.pages@[g] == s0.pages@[g],
        s.metadata == s0.metadata,
        s.page_table == s0.page_table,
        s.free_list == s0.free_list,
        s.replacer == s0.replacer,
        s.min_rec_lsn == s0.min_rec_lsn,
        s.fresh == s0.fresh || (s.marks_ok()),
    ensures
        s.shape(),
{
    assert forall|g: int| 0 <= g < s.pages@.len() implies (#[trigger] s.pages@[g]).0@.len()
        == PAGE_SIZE by {
        if g != f {
            assert(s.pages@[g] == s0.pages@[g]);
        }
    }
    assert(s.lists_ok(-1)) by {
        assert forall|g: int| 0 <= g < s.size() implies (#[trigger] s.replacer.can_evict(g) <==> g
            != -1 && s.metadata@[g].page_id != INVALID_FRAME_ID && s.metadata@[g].pin_count == 0) by {
            assert(s0.replacer.can_evict(g) == s.replacer.can_evict(g));
        }
    }
}

/// Pages are dealt out to the eight shards in turn.
pub proof fn law_shards_take_turns(id: u64)
    ensures
        shard_of(id) == id % 8,
{
    assert(id & 7 == id % 8) by (bit_vector);
}

/// Fetching a page succeeds exactly if the page is cached, or if one of the frames of its
/// shard has no user and the file has the page with its checksum. The error tells what is
/// missing.
pub proof fn law_fetches_fail_for_a_reason(
    m0: BufferPoolManager,
    m: BufferPoolManager,
    page_id: u64,
    r: Result<usize, BufferPoolError>,
)
    requires
        m.fetched(&m0, page_id, r),
    ensures
        ({
            let s = m0.shards@[shard_of(page_id)];
            let spare = exists|f: int|
                0 <= f < s.metadata@.len() && (#[trigger] s.metadata@[f]).pin_count == 0;
            &&& r is Ok <==> m0.cached(page_id) || (spare && page_id < m.disk.num_pages && verifies(
                m.disk.at(page_id),
            ))
            &&& r matches Err(e) ==> if !spare {
                e == BufferPoolError::NoEvictableFrames
            } else if page_id >= m.disk.num_pages {
                e == BufferPoolError::Disk(DiskError::OutOfBounds(page_id))
            } else {
                e matches BufferPoolError::PageCorruption { page_id: x, .. } && x == page_id
            }
        }),
        r is Ok ==> m.pins(page_id) == m0.pins(page_id) + 1,
        r is Ok && m0.cached(page_id) ==> m.bytes(page_id) == m0.bytes(page_id),
        r is Ok && !m0.cached(page_id) ==> m.bytes(page_id) == m.disk.at(page_id),
{
}

/// A page that is given out again is claimed first: it is no longer marked free, which the
/// log says before anything else, and every other mark is as it was. It is a page of zeros.
pub proof fn law_pages_given_again_are_claimed(
    m0: BufferPoolManager,
    p: BufferPoolManager,
    m: BufferPoolManager,
    last: BufferPoolManager,
    id: u64,
    f: usize,
    q: int,
) -> (r: (Seq<u8>, Seq<u8>))
    requires
        given_again(m0, p, m, last, id, Ok(f)),
    ensures
        last.bytes(id) == zeros(PAGE_SIZE as nat),
        m.wal.next_lsn == m0.wal.next_lsn + 1,
        id < 32512 ==> !is_free(r.1, id as int),
        id < 32512 && 0 <= q < 32512 && q != id ==> is_free(r.1, q) == is_free(r.0, q),
        id >= 32512 ==> r.1 == r.0,
        m0.cached(m0.free_page) ==> r.0 == m0.bytes(m0.free_page),
        m.holds(m0.free_page) == Some(blank(restamped(r.1, m0.wal.next_lsn))),
        log_of(m.disk.out@) + m.wal.pending@ == log_of(m0.disk.out@) + m0.wal.pending@
            + record_bytes(
            appended(
                m0.wal.next_lsn,
                WalRecordType::PageCompact,
                0,
                image_blocks(m0.free_page, r.1),
                None,
            ),
        ),
{
    let fs = p.free_page;
    let lsn = p.wal.next_lsn;
    let (b, c) = choose|b: Seq<u8>, c: Seq<u8>|
        {
            &&& #[trigger] recycled_image(b, c, id)
            &&& b == (if p.cached(fs) {
                p.bytes(fs)
            } else {
                m.disk.at(fs)
            })
            &&& m.holds(fs) == Some(blank(restamped(c, lsn)))
            &&& log_of(m.disk.out@) + m.wal.pending@ == log_of(p.disk.out@) + p.wal.pending@
                + record_bytes(
                appended(lsn, WalRecordType::PageCompact, 0, image_blocks(fs, c), None),
            )
        };
    (b, c)
}

/// Ensuring a page gives what the pool has of it, or else what the file has of it, or else a
/// page of zeros; and its id is not given out again.
pub proof fn law_ensured_pages_are_there(
    m0: BufferPoolManager,
    m: BufferPoolManager,
    page_id: u64,
    g: PageWriteGuard,
)
    requires
        m.ensured(&m0, page_id, Ok(g)),
    ensures
        m.next_page_id > page_id,
        m.next_page_id >= m0.next_page_id,
        m0.cached(page_id) ==> m.bytes(page_id) == m0.bytes(page_id),
        !m0.cached(page_id) && page_id < m.disk.num_pages ==> m.bytes(page_id) == m.disk.at(page_id)
            && verifies(m.disk.at(page_id)),
        !m0.cached(page_id) && page_id >= m.disk.num_pages ==> m.bytes(page_id) == zeros(
            PAGE_SIZE as nat,
        ),
{
}

} // verus!
