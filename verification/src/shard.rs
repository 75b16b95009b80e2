//! A shard of the buffer pool: a fixed set of frames that cache pages.

use vstd::prelude::*;

use crate::bytes::{pad_to, zeros};
use crate::constants::{INVALID_FRAME_ID, MAX_PAGE_SIZE, PAGE_SIZE};
use crate::disk::{lemma_log_of, log_of, DiskManager, IoView};
use crate::error::BufferPoolError;
use crate::node::copy_bytes;
use crate::page::{
    blank, law_stamp_verifies, lemma_blank, lsn_of, page_lsn, stamp_checksum, stamped, verifies,
};
use crate::page_table::{table_get, table_insert, table_new, table_remove, PageTable, MAX_RESERVED};
use crate::replacer::{law_the_hand_goes_up_and_round, ClockReplacer};
use crate::wal::Wal;

verus! {

/// The bytes of one page.
pub struct PageData(pub Vec<u8>);

impl PageData {
    /// A page of zeros.
    pub fn new() -> (p: PageData)
        ensures
            p.0@ == zeros(MAX_PAGE_SIZE as nat),
    {
        let mut v: Vec<u8> = Vec::new();
        pad_to(&mut v, MAX_PAGE_SIZE);
        assert(v@ =~= zeros(MAX_PAGE_SIZE as nat));
        PageData(v)
    }
}

impl Default for PageData {
    fn default() -> (p: PageData)
        ensures
            p.0@ == zeros(MAX_PAGE_SIZE as nat),
    {
        PageData::new()
    }
}

/// What the pool knows of a frame.
#[derive(Debug, Clone, Copy)]
pub struct FrameMetadata {
    /// The page in the frame, or [`INVALID_FRAME_ID`].
    pub page_id: u64,
    pub pin_count: u64,
    /// Whether the page has changed since it was read or written.
    pub is_dirty: bool,
    /// Whether the bytes of the page are not there yet.
    pub loading: bool,
    /// The first record that changed the page since it was clean.
    pub rec_lsn: Option<u64>,
}

impl FrameMetadata {
    /// A frame that caches nothing.
    pub open spec fn empty() -> FrameMetadata {
        FrameMetadata {
            page_id: INVALID_FRAME_ID,
            pin_count: 0,
            is_dirty: false,
            loading: false,
            rec_lsn: None,
        }
    }

    /// The frame once its page has been written.
    pub open spec fn clean(self) -> FrameMetadata {
        FrameMetadata { is_dirty: false, rec_lsn: None, ..self }
    }
}

/// Whether a frame counts for the redo point.
pub open spec fn has_rec_lsn(m: FrameMetadata) -> bool {
    m.is_dirty && m.rec_lsn is Some
}

/// Whether `m` is the least record number among the dirty frames.
pub open spec fn is_least(m: Option<u64>, ms: Seq<FrameMetadata>) -> bool {
    match m {
        None => forall|f: int| 0 <= f < ms.len() ==> !has_rec_lsn(#[trigger] ms[f]),
        Some(x) => {
            &&& exists|f: int|
                0 <= f < ms.len() && has_rec_lsn(#[trigger] ms[f]) && ms[f].rec_lsn == Some(x)
            &&& forall|f: int|
                0 <= f < ms.len() && has_rec_lsn(#[trigger] ms[f]) ==> x <= ms[f].rec_lsn->0
        },
    }
}

/// The number of dirty frames.
spec fn dirty_count(ms: Seq<FrameMetadata>) -> nat
    decreases ms.len(),
{
    if ms.len() == 0 {
        0
    } else {
        dirty_count(ms.drop_last()) + if ms.last().is_dirty {
            1nat
        } else {
            0
        }
    }
}

proof fn lemma_dirty_count(ms: Seq<FrameMetadata>, f: int, m: FrameMetadata)
    requires
        0 <= f < ms.len(),
        ms[f].is_dirty,
        !m.is_dirty,
    ensures
        dirty_count(ms.update(f, m)) == dirty_count(ms) - 1,
    decreases ms.len(),
{
    let us = ms.update(f, m);
    if f == ms.len() - 1 {
        assert(us.drop_last() =~= ms.drop_last());
    } else {
        assert(us.drop_last() =~= ms.drop_last().update(f, m));
        lemma_dirty_count(ms.drop_last(), f, m);
    }
}

/// The least record number among the dirty frames.
fn least_rec_lsn(ms: &Vec<FrameMetadata>) -> (r: Option<u64>)
    ensures
        is_least(r, ms@),
{
    let mut least: Option<u64> = None;
    let mut i: usize = 0;
    assert(ms@.subrange(0, 0) =~= Seq::<FrameMetadata>::empty());
    while i < ms.len()
        invariant
            i <= ms@.len(),
            is_least(least, ms@.subrange(0, i as int)),
        decreases ms.len() - i,
    {
        let ghost a = ms@.subrange(0, i as int);
        let ghost b = ms@.subrange(0, i + 1);
        assert(b =~= a.push(ms@[i as int]));
        let m: FrameMetadata = ms[i];
        let ghost before = least;
        if m.is_dirty {
            if let Some(x) = m.rec_lsn {
                match least {
                    None => {
                        least = Some(x);
                    },
                    Some(y) => {
                        if x < y {
                            least = Some(x);
                        }
                    },
                }
            }
        }
        proof {
            assert(b[i as int] == m);
            assert forall|f: int| 0 <= f < a.len() implies a[f] == #[trigger] b[f] by {}
            if let Some(x) = least {
                if before == Some(x) {
                    let w = choose|f: int|
                        0 <= f < a.len() && has_rec_lsn(#[trigger] a[f]) && a[f].rec_lsn == Some(x);
                    assert(b[w] == a[w]);
                } else {
                    assert(has_rec_lsn(b[i as int]) && b[i as int].rec_lsn == Some(x));
                }
                assert forall|f: int| 0 <= f < b.len() && has_rec_lsn(#[trigger] b[f]) implies x
                    <= b[f].rec_lsn->0 by {
                    if f < a.len() {
                        assert(a[f] == b[f]);
                    }
                }
            } else {
                assert forall|f: int| 0 <= f < b.len() implies !has_rec_lsn(#[trigger] b[f]) by {
                    if f < a.len() {
                        assert(a[f] == b[f]);
                    }
                }
            }
            assert(is_least(least, b));
        }
        i = i + 1;
    }
    assert(ms@.subrange(0, ms@.len() as int) =~= ms@);
    least
}

/// Every page has its frame and every frame its page.
pub open spec fn tables_agree(
    pages: Seq<PageData>,
    ms: Seq<FrameMetadata>,
    table: Map<u64, usize>,
) -> bool {
    &&& pages.len() == ms.len()
    &&& forall|f: int| 0 <= f < pages.len() ==> (#[trigger] pages[f]).0@.len() == PAGE_SIZE
    &&& forall|id: u64| #[trigger]
        table.contains_key(id) ==> id != INVALID_FRAME_ID && table[id] < ms.len()
            && ms[table[id] as int].page_id == id
    &&& forall|f: int|
        0 <= f < ms.len() && (#[trigger] ms[f]).page_id != INVALID_FRAME_ID ==> table.contains_key(
            ms[f].page_id,
        ) && table[ms[f].page_id] == f
}

/// Frames without a page are empty, clean frames have no record number, the least
/// number is right, and fresh pages are clean.
pub open spec fn marks_agree(
    ms: Seq<FrameMetadata>,
    table: Map<u64, usize>,
    min: Option<u64>,
    fresh: Set<u64>,
) -> bool {
    &&& forall|f: int|
        0 <= f < ms.len() && (#[trigger] ms[f]).page_id == INVALID_FRAME_ID ==> ms[f]
            == FrameMetadata::empty()
    &&& forall|f: int|
        0 <= f < ms.len() && !(#[trigger] ms[f]).is_dirty ==> ms[f].rec_lsn is None
    &&& is_least(min, ms)
    &&& forall|id: u64| #[trigger]
        fresh.contains(id) ==> table.contains_key(id) && !ms[table[id] as int].is_dirty
}

/// The frames of a shard.
pub struct BufferPoolShard {
    pub pages: Vec<PageData>,
    pub metadata: Vec<FrameMetadata>,
    pub page_table: PageTable,
    pub free_list: Vec<usize>,
    pub replacer: ClockReplacer,
    /// The least record number among the dirty frames.
    pub min_rec_lsn: Option<u64>,
    pub last_checkpoint_redo_point: u64,
    /// New pages that nothing has been written to.
    pub fresh: Ghost<Set<u64>>,
}

impl BufferPoolShard {
    pub open spec fn size(&self) -> nat {
        self.metadata@.len()
    }

    /// Whether a page is in a frame.
    pub open spec fn cached(&self, id: u64) -> bool {
        self.page_table@.contains_key(id)
    }

    pub open spec fn frame(&self, id: u64) -> int {
        self.page_table@[id] as int
    }

    pub open spec fn meta(&self, id: u64) -> FrameMetadata {
        self.metadata@[self.frame(id)]
    }

    pub open spec fn bytes(&self, id: u64) -> Seq<u8> {
        self.pages@[self.frame(id)].0@
    }

    /// What the pool and the file hold of a page, its checksum aside: the cached
    /// bytes if they have changed, and else the bytes in the file.
    pub open spec fn holds(&self, id: u64, d: DiskManager) -> Option<Seq<u8>> {
        if self.cached(id) && self.meta(id).is_dirty {
            Some(blank(self.bytes(id)))
        } else if self.fresh@.contains(id) || id >= d.num_pages {
            None
        } else {
            Some(blank(d.at(id)))
        }
    }

    pub open spec fn tables_ok(&self) -> bool {
        tables_agree(self.pages@, self.metadata@, self.page_table@)
    }

    /// The free list holds the frames without a page, and the clock those with a
    /// page that nobody uses; neither holds frame `x`.
    pub open spec fn lists_ok(&self, x: int) -> bool {
        &&& self.free_list@.no_duplicates()
        &&& forall|i: int|
            0 <= i < self.free_list@.len() ==> (#[trigger] self.free_list@[i]) < self.size()
                && self.free_list@[i] != x && self.metadata@[self.free_list@[i] as int]
                == FrameMetadata::empty()
        &&& forall|f: int|
            0 <= f < self.size() && f != x && (#[trigger] self.metadata@[f]).page_id
                == INVALID_FRAME_ID ==> self.free_list@.contains(f as usize)
        &&& self.replacer.wf()
        &&& self.replacer.size() == self.size()
        &&& forall|f: int|
            0 <= f < self.size() ==> (#[trigger] self.replacer.can_evict(f) <==> f != x
                && self.metadata@[f].page_id != INVALID_FRAME_ID && self.metadata@[f].pin_count
                == 0)
    }

    pub open spec fn marks_ok(&self) -> bool {
        marks_agree(self.metadata@, self.page_table@, self.min_rec_lsn, self.fresh@)
    }

    /// The shard's structures agree; frame `x` has just been picked as a victim.
    pub open spec fn shape_x(&self, x: int) -> bool {
        self.tables_ok() && self.lists_ok(x) && self.marks_ok()
    }

    pub open spec fn shape(&self) -> bool {
        self.shape_x(-1)
    }

    /// No page is being loaded.
    pub open spec fn idle(&self) -> bool {
        forall|f: int| 0 <= f < self.size() ==> !(#[trigger] self.metadata@[f]).loading
    }

    /// Whether a page in a frame is as it is in the file.
    pub open spec fn in_sync(&self, id: u64, d: DiskManager) -> bool {
        id < d.num_pages && blank(self.bytes(id)) == blank(d.at(id))
    }

    /// Clean pages that nobody uses are as they are in the file, unless nothing
    /// has ever been written to them.
    pub open spec fn sync(&self, d: DiskManager) -> bool {
        forall|id: u64| #[trigger]
            self.cached(id) && !self.meta(id).is_dirty && self.meta(id).pin_count == 0
                && !self.fresh@.contains(id) ==> self.in_sync(id, d)
    }

    pub open spec fn wf(&self, d: DiskManager) -> bool {
        self.shape() && self.idle() && self.sync(d)
    }

    /// A shard with `size` empty frames.
    pub fn new(size: usize) -> (s: BufferPoolShard)
        ensures
            s.size() == size,
            forall|d: DiskManager| #[trigger] s.wf(d),
            forall|id: u64| !(#[trigger] s.cached(id)),
            s.min_rec_lsn is None,
            s.last_checkpoint_redo_point == 0,
    {
        let mut metadata: Vec<FrameMetadata> = Vec::new();
        let mut free_list: Vec<usize> = Vec::new();
        let mut pages: Vec<PageData> = Vec::new();
        let mut frame_id: usize = 0;
        while frame_id < size
            invariant
                frame_id <= size,
                metadata@.len() == frame_id,
                free_list@.len() == frame_id,
                pages@.len() == frame_id,
                forall|f: int| 0 <= f < frame_id ==> #[trigger] metadata@[f]
                    == FrameMetadata::empty(),
                forall|f: int| 0 <= f < frame_id ==> #[trigger] free_list@[f] == size - 1 - f,
                forall|f: int| 0 <= f < frame_id ==> (#[trigger] pages@[f]).0@.len() == PAGE_SIZE,
            decreases size - frame_id,
        {
            metadata.push(
                FrameMetadata {
                    page_id: INVALID_FRAME_ID,
                    pin_count: 0,
                    is_dirty: false,
                    loading: false,
                    rec_lsn: None,
                },
            );
            free_list.push(size - 1 - frame_id);
            pages.push(PageData::new());
            frame_id = frame_id + 1;
        }
        let reserved: usize = if size <= MAX_RESERVED {
            size
        } else {
            MAX_RESERVED
        };
        let s = BufferPoolShard {
            pages,
            metadata,
            page_table: table_new(reserved),
            free_list,
            replacer: ClockReplacer::new(size),
            min_rec_lsn: None,
            last_checkpoint_redo_point: 0,
            fresh: Ghost(Set::empty()),
        };
        proof {
            assert forall|f: int|
                0 <= f < s.size() && (#[trigger] s.metadata@[f]).page_id
                    == INVALID_FRAME_ID implies s.free_list@.contains(f as usize) by {
                assert(s.free_list@[size - 1 - f] == f);
            }
            assert(s.shape());
        }
        s
    }

    /// Takes a frame to put a page in: a free one, or else the clock's victim.
    fn find_victim_frame_id(&mut self) -> (r: Result<usize, BufferPoolError>)
        requires
            old(self).shape(),
        ensures
            final(self).pages == old(self).pages,
            final(self).metadata == old(self).metadata,
            final(self).page_table == old(self).page_table,
            final(self).min_rec_lsn == old(self).min_rec_lsn,
            final(self).last_checkpoint_redo_point == old(self).last_checkpoint_redo_point,
            final(self).fresh == old(self).fresh,
            r is Ok <==> exists|f: int|
                0 <= f < old(self).size() && (#[trigger] old(self).metadata@[f]).pin_count == 0,
            r matches Ok(f) ==> {
                &&& f < old(self).size()
                &&& final(self).shape_x(f as int)
                &&& old(self).metadata@[f as int].pin_count == 0
                &&& if old(self).free_list@.len() > 0 {
                    f == old(self).free_list@.last()
                } else {
                    &&& old(self).replacer.is_victim(f as int)
                    &&& final(self).free_list@ == old(self).free_list@
                    &&& forall|c: ClockReplacer|
                        c.wf() && c.evictable@ == final(self).replacer.evictable@.update(
                            f as int,
                            true,
                        ) && c.referenced@ == final(self).replacer.referenced@.update(
                            f as int,
                            true,
                        ) && c.hand == final(self).replacer.hand ==> #[trigger] old(
                            self,
                        ).replacer.spared(f as int, c)
                }
            },
            r matches Err(e) ==> e == BufferPoolError::NoEvictableFrames && final(self).shape(),
    {
        let ghost s0 = *self;
        let n: usize = self.metadata.len();
        assert(s0.size() == n);
        match self.free_list.pop() {
            Some(id) => {
                proof {
                    let l0 = s0.free_list@;
                    let l1 = self.free_list@;
                    assert(l0 =~= l1.push(id));
                    assert(l0[l0.len() - 1] == id);
                    assert(s0.metadata@[id as int].pin_count == 0);
                    assert forall|i: int| 0 <= i < l1.len() implies #[trigger] l1[i] == l0[i]
                        && l1[i] != id by {
                        assert(l0[i] != l0[l0.len() - 1]);
                    }
                    assert(l1.no_duplicates()) by {
                        assert forall|i: int, j: int|
                            0 <= i < l1.len() && 0 <= j < l1.len() && i != j implies l1[i]
                            != l1[j] by {
                            assert(l0[i] != l0[j]);
                        }
                    }
                    assert forall|f: int|
                        0 <= f < self.size() && f != id && (#[trigger] self.metadata@[f]).page_id
                            == INVALID_FRAME_ID implies l1.contains(f as usize) by {
                        assert(l0.contains(f as usize));
                        let i = choose|i: int| 0 <= i < l0.len() && l0[i] == f as usize;
                        assert(l1[i] == f as usize);
                    }
                }
                Ok(id)
            },
            None => {
                let r = self.replacer.victim();
                proof {
                    match r {
                        Ok(f) => {
                            assert(s0.replacer.can_evict(f as int));
                            assert forall|g: int| 0 <= g < self.size() implies (
                            #[trigger] self.replacer.can_evict(g) <==> g != f
                                && self.metadata@[g].page_id != INVALID_FRAME_ID
                                && self.metadata@[g].pin_count == 0) by {
                                assert(s0.replacer.can_evict(g) <==> s0.metadata@[g].page_id
                                    != INVALID_FRAME_ID && s0.metadata@[g].pin_count == 0);
                            }
                            assert(self.free_list@ =~= s0.free_list@);
                            assert forall|c: ClockReplacer|
                                c.wf() && c.evictable@ == self.replacer.evictable@.update(
                                    f as int,
                                    true,
                                ) && c.referenced@ == self.replacer.referenced@.update(
                                    f as int,
                                    true,
                                ) && c.hand == self.replacer.hand implies #[trigger] s0.replacer.spared(
                                f as int,
                                c,
                            ) by {
                                assert(c.evictable@ =~= s0.replacer.evictable@);
                                assert forall|g: int|
                                    #![trigger c.referenced@[g]]
                                    0 <= g < s0.replacer.size() implies c.referenced@[g] == (g == f
                                    || (s0.replacer.referenced@[g] && !(s0.replacer.can_evict(g) && (
                                s0.replacer.referenced@[f as int] || s0.replacer.dist(g)
                                    < s0.replacer.dist(f as int))))) by {
                                    let _ = self.replacer.referenced@[g];
                                }
                            }
                        },
                        Err(_) => {
                            assert forall|g: int| 0 <= g < self.size() implies (
                            #[trigger] self.replacer.can_evict(g) <==> g != -1
                                && self.metadata@[g].page_id != INVALID_FRAME_ID
                                && self.metadata@[g].pin_count == 0) by {
                                assert(s0.replacer.can_evict(g) <==> s0.metadata@[g].page_id
                                    != INVALID_FRAME_ID && s0.metadata@[g].pin_count == 0);
                            }
                            assert forall|g: int| 0 <= g < s0.size() implies (
                            #[trigger] s0.metadata@[g]).pin_count != 0 by {
                                if s0.metadata@[g].page_id == INVALID_FRAME_ID {
                                    assert(s0.free_list@.contains(g as usize));
                                }
                                assert(!s0.replacer.can_evict(g));
                            }
                        },
                    }
                }
                r
            },
        }
    }

    /// Writes the page in a frame to the file, with its checksum, once the log is
    /// durable up to the last record that changed the page.
    pub fn write_frame_to_disk(
        &self,
        frame_id: usize,
        page_id: u64,
        d: &mut DiskManager,
        wal: &mut Wal,
    )
        requires
            frame_id < self.pages@.len(),
            self.pages@[frame_id as int].0@.len() == PAGE_SIZE,
            page_id < u64::MAX,
            old(d).wf(),
        ensures
            final(d).wf(),
            final(wal).next_lsn == old(wal).next_lsn,
            final(d).at(page_id) == stamped(self.pages@[frame_id as int].0@),
            forall|id: u64| id != page_id ==> #[trigger] final(d).at(id) == old(d).at(id),
            final(d).num_pages == (if page_id < old(d).num_pages {
                old(d).num_pages as int
            } else {
                page_id + 1
            }),
            ({
                let bytes = self.pages@[frame_id as int].0@;
                let lsn = lsn_of(bytes);
                if old(wal).needs_flush(lsn) {
                    &&& final(wal).flushed_lsn == Some(lsn)
                    &&& final(wal).pending@ == Seq::<u8>::empty()
                    &&& final(d).out@ == old(d).out@.push(IoView::AppendLog(old(wal).pending@)).push(
                        IoView::SyncLog,
                    ).push(IoView::WritePage(page_id, stamped(bytes)))
                } else {
                    &&& *final(wal) == *old(wal)
                    &&& final(d).out@ == old(d).out@.push(
                        IoView::WritePage(page_id, stamped(bytes)),
                    )
                }
            }),
            io_ok(*old(d), *old(wal), *final(d), *final(wal)),
    {
        let ghost d0 = *d;
        let ghost w0 = *wal;
        let mut buf: Vec<u8> = copy_bytes(&self.pages[frame_id].0);
        let lsn: u64 = page_lsn(&buf);
        wal.flush_up_to(lsn, &mut d.out);
        let ghost o1 = d.out@;
        proof {
            law_stamp_verifies(buf@);
        }
        stamp_checksum(&mut buf);
        d.write_page(page_id, &buf);
        proof {
            lemma_log_of(o1, IoView::WritePage(page_id, buf@));
            if w0.needs_flush(lsn) {
                lemma_log_of(d0.out@, IoView::AppendLog(w0.pending@));
                lemma_log_of(
                    d0.out@.push(IoView::AppendLog(w0.pending@)),
                    IoView::SyncLog,
                );
            }
            assert(led(d0, w0, *d, *wal)) by {
                let n = d0.out@.len() as int;
                assert(d.out@.take(o1.len() as int) =~= o1);
                assert forall|k: int| n <= k < d.out@.len() implies #[trigger] announced(
                    d0,
                    w0,
                    *d,
                    *wal,
                    k,
                ) by {}
            }
            assert(log_of(d.out@) + wal.pending@ =~= log_of(d0.out@) + w0.pending@);
            assert forall|id: u64| covered(d0, w0) && #[trigger] d.pages@.contains_key(
                id,
            ) implies wal.flushed_lsn matches Some(f) && lsn_of(d.at(id)) <= f by {
                if id != page_id {
                    assert(d0.pages@.contains_key(id));
                    assert(d.at(id) == d0.at(id));
                }
            }
            assert forall|id: u64| intact(d0, id) implies #[trigger] intact(*d, id) by {
                if id != page_id {
                    assert(d.at(id) == d0.at(id));
                    if id >= d0.num_pages {
                        assert(!d0.pages@.contains_key(id));
                    }
                }
            }
        }
    }

    /// Writes a page to the file if it is cached and has changed; the page is
    /// clean afterwards. Returns whether it was written.
    fn flush_page_inner(
        &mut self,
        page_id: u64,
        sync_data: bool,
        d: &mut DiskManager,
        wal: &mut Wal,
    ) -> (r: bool)
        requires
            old(d).wf(),
            old(self).shape() || (old(self).cached(page_id) && old(self).meta(page_id).is_dirty
                && old(self).meta(page_id).pin_count == 0 && old(self).shape_x(
                old(self).frame(page_id),
            )),
        ensures
            final(self).pages == old(self).pages,
            final(self).page_table == old(self).page_table,
            final(self).free_list == old(self).free_list,
            final(self).fresh == old(self).fresh,
            final(self).last_checkpoint_redo_point == old(self).last_checkpoint_redo_point,
            final(self).shape(),
            io_ok(*old(d), *old(wal), *final(d), *final(wal)),
            r == (old(self).cached(page_id) && old(self).meta(page_id).is_dirty),
            !r ==> *final(self) == *old(self) && *final(d) == *old(d) && *final(wal) == *old(wal),
            r ==> {
                &&& final(self).metadata@ == old(self).metadata@.update(
                    old(self).frame(page_id),
                    old(self).meta(page_id).clean(),
                )
                &&& old(self).meta(page_id).pin_count == 0 ==> {
                    let f = old(self).frame(page_id);
                    &&& final(self).replacer.evictable@ == old(self).replacer.evictable@.update(
                        f,
                        true,
                    )
                    &&& final(self).replacer.referenced@ == old(self).replacer.referenced@.update(
                        f,
                        true,
                    )
                    &&& final(self).replacer.hand == old(self).replacer.hand
                }
                &&& final(d).at(page_id) == stamped(old(self).bytes(page_id))
                &&& final(d).num_pages == (if page_id < old(d).num_pages {
                    old(d).num_pages as int
                } else {
                    page_id + 1
                })
                &&& forall|id: u64| id != page_id ==> #[trigger] final(d).at(id) == old(d).at(id)
                &&& final(wal).flushed_lsn == old(wal).flushed_lsn || final(wal).flushed_lsn == Some(
                    lsn_of(old(self).bytes(page_id)),
                )
            },
            r && sync_data ==> final(d).out@.last() == IoView::SyncData,
    {
        let ghost s0 = *self;
        let ghost d0 = *d;
        let ghost w0 = *wal;
        let n: usize = self.metadata.len();
        assert(s0.size() == n);
        let frame_id: usize = match table_get(&self.page_table, page_id) {
            Some(f) => f,
            None => {
                return false;
            },
        };
        let mut m: FrameMetadata = self.metadata[frame_id];
        if !m.is_dirty {
            return false;
        }
        self.write_frame_to_disk(frame_id, page_id, d, wal);
        if sync_data {
            let ghost d1 = *d;
            d.sync_data();
            proof {
                lemma_synced(d1, *d, d0, w0, *wal);
                assert forall|id: u64| id != page_id implies #[trigger] d.at(id) == d0.at(id) by {
                    assert(d1.at(id) == d0.at(id));
                }
            }
        }
        let old_rec_lsn: Option<u64> = m.rec_lsn;
        m.is_dirty = false;
        m.rec_lsn = None;
        self.metadata.set(frame_id, m);
        if m.pin_count == 0 {
            self.replacer.unpin(frame_id);
        }
        let same: bool = match (old_rec_lsn, self.min_rec_lsn) {
            (None, None) => true,
            (Some(a), Some(b)) => a == b,
            _ => false,
        };
        if same {
            self.min_rec_lsn = least_rec_lsn(&self.metadata);
        }
        proof {
            let ms0 = s0.metadata@;
            let ms = self.metadata@;
            assert(ms =~= ms0.update(frame_id as int, s0.meta(page_id).clean()));
            if !same {
                assert(is_least(self.min_rec_lsn, ms)) by {
                    match self.min_rec_lsn {
                        None => {
                            assert forall|f: int| 0 <= f < ms.len() implies !has_rec_lsn(
                                #[trigger] ms[f],
                            ) by {
                                assert(!has_rec_lsn(ms0[f]));
                            }
                        },
                        Some(x) => {
                            let w = choose|f: int|
                                0 <= f < ms0.len() && has_rec_lsn(#[trigger] ms0[f])
                                    && ms0[f].rec_lsn == Some(x);
                            assert(w != frame_id);
                            assert(ms[w] == ms0[w]);
                            assert forall|f: int|
                                0 <= f < ms.len() && has_rec_lsn(#[trigger] ms[f]) implies x
                                <= ms[f].rec_lsn->0 by {
                                assert(f != frame_id);
                                assert(has_rec_lsn(ms0[f]));
                            }
                        },
                    }
                }
            }
            assert(self.tables_ok());
            assert(self.marks_ok());
            assert forall|f: int| 0 <= f < self.size() implies (
            #[trigger] self.replacer.can_evict(f) <==> f != -1 && self.metadata@[f].page_id
                != INVALID_FRAME_ID && self.metadata@[f].pin_count == 0) by {
                assert(s0.replacer.can_evict(f) == s0.replacer.evictable@[f]);
            }
            assert forall|i: int| 0 <= i < self.free_list@.len() implies (
            #[trigger] self.free_list@[i]) < self.size() && self.free_list@[i] != -1
                && self.metadata@[self.free_list@[i] as int] == FrameMetadata::empty() by {
                assert(s0.metadata@[s0.free_list@[i] as int] == FrameMetadata::empty());
            }
            assert forall|f: int|
                0 <= f < self.size() && f != -1 && (#[trigger] self.metadata@[f]).page_id
                    == INVALID_FRAME_ID implies self.free_list@.contains(f as usize) by {
                assert(f != frame_id);
                assert(s0.metadata@[f].page_id == INVALID_FRAME_ID);
            }
        }
        true
    }

    /// Writes a page to the file if it has changed, and makes the file durable.
    pub fn flush_page(&mut self, page_id: u64, d: &mut DiskManager, wal: &mut Wal) -> (r: bool)
        requires
            old(self).wf(*old(d)),
            old(d).wf(),
        ensures
            flushed(*old(self), *old(d), *old(wal), *final(self), *final(d), *final(wal)),
            r == (old(self).cached(page_id) && old(self).meta(page_id).is_dirty),
            !r ==> *final(self) == *old(self) && *final(d) == *old(d) && *final(wal) == *old(wal),
            r ==> {
                &&& final(self).metadata@ == old(self).metadata@.update(
                    old(self).frame(page_id),
                    old(self).meta(page_id).clean(),
                )
                &&& final(d).at(page_id) == stamped(old(self).bytes(page_id))
                &&& final(d).out@.last() == IoView::SyncData
            },
    {
        let ghost s0 = *self;
        let ghost d0 = *d;
        let r = self.flush_page_inner(page_id, true, d, wal);
        proof {
            lemma_flushed_one(s0, d0, *old(wal), *self, *d, *wal, page_id, r);
        }
        r
    }

    /// Writes a page to the file if it has changed.
    pub fn flush_page_without_sync(&mut self, page_id: u64, d: &mut DiskManager, wal: &mut Wal) -> (
    r: bool)
        requires
            old(self).wf(*old(d)),
            old(d).wf(),
        ensures
            flushed(*old(self), *old(d), *old(wal), *final(self), *final(d), *final(wal)),
            r == (old(self).cached(page_id) && old(self).meta(page_id).is_dirty),
            !r ==> *final(self) == *old(self) && *final(d) == *old(d) && *final(wal) == *old(wal),
            r ==> {
                &&& final(self).metadata@ == old(self).metadata@.update(
                    old(self).frame(page_id),
                    old(self).meta(page_id).clean(),
                )
                &&& final(d).at(page_id) == stamped(old(self).bytes(page_id))
            },
    {
        let ghost s0 = *self;
        let ghost d0 = *d;
        let r = self.flush_page_inner(page_id, false, d, wal);
        proof {
            lemma_flushed_one(s0, d0, *old(wal), *self, *d, *wal, page_id, r);
        }
        r
    }

    /// Writes all changed pages of the shard to the file.
    pub fn flush_all_pages_no_sync(&mut self, d: &mut DiskManager, wal: &mut Wal)
        requires
            old(self).wf(*old(d)),
            old(d).wf(),
        ensures
            flushed(*old(self), *old(d), *old(wal), *final(self), *final(d), *final(wal)),
            forall|f: int|
                0 <= f < final(self).size() ==> !(#[trigger] final(self).metadata@[f]).is_dirty,
    {
        let ghost s0 = *self;
        let ghost d0 = *d;
        let ghost w0 = *wal;
        let n: usize = self.pages.len();
        let mut frame_id: usize = 0;
        while frame_id < n
            invariant
                frame_id <= n,
                n == self.size(),
                self.wf(*d),
                d.wf(),
                s0.tables_ok(),
                flushed(s0, d0, w0, *self, *d, *wal),
                forall|f: int| 0 <= f < frame_id ==> !(#[trigger] self.metadata@[f]).is_dirty,
            decreases n - frame_id,
        {
            let ghost s1 = *self;
            let ghost d1 = *d;
            let ghost w1 = *wal;
            let m: FrameMetadata = self.metadata[frame_id];
            if m.is_dirty && m.page_id != INVALID_FRAME_ID {
                self.flush_page_without_sync(m.page_id, d, wal);
                proof {
                    lemma_flushed_trans(s0, d0, w0, s1, d1, w1, *self, *d, *wal);
                }
            }
            frame_id = frame_id + 1;
        }
    }

    /// Pins a page in a frame. Where it is not cached, a frame is taken for it,
    /// a changed page that has to leave is written first, and the caller has to
    /// load the bytes and to finish the load.
    #[verifier::rlimit(30)]
    pub fn acquire_frame(&mut self, page_id: u64, d: &mut DiskManager, wal: &mut Wal) -> (r: Result<
        (usize, bool),
        BufferPoolError,
    >)
        requires
            old(self).wf(*old(d)),
            old(d).wf(),
            page_id != INVALID_FRAME_ID,
            old(self).cached(page_id) ==> old(self).meta(page_id).pin_count < u64::MAX,
        ensures
            io_ok(*old(d), *old(wal), *final(d), *final(wal)),
            flush_from(*old(self), *old(d), *old(wal), *final(wal)),
            r is Ok <==> old(self).cached(page_id) || exists|f: int|
                0 <= f < old(self).size() && (#[trigger] old(self).metadata@[f]).pin_count == 0,
            r matches Err(e) ==> e == BufferPoolError::NoEvictableFrames && flushed(
                *old(self),
                *old(d),
                *old(wal),
                *final(self),
                *final(d),
                *final(wal),
            ) && final(self).metadata@ == old(self).metadata@,
            r matches Ok((f, load)) ==> {
                &&& load == !old(self).cached(page_id)
                &&& final(self).cached(page_id)
                &&& final(self).frame(page_id) == f
                &&& f < final(self).size()
                &&& !load ==> {
                    &&& final(self).wf(*final(d))
                    &&& pinned_again(*old(self), *final(self), page_id)
                    &&& *final(d) == *old(d)
                    &&& *final(wal) == *old(wal)
                }
                &&& load ==> taken(*old(self), *old(d), *final(self), *final(d), page_id)
                &&& load ==> if old(self).free_list@.len() > 0 {
                    f == old(self).free_list@.last()
                } else {
                    exists|n: nat| #[trigger]
                        comes_to(old(self).replacer, changed(old(self).metadata@), f as int, n)
                }
            },
    {
        let ghost s0 = *self;
        let ghost d0 = *d;
        let ghost w0 = *wal;
        let ghost mut turns: nat = 0;
        loop
            invariant
                s0 == *old(self),
                d0 == *old(d),
                w0 == *old(wal),
                s0.wf(d0),
                d0.wf(),
                d.wf(),
                page_id != INVALID_FRAME_ID,
                s0.cached(page_id) ==> s0.meta(page_id).pin_count < u64::MAX,
                s0.cached(page_id) ==> *self == s0 && *d == d0 && *wal == w0,
                flushed(s0, d0, w0, *self, *d, *wal),
                self.wf(*d),
                forall|f: int|
                    0 <= f < s0.size() && (#[trigger] s0.metadata@[f]).pin_count > 0
                        ==> self.metadata@[f] == s0.metadata@[f],
                self.free_list@ == s0.free_list@,
                s0.free_list@.len() > 0 ==> turns == 0,
                forall|f: int, n: nat| #[trigger]
                    comes_to(self.replacer, changed(self.metadata@), f, n) ==> comes_to(
                        s0.replacer,
                        changed(s0.metadata@),
                        f,
                        n + turns,
                    ),
            decreases dirty_count(self.metadata@),
        {
            let n: usize = self.metadata.len();
            assert(self.size() == n);
            assert(s0.cached(page_id) == self.cached(page_id));
            match table_get(&self.page_table, page_id) {
                Some(frame_id) => {
                    let mut m: FrameMetadata = self.metadata[frame_id];
                    let prev: u64 = m.pin_count;
                    m.pin_count = prev + 1;
                    self.metadata.set(frame_id, m);
                    if prev == 0 {
                        self.replacer.pin(frame_id);
                    }
                    proof {
                        lemma_repinned(s0, *self, d0, page_id, m);
                    }
                    return Ok((frame_id, false));
                },
                None => {},
            }
            let ghost s1 = *self;
            let ghost d1 = *d;
            let ghost w1 = *wal;
            let frame_id: usize = match self.find_victim_frame_id() {
                Ok(f) => f,
                Err(e) => {
                    proof {
                        lemma_same_frames(s1, *self, *d);
                        lemma_flushed_same(s0, d0, w0, s1, *self, *d, *wal);
                        assert forall|f: int| 0 <= f < s0.size() implies (
                        #[trigger] s0.metadata@[f]).pin_count != 0 by {
                            assert(s1.metadata@[f].pin_count == s0.metadata@[f].pin_count);
                        }
                        assert(self.metadata@ =~= s0.metadata@);
                    }
                    return Err(e);
                },
            };
            proof {
                assert(s1.metadata@[frame_id as int].pin_count
                    == s0.metadata@[frame_id as int].pin_count);
                assert(s0.metadata@[frame_id as int].pin_count == 0);
            }
            let ghost s2 = *self;
            let m: FrameMetadata = self.metadata[frame_id];
            let old_page_id: u64 = m.page_id;
            if m.is_dirty && old_page_id != INVALID_FRAME_ID {
                self.flush_page_inner(old_page_id, false, d, wal);
                proof {
                    assert(s2.page_table@.contains_key(old_page_id));
                    assert(s1.page_table@.contains_key(old_page_id));
                    lemma_flushed_one(s1, d1, w1, *self, *d, *wal, old_page_id, true);
                    lemma_flushed_trans(s0, d0, w0, s1, d1, w1, *self, *d, *wal);
                    lemma_dirty_count(s1.metadata@, frame_id as int, m.clean());
                    if s1.free_list@.len() > 0 {
                        let z = s1.free_list@.len() - 1;
                        assert(s1.metadata@[s1.free_list@[z] as int] == FrameMetadata::empty());
                    }
                    assert(s1.replacer.spared(frame_id as int, self.replacer));
                    assert(changed(self.metadata@) =~= changed(s1.metadata@).update(
                        frame_id as int,
                        false,
                    ));
                    assert forall|f: int, n: nat| #[trigger]
                        comes_to(self.replacer, changed(self.metadata@), f, n) implies comes_to(
                        s0.replacer,
                        changed(s0.metadata@),
                        f,
                        n + (turns + 1),
                    ) by {
                        assert(changed(s1.metadata@)[frame_id as int]);
                        assert(comes_to(s1.replacer, changed(s1.metadata@), f, n + 1));
                    }
                    turns = turns + 1;
                }
                continue;
            }
            proof {
                if s0.free_list@.len() == 0 {
                    if old_page_id == INVALID_FRAME_ID {
                        assert(s1.free_list@.contains(frame_id));
                    }
                    assert(!changed(s1.metadata@)[frame_id as int]);
                    assert(comes_to(s1.replacer, changed(s1.metadata@), frame_id as int, 0));
                    assert(comes_to(s0.replacer, changed(s0.metadata@), frame_id as int, 0 + turns));
                }
            }
            if old_page_id != INVALID_FRAME_ID {
                table_remove(&mut self.page_table, old_page_id);
            }
            let m2 = FrameMetadata {
                page_id,
                pin_count: 1,
                is_dirty: false,
                loading: true,
                rec_lsn: None,
            };
            self.metadata.set(frame_id, m2);
            table_insert(&mut self.page_table, page_id, frame_id);
            self.replacer.pin(frame_id);
            proof {
                self.fresh@ = self.fresh@.remove(old_page_id);
                assert forall|f: int| 0 <= f < s1.size() implies (
                #[trigger] self.replacer.can_evict(f) <==> f != frame_id && s1.metadata@[f].page_id
                    != INVALID_FRAME_ID && s1.metadata@[f].pin_count == 0) by {
                    assert(s2.replacer.can_evict(f) == s2.replacer.evictable@[f]);
                }
                lemma_taken(s1, *d, *self, page_id, frame_id, old_page_id);
                lemma_flushed_taken(s0, d0, w0, s1, *d, *wal, *self, page_id);
            }
            let r: Result<(usize, bool), BufferPoolError> = Ok((frame_id, true));
            assert(r->Ok_0.0 == frame_id);
            assert(s0.free_list@.len() == 0 ==> exists|n: nat| #[trigger]
                comes_to(s0.replacer, changed(s0.metadata@), frame_id as int, n));
            return r;
        }
    }

    /// Ends the load of a page: the page is there, or, where the load failed, the
    /// frame is free again.
    pub fn finish_load(&mut self, page_id: u64, frame_id: usize, success: bool)
        requires
            old(self).shape(),
            old(self).cached(page_id),
            old(self).frame(page_id) == frame_id,
            old(self).meta(page_id).loading,
            old(self).meta(page_id).pin_count == 1,
            !old(self).meta(page_id).is_dirty,
            !old(self).fresh@.contains(page_id),
        ensures
            final(self).shape(),
            final(self).pages == old(self).pages,
            final(self).fresh == old(self).fresh,
            final(self).last_checkpoint_redo_point == old(self).last_checkpoint_redo_point,
            success ==> {
                &&& final(self).page_table == old(self).page_table
                &&& final(self).metadata@ == old(self).metadata@.update(
                    frame_id as int,
                    FrameMetadata { loading: false, ..old(self).meta(page_id) },
                )
            },
            !success ==> {
                &&& final(self).page_table@ == old(self).page_table@.remove(page_id)
                &&& final(self).metadata@ == old(self).metadata@.update(
                    frame_id as int,
                    FrameMetadata::empty(),
                )
            },
    {
        let ghost s0 = *self;
        let n: usize = self.metadata.len();
        assert(s0.size() == n);
        assert(s0.page_table@.contains_key(page_id));
        if success {
            let mut m: FrameMetadata = self.metadata[frame_id];
            m.loading = false;
            self.metadata.set(frame_id, m);
        } else {
            table_remove(&mut self.page_table, page_id);
            self.metadata.set(
                frame_id,
                FrameMetadata {
                    page_id: INVALID_FRAME_ID,
                    pin_count: 0,
                    is_dirty: false,
                    loading: false,
                    rec_lsn: None,
                },
            );
            self.replacer.pin(frame_id);
            self.free_list.push(frame_id);
        }
        proof {
            assert(s0.fresh@ =~= s0.fresh@.remove(page_id));
            lemma_frame_reset(s0, *self, page_id, frame_id, success);
        }
    }

    /// Takes one pin off a page, and notes that it has changed. A page that is
    /// not cached is left alone.
    pub fn unpin_page(&mut self, page_id: u64, is_dirty: bool)
        requires
            old(self).shape(),
            old(self).cached(page_id) ==> old(self).meta(page_id).pin_count > 0,
        ensures
            final(self).shape(),
            final(self).pages == old(self).pages,
            final(self).page_table == old(self).page_table,
            final(self).last_checkpoint_redo_point == old(self).last_checkpoint_redo_point,
            !old(self).cached(page_id) ==> *final(self) == *old(self),
            old(self).cached(page_id) ==> {
                let m = old(self).meta(page_id);
                &&& final(self).metadata@ == old(self).metadata@.update(
                    old(self).frame(page_id),
                    FrameMetadata {
                        pin_count: (m.pin_count - 1) as u64,
                        is_dirty: m.is_dirty || is_dirty,
                        ..m
                    },
                )
                &&& final(self).fresh@ == (if is_dirty {
                    old(self).fresh@.remove(page_id)
                } else {
                    old(self).fresh@
                })
            },
    {
        let ghost s0 = *self;
        let n: usize = self.metadata.len();
        assert(s0.size() == n);
        let frame_id: usize = match table_get(&self.page_table, page_id) {
            Some(f) => f,
            None => {
                return;
            },
        };
        let mut m: FrameMetadata = self.metadata[frame_id];
        let prev: u64 = m.pin_count;
        if is_dirty {
            m.is_dirty = true;
        }
        m.pin_count = prev - 1;
        self.metadata.set(frame_id, m);
        if prev == 1 {
            self.replacer.unpin(frame_id);
        }
        proof {
            if is_dirty {
                self.fresh@ = self.fresh@.remove(page_id);
            }
            lemma_meta_changed(s0, *self, page_id, m);
        }
    }

    /// Notes that a record has changed a page. Returns whether the page was clean
    /// and had last been changed at or before the redo point of the last
    /// checkpoint: then the record needs the page's full image.
    pub fn mark_dirty(&mut self, page_id: u64, lsn: u64, page_lsn_before: u64) -> (r: bool)
        requires
            old(self).shape(),
        ensures
            final(self).shape(),
            final(self).pages == old(self).pages,
            final(self).page_table == old(self).page_table,
            final(self).last_checkpoint_redo_point == old(self).last_checkpoint_redo_point,
            r == (old(self).cached(page_id) && !old(self).meta(page_id).is_dirty && page_lsn_before
                <= old(self).last_checkpoint_redo_point),
            !(old(self).cached(page_id) && !old(self).meta(page_id).is_dirty) ==> *final(self)
                == *old(self),
            old(self).cached(page_id) && !old(self).meta(page_id).is_dirty ==> {
                &&& final(self).metadata@ == old(self).metadata@.update(
                    old(self).frame(page_id),
                    FrameMetadata {
                        is_dirty: true,
                        rec_lsn: Some(lsn),
                        ..old(self).meta(page_id)
                    },
                )
                &&& final(self).fresh@ == old(self).fresh@.remove(page_id)
            },
    {
        let ghost s0 = *self;
        let n: usize = self.metadata.len();
        assert(s0.size() == n);
        let frame_id: usize = match table_get(&self.page_table, page_id) {
            Some(f) => f,
            None => {
                return false;
            },
        };
        let mut m: FrameMetadata = self.metadata[frame_id];
        if m.is_dirty {
            return false;
        }
        m.is_dirty = true;
        m.rec_lsn = Some(lsn);
        self.metadata.set(frame_id, m);
        let lower: bool = match self.min_rec_lsn {
            None => true,
            Some(x) => lsn < x,
        };
        if lower {
            self.min_rec_lsn = Some(lsn);
        }
        proof {
            self.fresh@ = self.fresh@.remove(page_id);
            assert(s0.page_table@.contains_key(page_id));
            let ms0 = s0.metadata@;
            let ms = self.metadata@;
            let f0 = frame_id as int;
            assert(has_rec_lsn(ms[f0]) && ms[f0].rec_lsn == Some(lsn));
            assert(is_least(self.min_rec_lsn, ms)) by {
                assert forall|f: int| 0 <= f < ms.len() && f != f0 implies #[trigger] ms[f]
                    == ms0[f] by {}
                let x = self.min_rec_lsn->0;
                if !lower {
                    let w = choose|f: int|
                        0 <= f < ms0.len() && has_rec_lsn(#[trigger] ms0[f]) && ms0[f].rec_lsn
                            == Some(x);
                    assert(w != f0);
                    assert(has_rec_lsn(ms[w]));
                }
                assert forall|f: int| 0 <= f < ms.len() && has_rec_lsn(#[trigger] ms[f]) implies x
                    <= ms[f].rec_lsn->0 by {
                    if f != f0 {
                        assert(has_rec_lsn(ms0[f]));
                    }
                }
            }
            lemma_meta_changed(s0, *self, page_id, m);
        }
        page_lsn_before <= self.last_checkpoint_redo_point
    }

    /// Drops a page from the cache; a changed page is written first. Fails for a
    /// page in use; a page that is not cached is left alone.
    pub fn delete_page(&mut self, page_id: u64, d: &mut DiskManager, wal: &mut Wal) -> (r: Result<
        (),
        BufferPoolError,
    >)
        requires
            old(self).wf(*old(d)),
            old(d).wf(),
        ensures
            io_ok(*old(d), *old(wal), *final(d), *final(wal)),
            final(self).wf(*final(d)),
            final(self).size() == old(self).size(),
            final(self).last_checkpoint_redo_point == old(self).last_checkpoint_redo_point,
            r is Err <==> old(self).cached(page_id) && old(self).meta(page_id).pin_count > 0,
            r matches Err(e) ==> e == BufferPoolError::PinCountError,
            r is Err || !old(self).cached(page_id) ==> *final(self) == *old(self) && *final(d)
                == *old(d) && *final(wal) == *old(wal),
            r is Ok ==> !final(self).cached(page_id),
            r is Ok ==> final(self).page_table@ == old(self).page_table@.remove(page_id),
            forall|id: u64|
                old(self).holds(id, *old(d)) is Some ==> #[trigger] final(self).holds(id, *final(d))
                    == old(self).holds(id, *old(d)),
            forall|id: u64|
                id != page_id && #[trigger] old(self).cached(id) ==> final(self).cached(id)
                    && final(self).frame(id) == old(self).frame(id) && final(self).bytes(id)
                    == old(self).bytes(id) && final(self).meta(id) == old(self).meta(id),
            forall|id: u64| id != page_id ==> #[trigger] final(d).at(id) == old(d).at(id),
            written_from(*old(self), *old(d), *final(d)),
            flush_from(*old(self), *old(d), *old(wal), *final(wal)),
            final(d).num_pages == old(d).num_pages || (final(d).num_pages == page_id + 1
                && old(self).cached(page_id)),
    {
        let ghost s0 = *self;
        let ghost d0 = *d;
        let ghost w0 = *wal;
        let n: usize = self.metadata.len();
        assert(s0.size() == n);
        let frame_id: usize = match table_get(&self.page_table, page_id) {
            Some(f) => f,
            None => {
                return Ok(());
            },
        };
        assert(s0.page_table@.contains_key(page_id));
        if self.metadata[frame_id].pin_count > 0 {
            return Err(BufferPoolError::PinCountError);
        }
        self.flush_page_inner(page_id, false, d, wal);
        let ghost s1 = *self;
        proof {
            lemma_flushed_one(
                s0,
                d0,
                w0,
                s1,
                *d,
                *wal,
                page_id,
                s0.meta(page_id).is_dirty,
            );
        }
        table_remove(&mut self.page_table, page_id);
        self.metadata.set(
            frame_id,
            FrameMetadata {
                page_id: INVALID_FRAME_ID,
                pin_count: 0,
                is_dirty: false,
                loading: false,
                rec_lsn: None,
            },
        );
        self.replacer.pin(frame_id);
        self.free_list.push(frame_id);
        proof {
            self.fresh@ = self.fresh@.remove(page_id);
            lemma_frame_reset(s1, *self, page_id, frame_id, false);
            assert forall|id: u64| #[trigger] self.cached(id) implies s1.cached(id) && id != page_id
                && self.frame(id) == s1.frame(id) && self.frame(id) != frame_id && self.meta(id)
                == s1.meta(id) by {
                assert(s1.page_table@.contains_key(id));
                assert(s1.meta(id).page_id == id);
            }
            assert forall|id: u64| #[trigger] s0.cached(id) && id != page_id implies self.cached(id)
                && self.meta(id) == s0.meta(id) by {
                assert(s0.page_table@.contains_key(id));
                assert(s0.meta(id).page_id == id);
                assert(self.cached(id));
            }
            assert forall|id: u64| #[trigger]
                self.cached(id) && !self.meta(id).is_dirty && self.meta(id).pin_count == 0
                    && !self.fresh@.contains(id) implies self.in_sync(id, *d) by {
                assert(s1.cached(id));
                assert(s1.in_sync(id, *d));
            }
            assert forall|id: u64| s0.holds(id, d0) is Some implies #[trigger] self.holds(id, *d)
                == s0.holds(id, d0) by {
                assert(s1.holds(id, *d) == s0.holds(id, d0));
                if s1.cached(id) && id != page_id {
                    assert(self.cached(id));
                }
            }
            assert forall|id: u64| id != page_id implies #[trigger] d.at(id) == d0.at(id) by {}
        }
        Ok(())
    }
}

/// A frame gives its page up, or its page is there.
proof fn lemma_frame_reset(
    s0: BufferPoolShard,
    s: BufferPoolShard,
    page_id: u64,
    frame_id: usize,
    success: bool,
)
    requires
        s0.shape(),
        s0.size() <= usize::MAX,
        s0.cached(page_id),
        s0.frame(page_id) == frame_id,
        !s0.meta(page_id).is_dirty,
        s.pages == s0.pages,
        s.min_rec_lsn == s0.min_rec_lsn,
        success ==> {
            &&& s.fresh == s0.fresh
            &&& s.page_table == s0.page_table
            &&& s.free_list == s0.free_list
            &&& s.replacer == s0.replacer
            &&& s.metadata@ == s0.metadata@.update(
                frame_id as int,
                FrameMetadata { loading: false, ..s0.meta(page_id) },
            )
        },
        !success ==> {
            &&& s.fresh@ == s0.fresh@.remove(page_id)
            &&& s.page_table@ == s0.page_table@.remove(page_id)
            &&& s.free_list@ == s0.free_list@.push(frame_id)
            &&& s.replacer.wf()
            &&& s.replacer.evictable@ == s0.replacer.evictable@.update(frame_id as int, false)
            &&& s.metadata@ == s0.metadata@.update(frame_id as int, FrameMetadata::empty())
        },
    ensures
        s.shape(),
{
    let ms0 = s0.metadata@;
    let ms = s.metadata@;
    let f0 = frame_id as int;
    assert(s0.page_table@.contains_key(page_id));
    assert(is_least(s.min_rec_lsn, ms)) by {
        assert forall|f: int| 0 <= f < ms.len() implies has_rec_lsn(#[trigger] ms[f])
            == has_rec_lsn(ms0[f]) && (has_rec_lsn(ms[f]) ==> ms[f].rec_lsn == ms0[f].rec_lsn) by {}
        if let Some(x) = s.min_rec_lsn {
            let w = choose|f: int|
                0 <= f < ms0.len() && has_rec_lsn(#[trigger] ms0[f]) && ms0[f].rec_lsn == Some(x);
            assert(has_rec_lsn(ms[w]));
        }
    }
    assert(s.tables_ok()) by {
        assert forall|id: u64| #[trigger] s.page_table@.contains_key(id) implies id
            != INVALID_FRAME_ID && s.page_table@[id] < ms.len() && ms[s.page_table@[id] as int].page_id
            == id by {
            assert(s0.page_table@.contains_key(id));
        }
        assert forall|f: int|
            0 <= f < ms.len() && (#[trigger] ms[f]).page_id
                != INVALID_FRAME_ID implies s.page_table@.contains_key(ms[f].page_id)
            && s.page_table@[ms[f].page_id] == f by {
            assert(ms0[f].page_id != INVALID_FRAME_ID);
        }
    }
    assert(s.marks_ok()) by {
        assert forall|id: u64| #[trigger]
            s.fresh@.contains(id) implies s.page_table@.contains_key(id)
            && !ms[s.page_table@[id] as int].is_dirty by {
            assert(s0.fresh@.contains(id));
            assert(s0.page_table@.contains_key(id));
        }
    }
    assert(s.lists_ok(-1)) by {
        assert forall|f: int| 0 <= f < s.size() implies (#[trigger] s.replacer.can_evict(f) <==> f
            != -1 && s.metadata@[f].page_id != INVALID_FRAME_ID && s.metadata@[f].pin_count == 0) by {
            assert(s0.replacer.can_evict(f) == s0.replacer.evictable@[f]);
        }
        let l0 = s0.free_list@;
        let l = s.free_list@;
        assert forall|i: int| 0 <= i < l0.len() implies (#[trigger] l0[i]) != frame_id by {
            assert(s0.metadata@[l0[i] as int] == FrameMetadata::empty());
        }
        assert forall|i: int| 0 <= i < l.len() implies (#[trigger] l[i]) < s.size() && l[i] != -1
            && s.metadata@[l[i] as int] == FrameMetadata::empty() by {
            if i < l0.len() {
                assert(l[i] == l0[i]);
            }
        }
        assert forall|f: int|
            0 <= f < s.size() && f != -1 && (#[trigger] s.metadata@[f]).page_id
                == INVALID_FRAME_ID implies l.contains(f as usize) by {
            if f != f0 {
                assert(s0.metadata@[f].page_id == INVALID_FRAME_ID);
                assert(l0.contains(f as usize));
                let i = choose|i: int| 0 <= i < l0.len() && l0[i] == f as usize;
                assert(l[i] == f as usize);
            } else {
                assert(!success);
                assert(l[l0.len() as int] == f as usize);
            }
        }
        assert(l.no_duplicates());
    }
}

/// A frame keeps its page; its marks change.
proof fn lemma_meta_changed(
    s0: BufferPoolShard,
    s: BufferPoolShard,
    page_id: u64,
    m: FrameMetadata,
)
    requires
        s0.shape(),
        s0.size() <= usize::MAX,
        s0.cached(page_id),
        m.page_id == page_id,
        s.pages == s0.pages,
        s.page_table == s0.page_table,
        s.free_list == s0.free_list,
        s.metadata@ == s0.metadata@.update(s0.frame(page_id), m),
        !m.is_dirty ==> m.rec_lsn is None,
        (s.min_rec_lsn == s0.min_rec_lsn && m.rec_lsn == s0.meta(page_id).rec_lsn
            && has_rec_lsn(m) == has_rec_lsn(s0.meta(page_id))) || is_least(
            s.min_rec_lsn,
            s.metadata@,
        ),
        s.fresh@ == (if m.is_dirty && !s0.meta(page_id).is_dirty {
            s0.fresh@.remove(page_id)
        } else {
            s0.fresh@
        }) || s.fresh@ == s0.fresh@.remove(page_id),
        s.replacer.wf(),
        s.replacer.evictable@ == s0.replacer.evictable@.update(
            s0.frame(page_id),
            m.pin_count == 0,
        ) || (s.replacer == s0.replacer && (m.pin_count == 0 <==> s0.meta(page_id).pin_count == 0)),
    ensures
        s.shape(),
{
    let ms0 = s0.metadata@;
    let ms = s.metadata@;
    let f0 = s0.frame(page_id);
    assert(s0.page_table@.contains_key(page_id));
    assert(is_least(s.min_rec_lsn, ms)) by {
        if !is_least(s.min_rec_lsn, ms) {
            assert forall|f: int| 0 <= f < ms.len() implies has_rec_lsn(#[trigger] ms[f])
                == has_rec_lsn(ms0[f]) && ms[f].rec_lsn == ms0[f].rec_lsn by {}
            if let Some(x) = s.min_rec_lsn {
                let w = choose|f: int|
                    0 <= f < ms0.len() && has_rec_lsn(#[trigger] ms0[f]) && ms0[f].rec_lsn == Some(
                        x,
                    );
                assert(has_rec_lsn(ms[w]));
            }
        }
    }
    assert(s.tables_ok());
    assert(s.marks_ok()) by {
        assert forall|id: u64| #[trigger]
            s.fresh@.contains(id) implies s.page_table@.contains_key(id)
            && !ms[s.page_table@[id] as int].is_dirty by {
            assert(s0.fresh@.contains(id));
            assert(s0.page_table@.contains_key(id));
        }
    }
    assert(s.lists_ok(-1)) by {
        assert forall|f: int| 0 <= f < s.size() implies (#[trigger] s.replacer.can_evict(f) <==> f
            != -1 && s.metadata@[f].page_id != INVALID_FRAME_ID && s.metadata@[f].pin_count == 0) by {
            assert(s0.replacer.can_evict(f) == s0.replacer.evictable@[f]);
        }
        assert forall|f: int|
            0 <= f < s.size() && f != -1 && (#[trigger] s.metadata@[f]).page_id
                == INVALID_FRAME_ID implies s.free_list@.contains(f as usize) by {
            assert(s0.metadata@[f].page_id == INVALID_FRAME_ID);
        }
        assert forall|i: int| 0 <= i < s.free_list@.len() implies (#[trigger] s.free_list@[i])
            < s.size() && s.free_list@[i] != -1 && s.metadata@[s.free_list@[i] as int]
            == FrameMetadata::empty() by {
            assert(s0.metadata@[s0.free_list@[i] as int] == FrameMetadata::empty());
        }
    }
}

/// A pinned page gets one more pin.
pub open spec fn pinned_again(s0: BufferPoolShard, s: BufferPoolShard, page_id: u64) -> bool {
    &&& s.pages == s0.pages
    &&& s.page_table == s0.page_table
    &&& s.fresh == s0.fresh
    &&& s.last_checkpoint_redo_point == s0.last_checkpoint_redo_point
    &&& s.metadata@ == s0.metadata@.update(
        s0.frame(page_id),
        FrameMetadata {
            pin_count: (s0.meta(page_id).pin_count + 1) as u64,
            ..s0.meta(page_id)
        },
    )
}

/// Which frames hold a page that has changed.
pub open spec fn changed(ms: Seq<FrameMetadata>) -> Seq<bool> {
    Seq::new(ms.len(), |f: int| ms[f].is_dirty)
}

/// Whether the clock comes to frame `f` within `n` stops before it: a page that has
/// changed is written when the hand stops at it, and stays for another turn; the first
/// stop at a page that has not changed is the last.
pub open spec fn comes_to(c: ClockReplacer, dirty: Seq<bool>, f: int, n: nat) -> bool
    decreases n,
{
    ||| c.is_victim(f) && !dirty[f]
    ||| n > 0 && exists|g: int, c2: ClockReplacer|
        {
            &&& c.is_victim(g)
            &&& dirty[g]
            &&& #[trigger] c.spared(g, c2)
            &&& comes_to(c2, dirty.update(g, false), f, (n - 1) as nat)
        }
}

/// A page that was not cached gets a frame: it is to be loaded. Pages in use
/// stay, and so does what the pool and the file hold of all pages.
pub open spec fn taken(
    s0: BufferPoolShard,
    d0: DiskManager,
    s: BufferPoolShard,
    d: DiskManager,
    page_id: u64,
) -> bool {
    &&& s.shape()
    &&& s.sync(d)
    &&& s.size() == s0.size()
    &&& s.last_checkpoint_redo_point == s0.last_checkpoint_redo_point
    &&& s.cached(page_id)
    &&& s.meta(page_id) == (FrameMetadata {
        page_id,
        pin_count: 1,
        is_dirty: false,
        loading: true,
        rec_lsn: None,
    })
    &&& !s.fresh@.contains(page_id)
    &&& forall|f: int|
        0 <= f < s.size() && f != s.frame(page_id) ==> !(#[trigger] s.metadata@[f]).loading
    &&& forall|id: u64|
        id != page_id && s0.holds(id, d0) is Some ==> #[trigger] s.holds(id, d) == s0.holds(id, d0)
    &&& forall|id: u64|
        id != page_id && #[trigger] s0.cached(id) && s0.meta(id).pin_count > 0 ==> s.cached(id)
            && s.frame(id) == s0.frame(id) && s.bytes(id) == s0.bytes(id) && s.meta(id) == s0.meta(
            id,
        )
    &&& forall|id: u64|
        id != page_id && #[trigger] s.cached(id) ==> s0.cached(id) && s.meta(id).pin_count
            == s0.meta(id).pin_count && (s.meta(id).is_dirty ==> s0.meta(id).is_dirty)
    &&& forall|id: u64| !s0.cached(id) ==> #[trigger] d.at(id) == d0.at(id)
    &&& d0.num_pages <= d.num_pages
    &&& d.num_pages == d0.num_pages || s0.cached((d.num_pages - 1) as u64)
    &&& written_from(s0, d0, d)
}

proof fn lemma_repinned(
    s0: BufferPoolShard,
    s: BufferPoolShard,
    d: DiskManager,
    page_id: u64,
    m: FrameMetadata,
)
    requires
        s0.wf(d),
        s0.cached(page_id),
        s0.size() <= usize::MAX,
        m == (FrameMetadata {
            pin_count: (s0.meta(page_id).pin_count + 1) as u64,
            ..s0.meta(page_id)
        }),
        s0.meta(page_id).pin_count < u64::MAX,
        s.pages == s0.pages,
        s.page_table == s0.page_table,
        s.fresh == s0.fresh,
        s.free_list == s0.free_list,
        s.min_rec_lsn == s0.min_rec_lsn,
        s.last_checkpoint_redo_point == s0.last_checkpoint_redo_point,
        s.metadata@ == s0.metadata@.update(s0.frame(page_id), m),
        s.replacer.wf(),
        s0.meta(page_id).pin_count == 0 ==> s.replacer.evictable@ == s0.replacer.evictable@.update(
            s0.frame(page_id),
            false,
        ),
        s0.meta(page_id).pin_count > 0 ==> s.replacer == s0.replacer,
    ensures
        s.wf(d),
        pinned_again(s0, s, page_id),
{
    let f0 = s0.frame(page_id);
    let ms0 = s0.metadata@;
    let ms = s.metadata@;
    assert(s0.page_table@.contains_key(page_id));
    assert(is_least(s.min_rec_lsn, ms)) by {
        assert forall|f: int| 0 <= f < ms.len() implies has_rec_lsn(#[trigger] ms[f])
            == has_rec_lsn(ms0[f]) && ms[f].rec_lsn == ms0[f].rec_lsn by {}
        if let Some(x) = s.min_rec_lsn {
            let w = choose|f: int|
                0 <= f < ms0.len() && has_rec_lsn(#[trigger] ms0[f]) && ms0[f].rec_lsn == Some(x);
            assert(has_rec_lsn(ms[w]));
        }
    }
    assert(s.tables_ok());
    assert(s.marks_ok());
    assert forall|f: int| 0 <= f < s.size() implies (#[trigger] s.replacer.can_evict(f) <==> f != -1
        && s.metadata@[f].page_id != INVALID_FRAME_ID && s.metadata@[f].pin_count == 0) by {
        assert(s0.replacer.can_evict(f) == s0.replacer.evictable@[f]);
    }
    assert forall|f: int|
        0 <= f < s.size() && f != -1 && (#[trigger] s.metadata@[f]).page_id
            == INVALID_FRAME_ID implies s.free_list@.contains(f as usize) by {
        assert(s0.metadata@[f].page_id == INVALID_FRAME_ID);
    }
    assert forall|id: u64| #[trigger]
        s.cached(id) && !s.meta(id).is_dirty && s.meta(id).pin_count == 0 && !s.fresh@.contains(
            id,
        ) implies s.in_sync(id, d) by {
        assert(s0.cached(id));
        assert(s0.page_table@.contains_key(id));
        assert(s0.in_sync(id, d));
    }
}

/// Only the lists of a shard have changed.
proof fn lemma_same_frames(s0: BufferPoolShard, s: BufferPoolShard, d: DiskManager)
    requires
        s0.wf(d),
        s.shape(),
        s.pages == s0.pages,
        s.metadata == s0.metadata,
        s.page_table == s0.page_table,
        s.fresh == s0.fresh,
    ensures
        s.wf(d),
{
    assert forall|id: u64| #[trigger]
        s.cached(id) && !s.meta(id).is_dirty && s.meta(id).pin_count == 0 && !s.fresh@.contains(
            id,
        ) implies s.in_sync(id, d) by {
        assert(s0.cached(id));
        assert(s0.in_sync(id, d));
    }
}

proof fn lemma_flushed_same(
    s0: BufferPoolShard,
    d0: DiskManager,
    w0: Wal,
    s1: BufferPoolShard,
    s: BufferPoolShard,
    d: DiskManager,
    w: Wal,
)
    requires
        flushed(s0, d0, w0, s1, d, w),
        s.wf(d),
        s.pages == s1.pages,
        s.metadata == s1.metadata,
        s.page_table == s1.page_table,
        s.fresh == s1.fresh,
        s.last_checkpoint_redo_point == s1.last_checkpoint_redo_point,
    ensures
        flushed(s0, d0, w0, s, d, w),
{
    assert forall|id: u64| s0.holds(id, d0) is Some implies #[trigger] s.holds(id, d) == s0.holds(
        id,
        d0,
    ) by {
        assert(s1.holds(id, d) == s0.holds(id, d0));
    }
    assert forall|f: int| 0 <= f < s.size() implies (#[trigger] s.metadata@[f] == s0.metadata@[f]
        || s.metadata@[f] == s0.metadata@[f].clean()) by {
        assert(s1.metadata@[f] == s0.metadata@[f] || s1.metadata@[f] == s0.metadata@[f].clean());
    }
}

#[verifier::rlimit(30)]
proof fn lemma_taken(
    s0: BufferPoolShard,
    d: DiskManager,
    s: BufferPoolShard,
    page_id: u64,
    frame_id: usize,
    old_id: u64,
)
    requires
        s0.wf(d),
        page_id != INVALID_FRAME_ID,
        !s0.cached(page_id),
        frame_id < s0.size(),
        s0.metadata@[frame_id as int].page_id == old_id,
        s0.metadata@[frame_id as int].pin_count == 0,
        !s0.metadata@[frame_id as int].is_dirty,
        s0.size() <= usize::MAX,
        s.pages == s0.pages,
        s.min_rec_lsn == s0.min_rec_lsn,
        s.last_checkpoint_redo_point == s0.last_checkpoint_redo_point,
        s.fresh@ == s0.fresh@.remove(old_id),
        s.metadata@ == s0.metadata@.update(
            frame_id as int,
            FrameMetadata {
                page_id,
                pin_count: 1,
                is_dirty: false,
                loading: true,
                rec_lsn: None,
            },
        ),
        s.page_table@ == (if old_id == INVALID_FRAME_ID {
            s0.page_table@
        } else {
            s0.page_table@.remove(old_id)
        }).insert(page_id, frame_id),
        // the lists without the frame
        s.free_list@.no_duplicates(),
        forall|i: int|
            0 <= i < s.free_list@.len() ==> (#[trigger] s.free_list@[i]) < s0.size()
                && s.free_list@[i] != frame_id && s0.metadata@[s.free_list@[i] as int]
                == FrameMetadata::empty(),
        forall|f: int|
            0 <= f < s0.size() && f != frame_id && (#[trigger] s0.metadata@[f]).page_id
                == INVALID_FRAME_ID ==> s.free_list@.contains(f as usize),
        s.replacer.wf(),
        s.replacer.size() == s0.size(),
        forall|f: int|
            0 <= f < s0.size() ==> (#[trigger] s.replacer.can_evict(f) <==> f != frame_id
                && s0.metadata@[f].page_id != INVALID_FRAME_ID && s0.metadata@[f].pin_count == 0),
    ensures
        taken(s0, d, s, d, page_id),
{
    let ms0 = s0.metadata@;
    let ms = s.metadata@;
    let f0 = frame_id as int;
    assert(is_least(s.min_rec_lsn, ms)) by {
        assert forall|f: int| 0 <= f < ms.len() implies has_rec_lsn(#[trigger] ms[f])
            == has_rec_lsn(ms0[f]) && (has_rec_lsn(ms[f]) ==> ms[f].rec_lsn == ms0[f].rec_lsn) by {}
        if let Some(x) = s.min_rec_lsn {
            let w = choose|f: int|
                0 <= f < ms0.len() && has_rec_lsn(#[trigger] ms0[f]) && ms0[f].rec_lsn == Some(x);
            assert(has_rec_lsn(ms[w]));
        }
    }
    assert(s.tables_ok()) by {
        assert forall|id: u64| #[trigger] s.page_table@.contains_key(id) implies id
            != INVALID_FRAME_ID && s.page_table@[id] < ms.len() && ms[s.page_table@[id] as int].page_id
            == id by {
            if id != page_id {
                assert(s0.page_table@.contains_key(id));
            }
        }
        assert forall|f: int|
            0 <= f < ms.len() && (#[trigger] ms[f]).page_id
                != INVALID_FRAME_ID implies s.page_table@.contains_key(ms[f].page_id)
            && s.page_table@[ms[f].page_id] == f by {
            if f != f0 {
                assert(ms0[f].page_id != INVALID_FRAME_ID);
                assert(s0.page_table@.contains_key(ms0[f].page_id));
            }
        }
    }
    assert forall|id: u64| id != page_id && s0.cached(id) && id != old_id implies #[trigger] s.cached(
        id,
    ) && s.frame(id) == s0.frame(id) && s.frame(id) != f0 && s.meta(id) == s0.meta(id) && s.bytes(
        id,
    ) == s0.bytes(id) by {
        assert(s0.page_table@.contains_key(id));
    }
    assert forall|id: u64| #[trigger] s.cached(id) && id != page_id implies s0.cached(id) && id
        != old_id by {}
    assert(s.marks_ok()) by {
        assert forall|id: u64| #[trigger]
            s.fresh@.contains(id) implies s.page_table@.contains_key(id)
            && !ms[s.page_table@[id] as int].is_dirty by {
            assert(s0.fresh@.contains(id));
            assert(s0.cached(id));
            assert(s.cached(id));
        }
    }
    assert(s.lists_ok(-1)) by {
        assert forall|f: int| 0 <= f < s.size() implies (#[trigger] s.replacer.can_evict(f) <==> f
            != -1 && s.metadata@[f].page_id != INVALID_FRAME_ID && s.metadata@[f].pin_count == 0) by {
        }
        assert forall|f: int|
            0 <= f < s.size() && f != -1 && (#[trigger] s.metadata@[f]).page_id
                == INVALID_FRAME_ID implies s.free_list@.contains(f as usize) by {
            assert(f != f0);
            assert(s0.metadata@[f].page_id == INVALID_FRAME_ID);
        }
    }
    assert forall|id: u64| #[trigger]
        s.cached(id) && !s.meta(id).is_dirty && s.meta(id).pin_count == 0 && !s.fresh@.contains(
            id,
        ) implies s.in_sync(id, d) by {
        assert(id != page_id);
        assert(s0.cached(id));
        assert(s0.in_sync(id, d));
    }
    assert(!s.fresh@.contains(page_id)) by {
        if s0.fresh@.contains(page_id) {
            assert(s0.page_table@.contains_key(page_id));
        }
    }
    assert forall|id: u64| id != page_id && s0.holds(id, d) is Some implies #[trigger] s.holds(id, d)
        == s0.holds(id, d) by {
        if s0.cached(id) {
            if id == old_id {
                assert(s0.page_table@.contains_key(id));
                assert(s0.frame(id) == f0);
                assert(!s.cached(id));
            } else {
                assert(s.cached(id));
            }
        } else {
            assert(!s.cached(id));
        }
    }
    assert forall|id: u64|
        id != page_id && #[trigger] s0.cached(id) && s0.meta(id).pin_count > 0 implies s.cached(id)
        && s.frame(id) == s0.frame(id) && s.bytes(id) == s0.bytes(id) && s.meta(id) == s0.meta(
        id,
    ) by {
        assert(s0.page_table@.contains_key(id));
        assert(id != old_id);
        assert(s.cached(id));
    }
}

proof fn lemma_flushed_taken(
    s0: BufferPoolShard,
    d0: DiskManager,
    w0: Wal,
    s1: BufferPoolShard,
    d: DiskManager,
    w: Wal,
    s: BufferPoolShard,
    page_id: u64,
)
    requires
        s0.tables_ok(),
        s0.marks_ok(),
        flushed(s0, d0, w0, s1, d, w),
        taken(s1, d, s, d, page_id),
        !s0.cached(page_id),
        forall|f: int|
            0 <= f < s0.size() && (#[trigger] s0.metadata@[f]).pin_count > 0 ==> s1.metadata@[f]
                == s0.metadata@[f],
    ensures
        taken(s0, d0, s, d, page_id),
{
    assert forall|id: u64| id != page_id && s0.holds(id, d0) is Some implies #[trigger] s.holds(
        id,
        d,
    ) == s0.holds(id, d0) by {
        assert(s1.holds(id, d) == s0.holds(id, d0));
    }
    assert forall|id: u64|
        id != page_id && #[trigger] s0.cached(id) && s0.meta(id).pin_count > 0 implies s.cached(id)
        && s.frame(id) == s0.frame(id) && s.bytes(id) == s0.bytes(id) && s.meta(id) == s0.meta(
        id,
    ) by {
        assert(s0.page_table@.contains_key(id));
        assert(s1.cached(id));
        assert(s1.metadata@[s0.frame(id)] == s0.metadata@[s0.frame(id)]);
    }
    assert forall|id: u64| !s0.cached(id) implies #[trigger] d.at(id) == d0.at(id) by {
        assert(!s1.cached(id));
    }
    assert forall|id: u64| id != page_id && #[trigger] s.cached(id) implies s0.cached(id) && s.meta(
        id,
    ).pin_count == s0.meta(id).pin_count && (s.meta(id).is_dirty ==> s0.meta(id).is_dirty) by {
        assert(s1.cached(id));
        assert(s0.page_table@.contains_key(id));
        assert(s1.metadata@[s0.frame(id)].pin_count == s0.metadata@[s0.frame(id)].pin_count);
    }
}

/// Making the file durable changes nothing else.
pub proof fn lemma_synced(d1: DiskManager, d: DiskManager, d0: DiskManager, w0: Wal, w: Wal)
    requires
        io_ok(d0, w0, d1, w),
        d.wf(),
        d.pages == d1.pages,
        d.num_pages == d1.num_pages,
        d.out@ == d1.out@.push(IoView::SyncData),
    ensures
        io_ok(d0, w0, d, w),
        forall|id: u64| #[trigger] d.at(id) == d1.at(id),
{
    lemma_log_of(d1.out@, IoView::SyncData);
    assert(led(d0, w0, d, w)) by {
        let n = d0.out@.len() as int;
        assert forall|k: int| 0 <= k < n implies #[trigger] d.out@[k] == d0.out@[k] by {
            assert(d1.out@[k] == d0.out@[k]);
        }
        assert forall|k: int| n <= k < d.out@.len() implies #[trigger] announced(
            d0,
            w0,
            d,
            w,
            k,
        ) by {
            if k < d1.out@.len() {
                assert(announced(d0, w0, d1, w, k));
                assert(d.out@.take(k) =~= d1.out@.take(k));
            }
        }
    }
    assert forall|id: u64| #[trigger] d.at(id) == d1.at(id) by {}
    if covered(d0, w0) {
        assert forall|id: u64| #[trigger]
            d.pages@.contains_key(id) implies (lsn_of(d.at(id)) == 0 || (
        w.flushed_lsn matches Some(f) && lsn_of(d.at(id)) <= f)) by {
            assert(d1.pages@.contains_key(id));
        }
    }
    assert forall|id: u64| intact(d0, id) implies #[trigger] intact(d, id) by {
        assert(intact(d1, id));
    }
}

/// What flushing does to a shard, the file and the log: pages stay where they are
/// and keep their bytes, some become clean, and the pool and the file together
/// hold what they held.
pub open spec fn flushed(
    s0: BufferPoolShard,
    d0: DiskManager,
    w0: Wal,
    s: BufferPoolShard,
    d: DiskManager,
    w: Wal,
) -> bool {
    &&& s.wf(d)
    &&& io_ok(d0, w0, d, w)
    &&& s.pages@ == s0.pages@
    &&& s.page_table@ == s0.page_table@
    &&& s.fresh == s0.fresh
    &&& s.size() == s0.size()
    &&& s.last_checkpoint_redo_point == s0.last_checkpoint_redo_point
    &&& forall|f: int|
        0 <= f < s.size() ==> (#[trigger] s.metadata@[f] == s0.metadata@[f] || s.metadata@[f]
            == s0.metadata@[f].clean())
    &&& forall|id: u64|
        s0.holds(id, d0) is Some ==> #[trigger] s.holds(id, d) == s0.holds(id, d0)
    &&& forall|id: u64| !s0.cached(id) ==> #[trigger] d.at(id) == d0.at(id)
    &&& d.num_pages == d0.num_pages || s0.cached((d.num_pages - 1) as u64)
    &&& written_from(s0, d0, d)
    &&& flush_from(s0, d0, w0, w)
}

proof fn lemma_flushed_one(
    s0: BufferPoolShard,
    d0: DiskManager,
    w0: Wal,
    s: BufferPoolShard,
    d: DiskManager,
    w: Wal,
    page_id: u64,
    r: bool,
)
    requires
        s0.wf(d0),
        d0.wf(),
        s.shape(),
        io_ok(d0, w0, d, w),
        s.pages == s0.pages,
        s.page_table == s0.page_table,
        s.fresh == s0.fresh,
        s.last_checkpoint_redo_point == s0.last_checkpoint_redo_point,
        r == (s0.cached(page_id) && s0.meta(page_id).is_dirty),
        !r ==> s == s0 && d == d0 && w == w0,
        r ==> {
            &&& s.metadata@ == s0.metadata@.update(s0.frame(page_id), s0.meta(page_id).clean())
            &&& d.at(page_id) == stamped(s0.bytes(page_id))
            &&& d.num_pages == (if page_id < d0.num_pages {
                d0.num_pages as int
            } else {
                page_id + 1
            })
            &&& forall|id: u64| id != page_id ==> #[trigger] d.at(id) == d0.at(id)
            &&& w.flushed_lsn == w0.flushed_lsn || w.flushed_lsn == Some(
                lsn_of(s0.bytes(page_id)),
            )
        },
    ensures
        flushed(s0, d0, w0, s, d, w),
{
    if r {
        let f0 = s0.frame(page_id);
        assert(s0.page_table@.contains_key(page_id));
        assert(s0.pages@[f0].0@.len() == PAGE_SIZE);
        law_stamp_verifies(s0.bytes(page_id));
        assert forall|id: u64| s0.cached(id) && id != page_id implies s0.frame(id) != f0
            && #[trigger] s.meta(id) == s0.meta(id) by {
            assert(s0.page_table@.contains_key(id));
            assert(s0.meta(id).page_id == id);
        }
        assert forall|id: u64| #[trigger]
            s.cached(id) && !s.meta(id).is_dirty && s.meta(id).pin_count == 0
                && !s.fresh@.contains(id) implies s.in_sync(id, d) by {
            if id != page_id {
                assert(s0.cached(id));
                assert(s.meta(id) == s0.meta(id));
                assert(s0.in_sync(id, d0));
            }
        }
        assert forall|id: u64| s0.holds(id, d0) is Some implies #[trigger] s.holds(id, d)
            == s0.holds(id, d0) by {
            if id != page_id {
                if s0.cached(id) {
                    assert(s.meta(id) == s0.meta(id));
                }
            } else {
                assert(s.meta(id) == s0.meta(id).clean());
                assert(!s0.fresh@.contains(id));
            }
        }
        assert forall|f: int| 0 <= f < s.size() implies (#[trigger] s.metadata@[f]
            == s0.metadata@[f] || s.metadata@[f] == s0.metadata@[f].clean()) by {}
        assert(written_from(s0, d0, d)) by {
            assert forall|id: u64|
                blank(#[trigger] d.at(id)) == blank(d0.at(id)) || s0.holds(id, d0) == Some(
                    blank(d.at(id)),
                ) by {}
        }
        assert(flush_from(s0, d0, w0, w)) by {
            lemma_blank(s0.bytes(page_id));
            assert(s0.holds(page_id, d0) is Some);
        }
    }
}

proof fn lemma_flushed_trans(
    s0: BufferPoolShard,
    d0: DiskManager,
    w0: Wal,
    s1: BufferPoolShard,
    d1: DiskManager,
    w1: Wal,
    s: BufferPoolShard,
    d: DiskManager,
    w: Wal,
)
    requires
        s0.tables_ok(),
        flushed(s0, d0, w0, s1, d1, w1),
        flushed(s1, d1, w1, s, d, w),
    ensures
        flushed(s0, d0, w0, s, d, w),
{
    assert forall|f: int| 0 <= f < s.size() implies (#[trigger] s.metadata@[f] == s0.metadata@[f]
        || s.metadata@[f] == s0.metadata@[f].clean()) by {
        assert(s1.metadata@[f] == s0.metadata@[f] || s1.metadata@[f] == s0.metadata@[f].clean());
    }
    assert forall|id: u64| s0.holds(id, d0) is Some implies #[trigger] s.holds(id, d) == s0.holds(
        id,
        d0,
    ) by {
        assert(s1.holds(id, d1) == s0.holds(id, d0));
    }
    assert forall|id: u64| !s0.cached(id) implies #[trigger] d.at(id) == d0.at(id) by {
        assert(d1.at(id) == d0.at(id));
        assert(!s1.cached(id));
    }
    lemma_written_trans(s0, d0, w0, s1, d1, w1, d);
    lemma_io_trans(d0, w0, d1, w1, d, w);
    assert(flush_from(s0, d0, w0, w)) by {
        if w.flushed_lsn != w1.flushed_lsn {
            let id = choose|id: u64|
                #![trigger s1.holds(id, d1)]
                s1.cached(id) && s1.meta(id).is_dirty && w.flushed_lsn == Some(
                    lsn_of(s1.holds(id, d1)->0),
                );
            lemma_held_before(s0, d0, w0, s1, d1, w1, id);
        }
    }
}

/// A page that has to be written had to be written before.
proof fn lemma_held_before(
    s0: BufferPoolShard,
    d0: DiskManager,
    w0: Wal,
    s1: BufferPoolShard,
    d1: DiskManager,
    w1: Wal,
    id: u64,
)
    requires
        s0.tables_ok(),
        flushed(s0, d0, w0, s1, d1, w1),
        s1.cached(id) && s1.meta(id).is_dirty,
    ensures
        s0.cached(id) && s0.meta(id).is_dirty,
        s0.holds(id, d0) == s1.holds(id, d1),
{
    assert(s0.page_table@.contains_key(id));
    assert(s1.metadata@[s0.frame(id)] == s0.metadata@[s0.frame(id)] || s1.metadata@[s0.frame(id)]
        == s0.metadata@[s0.frame(id)].clean());
}

proof fn lemma_written_trans(
    s0: BufferPoolShard,
    d0: DiskManager,
    w0: Wal,
    s1: BufferPoolShard,
    d1: DiskManager,
    w1: Wal,
    d: DiskManager,
)
    requires
        s0.tables_ok(),
        flushed(s0, d0, w0, s1, d1, w1),
        written_from(s1, d1, d),
    ensures
        written_from(s0, d0, d),
{
    assert forall|id: u64|
        blank(#[trigger] d.at(id)) == blank(d0.at(id)) || s0.holds(id, d0) == Some(
            blank(d.at(id)),
        ) by {
        assert(blank(d1.at(id)) == blank(d0.at(id)) || s0.holds(id, d0) == Some(
            blank(d1.at(id)),
        ));
        if blank(d.at(id)) != blank(d1.at(id)) {
            assert(s1.holds(id, d1) == Some(blank(d.at(id))));
            if s0.holds(id, d0) is None {
                if s1.cached(id) && s1.meta(id).is_dirty {
                    assert(s0.page_table@.contains_key(id));
                    assert(s1.metadata@[s0.frame(id)] == s0.metadata@[s0.frame(id)]
                        || s1.metadata@[s0.frame(id)] == s0.metadata@[s0.frame(id)].clean());
                }
            }
        }
    }
}

/// Whether every page in the file is as it was, or as the pool held it.
pub open spec fn written_from(s0: BufferPoolShard, d0: DiskManager, d: DiskManager) -> bool {
    forall|id: u64|
        blank(#[trigger] d.at(id)) == blank(d0.at(id)) || s0.holds(id, d0) == Some(blank(d.at(id)))
}

/// Whether the log has been made durable no further than a page asked for.
pub open spec fn flush_from(s0: BufferPoolShard, d0: DiskManager, w0: Wal, w: Wal) -> bool {
    w.flushed_lsn == w0.flushed_lsn || exists|id: u64|
        #![trigger s0.holds(id, d0)]
        s0.cached(id) && s0.meta(id).is_dirty && w.flushed_lsn == Some(
            lsn_of(s0.holds(id, d0)->0),
        )
}

/// Whether a page has its checksum, if it is in the file.
pub open spec fn intact(d: DiskManager, id: u64) -> bool {
    id < d.num_pages ==> verifies(d.at(id))
}

/// Every page in the file has its checksum.
pub open spec fn sound(d: DiskManager) -> bool {
    forall|id: u64| #[trigger] intact(d, id)
}

/// The log is durable as far as the pages in the file have been changed.
pub open spec fn covered(d: DiskManager, w: Wal) -> bool {
    forall|id: u64| #[trigger]
        d.pages@.contains_key(id) ==> lsn_of(d.at(id)) == 0 || (w.flushed_lsn matches Some(f)
            && lsn_of(d.at(id)) <= f)
}

/// Whether a page that the host is asked to write comes after the records that have
/// changed it: they were durable before, or all records that were pending come first.
pub open spec fn announced(d0: DiskManager, w0: Wal, d: DiskManager, w: Wal, k: int) -> bool {
    d.out@[k] matches IoView::WritePage(_, b) ==> {
        &&& !w.needs_flush(lsn_of(b))
        &&& (log_of(d.out@.take(k)) == log_of(d0.out@) && !w0.needs_flush(lsn_of(b))) || log_of(
            d.out@.take(k),
        ) == log_of(d0.out@) + w0.pending@
    }
}

/// Whether the log is durable as far as the pages that wait for the host have been
/// changed.
pub open spec fn backed(d: DiskManager, w: Wal) -> bool {
    forall|k: int|
        0 <= k < d.out@.len() ==> ((#[trigger] d.out@[k]) matches IoView::WritePage(_, b)
            ==> !w.needs_flush(lsn_of(b)))
}

pub proof fn lemma_backed(d0: DiskManager, w0: Wal, d: DiskManager, w: Wal)
    requires
        backed(d0, w0),
        io_ok(d0, w0, d, w),
    ensures
        backed(d, w),
{
    assert forall|k: int| 0 <= k < d.out@.len() && (#[trigger] d.out@[k]) is WritePage implies !w.needs_flush(
        lsn_of(d.out@[k]->WritePage_1),
    ) by {
        if k < d0.out@.len() {
            assert(d.out@[k] == d0.out@[k]);
        } else {
            assert(announced(d0, w0, d, w, k));
        }
    }
}

/// Whether work on the file has added to what waits for the host, in an order that
/// keeps the log ahead of the pages.
pub open spec fn led(d0: DiskManager, w0: Wal, d: DiskManager, w: Wal) -> bool {
    &&& d0.out@.len() <= d.out@.len()
    &&& forall|k: int| 0 <= k < d0.out@.len() ==> #[trigger] d.out@[k] == d0.out@[k]
    &&& forall|k: int| d0.out@.len() <= k < d.out@.len() ==> #[trigger] announced(d0, w0, d, w, k)
}

/// What all work on the file and the log respects: no record is lost, changed or
/// moved, the log stays ahead of the pages, and intact pages stay intact.
pub open spec fn io_ok(d0: DiskManager, w0: Wal, d: DiskManager, w: Wal) -> bool {
    &&& d.wf()
    &&& w.next_lsn == w0.next_lsn
    &&& log_of(d.out@) + w.pending@ == log_of(d0.out@) + w0.pending@
    &&& (w.pending@ == w0.pending@ && w.flushed_lsn == w0.flushed_lsn) || w.pending@.len() == 0
    &&& d0.num_pages <= d.num_pages
    &&& covered(d0, w0) ==> covered(d, w)
    &&& forall|id: u64| intact(d0, id) ==> #[trigger] intact(d, id)
    &&& (w0.flushed_lsn matches Some(f) ==> (w.flushed_lsn matches Some(g) && f <= g))
    &&& led(d0, w0, d, w)
}

pub proof fn lemma_same_front(a: Seq<u8>, b: Seq<u8>, c: Seq<u8>)
    requires
        a + c == b + c,
    ensures
        a == b,
{
    assert(a.add(c).len() == a.len() + c.len());
    assert(b.add(c).len() == b.len() + c.len());
    assert forall|i: int| 0 <= i < a.len() implies a[i] == b[i] by {
        assert((a + c)[i] == a[i]);
        assert((b + c)[i] == b[i]);
    }
    assert(a =~= b);
}

/// Work on the file and the log, in two steps.
pub proof fn lemma_io_trans(
    d0: DiskManager,
    w0: Wal,
    d1: DiskManager,
    w1: Wal,
    d: DiskManager,
    w: Wal,
)
    requires
        io_ok(d0, w0, d1, w1),
        io_ok(d1, w1, d, w),
    ensures
        io_ok(d0, w0, d, w),
{
    let n = d0.out@.len() as int;
    let m = d1.out@.len() as int;
    assert forall|k: int| 0 <= k < n implies #[trigger] d.out@[k] == d0.out@[k] by {
        assert(d1.out@[k] == d0.out@[k]);
    }
    if w1.pending@ == w0.pending@ {
        lemma_same_front(log_of(d1.out@), log_of(d0.out@), w1.pending@);
    } else {
        assert(log_of(d1.out@) + w1.pending@ =~= log_of(d1.out@));
    }
    assert forall|k: int| n <= k < d.out@.len() implies #[trigger] announced(d0, w0, d, w, k) by {
        if k < m {
            assert(announced(d0, w0, d1, w1, k));
            assert(d.out@[k] == d1.out@[k]);
            assert(d.out@.take(k) =~= d1.out@.take(k));
        } else {
            assert(announced(d1, w1, d, w, k));
        }
    }
}

/// Only a frame without users is taken for another page.
pub proof fn law_frames_in_use_stay(c: ClockReplacer, dirty: Seq<bool>, f: int, n: nat)
    requires
        c.wf(),
        comes_to(c, dirty, f, n),
    ensures
        0 <= f < c.evictable@.len(),
        c.evictable@[f],
    decreases n,
{
    if !(c.is_victim(f) && !dirty[f]) {
        let (g, c2) = choose|g: int, c2: ClockReplacer|
            {
                &&& c.is_victim(g)
                &&& dirty[g]
                &&& #[trigger] c.spared(g, c2)
                &&& comes_to(c2, dirty.update(g, false), f, (n - 1) as nat)
            };
        law_frames_in_use_stay(c2, dirty.update(g, false), f, (n - 1) as nat);
    }
}

/// Where the hand stops first at a page that has not changed, that page goes, and no other.
pub proof fn law_clean_pages_go_at_once(c: ClockReplacer, dirty: Seq<bool>, f: int, g: int, n: nat)
    requires
        c.wf(),
        comes_to(c, dirty, f, n),
        c.is_victim(g),
        !dirty[g],
    ensures
        f == g,
{
    if !(c.is_victim(f) && !dirty[f]) {
        let (x, c2) = choose|x: int, c2: ClockReplacer|
            {
                &&& c.is_victim(x)
                &&& dirty[x]
                &&& #[trigger] c.spared(x, c2)
                &&& comes_to(c2, dirty.update(x, false), f, (n - 1) as nat)
            };
        law_the_hand_goes_up_and_round(c, x, g);
    } else {
        law_the_hand_goes_up_and_round(c, f, g);
    }
}

} // verus!
