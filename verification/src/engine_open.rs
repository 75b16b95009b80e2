//! Opening a database that a crash or a shutdown has left behind.

use vstd::prelude::*;

use crate::change::{replay, LogEntry, Pages};
use crate::constants::{INVALID_FRAME_ID, PAGE_SIZE};
use crate::disk::{log_of, DiskManager, IoView};
use crate::engine::Engine;
use crate::error::{BufferPoolError, EngineError, IndexError};
use crate::history::{
    alike, ids_ok, law_log_reads_back, law_redo_restores, lemma_log_clean, lemma_state_wf, log_ok,
    log_records, page_in, page_past, present, recoverable, shown, shown_at, stamp, state,
};
use crate::index::BTreeIndex;
use crate::index_open::{indexes, is_index, lemma_alike_indexes, lemma_alike_sym, tree_of};
use crate::key::Key;
use crate::log_codec::block_of;
use crate::manager::{load_error, BufferPoolManager};
use crate::page::{blank, lemma_blank, lsn_of, verify_checksum, META};
use crate::pool_ops::{at_rest, content, lemma_new_solid, solid};
use crate::recovery::{
    all_numbered, all_sane, blank_manager, contents, fates_restored, legible, next_txn_of,
    record_views, restored, sane, tame, verify_pages, RecoveryManager,
};
use crate::shard::{covered, intact, io_ok, lemma_backed, sound};
use crate::store::{follows, guarded, known, lemma_past_number, reopened, rooted, PageStore};
use crate::trace::sustained;
use crate::transaction_manager::TransactionManager;
use crate::unique::{agree, lemma_reads, lemma_shown_agree, reads};
use crate::wal::{
    block_clean, last_lsn, lsn_after, record_clean, records_from, Wal, WalRecord, WalRecordView,
};

verus! {

/// Whether the files are what a database with this history leaves behind when it
/// stops at any time: the log holds the records of the history, and every page is
/// what it was at some time, with the log ahead of it. The last state of the
/// history is an index.
pub open spec fn left_behind<K: Key>(
    d: DiskManager,
    w: Wal,
    rs: Seq<WalRecordView>,
    base: Pages,
    log: Seq<LogEntry>,
) -> bool {
    &&& d.wf()
    &&& d.out@ == Seq::<IoView>::empty()
    &&& w.pending@ == Seq::<u8>::empty()
    &&& w.next_lsn == lsn_after(rs)
    &&& w.flushed_lsn == last_lsn(rs)
    &&& log_records(log) == rs
    &&& all_sane(rs)
    &&& follows(w.next_lsn, base, log)
    &&& forall|id: u64| page_past(base, log, id, blank(#[trigger] d.at(id)))
    &&& is_index::<K>(replay(base, log))
}

/// Whether the first page of a file is a superblock.
pub open spec fn has_superblock(d: DiskManager) -> bool {
    d.at(0)[0] == META
}

/// Why a file without a superblock is refused: its first page cannot be read, or is
/// something else.
pub open spec fn no_superblock_error(d: DiskManager) -> IndexError {
    match load_error(d, 0) {
        Some(e) => IndexError::BufferPool(e),
        None => IndexError::CorruptMetadata,
    }
}

/// What a database leaves behind has a superblock.
pub proof fn law_files_have_superblock<K: Key>(
    d: DiskManager,
    w: Wal,
    rs: Seq<WalRecordView>,
    base: Pages,
    log: Seq<LogEntry>,
)
    requires
        left_behind::<K>(d, w, rs, base, log),
    ensures
        has_superblock(d),
{
    let b = blank(d.at(0));
    assert(page_past(base, log, 0, b));
    let k = choose|k: int| #[trigger] shown_at(base, log, k, 0, b);
    assert(b[0] == META);
}

/// Looks at the first page of a file: why the file is refused, if it is.
fn check_superblock(d: &DiskManager) -> (r: Result<(), IndexError>)
    requires
        d.wf(),
    ensures
        r is Ok <==> has_superblock(*d),
        r matches Err(e) ==> e == no_superblock_error(*d),
{
    match d.read_page(0) {
        Err(e) => Err(IndexError::BufferPool(BufferPoolError::Disk(e))),
        Ok(b) => {
            if b[0] == META {
                return Ok(());
            }
            if let Err((expected, actual)) = verify_checksum(&b) {
                return Err(
                    IndexError::BufferPool(
                        BufferPoolError::PageCorruption { page_id: 0, expected, actual },
                    ),
                );
            }
            Err(IndexError::CorruptMetadata)
        },
    }
}

proof fn lemma_last_number(rs: Seq<WalRecordView>, i: int)
    requires
        0 <= i < rs.len(),
    ensures
        rs[i].lsn < lsn_after(rs),
    decreases rs.len(),
{
    if i < rs.len() - 1 {
        lemma_last_number(rs.drop_last(), i);
        assert(rs.drop_last()[i] == rs[i]);
    }
}

/// In a list with growing numbers the last one is the largest.
proof fn lemma_last_is_largest(log: Seq<LogEntry>)
    requires
        log.len() > 0,
        forall|i: int, j: int|
            0 <= i < j < log.len() ==> (#[trigger] log[i]).lsn < (#[trigger] log[j]).lsn,
    ensures
        lsn_after(log_records(log)) == log.last().lsn + 1,
        last_lsn(log_records(log)) == Some(log.last().lsn),
    decreases log.len(),
{
    let rs = log_records(log);
    assert(rs.last().lsn == log.last().lsn);
    if log.len() > 1 {
        let l2 = log.drop_last();
        assert(rs.drop_last() =~= log_records(l2));
        assert forall|i: int, j: int| 0 <= i < j < l2.len() implies (#[trigger] l2[i]).lsn < (
        #[trigger] l2[j]).lsn by {
            assert(l2[i] == log[i] && l2[j] == log[j]);
        }
        lemma_last_is_largest(l2);
        assert(log[log.len() - 2].lsn < log[log.len() - 1].lsn);
    } else {
        assert(rs.drop_last() =~= Seq::<WalRecordView>::empty());
        assert(lsn_after(rs.drop_last()) == 0);
    }
}

/// The log is ahead of the pages that a database leaves behind.
proof fn lemma_left_covered<K: Key>(
    d: DiskManager,
    w: Wal,
    rs: Seq<WalRecordView>,
    base: Pages,
    log: Seq<LogEntry>,
)
    requires
        left_behind::<K>(d, w, rs, base, log),
    ensures
        covered(d, w),
        forall|id: u64| known(blank(#[trigger] d.at(id)), w.next_lsn),
        all_numbered(rs, w.next_lsn),
        w.flushed_lsn matches Some(f) ==> f < w.next_lsn,
{
    assert(log_ok(base, log)) by {
        reveal(follows);
    }
    if log.len() > 0 {
        lemma_last_is_largest(log);
    } else {
        assert(rs =~= Seq::<WalRecordView>::empty());
    }
    assert forall|id: u64| known(blank(#[trigger] d.at(id)), w.next_lsn) by {
        lemma_past_number(w.next_lsn, base, log, id, blank(d.at(id)));
    }
    assert forall|id: u64| #[trigger] d.pages@.contains_key(id) implies (lsn_of(d.at(id)) == 0 || (
    w.flushed_lsn matches Some(f) && lsn_of(d.at(id)) <= f)) by {
        lemma_blank(d.at(id));
        assert(known(blank(d.at(id)), w.next_lsn));
    }
    assert forall|i: int| 0 <= i < rs.len() implies (#[trigger] rs[i]).lsn < w.next_lsn by {
        lemma_last_number(rs, i);
    }
}

/// The pages that the log starts from are older than its end.
proof fn lemma_left_rooted<K: Key>(
    d: DiskManager,
    w: Wal,
    rs: Seq<WalRecordView>,
    base: Pages,
    log: Seq<LogEntry>,
)
    requires
        left_behind::<K>(d, w, rs, base, log),
    ensures
        rooted(base, log, log.len() as int),
{
    reveal(rooted);
    reveal(follows);
    if log.len() > 0 {
        lemma_last_is_largest(log);
    } else {
        assert(rs =~= Seq::<WalRecordView>::empty());
    }
}

proof fn lemma_opened_pool(d: DiskManager, w: Wal, m: BufferPoolManager)
    requires
        d.wf(),
        m.wf(),
        forall|id: u64| #[trigger] m.pins(id) == 0,
        forall|id: u64| !(#[trigger] m.dirty(id)),
        forall|id: u64| id < d.num_pages ==> #[trigger] m.holds(id) == Some(blank(d.at(id))),
        m.disk.num_pages == d.num_pages,
        forall|id: u64| #[trigger] m.disk.at(id) == d.at(id),
        m.wal.next_lsn == w.next_lsn,
        m.wal.flushed_lsn == w.flushed_lsn,
        forall|id: u64| known(blank(#[trigger] d.at(id)), w.next_lsn),
        w.flushed_lsn matches Some(f) ==> f < w.next_lsn,
    ensures
        at_rest(m),
        solid(m),
        tame(m),
        sound(d) == sound(m.disk),
        forall|id: u64| #[trigger] intact(m.disk, id) == intact(d, id),
        forall|id: u64| #[trigger] content(m, id) == blank(d.at(id)),
        forall|id: u64| #[trigger] load_error(m.disk, id) == load_error(d, id),
{
    reveal(at_rest);
    assert forall|id: u64| id < m.disk.num_pages implies #[trigger] m.holds(id) is Some by {}
    lemma_new_solid(m);
    assert forall|id: u64| #[trigger] content(m, id) == blank(d.at(id)) by {
        assert(!m.dirty(id));
        assert(m.disk.at(id) == d.at(id));
    }
    assert forall|id: u64| known(#[trigger] content(m, id), m.wal.next_lsn) by {
        assert(content(m, id) == blank(d.at(id)));
    }
    assert forall|id: u64| #[trigger] load_error(m.disk, id) == load_error(d, id) by {
        assert(m.disk.at(id) == d.at(id));
    }
    assert forall|id: u64| #[trigger] intact(m.disk, id) == intact(d, id) by {
        assert(m.disk.at(id) == d.at(id));
    }
    if sound(m.disk) {
        assert forall|id: u64| #[trigger] intact(d, id) by {
            assert(intact(m.disk, id));
        }
    }
}

/// What recovery leaves behind can be opened.
proof fn lemma_reopens<K: Key>(
    d: DiskManager,
    w: Wal,
    m0: BufferPoolManager,
    m: BufferPoolManager,
    rs: Seq<WalRecordView>,
    base: Pages,
    log: Seq<LogEntry>,
)
    requires
        left_behind::<K>(d, w, rs, base, log),
        io_ok(d, w, m0.disk, m0.wal),
        sound(d),
        m0.free_pool@ == Seq::<u64>::empty(),
        forall|id: u64| #[trigger] content(m0, id) == blank(d.at(id)),
        crate::history::redo_all(contents(m0), rs) is Some,
        restored(m0, m, crate::history::redo_all(contents(m0), rs)->0),
        tame(m),
    ensures
        reopened(m, base, log),
{
    lemma_left_covered::<K>(d, w, rs, base, log);
    let redone = crate::history::redo_all(contents(m0), rs)->0;
    assert(log_ok(base, log) && ids_ok(log)) by {
        reveal(follows);
    }
    assert(recoverable(base, log, contents(m0))) by {
        assert forall|id: u64| page_past(base, log, id, #[trigger] page_in(contents(m0), id)) by {
            assert(content(m0, id) == blank(d.at(id)));
            assert(page_past(base, log, id, blank(d.at(id))));
        }
    }
    law_redo_restores(base, log, contents(m0));
    lemma_left_rooted::<K>(d, w, rs, base, log);
    lemma_backed(d, w, m0.disk, m0.wal);
    lemma_backed(m0.disk, m0.wal, m.disk, m.wal);
    assert(guarded(m)) by {
        reveal(guarded);
        assert forall|id: u64| #[trigger] intact(m.disk, id) by {
            assert(intact(d, id));
            assert(intact(m0.disk, id));
        }
    }
    assert forall|id: u64| page_past(base, log, id, #[trigger] content(m, id)) by {
        assert(content(m, id) == page_in(redone, id));
        assert(page_past(base, log, id, page_in(redone, id)));
    }
    assert forall|id: u64| #[trigger] present(replay(base, log), id) implies crate::history::shown(
        replay(base, log),
        id,
        content(m, id),
    ) by {
        assert(content(m, id) == page_in(redone, id));
    }
    assert(log_of(d.out@) =~= Seq::<u8>::empty());
    assert((log_of(d.out@) + w.pending@).len() == 0);
    assert((log_of(m0.disk.out@) + m0.wal.pending@).len() == 0);
    assert((log_of(m.disk.out@) + m.wal.pending@).len() == 0);
    assert(log_of(m.disk.out@).len() + m.wal.pending@.len() == 0);
}

/// Two histories that a pool holds the end of agree about it.
proof fn lemma_one_index(
    m: BufferPoolManager,
    p: Pages,
    base: Pages,
    log: Seq<LogEntry>,
    b2: Pages,
    l2: Seq<LogEntry>,
)
    requires
        reopened(m, base, log),
        reopened(m, b2, l2),
        alike(p, replay(base, log)),
    ensures
        agree(p, replay(b2, l2)),
{
    let r = replay(base, log);
    let r2 = replay(b2, l2);
    assert(log_ok(base, log) && log_ok(b2, l2)) by {
        reveal(follows);
    }
    lemma_state_wf(base, log, log.len() as int);
    lemma_state_wf(b2, l2, l2.len() as int);
    assert(log.subrange(0, log.len() as int) =~= log);
    assert(l2.subrange(0, l2.len() as int) =~= l2);
    let f = |id: u64| content(m, id);
    assert forall|id: u64| #[trigger] present(r, id) implies shown(r, id, f(id)) by {}
    assert forall|id: u64| #[trigger] present(r2, id) implies shown(r2, id, f(id)) by {}
    lemma_shown_agree(r, r2, f);
    assert forall|id: u64| #[trigger]
        p.nodes.contains_key(id) && r2.nodes.contains_key(id) implies p.nodes[id] == r2.nodes[id] by {
        assert(r.nodes.contains_key(id));
    }
}

/// Whether an engine has the index of every history that could have left these
/// files behind.
pub open spec fn reads_all<K: Key>(
    d: DiskManager,
    w: Wal,
    rs: Seq<WalRecordView>,
    e: Engine<K>,
) -> bool {
    forall|base: Pages, log: Seq<LogEntry>| #[trigger]
        left_behind::<K>(d, w, rs, base, log) ==> reads::<K>(e.index, replay(base, log))
}

/// Whether files hold what an engine has asked for: the data file has its pages,
/// and the log file reads as these records.
pub open spec fn files_of<K: Key>(
    e: Engine<K>,
    d: DiskManager,
    w: Wal,
    rs: Seq<WalRecordView>,
) -> bool {
    &&& d.wf()
    &&& d.out@ == Seq::<IoView>::empty()
    &&& forall|id: u64| blank(#[trigger] d.at(id)) == e.index.store.file()[id]
    &&& rs == records_from(e.index.store.log_file(), 0)
    &&& w.pending@ == Seq::<u8>::empty()
    &&& w.next_lsn == lsn_after(rs)
    &&& w.flushed_lsn == last_lsn(rs)
}

/// Whether all records of an engine belong to transactions that can be given out.
pub open spec fn ids_bounded<K: Key>(e: Engine<K>) -> bool {
    forall|i: int|
        0 <= i < e.index.store.log().len() ==> (#[trigger] e.index.store.log()[i]).txn_id < u64::MAX
}

/// An engine can stop at any time: what it has asked for so far is a database that
/// can be opened, with the history as far as it was made durable.
pub proof fn law_files_can_be_opened<K: Key>(
    e: Engine<K>,
    d: DiskManager,
    w: Wal,
    rs: Seq<WalRecordView>,
)
    requires
        e.wf(),
        ids_bounded(e),
        files_of(e, d, w, rs),
    ensures
        left_behind::<K>(
            d,
            w,
            rs,
            e.index.store.base(),
            e.index.store.log().subrange(0, e.index.store.durable()),
        ),
{
    lemma_store_left::<K>(e.index.store, d, w, rs);
}

proof fn lemma_store_left<K: Key>(s: PageStore, d: DiskManager, w: Wal, rs: Seq<WalRecordView>)
    requires
        s.wf(),
        sustained::<K>(s.base(), s.log(), s.since()),
        forall|i: int| 0 <= i < s.log().len() ==> (#[trigger] s.log()[i]).txn_id < u64::MAX,
        d.wf(),
        d.out@ == Seq::<IoView>::empty(),
        forall|id: u64| blank(#[trigger] d.at(id)) == s.file()[id],
        rs == records_from(s.log_file(), 0),
        w.pending@ == Seq::<u8>::empty(),
        w.next_lsn == lsn_after(rs),
        w.flushed_lsn == last_lsn(rs),
    ensures
        left_behind::<K>(d, w, rs, s.base(), s.log().subrange(0, s.durable())),
{
    let base = s.base();
    let log = s.log();
    let n = s.durable();
    let given = log.subrange(0, n);
    s.lemma_wf();
    s.lemma_rooted();
    s.law_crash_recovery();
    law_log_reads_back(base, given);
    assert(log_records(given) == rs);
    assert(all_sane(rs)) by {
        assert forall|i: int| 0 <= i < given.len() implies (
        #[trigger] given[i]).txn_id < u64::MAX by {
            assert(log[i] == given[i]);
        }
        lemma_given_sane(base, given);
    }
    lemma_given_follows(w.next_lsn, base, log, s.since(), n);
    assert forall|id: u64| page_past(base, given, id, blank(#[trigger] d.at(id))) by {
        assert(page_in(s.file(), id) == s.file()[id]) by {
            s.lemma_file();
        }
        assert(page_past(base, given, id, page_in(s.file(), id)));
    }
    assert(is_index::<K>(replay(base, given))) by {
        reveal(sustained);
        assert(is_index::<K>(state(base, log, n)));
    }
}

proof fn lemma_given_sane(base: Pages, log: Seq<LogEntry>)
    requires
        log_ok(base, log),
        ids_ok(log),
        forall|i: int| 0 <= i < log.len() ==> (#[trigger] log[i]).txn_id < u64::MAX,
    ensures
        all_sane(log_records(log)),
{
    let rs = log_records(log);
    lemma_log_clean(base, log);
    assert forall|i: int| 0 <= i < rs.len() implies sane(#[trigger] rs[i]) by {
        let e = log[i];
        assert(record_clean(rs[i]));
        assert forall|j: int| 0 <= j < rs[i].blocks.len() implies (
        #[trigger] rs[i].blocks[j]).page_id < INVALID_FRAME_ID && (
        rs[i].blocks[j].fpi matches Some(f) ==> f.len() == PAGE_SIZE) by {
            assert(rs[i].blocks[j] == block_of(e.changes[j].0, e.changes[j].1));
            assert(log[i].changes[j].0 != INVALID_FRAME_ID);
            assert(block_clean(rs[i].blocks[j]));
        }
    }
}

proof fn lemma_given_follows(next: u64, base: Pages, log: Seq<LogEntry>, since: int, n: int)
    requires
        0 <= since <= n <= log.len(),
        rooted(base, log, since),
        log_ok(base, log.subrange(0, n)),
        ids_ok(log.subrange(0, n)),
        next == lsn_after(log_records(log.subrange(0, n))),
    ensures
        follows(next, base, log.subrange(0, n)),
{
    reveal(follows);
    reveal(rooted);
    let given = log.subrange(0, n);
    let rs = log_records(given);
    assert forall|i: int| 0 <= i < given.len() implies (#[trigger] given[i]).lsn < next by {
        lemma_last_number(rs, i);
        assert(rs[i].lsn == given[i].lsn);
    }
    assert forall|id: u64| #[trigger] present(base, id) implies stamp(base, id) < next || stamp(
        base,
        id,
    ) == 0 by {
        if stamp(base, id) != 0 {
            assert(given[since - 1] == log[since - 1]);
        }
    }
}

/// What has been made durable comes back: an engine that is opened from files that
/// hold the history of another, neither less nor more, has the same records with
/// the same values.
pub proof fn law_durable_records_return<K: Key>(
    e0: Engine<K>,
    d: DiskManager,
    w: Wal,
    rs: Seq<WalRecordView>,
    e1: Engine<K>,
)
    requires
        e0.wf(),
        left_behind::<K>(d, w, rs, e0.index.store.base(), e0.index.store.log()),
        reads_all::<K>(d, w, rs, e1),
    ensures
        e1.index.records() == e0.index.records(),
        forall|k: int|
            0 <= k < e0.index.records().len() ==> e1.index.content(
                #[trigger] e0.index.records()[k],
            ) == e0.index.content(e0.index.records()[k]),
{
    let ix = e0.index;
    let p = ix.store.pages();
    let r = replay(ix.store.base(), ix.store.log());
    ix.store.lemma_wf();
    assert(ix.tree() == tree_of(p, ix.levels@, ix.lows@));
    assert(indexes::<K>(p, ix.levels@, ix.lows@, ix.chains@));
    lemma_alike_sym(p, r);
    lemma_alike_indexes::<K>(r, p, ix.levels@, ix.lows@, ix.chains@);
    assert(reads::<K>(e1.index, r));
}

impl<K: Key> Engine<K> {
    /// Opens a database from its files: the data file, the log, and the records
    /// that were read from it. Fails if the data file has no superblock, or if a page
    /// does not pass its checksum.
    ///
    /// Files with a superblock have to be those of a database: recovery relies on the
    /// log being ahead of the pages.
    pub fn open(disk: DiskManager, wal: Wal, records: Vec<WalRecord>) -> (r: Result<
        Engine<K>,
        EngineError,
    >)
        requires
            disk.wf(),
            has_superblock(disk) ==> exists|base: Pages, log: Seq<LogEntry>| #[trigger]
                left_behind::<K>(disk, wal, record_views(records@), base, log),
        ensures
            !has_superblock(disk) ==> (r matches Err(EngineError::Index(e)) && e
                == no_superblock_error(disk)),
            has_superblock(disk) ==> (r is Ok <==> sound(disk)),
            has_superblock(disk) ==> (r matches Err(e) ==> exists|id: u64|
                e == EngineError::Index(
                    IndexError::BufferPool(#[trigger] load_error(disk, id)->0),
                ) && load_error(disk, id) is Some),
            r matches Ok(e) ==> {
                &&& e.wf()
                &&& left_behind::<K>(
                    disk,
                    wal,
                    record_views(records@),
                    e.index.store.base(),
                    e.index.store.log(),
                )
                &&& alike(
                    e.index.store.pages(),
                    replay(e.index.store.base(), e.index.store.log()),
                )
                &&& e.index.records() == tree_of(
                    replay(e.index.store.base(), e.index.store.log()),
                    e.index.levels@,
                    e.index.lows@,
                ).records()
                &&& reads_all::<K>(disk, wal, record_views(records@), e)
                &&& exists|tm0: TransactionManager|
                    blank_manager(tm0) && #[trigger] fates_restored(
                        tm0,
                        e.tm,
                        record_views(records@),
                    )
                &&& e.tm.next_txn_id == next_txn_of(record_views(records@))
            },
    {
        let ghost rs = record_views(records@);
        let ghost d0 = disk;
        let ghost w0 = wal;
        if let Err(e) = check_superblock(&disk) {
            return Err(EngineError::Index(e));
        }
        let ghost (base, log) = choose|base: Pages, log: Seq<LogEntry>| #[trigger]
            left_behind::<K>(disk, wal, rs, base, log);
        proof {
            lemma_left_covered::<K>(disk, wal, rs, base, log);
        }
        if let Err(e) = verify_pages(&disk) {
            proof {
                let id = choose|id: u64| #[trigger] load_error(disk, id) == Some(e);
                assert(load_error(disk, id)->0 == e);
            }
            return Err(EngineError::Index(IndexError::BufferPool(e)));
        }
        let pool = BufferPoolManager::new(disk, wal);
        let ghost m0 = pool;
        proof {
            lemma_opened_pool(d0, w0, m0);
        }
        let tm = TransactionManager::new();
        let ghost tm0 = tm;
        let mut recovery = RecoveryManager::new(pool, records, tm);
        let done = recovery.recover();
        proof {
            assert(recoverable(base, log, contents(m0))) by {
                assert forall|id: u64| page_past(base, log, id, #[trigger] page_in(
                    contents(m0),
                    id,
                )) by {
                    assert(content(m0, id) == blank(d0.at(id)));
                    assert(page_past(base, log, id, blank(d0.at(id))));
                }
            }
            assert(log_ok(base, log) && ids_ok(log)) by {
                reveal(follows);
            }
            law_redo_restores(base, log, contents(m0));
        }
        match done {
            Err(e) => {
                proof {
                    assert(legible(d0, rs));
                    assert(false);
                }
                Err(EngineError::Index(e))
            },
            Ok(()) => {
                proof {
                    lemma_reopens::<K>(d0, w0, m0, recovery.pool, rs, base, log);
                }
                let ghost m = recovery.pool;
                let store = PageStore::open(recovery.pool, Ghost(base), Ghost(log));
                let ghost p = store.pages();
                let ghost r = replay(base, log);
                proof {
                    let (levels, lows, chains) = choose|
                        levels: Seq<Seq<u64>>,
                        lows: Map<u64, Option<Seq<u8>>>,
                        chains: Map<u64, Seq<u64>>,
                    | #[trigger]
                        indexes::<K>(r, levels, lows, chains);
                    lemma_alike_indexes::<K>(p, r, levels, lows, chains);
                    lemma_root_named::<K>(p, levels, lows, chains);
                }
                match BTreeIndex::of_store(store) {
                    Err(e) => {
                        assert(false);
                        Err(EngineError::Index(e))
                    },
                    Ok(index) => {
                        proof {
                            lemma_alike_sym(p, r);
                            lemma_alike_indexes::<K>(
                                r,
                                p,
                                index.levels@,
                                index.lows@,
                                index.chains@,
                            );
                            assert(index.tree() == tree_of(p, index.levels@, index.lows@));
                            assert forall|b2: Pages, l2: Seq<LogEntry>| #[trigger]
                                left_behind::<K>(d0, w0, rs, b2, l2) implies reads::<K>(
                                index,
                                replay(b2, l2),
                            ) by {
                                lemma_reopens::<K>(d0, w0, m0, m, rs, b2, l2);
                                lemma_one_index(m, p, base, log, b2, l2);
                                lemma_reads::<K>(index, replay(b2, l2));
                            }
                            assert(fates_restored(tm0, recovery.tm, rs));
                            assert(blank_manager(tm0));
                        }
                        Ok(Engine { index, tm: recovery.tm })
                    },
                }
            },
        }
    }
}

proof fn lemma_root_named<K: Key>(
    p: Pages,
    levels: Seq<Seq<u64>>,
    lows: Map<u64, Option<Seq<u8>>>,
    chains: Map<u64, Seq<u64>>,
)
    requires
        indexes::<K>(p, levels, lows, chains),
    ensures
        p.root != 0,
{
    let t = tree_of(p, levels, lows);
    let h = levels.len() - 1;
    assert(t.valid(h, 0));
    assert(t.page_ok::<K>(h, 0));
}

} // verus!
