//! Crash recovery: redoes the log on the pages of the file and restores what is
//! known about transactions.
//!
//! Recovery only redoes. Transactions that wrote something and were neither
//! committed nor aborted when the log ends count as aborted: their changes are
//! redone as well, and nobody sees them.

use vstd::prelude::*;

use crate::checkpoint::{checkpoint_at, parse_checkpoint, CheckpointData, CheckpointView};
use crate::constants::{INVALID_FRAME_ID, PAGE_SIZE};
use crate::disk::DiskManager;
use crate::error::{BufferPoolError, IndexError, WalError};
use crate::history::{page_in, redo_all, redo_blocks, redo_one};
use crate::manager::{flush_asked, lemma_shard_of, load_error, shard_of, BufferPoolManager};
use crate::page::{blank, clear_checksum, lemma_blank, lsn_of, page_lsn, verify_checksum};
use crate::pool_ops::{
    at_rest, content, drop_page, lemma_at_rest, lemma_content_moved, lemma_content_stored, moved,
    page_bytes, solid, stored, write_page,
};
use crate::redo::{lemma_redo_stamps, redo_block, redo_page};
use crate::shard::{intact, io_ok, lemma_io_trans, sound};
use crate::store::known;
use crate::transaction_manager::{TransactionManager, TransactionStatus};
use crate::wal::{
    lemma_parse_bounds, parse, part, records_end, records_from, Parsed, WalIterator, WalRecord,
    WalRecordType, WalRecordView,
};

verus! {

/// The contents of a list of records.
pub open spec fn record_views(s: Seq<WalRecord>) -> Seq<WalRecordView> {
    Seq::new(s.len(), |i: int| s[i]@)
}

/// Whether a record names only ids that can be given out, and its page images
/// have the size of a page.
pub open spec fn sane(r: WalRecordView) -> bool {
    &&& r.txn_id < u64::MAX
    &&& forall|j: int|
        0 <= j < r.blocks.len() ==> (#[trigger] r.blocks[j]).page_id < INVALID_FRAME_ID && (
        r.blocks[j].fpi matches Some(f) ==> f.len() == PAGE_SIZE)
}

/// Whether all records of a list are.
pub open spec fn all_sane(rs: Seq<WalRecordView>) -> bool {
    forall|i: int| 0 <= i < rs.len() ==> sane(#[trigger] rs[i])
}

// ── Reading the log ──────────────────────────────────────────────────────────
/// Reads all records of a log.
pub fn read_log(bytes: Vec<u8>) -> (r: Result<Vec<WalRecord>, WalError>)
    ensures
        match parse(bytes@, records_end(bytes@, 0)) {
            Parsed::Bad(e, _) => r matches Err(f) && f == e,
            _ => r matches Ok(v) && record_views(v@) == records_from(bytes@, 0),
        },
{
    let ghost b = bytes@;
    let mut records: Vec<WalRecord> = Vec::new();
    let mut iter = WalIterator::new(bytes);
    assert(record_views(records@) + records_from(b, 0) =~= records_from(b, 0));
    #[verifier::loop_isolation(false)]
    loop
        invariant
            iter.wf(),
            iter.bytes@ == b,
            record_views(records@) + records_from(b, iter.pos as int) == records_from(b, 0),
            records_end(b, iter.pos as int) == records_end(b, 0),
        decreases b.len() - iter.pos,
    {
        let ghost p0 = iter.pos as int;
        proof {
            lemma_parse_bounds(b, p0);
        }
        let n = iter.next_record();
        match n {
            None => {
                assert(records_from(b, p0) =~= Seq::<WalRecordView>::empty());
                assert(record_views(records@) + Seq::<WalRecordView>::empty() =~= record_views(
                    records@,
                ));
                return Ok(records);
            },
            Some(Err(e)) => {
                return Err(e);
            },
            Some(Ok(r)) => {
                let ghost rv = r@;
                let ghost vs = record_views(records@);
                records.push(r);
                proof {
                    let p1 = iter.pos as int;
                    assert(record_views(records@) =~= vs.push(rv));
                    assert(records_from(b, p0) == seq![rv] + records_from(b, p1));
                    assert(vs.push(rv) + records_from(b, p1) =~= vs + (seq![rv] + records_from(
                        b,
                        p1,
                    )));
                }
            },
        }
    }
}

// ── Transactions ─────────────────────────────────────────────────────────────
/// What the last checkpoint record that can be read says.
pub open spec fn last_checkpoint(rs: Seq<WalRecordView>) -> Option<CheckpointView>
    decreases rs.len(),
{
    if rs.len() == 0 {
        None
    } else if rs.last().entry_type == WalRecordType::Checkpoint && checkpoint_at(
        part(rs.last().main_data),
    ) is Some {
        checkpoint_at(part(rs.last().main_data))
    } else {
        last_checkpoint(rs.drop_last())
    }
}

/// Whether a transaction has a record; id 0 stands for the system.
pub open spec fn seen(rs: Seq<WalRecordView>, id: u64) -> bool {
    id != 0 && exists|i: int| 0 <= i < rs.len() && (#[trigger] rs[i]).txn_id == id
}

/// Whether a transaction has an abort record.
pub open spec fn abort_logged(rs: Seq<WalRecordView>, id: u64) -> bool {
    exists|i: int|
        0 <= i < rs.len() && (#[trigger] rs[i]).entry_type == WalRecordType::Abort && rs[i].txn_id
            == id
}

/// The commit log after the commit and abort records of a log.
pub open spec fn clog_after(
    clog: Map<u64, TransactionStatus>,
    rs: Seq<WalRecordView>,
) -> Map<u64, TransactionStatus>
    decreases rs.len(),
{
    if rs.len() == 0 {
        clog
    } else {
        let c = clog_after(clog, rs.drop_last());
        match rs.last().entry_type {
            WalRecordType::Commit => c.insert(rs.last().txn_id, TransactionStatus::Committed),
            WalRecordType::Abort => c.insert(rs.last().txn_id, TransactionStatus::Aborted),
            _ => c,
        }
    }
}

/// The largest transaction id of a log, or `init` if that is larger.
pub open spec fn max_txn(rs: Seq<WalRecordView>, init: u64) -> u64
    decreases rs.len(),
{
    if rs.len() == 0 {
        init
    } else {
        let m = max_txn(rs.drop_last(), init);
        if rs.last().txn_id > m {
            rs.last().txn_id
        } else {
            m
        }
    }
}

/// The largest of the page ids of the first `n` blocks of a record and `init`.
pub open spec fn max_block(r: WalRecordView, n: nat, init: u64) -> u64
    decreases n,
{
    if n == 0 {
        init
    } else {
        let m = max_block(r, (n - 1) as nat, init);
        if r.blocks[n - 1].page_id > m {
            r.blocks[n - 1].page_id
        } else {
            m
        }
    }
}

/// The largest page id of a log, or `init` if that is larger.
pub open spec fn max_page(rs: Seq<WalRecordView>, init: u64) -> u64
    decreases rs.len(),
{
    if rs.len() == 0 {
        init
    } else {
        max_block(rs.last(), rs.last().blocks.len(), max_page(rs.drop_last(), init))
    }
}

/// The id before one that is to be given out next.
pub open spec fn before(id: u64) -> u64 {
    if id == 0 {
        0
    } else {
        (id - 1) as u64
    }
}

/// The next transaction id that a log asks for.
pub open spec fn next_txn_of(rs: Seq<WalRecordView>) -> int {
    match last_checkpoint(rs) {
        None => max_txn(rs, 0) + 1,
        Some(c) => {
            let m = max_txn(rs, before(c.next_txn_id)) + 1;
            if c.next_txn_id > m {
                c.next_txn_id as int
            } else {
                m
            }
        },
    }
}

/// The next page id that a log asks for.
pub open spec fn next_page_of(rs: Seq<WalRecordView>) -> int {
    match last_checkpoint(rs) {
        None => max_page(rs, 0) + 1,
        Some(c) => {
            let m = max_page(rs, before(c.next_page_id)) + 1;
            if c.next_page_id > m {
                c.next_page_id as int
            } else {
                m
            }
        },
    }
}

/// Whether a transaction was running when the log ends: it has a record, or the
/// last checkpoint names it, and nothing says that it committed or aborted.
pub open spec fn crash_victim(
    clog: Map<u64, TransactionStatus>,
    aborts: Map<u64, ()>,
    rs: Seq<WalRecordView>,
    id: u64,
) -> bool {
    &&& seen(rs, id) || (last_checkpoint(rs) matches Some(c) && c.active_txns.contains(id))
    &&& id != 0
    &&& !(clog_after(clog, rs).contains_key(id) && clog_after(clog, rs)[id]
        == TransactionStatus::Committed)
    &&& !aborts.contains_key(id)
    &&& !pinned(rs, id)
    &&& !abort_logged(rs, id)
}

/// Whether the last checkpoint remembers that a transaction aborted.
pub open spec fn pinned(rs: Seq<WalRecordView>, id: u64) -> bool {
    last_checkpoint(rs) matches Some(c) && c.pinned_aborted.contains(id)
}

/// What is known about transactions when a log has been read.
pub open spec fn fates_restored(
    tm0: TransactionManager,
    tm: TransactionManager,
    rs: Seq<WalRecordView>,
) -> bool {
    &&& forall|id: u64| #[trigger] tm.in_flight(id) ==> tm0.in_flight(id)
    &&& forall|id: u64| #[trigger]
        tm.aborts().contains_key(id) <==> tm0.aborts().contains_key(id) || pinned(rs, id)
            || abort_logged(rs, id) || crash_victim(tm0.clog@, tm0.aborts(), rs, id)
    &&& forall|id: u64| #[trigger]
        tm.clog@.contains_key(id) <==> clog_after(tm0.clog@, rs).contains_key(id) || crash_victim(
            tm0.clog@,
            tm0.aborts(),
            rs,
            id,
        )
    &&& forall|id: u64| #[trigger]
        tm.clog@.contains_key(id) ==> tm.clog@[id] == if crash_victim(
            tm0.clog@,
            tm0.aborts(),
            rs,
            id,
        ) {
            TransactionStatus::Aborted
        } else {
            clog_after(tm0.clog@, rs)[id]
        }
}

/// A transaction that committed, and did not abort before, is committed after
/// recovery, and everybody who begins then sees its changes.
pub proof fn law_commits_survive(
    tm0: TransactionManager,
    tm: TransactionManager,
    rs: Seq<WalRecordView>,
    id: u64,
    i: int,
)
    requires
        fates_restored(tm0, tm, rs),
        0 <= i < rs.len(),
        rs[i].entry_type == WalRecordType::Commit,
        rs[i].txn_id == id,
        !abort_logged(rs, id),
        !pinned(rs, id),
        !tm0.aborts().contains_key(id),
    ensures
        tm.committed(id),
        !tm.aborts().contains_key(id),
{
    lemma_commit_stays(tm0.clog@, rs, id, i);
    assert(tm.clog@.contains_key(id));
}

proof fn lemma_commit_stays(
    clog: Map<u64, TransactionStatus>,
    rs: Seq<WalRecordView>,
    id: u64,
    i: int,
)
    requires
        0 <= i < rs.len(),
        rs[i].entry_type == WalRecordType::Commit,
        rs[i].txn_id == id,
        !abort_logged(rs, id),
    ensures
        clog_after(clog, rs).contains_key(id),
        clog_after(clog, rs)[id] == TransactionStatus::Committed,
    decreases rs.len(),
{
    let t = rs.drop_last();
    let n = rs.len() - 1;
    if i < n {
        assert(t[i] == rs[i]);
        if abort_logged(t, id) {
            let k = choose|k: int|
                0 <= k < t.len() && (#[trigger] t[k]).entry_type == WalRecordType::Abort
                    && t[k].txn_id == id;
            assert(rs[k] == t[k]);
        }
        lemma_commit_stays(clog, t, id, i);
        if rs[n].entry_type == WalRecordType::Abort && rs[n].txn_id == id {
            assert(abort_logged(rs, id));
        }
    }
}

/// A transaction with a record in the log that did not commit is aborted after
/// recovery: nobody sees its changes.
pub proof fn law_unfinished_transactions_are_aborted(
    tm0: TransactionManager,
    tm: TransactionManager,
    rs: Seq<WalRecordView>,
    id: u64,
)
    requires
        fates_restored(tm0, tm, rs),
        seen(rs, id),
        !tm0.clog@.contains_key(id),
        forall|i: int|
            0 <= i < rs.len() && (#[trigger] rs[i]).txn_id == id ==> rs[i].entry_type
                != WalRecordType::Commit,
    ensures
        tm.aborts().contains_key(id),
{
    lemma_no_commit(tm0.clog@, rs, id);
}

proof fn lemma_no_commit(clog: Map<u64, TransactionStatus>, rs: Seq<WalRecordView>, id: u64)
    requires
        !clog.contains_key(id),
        forall|i: int|
            0 <= i < rs.len() && (#[trigger] rs[i]).txn_id == id ==> rs[i].entry_type
                != WalRecordType::Commit,
    ensures
        clog_after(clog, rs).contains_key(id) ==> clog_after(clog, rs)[id]
            != TransactionStatus::Committed,
    decreases rs.len(),
{
    if rs.len() > 0 {
        let t = rs.drop_last();
        assert forall|i: int| 0 <= i < t.len() && (#[trigger] t[i]).txn_id == id implies t[i].entry_type
            != WalRecordType::Commit by {
            assert(rs[i] == t[i]);
        }
        lemma_no_commit(clog, t, id);
        assert(rs[rs.len() - 1] == rs.last());
    }
}

/// Finds the last checkpoint record that can be read.
fn find_checkpoint(records: &Vec<WalRecord>) -> (r: Option<CheckpointData>)
    ensures
        match last_checkpoint(record_views(records@)) {
            Some(c) => r matches Some(d) && d@ == c,
            None => r is None,
        },
{
    let ghost rs = record_views(records@);
    let mut found: Option<CheckpointData> = None;
    let mut i: usize = 0;
    assert(rs.subrange(0, 0) =~= Seq::<WalRecordView>::empty());
    while i < records.len()
        invariant
            i <= records@.len(),
            rs == record_views(records@),
            match last_checkpoint(rs.subrange(0, i as int)) {
                Some(c) => found matches Some(d) && d@ == c,
                None => found is None,
            },
        decreases records.len() - i,
    {
        proof {
            assert(rs.subrange(0, i + 1).drop_last() =~= rs.subrange(0, i as int));
            assert(rs.subrange(0, i + 1).last() == records@[i as int]@);
        }
        if records[i].entry_type == WalRecordType::Checkpoint {
            if let Ok(d) = parse_checkpoint(&records[i].main_data) {
                found = Some(d);
            }
        }
        i = i + 1;
    }
    assert(rs.subrange(0, rs.len() as int) =~= rs);
    found
}

/// The largest page id of the blocks of a record, or `init` if that is larger.
fn largest_block(r: &WalRecord, init: u64) -> (m: u64)
    ensures
        m == max_block(r@, r@.blocks.len(), init),
{
    let mut m: u64 = init;
    let mut j: usize = 0;
    while j < r.blocks.len()
        invariant
            j <= r.blocks@.len(),
            m == max_block(r@, j as nat, init),
        decreases r.blocks.len() - j,
    {
        assert(r@.blocks[j as int] == r.blocks@[j as int]@);
        if r.blocks[j].page_id > m {
            m = r.blocks[j].page_id;
        }
        j = j + 1;
    }
    m
}

/// Marks the fates that the commit and abort records of a log tell.
fn mark_settled(tm: &mut TransactionManager, records: &Vec<WalRecord>)
    requires
        old(tm).wf(),
    ensures
        final(tm).wf(),
        final(tm).clog@ == clog_after(old(tm).clog@, record_views(records@)),
        forall|id: u64| #[trigger]
            final(tm).aborts().contains_key(id) <==> old(tm).aborts().contains_key(id)
                || abort_logged(record_views(records@), id),
        final(tm).next_txn_id == old(tm).next_txn_id,
        forall|id: u64| #[trigger] final(tm).in_flight(id) ==> old(tm).in_flight(id),
{
    let ghost rs = record_views(records@);
    let ghost t0 = *tm;
    let mut i: usize = 0;
    assert(rs.subrange(0, 0) =~= Seq::<WalRecordView>::empty());
    while i < records.len()
        invariant
            i <= records@.len(),
            rs == record_views(records@),
            tm.wf(),
            tm.next_txn_id == t0.next_txn_id,
            forall|id: u64| #[trigger] tm.in_flight(id) ==> t0.in_flight(id),
            tm.clog@ == clog_after(t0.clog@, rs.subrange(0, i as int)),
            forall|id: u64| #[trigger]
                tm.aborts().contains_key(id) <==> t0.aborts().contains_key(id) || abort_logged(
                    rs.subrange(0, i as int),
                    id,
                ),
        decreases records.len() - i,
    {
        let ghost a = rs.subrange(0, i as int);
        let ghost b = rs.subrange(0, i + 1);
        let ghost x = records@[i as int]@;
        proof {
            assert(b.drop_last() =~= a);
            assert(b.last() == x);
            assert forall|id: u64| #[trigger] abort_logged(b, id) <==> abort_logged(a, id) || (
            x.entry_type == WalRecordType::Abort && x.txn_id == id) by {
                if abort_logged(a, id) {
                    let k = choose|k: int|
                        0 <= k < a.len() && (#[trigger] a[k]).entry_type == WalRecordType::Abort
                            && a[k].txn_id == id;
                    assert(b[k] == a[k]);
                }
                if abort_logged(b, id) {
                    let k = choose|k: int|
                        0 <= k < b.len() && (#[trigger] b[k]).entry_type == WalRecordType::Abort
                            && b[k].txn_id == id;
                    if k < i {
                        assert(a[k] == b[k]);
                    }
                }
                if x.entry_type == WalRecordType::Abort && x.txn_id == id {
                    assert(b[i as int].txn_id == id);
                }
            }
        }
        let id: u64 = records[i].txn_id;
        let ghost t1 = *tm;
        if records[i].entry_type == WalRecordType::Commit {
            tm.mark_committed(id);
        } else if records[i].entry_type == WalRecordType::Abort {
            tm.mark_aborted(id);
        }
        assert forall|id: u64| #[trigger] tm.in_flight(id) implies t0.in_flight(id) by {
            assert(t1.in_flight(id));
        }
        i = i + 1;
    }
    assert(rs.subrange(0, rs.len() as int) =~= rs);
}

/// Marks a transaction aborted unless its fate is known.
fn mark_unsettled(tm: &mut TransactionManager, id: u64)
    requires
        old(tm).wf(),
    ensures
        final(tm).wf(),
        final(tm).next_txn_id == old(tm).next_txn_id,
        forall|x: u64| #[trigger] final(tm).in_flight(x) ==> old(tm).in_flight(x),
        old(tm).committed(id) || old(tm).aborts().contains_key(id) ==> final(tm).clog@ == old(
            tm,
        ).clog@ && final(tm).aborts() == old(tm).aborts(),
        !(old(tm).committed(id) || old(tm).aborts().contains_key(id)) ==> final(tm).clog@ == old(
            tm,
        ).clog@.insert(id, TransactionStatus::Aborted) && final(tm).aborts() == old(
            tm,
        ).aborts().insert(id, ()),
{
    if !tm.is_committed(id) && !tm.is_aborted(id) {
        tm.mark_aborted(id);
    }
}

/// Whether those of some transactions whose fate was not known have been marked
/// aborted, and nothing else.
spec fn marked(t0: TransactionManager, t: TransactionManager, ids: Set<u64>) -> bool {
    &&& t.next_txn_id == t0.next_txn_id
    &&& forall|id: u64| #[trigger] t.in_flight(id) ==> t0.in_flight(id)
    &&& forall|id: u64| #[trigger]
        t.aborts().contains_key(id) <==> t0.aborts().contains_key(id) || (ids.contains(id)
            && !t0.committed(id))
    &&& forall|id: u64| #[trigger]
        t.clog@.contains_key(id) <==> t0.clog@.contains_key(id) || (ids.contains(id)
            && !t0.committed(id) && !t0.aborts().contains_key(id))
    &&& forall|id: u64| #[trigger]
        t.clog@.contains_key(id) ==> t.clog@[id] == if ids.contains(id) && !t0.committed(id)
            && !t0.aborts().contains_key(id) {
            TransactionStatus::Aborted
        } else {
            t0.clog@[id]
        }
}

proof fn lemma_marked_one(
    t0: TransactionManager,
    t: TransactionManager,
    u: TransactionManager,
    ids: Set<u64>,
    x: u64,
)
    requires
        marked(t0, t, ids),
        u.next_txn_id == t.next_txn_id,
        forall|id: u64| #[trigger] u.in_flight(id) ==> t.in_flight(id),
        t.committed(x) || t.aborts().contains_key(x) ==> u.clog@ == t.clog@ && u.aborts()
            == t.aborts(),
        !(t.committed(x) || t.aborts().contains_key(x)) ==> u.clog@ == t.clog@.insert(
            x,
            TransactionStatus::Aborted,
        ) && u.aborts() == t.aborts().insert(x, ()),
    ensures
        marked(t0, u, ids.insert(x)),
{
    assert(t.committed(x) == t0.committed(x)) by {
        if x != 0 {
            assert(t.clog@.contains_key(x) <==> t0.clog@.contains_key(x) || (ids.contains(x)
                && !t0.committed(x) && !t0.aborts().contains_key(x)));
        }
    }
    assert(t.aborts().contains_key(x) <==> t0.aborts().contains_key(x) || (ids.contains(x)
        && !t0.committed(x)));
}

/// Marks the transactions that were running when the log ends aborted.
fn mark_victims(
    tm: &mut TransactionManager,
    records: &Vec<WalRecord>,
    checkpoint: &Option<CheckpointData>,
)
    requires
        old(tm).wf(),
    ensures
        final(tm).wf(),
        marked(
            *old(tm),
            *final(tm),
            Set::new(
                |id: u64|
                    seen(record_views(records@), id) || (*checkpoint matches Some(c)
                        && c.active_txns@.contains(id)),
            ),
        ),
{
    let ghost rs = record_views(records@);
    let ghost t0 = *tm;
    let ghost mut ids = Set::<u64>::empty();
    if let Some(c) = checkpoint {
        let mut i: usize = 0;
        while i < c.active_txns.len()
            invariant
                i <= c.active_txns@.len(),
                tm.wf(),
                marked(t0, *tm, ids),
                forall|id: u64| #[trigger]
                    ids.contains(id) <==> c.active_txns@.subrange(0, i as int).contains(id),
            decreases c.active_txns.len() - i,
        {
            let id: u64 = c.active_txns[i];
            let ghost t1 = *tm;
            let ghost old_ids = ids;
            mark_unsettled(tm, id);
            proof {
                lemma_marked_one(t0, t1, *tm, ids, id);
                ids = ids.insert(id);
                let s0 = c.active_txns@.subrange(0, i as int);
                let s1 = c.active_txns@.subrange(0, i + 1);
                assert(s1 =~= s0.push(id));
                assert forall|x: u64| #[trigger] ids.contains(x) <==> s1.contains(x) by {
                    if s0.contains(x) {
                        let k = choose|k: int| 0 <= k < s0.len() && s0[k] == x;
                        assert(s1[k] == x);
                    }
                    if s1.contains(x) && x != id {
                        let k = choose|k: int| 0 <= k < s1.len() && s1[k] == x;
                        assert(s0[k] == x);
                    }
                    if x == id {
                        assert(s1[i as int] == x);
                    }
                    assert(old_ids.contains(x) == s0.contains(x));
                }
            }
            i = i + 1;
        }
        assert(c.active_txns@.subrange(0, i as int) =~= c.active_txns@);
    }
    let ghost named = ids;
    let mut i: usize = 0;
    while i < records.len()
        invariant
            i <= records@.len(),
            rs == record_views(records@),
            tm.wf(),
            marked(t0, *tm, ids),
            forall|id: u64| #[trigger]
                ids.contains(id) <==> named.contains(id) || seen(rs.subrange(0, i as int), id),
        decreases records.len() - i,
    {
        let id: u64 = records[i].txn_id;
        let ghost t1 = *tm;
        let ghost old_ids = ids;
        if id != 0 {
            mark_unsettled(tm, id);
            proof {
                lemma_marked_one(t0, t1, *tm, ids, id);
                ids = ids.insert(id);
            }
        }
        proof {
            let a = rs.subrange(0, i as int);
            let b = rs.subrange(0, i + 1);
            assert(b[i as int].txn_id == id);
            assert forall|x: u64| #[trigger] ids.contains(x) <==> named.contains(x) || seen(
                b,
                x,
            ) by {
                assert(old_ids.contains(x) <==> named.contains(x) || seen(a, x));
                if seen(a, x) {
                    let k = choose|k: int| 0 <= k < a.len() && (#[trigger] a[k]).txn_id == x;
                    assert(b[k] == a[k]);
                }
                if seen(b, x) && x != id {
                    let k = choose|k: int| 0 <= k < b.len() && (#[trigger] b[k]).txn_id == x;
                    assert(a[k] == b[k]);
                }
            }
        }
        i = i + 1;
    }
    proof {
        assert(rs.subrange(0, rs.len() as int) =~= rs);
        let want = Set::new(
            |id: u64|
                seen(rs, id) || (*checkpoint matches Some(c) && c.active_txns@.contains(id)),
        );
        assert forall|x: u64| ids.contains(x) == want.contains(x) by {}
        assert(ids =~= want);
    }
}

/// Restores what a log tells about transactions.
fn restore_fates(
    tm: &mut TransactionManager,
    records: &Vec<WalRecord>,
    checkpoint: &Option<CheckpointData>,
)
    requires
        old(tm).wf(),
        all_sane(record_views(records@)),
        match last_checkpoint(record_views(records@)) {
            Some(c) => *checkpoint matches Some(d) && d@ == c,
            None => *checkpoint is None,
        },
    ensures
        final(tm).wf(),
        fates_restored(*old(tm), *final(tm), record_views(records@)),
        final(tm).next_txn_id == (if next_txn_of(record_views(records@)) > old(tm).next_txn_id {
            next_txn_of(record_views(records@))
        } else {
            old(tm).next_txn_id as int
        }),
{
    let ghost rs = record_views(records@);
    let ghost t0 = *tm;
    let mut newest: u64 = 0;
    if let Some(c) = checkpoint {
        tm.seed_clog_from_checkpoint(&c.pinned_aborted);
        if c.next_txn_id > 0 {
            newest = c.next_txn_id - 1;
        }
    }
    let ghost t1 = *tm;
    let ghost init = newest;
    mark_settled(tm, records);
    let ghost t2 = *tm;
    mark_victims(tm, records, checkpoint);
    let ghost t3 = *tm;
    let mut i: usize = 0;
    assert(rs.subrange(0, 0) =~= Seq::<WalRecordView>::empty());
    while i < records.len()
        invariant
            i <= records@.len(),
            rs == record_views(records@),
            all_sane(rs),
            init < u64::MAX,
            newest < u64::MAX,
            newest == max_txn(rs.subrange(0, i as int), init),
        decreases records.len() - i,
    {
        proof {
            assert(rs.subrange(0, i + 1).drop_last() =~= rs.subrange(0, i as int));
            assert(rs.subrange(0, i + 1).last() == records@[i as int]@);
            assert(sane(rs[i as int]));
        }
        if records[i].txn_id > newest {
            newest = records[i].txn_id;
        }
        i = i + 1;
    }
    assert(rs.subrange(0, rs.len() as int) =~= rs);
    let mut next: u64 = newest + 1;
    if let Some(c) = checkpoint {
        if c.next_txn_id > next {
            next = c.next_txn_id;
        }
    }
    tm.restore_next_txn_id(next);
    proof {
        assert forall|id: u64| #[trigger] tm.in_flight(id) implies t0.in_flight(id) by {
            assert(t3.in_flight(id));
            assert(t2.in_flight(id));
            assert(t1.in_flight(id));
        }
        let victims = Set::new(
            |id: u64|
                seen(rs, id) || (*checkpoint matches Some(c) && c.active_txns@.contains(id)),
        );
        assert forall|id: u64| #[trigger] tm.aborts().contains_key(id) <==> t0.aborts().contains_key(
            id,
        ) || pinned(rs, id) || abort_logged(rs, id) || crash_victim(
            t0.clog@,
            t0.aborts(),
            rs,
            id,
        ) by {
            assert(t3.aborts().contains_key(id) <==> t2.aborts().contains_key(id) || (
            victims.contains(id) && !t2.committed(id)));
            assert(t2.aborts().contains_key(id) <==> t1.aborts().contains_key(id) || abort_logged(
                rs,
                id,
            ));
            assert(t1.aborts().contains_key(id) <==> t0.aborts().contains_key(id) || pinned(
                rs,
                id,
            ));
        }
        assert forall|id: u64| #[trigger] tm.clog@.contains_key(id) <==> clog_after(
            t0.clog@,
            rs,
        ).contains_key(id) || crash_victim(t0.clog@, t0.aborts(), rs, id) by {
            assert(t2.aborts().contains_key(id) <==> t1.aborts().contains_key(id) || abort_logged(
                rs,
                id,
            ));
            assert(t1.aborts().contains_key(id) <==> t0.aborts().contains_key(id) || pinned(
                rs,
                id,
            ));
            assert(t3.clog@.contains_key(id) <==> t2.clog@.contains_key(id) || (victims.contains(id)
                && !t2.committed(id) && !t2.aborts().contains_key(id)));
        }
        assert forall|id: u64| #[trigger] tm.clog@.contains_key(id) implies tm.clog@[id]
            == if crash_victim(t0.clog@, t0.aborts(), rs, id) {
            TransactionStatus::Aborted
        } else {
            clog_after(t0.clog@, rs)[id]
        } by {
            assert(t2.aborts().contains_key(id) <==> t1.aborts().contains_key(id) || abort_logged(
                rs,
                id,
            ));
            assert(t1.aborts().contains_key(id) <==> t0.aborts().contains_key(id) || pinned(
                rs,
                id,
            ));
            assert(t3.clog@.contains_key(id));
        }
    }
}

// ── Pages ────────────────────────────────────────────────────────────────────
/// What all pages hold.
pub open spec fn contents(m: BufferPoolManager) -> Map<u64, Seq<u8>> {
    Map::new(|id: u64| true, |id: u64| content(m, id))
}

/// Whether a pool holds these pages.
pub open spec fn agrees(m: BufferPoolManager, pages: Map<u64, Seq<u8>>) -> bool {
    forall|id: u64| #[trigger] content(m, id) == page_in(pages, id)
}

/// Whether all pages carry numbers that have been given out, and the log is durable
/// no further than that.
pub open spec fn tame(m: BufferPoolManager) -> bool {
    &&& m.wal.flushed_lsn matches Some(f) ==> f < m.wal.next_lsn || f == 0
    &&& forall|id: u64| known(#[trigger] content(m, id), m.wal.next_lsn)
}

/// Whether the numbers of some records have been given out.
pub open spec fn all_numbered(rs: Seq<WalRecordView>, next: u64) -> bool {
    forall|i: int| 0 <= i < rs.len() ==> (#[trigger] rs[i]).lsn < next
}

proof fn lemma_tame_asked(m0: BufferPoolManager, m: BufferPoolManager)
    requires
        tame(m0),
        flush_asked(m0, m),
        m.wal.next_lsn == m0.wal.next_lsn,
    ensures
        m.wal.flushed_lsn matches Some(f) ==> f < m.wal.next_lsn || f == 0,
{
    if m.wal.flushed_lsn != m0.wal.flushed_lsn {
        let id = choose|id: u64|
            #![trigger m0.dirty(id)]
            m0.dirty(id) && m.wal.flushed_lsn == Some(lsn_of(m0.holds(id)->0));
        assert(content(m0, id) == m0.holds(id)->0);
    }
}

/// Whether a pool can be worked on.
#[verifier::opaque]
spec fn ready(m: BufferPoolManager) -> bool {
    at_rest(m) && solid(m)
}

/// Checks the checksums of all pages of a file.
pub fn verify_pages(d: &DiskManager) -> (r: Result<(), BufferPoolError>)
    requires
        d.wf(),
    ensures
        r is Ok <==> sound(*d),
        r matches Err(e) ==> exists|id: u64|
            id < d.num_pages && #[trigger] load_error(*d, id) == Some(e) && forall|x: u64|
                x < id ==> #[trigger] intact(*d, x),
{
    let mut id: u64 = 0;
    while id < d.num_pages
        invariant
            d.wf(),
            id <= d.num_pages,
            forall|x: u64| x < id ==> #[trigger] intact(*d, x),
        decreases d.num_pages - id,
    {
        if let Err(e) = verify_page(d, id) {
            assert(!intact(*d, id));
            return Err(e);
        }
        id = id + 1;
    }
    Ok(())
}

/// Checks the checksum of a page, if it is in the file.
fn verify_page(d: &DiskManager, id: u64) -> (r: Result<(), BufferPoolError>)
    requires
        d.wf(),
    ensures
        r is Ok <==> intact(*d, id),
        r matches Err(e) ==> id < d.num_pages && load_error(*d, id) == Some(e),
{
    match d.read_page(id) {
        Ok(b) => match verify_checksum(&b) {
            Ok(()) => Ok(()),
            Err((expected, actual)) => Err(
                BufferPoolError::PageCorruption { page_id: id, expected, actual },
            ),
        },
        Err(_) => Ok(()),
    }
}

/// Whether records of a type change the pages that they name.
pub open spec fn touches(t: WalRecordType) -> bool {
    match t {
        WalRecordType::Commit => false,
        WalRecordType::Abort => false,
        WalRecordType::Checkpoint => false,
        WalRecordType::OverflowFree => false,
        _ => true,
    }
}

/// Whether every page that the first `i` records and the first `j` blocks of the
/// next one change has its checksum, if it is in the file.
pub open spec fn legible_to(d: DiskManager, rs: Seq<WalRecordView>, i: int, j: int) -> bool {
    forall|x: int, y: int|
        0 <= x < rs.len() && touches(rs[x].entry_type) && 0 <= y < rs[x].blocks.len() && (x < i || (
        x == i && y < j)) ==> intact(d, (#[trigger] rs[x].blocks[y]).page_id)
}

/// Whether every page that a log changes has its checksum, if it is in the file.
pub open spec fn legible(d: DiskManager, rs: Seq<WalRecordView>) -> bool {
    legible_to(d, rs, rs.len() as int, 0)
}

/// Whether block `j` of record `i` is the first one whose page lacks its checksum.
pub open spec fn illegible_at(d: DiskManager, rs: Seq<WalRecordView>, i: int, j: int) -> bool {
    &&& 0 <= i < rs.len()
    &&& touches(rs[i].entry_type)
    &&& 0 <= j < rs[i].blocks.len()
    &&& !intact(d, rs[i].blocks[j].page_id)
    &&& legible_to(d, rs, i, j)
}

/// The pages after the first `i` records and the first `j` blocks of the next one.
pub open spec fn redo_to(m: Map<u64, Seq<u8>>, rs: Seq<WalRecordView>, i: int, j: int) -> Option<
    Map<u64, Seq<u8>>,
> {
    match redo_all(m, rs.subrange(0, i)) {
        None => None,
        Some(m1) => redo_blocks(m1, rs[i], j as nat),
    }
}

/// Whether recovery fails in the way that the first record that cannot be redone
/// makes it fail: a page that it changes lacks its checksum, or it does not describe
/// a change of its pages.
pub open spec fn first_failure(
    d: DiskManager,
    m: Map<u64, Seq<u8>>,
    rs: Seq<WalRecordView>,
    e: IndexError,
) -> bool {
    if legible(d, rs) {
        redo_all(m, rs) is None && e == IndexError::Wal(WalError::CorruptedLog)
    } else {
        exists|i: int, j: int| #[trigger]
            illegible_at(d, rs, i, j) && if redo_to(m, rs, i, j) is None {
                e == IndexError::Wal(WalError::CorruptedLog)
            } else {
                load_error(d, rs[i].blocks[j].page_id) matches Some(x) && e
                    == IndexError::BufferPool(x)
            }
    }
}

/// The first block whose page lacks its checksum, in the order of the log, and what
/// is wrong with the page.
fn find_illegible(d: &DiskManager, records: &Vec<WalRecord>) -> (res: Option<
    (usize, usize, BufferPoolError),
>)
    requires
        d.wf(),
    ensures
        res is None <==> legible(*d, record_views(records@)),
        res matches Some(f) ==> {
            let rs = record_views(records@);
            &&& illegible_at(*d, rs, f.0 as int, f.1 as int)
            &&& load_error(*d, rs[f.0 as int].blocks[f.1 as int].page_id) == Some(f.2)
        },
{
    let ghost rs = record_views(records@);
    let mut i: usize = 0;
    while i < records.len()
        invariant
            d.wf(),
            rs == record_views(records@),
            i <= records@.len(),
            legible_to(*d, rs, i as int, 0),
        decreases records.len() - i,
    {
        assert(rs[i as int] == records@[i as int]@);
        let r = &records[i];
        let changes = match r.entry_type {
            WalRecordType::Commit => false,
            WalRecordType::Abort => false,
            WalRecordType::Checkpoint => false,
            WalRecordType::OverflowFree => false,
            _ => true,
        };
        let mut j: usize = 0;
        while changes && j < r.blocks.len()
            invariant
                d.wf(),
                rs == record_views(records@),
                i < records@.len(),
                *r == records@[i as int],
                rs[i as int] == r@,
                changes == touches(r@.entry_type),
                j <= r.blocks@.len(),
                legible_to(*d, rs, i as int, j as int),
            decreases r.blocks.len() - j,
        {
            assert(r@.blocks[j as int] == r.blocks@[j as int]@);
            if let Err(e) = verify_page(d, r.blocks[j].page_id) {
                assert(illegible_at(*d, rs, i as int, j as int));
                assert(!legible(*d, rs)) by {
                    if legible(*d, rs) {
                        assert(intact(*d, rs[i as int].blocks[j as int].page_id));
                    }
                }
                let f = (i, j, e);
                assert(f.2 == e);
                return Some(f);
            }
            j = j + 1;
        }
        i = i + 1;
    }
    None
}

/// What redoing a step does to a pool besides its pages.
spec fn stepped(m0: BufferPoolManager, m: BufferPoolManager) -> bool {
    &&& ready(m)
    &&& io_ok(m0.disk, m0.wal, m.disk, m.wal)
    &&& m.free_pool@ == m0.free_pool@
    &&& m.free_page == m0.free_page
    &&& m.next_page_id >= m0.next_page_id
}

proof fn lemma_stepped(m0: BufferPoolManager, m1: BufferPoolManager, m: BufferPoolManager)
    requires
        stepped(m0, m1),
        stepped(m1, m),
    ensures
        stepped(m0, m),
{
    lemma_io_trans(m0.disk, m0.wal, m1.disk, m1.wal, m.disk, m.wal);
}

proof fn lemma_moved_step(m0: BufferPoolManager, m: BufferPoolManager)
    requires
        ready(m0),
        moved(m0, m),
    ensures
        stepped(m0, m),
        m.next_page_id == m0.next_page_id,
        forall|id: u64| #[trigger] content(m, id) == content(m0, id),
        tame(m0) ==> tame(m),
{
    reveal(ready);
    lemma_content_moved(m0, m);
    reveal(moved);
    if tame(m0) {
        lemma_tame_asked(m0, m);
        assert forall|id: u64| known(#[trigger] content(m, id), m.wal.next_lsn) by {
            assert(content(m, id) == content(m0, id));
        }
    }
}

proof fn lemma_stored_step(m0: BufferPoolManager, m: BufferPoolManager, id: u64, b: Seq<u8>)
    requires
        ready(m0),
        stored(m0, m, id, b),
    ensures
        stepped(m0, m),
        m.next_page_id == m0.next_page_id,
        content(m, id) == blank(b),
        forall|x: u64| x != id ==> #[trigger] content(m, x) == content(m0, x),
        tame(m0) && b.len() == PAGE_SIZE && lsn_of(b) < m0.wal.next_lsn ==> tame(m),
{
    reveal(ready);
    lemma_content_stored(m0, m, id, b);
    reveal(stored);
    if tame(m0) && b.len() == PAGE_SIZE && lsn_of(b) < m0.wal.next_lsn {
        lemma_tame_asked(m0, m);
        lemma_blank(b);
        assert forall|x: u64| lsn_of(#[trigger] content(m, x)) < m.wal.next_lsn by {
            if x != id {
                assert(content(m, x) == content(m0, x));
            }
        }
    }
}

/// Makes room for a page id.
fn reserve(pool: &mut BufferPoolManager, page_id: u64)
    requires
        ready(*old(pool)),
        page_id < INVALID_FRAME_ID,
    ensures
        stepped(*old(pool), *final(pool)),
        final(pool).next_page_id == (if old(pool).next_page_id <= page_id {
            page_id + 1
        } else {
            old(pool).next_page_id as int
        }),
        forall|id: u64| #[trigger] content(*final(pool), id) == content(*old(pool), id),
        tame(*old(pool)) ==> tame(*final(pool)),
{
    let ghost m0 = *pool;
    proof {
        reveal(ready);
        lemma_at_rest(m0);
    }
    pool.advance_next_page_id(page_id + 1);
    proof {
        let m = *pool;
        reveal(at_rest);
        assert forall|id: u64| #[trigger] m.pins(id) == 0 by {
            assert(m0.pins(id) == 0);
        }
        assert forall|id: u64| #[trigger] m.holds(id) == m0.holds(id) && content(m, id) == content(
            m0,
            id,
        ) by {}
        if tame(m0) {
            assert forall|id: u64| known(#[trigger] content(m, id), m.wal.next_lsn) by {
                assert(content(m, id) == content(m0, id));
            }
        }
    }
}

/// Redoes one block of a record.
fn redo_at(pool: &mut BufferPoolManager, r: &WalRecord, j: usize) -> (res: Result<(), WalError>)
    requires
        ready(*old(pool)),
        j < r.blocks@.len(),
        sane(r@),
        intact(old(pool).disk, r@.blocks[j as int].page_id),
    ensures
        stepped(*old(pool), *final(pool)),
        final(pool).next_page_id <= old(pool).next_page_id || final(pool).next_page_id
            == r@.blocks[j as int].page_id + 1,
        tame(*old(pool)) && r@.lsn < old(pool).wal.next_lsn ==> tame(*final(pool)),
        ({
            let k = r@.blocks[j as int];
            let page = content(*old(pool), k.page_id);
            if r@.lsn <= lsn_of(page) {
                &&& res is Ok
                &&& forall|id: u64| #[trigger] content(*final(pool), id) == content(*old(pool), id)
            } else {
                match redo_page(page, r@.entry_type, j as int, k, r@.lsn) {
                    None => res == Err::<(), WalError>(WalError::CorruptedLog),
                    Some(b) => {
                        &&& res is Ok
                        &&& content(*final(pool), k.page_id) == blank(b)
                        &&& forall|id: u64|
                            id != k.page_id ==> #[trigger] content(*final(pool), id) == content(
                                *old(pool),
                                id,
                            )
                    },
                }
            }
        }),
{
    let ghost m0 = *pool;
    let block = &r.blocks[j];
    assert(r@.blocks[j as int] == block@);
    let page_id: u64 = block.page_id;
    reserve(pool, page_id);
    let ghost m1 = *pool;
    proof {
        reveal(ready);
    }
    let mut page: Vec<u8> = page_bytes(pool, page_id);
    let ghost m2 = *pool;
    proof {
        lemma_moved_step(m1, m2);
        lemma_stepped(m0, m1, m2);
        lemma_blank(page@);
    }
    if r.lsn <= page_lsn(&page) {
        return Ok(());
    }
    clear_checksum(&mut page);
    match redo_block(r.entry_type, j, block, &page, r.lsn) {
        Err(e) => Err(e),
        Ok(b) => {
            let ghost bv = b@;
            write_page(pool, page_id, b, None);
            proof {
                lemma_redo_stamps(page@, r.entry_type, j as int, block@, r.lsn);
                lemma_stored_step(m2, *pool, page_id, bv);
                lemma_stepped(m0, m2, *pool);
            }
            Ok(())
        },
    }
}

/// Redoes the first `n` blocks of a record that changes pages: each block whose page
/// has not seen the record is applied, and the page gets the number of the record.
fn redo_record(
    pool: &mut BufferPoolManager,
    r: &WalRecord,
    n: usize,
    Ghost(pages): Ghost<Map<u64, Seq<u8>>>,
) -> (res: Result<(), WalError>)
    requires
        ready(*old(pool)),
        sane(r@),
        n <= r@.blocks.len(),
        forall|j: int|
            0 <= j < n ==> intact(old(pool).disk, (#[trigger] r@.blocks[j]).page_id),
        agrees(*old(pool), pages),
    ensures
        stepped(*old(pool), *final(pool)),
        forall|init: u64|
            old(pool).next_page_id <= init + 1 ==> final(pool).next_page_id <= #[trigger] max_block(
                r@,
                n as nat,
                init,
            ) + 1,
        tame(*old(pool)) && r@.lsn < old(pool).wal.next_lsn ==> tame(*final(pool)),
        match redo_blocks(pages, r@, n as nat) {
            None => res == Err::<(), WalError>(WalError::CorruptedLog),
            Some(m) => res is Ok && agrees(*final(pool), m),
        },
{
    let ghost m0 = *pool;
    let mut j: usize = 0;
    let ghost mut now = pages;
    proof {
        lemma_self_step(m0);
    }
    while j < n
        invariant
            j <= n,
            m0 == *old(pool),
            n <= r@.blocks.len(),
            sane(r@),
            forall|j: int|
                0 <= j < n ==> intact(m0.disk, (#[trigger] r@.blocks[j]).page_id),
            ready(*pool),
            stepped(m0, *pool),
            tame(m0) && r@.lsn < m0.wal.next_lsn ==> tame(*pool),
            redo_blocks(pages, r@, j as nat) == Some(now),
            agrees(*pool, now),
            forall|init: u64|
                m0.next_page_id <= init + 1 ==> pool.next_page_id <= #[trigger] max_block(
                    r@,
                    j as nat,
                    init,
                ) + 1,
        decreases n - j,
    {
        let ghost m1 = *pool;
        let ghost k = r@.blocks[j as int];
        let ghost page = page_in(now, k.page_id);
        proof {
            assert(content(m1, k.page_id) == page);
            assert(k.page_id < INVALID_FRAME_ID);
            assert(intact(m0.disk, k.page_id));
            assert(intact(m1.disk, k.page_id));
        }
        let res = redo_at(pool, r, j);
        proof {
            lemma_stepped(m0, m1, *pool);
            assert forall|init: u64| m0.next_page_id <= init + 1 implies pool.next_page_id
                <= #[trigger] max_block(r@, (j + 1) as nat, init) + 1 by {
                assert(m1.next_page_id <= max_block(r@, j as nat, init) + 1);
            }
        }
        if let Err(e) = res {
            proof {
                assert(redo_blocks(pages, r@, (j + 1) as nat) is None);
                lemma_redo_stuck(pages, r@, (j + 1) as nat, n as nat);
                assert forall|init: u64| m0.next_page_id <= init + 1 implies pool.next_page_id
                    <= #[trigger] max_block(r@, n as nat, init) + 1 by {
                    lemma_max_block(r@, (j + 1) as nat, n as nat, init);
                }
            }
            return Err(e);
        }
        proof {
            if r@.lsn > lsn_of(page) {
                let b = redo_page(page, r@.entry_type, j as int, k, r@.lsn)->0;
                let next = now.insert(k.page_id, blank(b));
                assert forall|id: u64| #[trigger] content(*pool, id) == page_in(next, id) by {
                    if id != k.page_id {
                        assert(content(*pool, id) == content(m1, id));
                    }
                }
                now = next;
            } else {
                assert forall|id: u64| #[trigger] content(*pool, id) == page_in(now, id) by {
                    assert(content(*pool, id) == content(m1, id));
                }
            }
        }
        j = j + 1;
    }
    Ok(())
}

proof fn lemma_self_step(m: BufferPoolManager)
    requires
        ready(m),
    ensures
        stepped(m, m),
{
    reveal(ready);
    lemma_at_rest(m);
}

proof fn lemma_redo_stuck(pages: Map<u64, Seq<u8>>, r: WalRecordView, j: nat, n: nat)
    requires
        j <= n,
        redo_blocks(pages, r, j) is None,
    ensures
        redo_blocks(pages, r, n) is None,
    decreases n,
{
    if j < n {
        lemma_redo_stuck(pages, r, j, (n - 1) as nat);
    }
}

proof fn lemma_max_block(r: WalRecordView, j: nat, n: nat, init: u64)
    requires
        j <= n,
    ensures
        max_block(r, j, init) <= max_block(r, n, init),
        init <= max_block(r, j, init),
    decreases n,
{
    if j < n {
        lemma_max_block(r, j, (n - 1) as nat, init);
    } else if j > 0 {
        lemma_max_block(r, (j - 1) as nat, (j - 1) as nat, init);
    }
}

/// Redoes a record that gives overflow pages back: the pool forgets them.
fn redo_overflow_free(pool: &mut BufferPoolManager, r: &WalRecord) -> (res: Result<(), WalError>)
    requires
        ready(*old(pool)),
    ensures
        stepped(*old(pool), *final(pool)),
        final(pool).next_page_id == old(pool).next_page_id,
        forall|id: u64| #[trigger] content(*final(pool), id) == content(*old(pool), id),
        tame(*old(pool)) ==> tame(*final(pool)),
        res is Ok <==> r@.main_data is Some && part(r@.main_data).len() % 8 == 0,
        res matches Err(e) ==> e == WalError::CorruptedLog,
{
    let ghost m0 = *pool;
    proof {
        lemma_self_step(m0);
    }
    match &r.main_data {
        None => Err(WalError::CorruptedLog),
        Some(d) => {
            let n: usize = d.len();
            if n % 8 != 0 {
                return Err(WalError::CorruptedLog);
            }
            let mut i: usize = 0;
            while i < n
                invariant
                    i <= n,
                    i % 8 == 0,
                    n % 8 == 0,
                    n == d@.len(),
                    ready(*pool),
                    stepped(m0, *pool),
                    tame(m0) ==> tame(*pool),
                    pool.next_page_id == m0.next_page_id,
                    forall|id: u64| #[trigger] content(*pool, id) == content(m0, id),
                decreases n - i,
            {
                let ghost m1 = *pool;
                proof {
                    reveal(ready);
                }
                let id: u64 = crate::bytes::read_u64(d.as_slice(), i);
                drop_page(pool, id);
                proof {
                    lemma_moved_step(m1, *pool);
                    lemma_stepped(m0, m1, *pool);
                    assert forall|id: u64| #[trigger] content(*pool, id) == content(m0, id) by {
                        assert(content(*pool, id) == content(m1, id));
                    }
                }
                i = i + 8;
            }
            Ok(())
        },
    }
}

/// Redo-only recovery of one database.
pub struct RecoveryManager {
    pub pool: BufferPoolManager,
    pub records: Vec<WalRecord>,
    pub tm: TransactionManager,
}

impl RecoveryManager {
    /// Recovery of the pages behind a pool from the records of a log.
    pub fn new(pool: BufferPoolManager, records: Vec<WalRecord>, tm: TransactionManager) -> (r:
        RecoveryManager)
        ensures
            r.pool == pool,
            r.records == records,
            r.tm == tm,
    {
        RecoveryManager { pool, records, tm }
    }

    /// Redoes the first `n` records.
    fn redo(&mut self, n: usize) -> (res: Result<(), WalError>)
        requires
            ready(old(self).pool),
            n <= old(self).records@.len(),
            all_sane(record_views(old(self).records@)),
            legible_to(old(self).pool.disk, record_views(old(self).records@), n as int, 0),
        ensures
            stepped(old(self).pool, final(self).pool),
            forall|init: u64|
                old(self).pool.next_page_id <= init + 1 ==> final(self).pool.next_page_id
                    <= #[trigger] max_page(
                    record_views(old(self).records@).subrange(0, n as int),
                    init,
                ) + 1,
            tame(old(self).pool) && all_numbered(
                record_views(old(self).records@),
                old(self).pool.wal.next_lsn,
            ) ==> tame(final(self).pool),
            match redo_all(
                contents(old(self).pool),
                record_views(old(self).records@).subrange(0, n as int),
            ) {
                None => res == Err::<(), WalError>(WalError::CorruptedLog),
                Some(m) => res is Ok && agrees(final(self).pool, m),
            },
            final(self).records == old(self).records,
            final(self).tm == old(self).tm,
    {
        let ghost m0 = self.pool;
        let ghost rs = record_views(self.records@);
        let ghost pages = contents(m0);
        let ghost mut now = pages;
        let mut i: usize = 0;
        proof {
            lemma_self_step(m0);
            assert(rs.subrange(0, 0) =~= Seq::<WalRecordView>::empty());
        }
        while i < n
            invariant
                i <= n,
                m0 == old(self).pool,
                pages == contents(m0),
                n <= self.records@.len(),
                self.records == old(self).records,
                self.tm == old(self).tm,
                rs == record_views(self.records@),
                all_sane(rs),
                legible_to(m0.disk, rs, n as int, 0),
                ready(self.pool),
                stepped(m0, self.pool),
                tame(m0) && all_numbered(rs, m0.wal.next_lsn) ==> tame(self.pool),
                redo_all(pages, rs.subrange(0, i as int)) == Some(now),
                agrees(self.pool, now),
                forall|init: u64|
                    m0.next_page_id <= init + 1 ==> self.pool.next_page_id <= #[trigger] max_page(
                        rs.subrange(0, i as int),
                        init,
                    ) + 1,
            decreases n - i,
        {
            let ghost m1 = self.pool;
            let ghost a = rs.subrange(0, i as int);
            let ghost b = rs.subrange(0, i + 1);
            let r = &self.records[i];
            let ghost rv = r@;
            proof {
                assert(b.drop_last() =~= a);
                assert(b.last() == rv);
                assert(sane(rs[i as int]));
                assert(rs[i as int] == rv);
                lemma_self_step(m1);
                assert forall|j: int|
                    touches(rv.entry_type) && 0 <= j < rv.blocks.len() implies intact(
                    m1.disk,
                    (#[trigger] rv.blocks[j]).page_id,
                ) by {
                    assert(intact(m0.disk, rs[i as int].blocks[j].page_id));
                }
            }
            let res = match r.entry_type {
                WalRecordType::Commit => Ok(()),
                WalRecordType::Abort => Ok(()),
                WalRecordType::Checkpoint => Ok(()),
                WalRecordType::OverflowFree => redo_overflow_free(&mut self.pool, r),
                _ => redo_record(&mut self.pool, r, r.blocks.len(), Ghost(now)),
            };
            proof {
                lemma_stepped(m0, m1, self.pool);
                assert forall|init: u64| m0.next_page_id <= init + 1 implies self.pool.next_page_id
                    <= #[trigger] max_page(b, init) + 1 by {
                    let x = max_page(a, init);
                    assert(m1.next_page_id <= x + 1);
                    lemma_max_block(rv, rv.blocks.len(), rv.blocks.len(), x);
                    assert(max_page(b, init) == max_block(rv, rv.blocks.len(), x));
                }
            }
            if let Err(e) = res {
                proof {
                    assert(redo_all(pages, b) is None);
                    let done = rs.subrange(0, n as int);
                    assert(done.subrange(0, i + 1) =~= b);
                    lemma_all_stuck(pages, done, i + 1);
                    assert forall|init: u64| m0.next_page_id <= init
                        + 1 implies self.pool.next_page_id <= #[trigger] max_page(done, init) + 1 by {
                        lemma_max_page(done, i + 1, init);
                    }
                }
                return Err(e);
            }
            proof {
                let next = redo_one(now, rv)->0;
                assert(redo_all(pages, b) == redo_one(now, rv));
                assert forall|id: u64| #[trigger] content(self.pool, id) == page_in(next, id) by {
                    assert(content(m1, id) == page_in(now, id));
                }
                now = next;
            }
            i = i + 1;
        }
        Ok(())
    }

    /// Recovers: redoes the log, restores what it tells about transactions, sees
    /// to it that no id is given out twice, and writes all pages. Fails as the first
    /// record fails that cannot be redone: a page that it changes does not pass its
    /// checksum, or it does not describe a change of its pages.
    pub fn recover(&mut self) -> (r: Result<(), IndexError>)
        requires
            at_rest(old(self).pool),
            solid(old(self).pool),
            old(self).tm.wf(),
            all_sane(record_views(old(self).records@)),
        ensures
            ({
                let rs = record_views(old(self).records@);
                let redone = redo_all(contents(old(self).pool), rs);
                &&& !legible(old(self).pool.disk, rs) || redone is None ==> r is Err
                &&& r matches Err(e) ==> first_failure(
                    old(self).pool.disk,
                    contents(old(self).pool),
                    rs,
                    e,
                )
                &&& legible(old(self).pool.disk, rs) && redone is Some ==> {
                    &&& r is Ok
                    &&& recovered(old(self).pool, old(self).tm, final(self).pool, final(self).tm, rs)
                }
            }),
    {
        let ghost m0 = self.pool;
        let ghost rs = record_views(self.records@);
        proof {
            lemma_at_rest(m0);
        }
        proof {
            reveal(ready);
        }
        if let Some((i, j, e)) = find_illegible(&self.pool.disk, &self.records) {
            if let Err(e) = self.redo(i) {
                return Err(IndexError::Wal(e));
            }
            let ghost now = redo_all(contents(m0), rs.subrange(0, i as int))->0;
            let r = &self.records[i];
            proof {
                assert(rs[i as int] == r@);
                assert(sane(rs[i as int]));
                assert forall|y: int| 0 <= y < j implies intact(
                    self.pool.disk,
                    (#[trigger] r@.blocks[y]).page_id,
                ) by {
                    assert(intact(m0.disk, rs[i as int].blocks[y].page_id));
                }
            }
            if let Err(e) = redo_record(&mut self.pool, r, j, Ghost(now)) {
                return Err(IndexError::Wal(e));
            }
            return Err(IndexError::BufferPool(e));
        }
        let checkpoint = find_checkpoint(&self.records);
        let n: usize = self.records.len();
        proof {
            assert(rs.subrange(0, n as int) =~= rs);
        }
        if let Err(e) = self.redo(n) {
            return Err(IndexError::Wal(e));
        }
        let ghost m1 = self.pool;
        restore_fates(&mut self.tm, &self.records, &checkpoint);
        let mut newest: u64 = 0;
        if let Some(c) = &checkpoint {
            if c.next_page_id > 0 {
                newest = c.next_page_id - 1;
            }
        }
        let ghost init = newest;
        let mut i: usize = 0;
        assert(rs.subrange(0, 0) =~= Seq::<WalRecordView>::empty());
        while i < self.records.len()
            invariant
                i <= self.records@.len(),
                self.pool == m1,
                rs == record_views(self.records@),
                all_sane(rs),
                newest < u64::MAX,
                newest == max_page(rs.subrange(0, i as int), init),
            decreases self.records.len() - i,
        {
            proof {
                assert(rs.subrange(0, i + 1).drop_last() =~= rs.subrange(0, i as int));
                assert(rs.subrange(0, i + 1).last() == self.records@[i as int]@);
                assert(sane(rs[i as int]));
                lemma_max_sane(rs[i as int], rs[i as int].blocks.len(), newest);
            }
            newest = largest_block(&self.records[i], newest);
            i = i + 1;
        }
        assert(rs.subrange(0, rs.len() as int) =~= rs);
        let mut next: u64 = newest + 1;
        if let Some(c) = &checkpoint {
            if c.next_page_id > next {
                next = c.next_page_id;
            }
        }
        proof {
            lemma_at_rest(m1);
        }
        self.pool.advance_next_page_id(next);
        let ghost m2 = self.pool;
        proof {
            assert(at_rest(m2)) by {
                reveal(at_rest);
                assert forall|id: u64| #[trigger] m2.pins(id) == 0 by {
                    assert(m1.pins(id) == 0);
                }
            }
            assert forall|id: u64| #[trigger] m2.holds(id) == m1.holds(id) && content(m2, id)
                == content(m1, id) by {}
            assert(solid(m2));
        }
        self.pool.flush_all_pages();
        proof {
            let m = self.pool;
            assert(at_rest(m)) by {
                reveal(at_rest);
                assert forall|id: u64| #[trigger] m.pins(id) == 0 by {
                    assert(m2.pins(id) == 0);
                }
            }
            assert(moved(m2, m)) by {
                reveal(moved);
            }
            lemma_content_moved(m2, m);
            if tame(m1) {
                assert(tame(m2)) by {
                    assert forall|id: u64| known(#[trigger] content(m2, id), m2.wal.next_lsn) by {
                        assert(content(m2, id) == content(m1, id));
                    }
                }
                lemma_tame_asked(m2, m);
                assert forall|id: u64| known(#[trigger] content(m, id), m.wal.next_lsn) by {
                    assert(content(m, id) == content(m2, id));
                }
            }
            lemma_io_trans(m0.disk, m0.wal, m2.disk, m2.wal, m.disk, m.wal);
            let redone = redo_all(contents(m0), rs)->0;
            assert forall|id: u64| #[trigger] content(m, id) == page_in(redone, id) by {
                assert(content(m1, id) == page_in(redone, id));
                assert(content(m2, id) == content(m1, id));
            }
            if m0.next_page_id <= next_page_of(rs) {
                assert(m1.next_page_id <= next_page_of(rs)) by {
                    lemma_next_bound(rs, m0.next_page_id, m1.next_page_id);
                }
            }
        }
        Ok(())
    }
}

/// What recovery leaves behind: a pool with the redone pages, all of them in the
/// file, and a log that is as it was.
pub open spec fn restored(
    m0: BufferPoolManager,
    m: BufferPoolManager,
    pages: Map<u64, Seq<u8>>,
) -> bool {
    &&& at_rest(m)
    &&& solid(m)
    &&& agrees(m, pages)
    &&& forall|id: u64| !(#[trigger] m.dirty(id))
    &&& io_ok(m0.disk, m0.wal, m.disk, m.wal)
    &&& m.free_pool@ == m0.free_pool@
    &&& m.free_page == m0.free_page
    &&& m.next_page_id >= m0.next_page_id
}

/// What recovery does where the log can be redone: the pages are as redoing it
/// leaves them, the manager knows the fates of the transactions, and no id that the
/// log knows of will be given out again.
pub open spec fn recovered(
    m0: BufferPoolManager,
    tm0: TransactionManager,
    m: BufferPoolManager,
    tm: TransactionManager,
    rs: Seq<WalRecordView>,
) -> bool {
    &&& redo_all(contents(m0), rs) matches Some(pages) && restored(m0, m, pages)
    &&& tame(m0) && all_numbered(rs, m0.wal.next_lsn) ==> tame(m)
    &&& m0.next_page_id <= next_page_of(rs) ==> m.next_page_id == next_page_of(rs)
    &&& m.next_page_id >= next_page_of(rs)
    &&& tm.wf()
    &&& fates_restored(tm0, tm, rs)
    &&& tm.next_txn_id == (if next_txn_of(rs) > tm0.next_txn_id {
        next_txn_of(rs)
    } else {
        tm0.next_txn_id as int
    })
}

/// Whether a manager knows of no transactions.
pub open spec fn blank_manager(tm: TransactionManager) -> bool {
    &&& tm.next_txn_id == 1
    &&& tm.active_state.active@ == Map::<u64, (u64, u64)>::empty()
    &&& tm.clog@ == Map::<u64, TransactionStatus>::empty()
    &&& tm.aborts() == Map::<u64, ()>::empty()
}

proof fn lemma_next_bound(rs: Seq<WalRecordView>, n0: u64, n1: u64)
    requires
        n0 <= next_page_of(rs),
        forall|init: u64| n0 <= init + 1 ==> n1 <= #[trigger] max_page(rs, init) + 1,
    ensures
        n1 <= next_page_of(rs),
{
    let init0 = match last_checkpoint(rs) {
        None => 0u64,
        Some(c) => before(c.next_page_id),
    };
    if n0 > 0 {
        let x = (n0 - 1) as u64;
        if x <= init0 {
            assert(n1 <= max_page(rs, init0) + 1);
        } else {
            assert(n1 <= max_page(rs, x) + 1);
            lemma_max_page_init(rs, init0, x);
        }
    } else {
        assert(n1 <= max_page(rs, init0) + 1);
    }
}

/// The largest page id and the starting point.
proof fn lemma_max_page_init(rs: Seq<WalRecordView>, a: u64, b: u64)
    requires
        a <= b,
    ensures
        max_page(rs, a) <= max_page(rs, b),
        max_page(rs, b) == b || max_page(rs, b) == max_page(rs, a),
        a <= max_page(rs, a),
    decreases rs.len(),
{
    if rs.len() > 0 {
        lemma_max_page_init(rs.drop_last(), a, b);
        let x = max_page(rs.drop_last(), a);
        let y = max_page(rs.drop_last(), b);
        lemma_max_block_init(rs.last(), rs.last().blocks.len(), x, y);
    }
}

proof fn lemma_max_block_init(r: WalRecordView, n: nat, a: u64, b: u64)
    requires
        a <= b,
    ensures
        max_block(r, n, a) <= max_block(r, n, b),
        max_block(r, n, b) == b || max_block(r, n, b) == max_block(r, n, a),
        a <= max_block(r, n, a),
    decreases n,
{
    if n > 0 {
        lemma_max_block_init(r, (n - 1) as nat, a, b);
    }
}

proof fn lemma_max_sane(r: WalRecordView, n: nat, init: u64)
    requires
        sane(r),
        n <= r.blocks.len(),
        init < u64::MAX,
    ensures
        max_block(r, n, init) < u64::MAX,
    decreases n,
{
    if n > 0 {
        lemma_max_sane(r, (n - 1) as nat, init);
        assert(r.blocks[n - 1].page_id < INVALID_FRAME_ID);
    }
}

proof fn lemma_all_stuck(pages: Map<u64, Seq<u8>>, rs: Seq<WalRecordView>, i: int)
    requires
        0 <= i <= rs.len(),
        redo_all(pages, rs.subrange(0, i)) is None,
    ensures
        redo_all(pages, rs) is None,
    decreases rs.len(),
{
    if i == rs.len() {
        assert(rs.subrange(0, i) =~= rs);
    } else {
        let t = rs.drop_last();
        assert(t.subrange(0, i) =~= rs.subrange(0, i));
        lemma_all_stuck(pages, t, i);
    }
}

proof fn lemma_max_page(rs: Seq<WalRecordView>, i: int, init: u64)
    requires
        0 <= i <= rs.len(),
    ensures
        max_page(rs.subrange(0, i), init) <= max_page(rs, init),
    decreases rs.len(),
{
    if i == rs.len() {
        assert(rs.subrange(0, i) =~= rs);
    } else {
        let t = rs.drop_last();
        assert(t.subrange(0, i) =~= rs.subrange(0, i));
        lemma_max_page(t, i, init);
        lemma_max_block(
            rs.last(),
            rs.last().blocks.len(),
            rs.last().blocks.len(),
            max_page(t, init),
        );
    }
}

// ── Recovering twice ─────────────────────────────────────────────────────────
/// Whether all pages have the size of a page.
pub open spec fn page_sized(m: Map<u64, Seq<u8>>) -> bool {
    forall|id: u64| (#[trigger] page_in(m, id)).len() == PAGE_SIZE
}

/// Whether no page of `m2` has seen less of the log than in `m`.
spec fn further(m: Map<u64, Seq<u8>>, m2: Map<u64, Seq<u8>>) -> bool {
    forall|id: u64| lsn_of(page_in(m, id)) <= lsn_of(#[trigger] page_in(m2, id))
}

/// Whether the pages have seen a record: there is nothing to redo.
spec fn taken_in(m: Map<u64, Seq<u8>>, r: WalRecordView) -> bool {
    match r.entry_type {
        WalRecordType::Commit => true,
        WalRecordType::Abort => true,
        WalRecordType::Checkpoint => true,
        WalRecordType::OverflowFree => redo_one(m, r) is Some,
        _ => forall|i: int|
            0 <= i < r.blocks.len() ==> (#[trigger] r.blocks[i]).page_id != INVALID_FRAME_ID
                && r.lsn <= lsn_of(page_in(m, r.blocks[i].page_id)),
    }
}

proof fn lemma_blocks_seen(m: Map<u64, Seq<u8>>, r: WalRecordView, n: nat)
    requires
        page_sized(m),
        sane(r),
        n <= r.blocks.len(),
        redo_blocks(m, r, n) is Some,
    ensures
        page_sized(redo_blocks(m, r, n)->0),
        further(m, redo_blocks(m, r, n)->0),
        forall|i: int|
            0 <= i < n ==> r.lsn <= lsn_of(
                page_in(redo_blocks(m, r, n)->0, (#[trigger] r.blocks[i]).page_id),
            ),
    decreases n,
{
    if n > 0 {
        lemma_blocks_seen(m, r, (n - 1) as nat);
        let m1 = redo_blocks(m, r, (n - 1) as nat)->0;
        let m2 = redo_blocks(m, r, n)->0;
        let k = r.blocks[n - 1];
        let page = page_in(m1, k.page_id);
        lemma_redo_stamps(page, r.entry_type, n - 1, k, r.lsn);
        if r.lsn > lsn_of(page) {
            let b = redo_page(page, r.entry_type, n - 1, k, r.lsn)->0;
            lemma_blank(b);
            assert(m2 == m1.insert(k.page_id, blank(b)));
            assert forall|id: u64| (#[trigger] page_in(m2, id)).len() == PAGE_SIZE && lsn_of(
                page_in(m1, id),
            ) <= lsn_of(page_in(m2, id)) by {
                if id != k.page_id {
                    assert(page_in(m2, id) == page_in(m1, id));
                }
            }
        }
        assert forall|id: u64| lsn_of(page_in(m, id)) <= lsn_of(#[trigger] page_in(m2, id)) by {
            assert(lsn_of(page_in(m, id)) <= lsn_of(page_in(m1, id)));
        }
    }
}

proof fn lemma_blocks_skipped(m: Map<u64, Seq<u8>>, r: WalRecordView, n: nat)
    requires
        n <= r.blocks.len(),
        forall|i: int|
            0 <= i < r.blocks.len() ==> (#[trigger] r.blocks[i]).page_id != INVALID_FRAME_ID
                && r.lsn <= lsn_of(page_in(m, r.blocks[i].page_id)),
    ensures
        redo_blocks(m, r, n) == Some(m),
    decreases n,
{
    if n > 0 {
        lemma_blocks_skipped(m, r, (n - 1) as nat);
        assert(r.blocks[n - 1].page_id != INVALID_FRAME_ID);
    }
}

/// Pages that have been recovered have seen all of the log.
proof fn lemma_all_seen(m: Map<u64, Seq<u8>>, rs: Seq<WalRecordView>)
    requires
        page_sized(m),
        all_sane(rs),
        redo_all(m, rs) is Some,
    ensures
        page_sized(redo_all(m, rs)->0),
        forall|j: int| 0 <= j < rs.len() ==> taken_in(redo_all(m, rs)->0, #[trigger] rs[j]),
    decreases rs.len(),
{
    if rs.len() > 0 {
        let front = rs.drop_last();
        let r = rs.last();
        assert forall|i: int| 0 <= i < front.len() implies sane(#[trigger] front[i]) by {
            assert(front[i] == rs[i]);
        }
        lemma_all_seen(m, front);
        let m1 = redo_all(m, front)->0;
        let m2 = redo_all(m, rs)->0;
        assert(sane(rs[rs.len() - 1]));
        assert(redo_one(m1, r) == Some(m2));
        let blocks = match r.entry_type {
            WalRecordType::Commit => false,
            WalRecordType::Abort => false,
            WalRecordType::Checkpoint => false,
            WalRecordType::OverflowFree => false,
            _ => true,
        };
        if blocks {
            lemma_blocks_seen(m1, r, r.blocks.len());
            assert(taken_in(m2, r));
        } else {
            assert(m2 == m1);
        }
        assert forall|j: int| 0 <= j < rs.len() implies taken_in(m2, #[trigger] rs[j]) by {
            if j < front.len() {
                assert(front[j] == rs[j]);
                assert(taken_in(m1, front[j]));
                let q = rs[j];
                assert forall|i: int| 0 <= i < q.blocks.len() && q.lsn <= lsn_of(
                    page_in(m1, (#[trigger] q.blocks[i]).page_id),
                ) implies q.lsn <= lsn_of(page_in(m2, q.blocks[i].page_id)) by {
                    if blocks {
                        assert(lsn_of(page_in(m1, q.blocks[i].page_id)) <= lsn_of(
                            page_in(m2, q.blocks[i].page_id),
                        ));
                    }
                }
            }
        }
    }
}

proof fn lemma_all_skipped(m: Map<u64, Seq<u8>>, rs: Seq<WalRecordView>)
    requires
        forall|j: int| 0 <= j < rs.len() ==> taken_in(m, #[trigger] rs[j]),
    ensures
        redo_all(m, rs) == Some(m),
    decreases rs.len(),
{
    if rs.len() > 0 {
        let front = rs.drop_last();
        let r = rs.last();
        assert forall|j: int| 0 <= j < front.len() implies taken_in(m, #[trigger] front[j]) by {
            assert(front[j] == rs[j]);
        }
        lemma_all_skipped(m, front);
        assert(taken_in(m, rs[rs.len() - 1]));
        match r.entry_type {
            WalRecordType::Commit => {},
            WalRecordType::Abort => {},
            WalRecordType::Checkpoint => {},
            WalRecordType::OverflowFree => {},
            _ => {
                lemma_blocks_skipped(m, r, r.blocks.len());
            },
        }
    }
}

/// Recovering pages a second time changes nothing: they have seen all of the log.
pub proof fn law_recovering_twice_is_once(m: Map<u64, Seq<u8>>, rs: Seq<WalRecordView>)
    requires
        page_sized(m),
        all_sane(rs),
        redo_all(m, rs) is Some,
    ensures
        redo_all(redo_all(m, rs)->0, rs) == redo_all(m, rs),
{
    lemma_all_seen(m, rs);
    lemma_all_skipped(redo_all(m, rs)->0, rs);
}

proof fn lemma_contents_sized(m: BufferPoolManager)
    requires
        at_rest(m),
    ensures
        page_sized(contents(m)),
{
    lemma_at_rest(m);
    assert forall|id: u64| (#[trigger] page_in(contents(m), id)).len() == PAGE_SIZE by {
        lemma_blank(m.disk.at(id));
        if m.dirty(id) {
            let s = m.shards@[shard_of(id)];
            lemma_shard_of(id);
            assert(s.wf(m.disk));
            assert(s.page_table@.contains_key(id));
            assert(m.bytes(id) == s.pages@[s.frame(id)].0@);
            lemma_blank(m.bytes(id));
        }
    }
}

/// A pool that recovery has left behind is left as it is when its log is redone
/// again.
pub proof fn law_second_recovery_changes_nothing(
    before: BufferPoolManager,
    after: BufferPoolManager,
    rs: Seq<WalRecordView>,
)
    requires
        at_rest(before),
        all_sane(rs),
        redo_all(contents(before), rs) is Some,
        restored(before, after, redo_all(contents(before), rs)->0),
    ensures
        redo_all(contents(after), rs) is Some,
        forall|id: u64| #[trigger]
            page_in(redo_all(contents(after), rs)->0, id) == content(after, id),
{
    let pages = redo_all(contents(before), rs)->0;
    lemma_contents_sized(before);
    lemma_all_seen(contents(before), rs);
    assert forall|j: int| 0 <= j < rs.len() implies taken_in(contents(after), #[trigger] rs[j]) by {
        let r = rs[j];
        assert(taken_in(pages, r));
        assert forall|i: int| 0 <= i < r.blocks.len() implies page_in(
            contents(after),
            (#[trigger] r.blocks[i]).page_id,
        ) == page_in(pages, r.blocks[i].page_id) by {
            assert(content(after, r.blocks[i].page_id) == page_in(pages, r.blocks[i].page_id));
        }
    }
    lemma_all_skipped(contents(after), rs);
}

proof fn lemma_txn_below(rs: Seq<WalRecordView>, i: int, init: u64)
    requires
        0 <= i < rs.len(),
    ensures
        rs[i].txn_id <= max_txn(rs, init),
    decreases rs.len(),
{
    if i < rs.len() - 1 {
        assert(rs.drop_last()[i] == rs[i]);
        lemma_txn_below(rs.drop_last(), i, init);
    }
}

proof fn lemma_block_below(r: WalRecordView, j: int, n: nat, init: u64)
    requires
        0 <= j < n,
    ensures
        r.blocks[j].page_id <= max_block(r, n, init),
    decreases n,
{
    if j < n - 1 {
        lemma_block_below(r, j, (n - 1) as nat, init);
    }
}

proof fn lemma_page_below(rs: Seq<WalRecordView>, i: int, j: int, init: u64)
    requires
        0 <= i < rs.len(),
        0 <= j < rs[i].blocks.len(),
    ensures
        rs[i].blocks[j].page_id <= max_page(rs, init),
    decreases rs.len(),
{
    let t = rs.drop_last();
    let n = rs.last().blocks.len();
    if i < rs.len() - 1 {
        assert(t[i] == rs[i]);
        lemma_page_below(t, i, j, init);
        lemma_max_block(rs.last(), n, n, max_page(t, init));
    } else {
        lemma_block_below(rs.last(), j, n, max_page(t, init));
    }
}

/// After recovery the next transaction id is larger than every transaction id in the
/// log, and the next page id larger than every page id there.
pub proof fn law_recovered_ids_are_new(
    m0: BufferPoolManager,
    tm0: TransactionManager,
    m: BufferPoolManager,
    tm: TransactionManager,
    rs: Seq<WalRecordView>,
)
    requires
        recovered(m0, tm0, m, tm, rs),
    ensures
        forall|i: int| 0 <= i < rs.len() ==> (#[trigger] rs[i]).txn_id < tm.next_txn_id,
        forall|i: int, j: int|
            0 <= i < rs.len() && 0 <= j < rs[i].blocks.len() ==> (
            #[trigger] rs[i].blocks[j]).page_id < m.next_page_id,
{
    let txn0 = match last_checkpoint(rs) {
        None => 0u64,
        Some(c) => before(c.next_txn_id),
    };
    let page0 = match last_checkpoint(rs) {
        None => 0u64,
        Some(c) => before(c.next_page_id),
    };
    assert forall|i: int| 0 <= i < rs.len() implies (#[trigger] rs[i]).txn_id < tm.next_txn_id by {
        lemma_txn_below(rs, i, txn0);
    }
    assert forall|i: int, j: int| 0 <= i < rs.len() && 0 <= j < rs[i].blocks.len() implies (
    #[trigger] rs[i].blocks[j]).page_id < m.next_page_id by {
        lemma_page_below(rs, i, j, page0);
    }
}

/// Recovering twice is recovering once. Where a first recovery with a new manager has
/// succeeded, a second one with a new manager, over a pool that holds what the first
/// one left, succeeds too. It leaves every page as it was, gives every transaction the
/// same status, and ends with the same next transaction id; a pool that was not ahead
/// of the log ends with the same next page id.
pub proof fn law_two_recoveries_agree(
    m0: BufferPoolManager,
    tm0: TransactionManager,
    m1: BufferPoolManager,
    tm1: TransactionManager,
    m: BufferPoolManager,
    tm: TransactionManager,
    m2: BufferPoolManager,
    tm2: TransactionManager,
    rs: Seq<WalRecordView>,
)
    requires
        at_rest(m0),
        all_sane(rs),
        blank_manager(tm0),
        legible(m0.disk, rs),
        recovered(m0, tm0, m1, tm1, rs),
        blank_manager(tm),
        forall|id: u64| #[trigger] content(m, id) == content(m1, id),
        forall|id: u64| intact(m1.disk, id) ==> #[trigger] intact(m.disk, id),
    ensures
        legible(m.disk, rs),
        redo_all(contents(m), rs) is Some,
        recovered(m, tm, m2, tm2, rs) ==> {
            &&& forall|id: u64| #[trigger] content(m2, id) == content(m1, id)
            &&& tm2.clog@ == tm1.clog@
            &&& tm2.aborts() == tm1.aborts()
            &&& tm2.next_txn_id == tm1.next_txn_id
            &&& m0.next_page_id <= next_page_of(rs) && m.next_page_id <= m1.next_page_id
                ==> m2.next_page_id == m1.next_page_id
        },
{
    law_second_recovery_changes_nothing(m0, m1, rs);
    assert(contents(m) =~= contents(m1));
    assert forall|x: int, y: int|
        0 <= x < rs.len() && touches(rs[x].entry_type) && 0 <= y < rs[x].blocks.len() implies intact(
        m.disk,
        (#[trigger] rs[x].blocks[y]).page_id,
    ) by {
        assert(intact(m0.disk, rs[x].blocks[y].page_id));
        assert(intact(m1.disk, rs[x].blocks[y].page_id));
    }
    if recovered(m, tm, m2, tm2, rs) {
        let pages = redo_all(contents(m), rs)->0;
        assert forall|id: u64| #[trigger] content(m2, id) == content(m1, id) by {
            assert(content(m2, id) == page_in(pages, id));
        }
        assert forall|id: u64| #[trigger] tm2.clog@.contains_key(id) == tm1.clog@.contains_key(id) && (
        tm1.clog@.contains_key(id) ==> tm2.clog@[id] == tm1.clog@[id]) by {
            assert(tm.clog@ == tm0.clog@);
            assert(tm.aborts() == tm0.aborts());
            assert(tm2.clog@.contains_key(id) == tm1.clog@.contains_key(id));
            if tm1.clog@.contains_key(id) {
                assert(tm2.clog@[id] == tm1.clog@[id]);
            }
        }
        assert(tm2.clog@ =~= tm1.clog@);
        assert(tm2.aborts() =~= tm1.aborts());
    }
}

} // verus!
