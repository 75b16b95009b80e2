//! What recovery leaves, told by the records of the log.

use vstd::prelude::*;

use crate::checkpoint::{checkpoint_at, CheckpointView};
use crate::disk::DiskManager;
use crate::engine_open::{has_superblock, no_superblock_error};
use crate::error::{BufferPoolError, DiskError, IndexError, WalError};
use crate::history::{page_in, redo_all, redo_blocks, redo_one};
use crate::manager::{load_error, BufferPoolManager};
use crate::page::{blank, lsn_of, restamped, verifies};
use crate::pool_ops::content;
use crate::recovery::{
    abort_logged, before, blank_manager, clog_after, contents, crash_victim, fates_restored,
    first_failure, illegible_at, last_checkpoint, legible, max_block, max_page, max_txn, pinned,
    recovered, redo_to, sane, seen, touches,
};
use crate::redo::redo_page;
use crate::shard::{intact, sound};
use crate::transaction_manager::{TransactionManager, TransactionStatus};
use crate::wal::{part, WalRecordType, WalRecordView};

verus! {

/// Whether a record is a checkpoint that can be read, and what it says.
pub open spec fn says(r: WalRecordView, c: CheckpointView) -> bool {
    r.entry_type == WalRecordType::Checkpoint && checkpoint_at(part(r.main_data)) == Some(c)
}

/// Of several checkpoints the last one that can be read counts.
pub proof fn law_the_last_checkpoint_counts(rs: Seq<WalRecordView>, i: int, c: CheckpointView)
    requires
        0 <= i < rs.len(),
        says(rs[i], c),
        forall|j: int, d: CheckpointView| i < j < rs.len() ==> !(#[trigger] says(rs[j], d)),
    ensures
        last_checkpoint(rs) == Some(c),
    decreases rs.len(),
{
    let n = rs.len() - 1;
    if i < n {
        let t = rs.drop_last();
        assert forall|j: int, d: CheckpointView| i < j < t.len() implies !(#[trigger] says(
            t[j],
            d,
        )) by {
            assert(t[j] == rs[j]);
            assert(!says(rs[j], d));
        }
        assert(t[i] == rs[i]);
        law_the_last_checkpoint_counts(t, i, c);
        if rs.last().entry_type == WalRecordType::Checkpoint && checkpoint_at(
            part(rs.last().main_data),
        ) is Some {
            let d = checkpoint_at(part(rs.last().main_data))->0;
            assert(says(rs[n], d));
        }
    }
}

/// Without a checkpoint that can be read, none counts.
pub proof fn law_no_checkpoint_counts(rs: Seq<WalRecordView>)
    requires
        forall|j: int, d: CheckpointView| 0 <= j < rs.len() ==> !(#[trigger] says(rs[j], d)),
    ensures
        last_checkpoint(rs) is None,
    decreases rs.len(),
{
    if rs.len() > 0 {
        let n = rs.len() - 1;
        let t = rs.drop_last();
        assert forall|j: int, d: CheckpointView| 0 <= j < t.len() implies !(#[trigger] says(
            t[j],
            d,
        )) by {
            assert(t[j] == rs[j]);
            assert(!says(rs[j], d));
        }
        law_no_checkpoint_counts(t);
        if rs.last().entry_type == WalRecordType::Checkpoint && checkpoint_at(
            part(rs.last().main_data),
        ) is Some {
            let d = checkpoint_at(part(rs.last().main_data))->0;
            assert(says(rs[n], d));
        }
    }
}

/// What the commit log says of a transaction with a record that settles it.
proof fn lemma_clog_after(
    clog: Map<u64, TransactionStatus>,
    rs: Seq<WalRecordView>,
    id: u64,
)
    ensures
        clog_after(clog, rs).contains_key(id) <==> clog.contains_key(id) || exists|i: int|
            0 <= i < rs.len() && (#[trigger] rs[i]).txn_id == id && (rs[i].entry_type
                == WalRecordType::Commit || rs[i].entry_type == WalRecordType::Abort),
        (forall|i: int|
            0 <= i < rs.len() && (#[trigger] rs[i]).txn_id == id ==> rs[i].entry_type
                != WalRecordType::Commit) && clog_after(clog, rs).contains_key(id)
            && !clog.contains_key(id) ==> clog_after(clog, rs)[id] == TransactionStatus::Aborted,
        (forall|i: int|
            0 <= i < rs.len() && (#[trigger] rs[i]).txn_id == id ==> rs[i].entry_type
                != WalRecordType::Abort) && clog_after(clog, rs).contains_key(id)
            && !clog.contains_key(id) ==> clog_after(clog, rs)[id] == TransactionStatus::Committed,
    decreases rs.len(),
{
    if rs.len() > 0 {
        let t = rs.drop_last();
        lemma_clog_after(clog, t, id);
        let n = rs.len() - 1;
        assert(rs.last() == rs[n]);
        if exists|i: int|
            0 <= i < t.len() && (#[trigger] t[i]).txn_id == id && (t[i].entry_type
                == WalRecordType::Commit || t[i].entry_type == WalRecordType::Abort) {
            let i = choose|i: int|
                0 <= i < t.len() && (#[trigger] t[i]).txn_id == id && (t[i].entry_type
                    == WalRecordType::Commit || t[i].entry_type == WalRecordType::Abort);
            assert(rs[i] == t[i]);
        }
        if exists|i: int|
            0 <= i < rs.len() && (#[trigger] rs[i]).txn_id == id && (rs[i].entry_type
                == WalRecordType::Commit || rs[i].entry_type == WalRecordType::Abort) {
            let i = choose|i: int|
                0 <= i < rs.len() && (#[trigger] rs[i]).txn_id == id && (rs[i].entry_type
                    == WalRecordType::Commit || rs[i].entry_type == WalRecordType::Abort);
            if i < n {
                assert(t[i] == rs[i]);
            }
        }
        if forall|i: int|
            0 <= i < rs.len() && (#[trigger] rs[i]).txn_id == id ==> rs[i].entry_type
                != WalRecordType::Commit {
            assert forall|i: int| 0 <= i < t.len() && (#[trigger] t[i]).txn_id == id implies t[i].entry_type
                != WalRecordType::Commit by {
                assert(rs[i] == t[i]);
            }
        }
        if forall|i: int|
            0 <= i < rs.len() && (#[trigger] rs[i]).txn_id == id ==> rs[i].entry_type
                != WalRecordType::Abort {
            assert forall|i: int| 0 <= i < t.len() && (#[trigger] t[i]).txn_id == id implies t[i].entry_type
                != WalRecordType::Abort by {
                assert(rs[i] == t[i]);
            }
        }
    }
}

/// Whether a log has a record of some type of a transaction.
pub open spec fn tells(rs: Seq<WalRecordView>, kind: WalRecordType, id: u64) -> bool {
    exists|i: int|
        0 <= i < rs.len() && (#[trigger] rs[i]).txn_id == id && rs[i].entry_type == kind
}

/// What becomes of a transaction in a recovery with a new manager, where `listed` are the
/// transactions that the checkpoint lists as running and `pins` those that it lists as
/// aborted. It is running no more. It has aborted exactly if the log or the checkpoint says
/// so, or if one of them knows of it and the log has no commit of it. It has committed if
/// the log has a commit of it and neither says that it aborted; and it has not committed if
/// the log has no commit of it.
pub open spec fn settled_by(
    tm: TransactionManager,
    rs: Seq<WalRecordView>,
    listed: Seq<u64>,
    pins: Seq<u64>,
    id: u64,
) -> bool {
    &&& !tm.in_flight(id)
    &&& tm.aborts().contains_key(id) <==> {
        ||| pins.contains(id)
        ||| tells(rs, WalRecordType::Abort, id)
        ||| !tells(rs, WalRecordType::Commit, id) && (listed.contains(id) || exists|i: int|
            0 <= i < rs.len() && (#[trigger] rs[i]).txn_id == id)
    }
    &&& tells(rs, WalRecordType::Commit, id) && !tells(rs, WalRecordType::Abort, id)
        && !pins.contains(id) ==> tm.committed(id)
    &&& !tells(rs, WalRecordType::Commit, id) ==> !tm.committed(id)
}

proof fn lemma_settled_by(
    tm0: TransactionManager,
    tm: TransactionManager,
    rs: Seq<WalRecordView>,
    listed: Seq<u64>,
    pins: Seq<u64>,
    id: u64,
)
    requires
        blank_manager(tm0),
        fates_restored(tm0, tm, rs),
        id != 0,
        match last_checkpoint(rs) {
            Some(c) => listed == c.active_txns && pins == c.pinned_aborted,
            None => listed.len() == 0 && pins.len() == 0,
        },
    ensures
        settled_by(tm, rs, listed, pins, id),
{
    lemma_clog_after(tm0.clog@, rs, id);
    assert(!tm0.in_flight(id));
    assert(abort_logged(rs, id) <==> tells(rs, WalRecordType::Abort, id)) by {
        if abort_logged(rs, id) {
            let i = choose|i: int|
                0 <= i < rs.len() && (#[trigger] rs[i]).entry_type == WalRecordType::Abort
                    && rs[i].txn_id == id;
            assert(rs[i].txn_id == id);
        }
    }
    assert(pinned(rs, id) <==> pins.contains(id));
    assert(tm.aborts().contains_key(id) <==> tm0.aborts().contains_key(id) || pinned(rs, id)
        || abort_logged(rs, id) || crash_victim(tm0.clog@, tm0.aborts(), rs, id));
    assert(tm.clog@.contains_key(id) <==> clog_after(tm0.clog@, rs).contains_key(id)
        || crash_victim(tm0.clog@, tm0.aborts(), rs, id));
}

/// What becomes of transactions in a recovery whose log has a checkpoint.
pub proof fn law_fates_with_a_checkpoint(
    tm0: TransactionManager,
    tm: TransactionManager,
    rs: Seq<WalRecordView>,
    i: int,
    c: CheckpointView,
    id: u64,
)
    requires
        blank_manager(tm0),
        fates_restored(tm0, tm, rs),
        0 <= i < rs.len(),
        says(rs[i], c),
        forall|j: int, d: CheckpointView| i < j < rs.len() ==> !(#[trigger] says(rs[j], d)),
        id != 0,
    ensures
        settled_by(tm, rs, c.active_txns, c.pinned_aborted, id),
{
    law_the_last_checkpoint_counts(rs, i, c);
    lemma_settled_by(tm0, tm, rs, c.active_txns, c.pinned_aborted, id);
}

/// What becomes of transactions in a recovery whose log has no checkpoint.
pub proof fn law_fates_without_a_checkpoint(
    tm0: TransactionManager,
    tm: TransactionManager,
    rs: Seq<WalRecordView>,
    id: u64,
)
    requires
        blank_manager(tm0),
        fates_restored(tm0, tm, rs),
        forall|j: int, d: CheckpointView| 0 <= j < rs.len() ==> !(#[trigger] says(rs[j], d)),
        id != 0,
    ensures
        settled_by(tm, rs, Seq::empty(), Seq::empty(), id),
{
    law_no_checkpoint_counts(rs);
    lemma_settled_by(tm0, tm, rs, Seq::empty(), Seq::empty(), id);
}

proof fn lemma_max_txn(rs: Seq<WalRecordView>, init: u64)
    ensures
        max_txn(rs, init) >= init,
        forall|i: int| 0 <= i < rs.len() ==> (#[trigger] rs[i]).txn_id <= max_txn(rs, init),
        max_txn(rs, init) == init || exists|i: int|
            0 <= i < rs.len() && (#[trigger] rs[i]).txn_id == max_txn(rs, init),
    decreases rs.len(),
{
    if rs.len() > 0 {
        let t = rs.drop_last();
        lemma_max_txn(t, init);
        assert(rs.last() == rs[rs.len() - 1]);
        assert forall|i: int| 0 <= i < rs.len() implies (#[trigger] rs[i]).txn_id <= max_txn(
            rs,
            init,
        ) by {
            if i < rs.len() - 1 {
                assert(t[i] == rs[i]);
            }
        }
        if max_txn(t, init) != init {
            let i = choose|i: int|
                0 <= i < t.len() && (#[trigger] t[i]).txn_id == max_txn(t, init);
            assert(rs[i] == t[i]);
        }
    }
}

/// Recovery with a new manager gives out no more numbers than it has to: the next
/// transaction id is the first that lies above every id in the log and is not below the one
/// that the last checkpoint names.
pub proof fn law_next_ids_leave_no_gap(
    m0: BufferPoolManager,
    tm0: TransactionManager,
    m: BufferPoolManager,
    tm: TransactionManager,
    rs: Seq<WalRecordView>,
    i: int,
    c: CheckpointView,
)
    requires
        blank_manager(tm0),
        recovered(m0, tm0, m, tm, rs),
        0 <= i < rs.len(),
        says(rs[i], c),
        forall|j: int, d: CheckpointView| i < j < rs.len() ==> !(#[trigger] says(rs[j], d)),
    ensures
        tm.next_txn_id >= c.next_txn_id,
        forall|j: int| 0 <= j < rs.len() ==> (#[trigger] rs[j]).txn_id < tm.next_txn_id,
        tm.next_txn_id > 1 ==> tm.next_txn_id == c.next_txn_id || exists|j: int|
            0 <= j < rs.len() && (#[trigger] rs[j]).txn_id == tm.next_txn_id - 1,
{
    law_the_last_checkpoint_counts(rs, i, c);
    lemma_max_txn(rs, before(c.next_txn_id));
}

proof fn lemma_max_block(r: WalRecordView, n: nat, init: u64)
    requires
        n <= r.blocks.len(),
    ensures
        max_block(r, n, init) >= init,
        forall|j: int| 0 <= j < n ==> (#[trigger] r.blocks[j]).page_id <= max_block(r, n, init),
        max_block(r, n, init) == init || exists|j: int|
            0 <= j < n && (#[trigger] r.blocks[j]).page_id == max_block(r, n, init),
    decreases n,
{
    if n > 0 {
        lemma_max_block(r, (n - 1) as nat, init);
        assert(r.blocks[n - 1].page_id <= max_block(r, n, init));
    }
}

proof fn lemma_max_page(rs: Seq<WalRecordView>, init: u64)
    ensures
        max_page(rs, init) >= init,
        forall|i: int, j: int|
            0 <= i < rs.len() && 0 <= j < rs[i].blocks.len() ==> (
            #[trigger] rs[i].blocks[j]).page_id <= max_page(rs, init),
        max_page(rs, init) == init || exists|i: int, j: int|
            0 <= i < rs.len() && 0 <= j < rs[i].blocks.len() && (
            #[trigger] rs[i].blocks[j]).page_id == max_page(rs, init),
    decreases rs.len(),
{
    if rs.len() > 0 {
        let t = rs.drop_last();
        let r = rs.last();
        let n = rs.len() - 1;
        lemma_max_page(t, init);
        lemma_max_block(r, r.blocks.len(), max_page(t, init));
        assert(r == rs[n]);
        assert forall|i: int, j: int| 0 <= i < rs.len() && 0 <= j < rs[i].blocks.len() implies (
        #[trigger] rs[i].blocks[j]).page_id <= max_page(rs, init) by {
            if i < n {
                assert(t[i] == rs[i]);
                assert(t[i].blocks[j].page_id <= max_page(t, init));
            }
        }
        if max_page(rs, init) == max_page(t, init) {
            if max_page(t, init) != init {
                let (i, j) = choose|i: int, j: int|
                    0 <= i < t.len() && 0 <= j < t[i].blocks.len() && (
                    #[trigger] t[i].blocks[j]).page_id == max_page(t, init);
                assert(rs[i].blocks[j].page_id == max_page(rs, init));
            }
        } else {
            let j = choose|j: int|
                0 <= j < r.blocks.len() && (#[trigger] r.blocks[j]).page_id == max_block(
                    r,
                    r.blocks.len(),
                    max_page(t, init),
                );
            assert(rs[n].blocks[j].page_id == max_page(rs, init));
        }
    }
}

/// The same for page ids, if the pool was not ahead of
/// the log: the next page id is the first that lies above every page id in the log and is
/// not below the one that the last checkpoint names.
pub proof fn law_next_pages_leave_no_gap(
    m0: BufferPoolManager,
    tm0: TransactionManager,
    m: BufferPoolManager,
    tm: TransactionManager,
    rs: Seq<WalRecordView>,
    i: int,
    c: CheckpointView,
)
    requires
        recovered(m0, tm0, m, tm, rs),
        m0.next_page_id <= 1,
        0 <= i < rs.len(),
        says(rs[i], c),
        forall|j: int, d: CheckpointView| i < j < rs.len() ==> !(#[trigger] says(rs[j], d)),
    ensures
        m.next_page_id >= c.next_page_id,
        forall|x: int, y: int|
            0 <= x < rs.len() && 0 <= y < rs[x].blocks.len() ==> (
            #[trigger] rs[x].blocks[y]).page_id < m.next_page_id,
        m.next_page_id > 1 ==> m.next_page_id == c.next_page_id || exists|x: int, y: int|
            0 <= x < rs.len() && 0 <= y < rs[x].blocks.len() && (
            #[trigger] rs[x].blocks[y]).page_id == m.next_page_id - 1,
{
    law_the_last_checkpoint_counts(rs, i, c);
    lemma_max_page(rs, before(c.next_page_id));
}

/// Without a checkpoint, the next ids are the first above those in the log.
pub proof fn law_next_ids_without_a_checkpoint(
    m0: BufferPoolManager,
    tm0: TransactionManager,
    m: BufferPoolManager,
    tm: TransactionManager,
    rs: Seq<WalRecordView>,
)
    requires
        blank_manager(tm0),
        recovered(m0, tm0, m, tm, rs),
        m0.next_page_id <= 1,
        forall|j: int, d: CheckpointView| 0 <= j < rs.len() ==> !(#[trigger] says(rs[j], d)),
    ensures
        forall|j: int| 0 <= j < rs.len() ==> (#[trigger] rs[j]).txn_id < tm.next_txn_id,
        tm.next_txn_id == 1 || exists|j: int|
            0 <= j < rs.len() && (#[trigger] rs[j]).txn_id == tm.next_txn_id - 1,
        forall|x: int, y: int|
            0 <= x < rs.len() && 0 <= y < rs[x].blocks.len() ==> (
            #[trigger] rs[x].blocks[y]).page_id < m.next_page_id,
        m.next_page_id == 1 || exists|x: int, y: int|
            0 <= x < rs.len() && 0 <= y < rs[x].blocks.len() && (
            #[trigger] rs[x].blocks[y]).page_id == m.next_page_id - 1,
{
    law_no_checkpoint_counts(rs);
    lemma_max_txn(rs, 0);
    lemma_max_page(rs, 0);
}

/// A page that no block names is as it was after the blocks have been redone; and one that
/// has seen the record already is as well.
proof fn lemma_blocks_elsewhere(m: Map<u64, Seq<u8>>, r: WalRecordView, n: nat, id: u64)
    requires
        redo_blocks(m, r, n) is Some,
        n <= r.blocks.len(),
        (forall|j: int| 0 <= j < n ==> (#[trigger] r.blocks[j]).page_id != id) || r.lsn <= lsn_of(
            page_in(m, id),
        ),
    ensures
        page_in(redo_blocks(m, r, n)->0, id) == page_in(m, id),
    decreases n,
{
    if n > 0 {
        lemma_blocks_elsewhere(m, r, (n - 1) as nat, id);
    }
}

/// Recovery leaves every page alone that no record changes, and every page that has seen
/// all the records that would change it.
pub proof fn law_other_pages_are_left_alone(
    m0: BufferPoolManager,
    tm0: TransactionManager,
    m: BufferPoolManager,
    tm: TransactionManager,
    rs: Seq<WalRecordView>,
    id: u64,
)
    requires
        recovered(m0, tm0, m, tm, rs),
        forall|i: int, j: int|
            0 <= i < rs.len() && 0 <= j < rs[i].blocks.len() && rs[i].entry_type
                != WalRecordType::Commit && rs[i].entry_type != WalRecordType::Abort
                && rs[i].entry_type != WalRecordType::Checkpoint && rs[i].entry_type
                != WalRecordType::OverflowFree && (#[trigger] rs[i].blocks[j]).page_id == id
                ==> rs[i].lsn <= lsn_of(content(m0, id)),
    ensures
        content(m, id) == content(m0, id),
{
    lemma_all_elsewhere(contents(m0), rs, id);
    let pages = redo_all(contents(m0), rs)->0;
    assert(content(m, id) == page_in(pages, id));
    assert(page_in(contents(m0), id) == content(m0, id));
}

proof fn lemma_all_elsewhere(m: Map<u64, Seq<u8>>, rs: Seq<WalRecordView>, id: u64)
    requires
        redo_all(m, rs) is Some,
        forall|i: int, j: int|
            0 <= i < rs.len() && 0 <= j < rs[i].blocks.len() && rs[i].entry_type
                != WalRecordType::Commit && rs[i].entry_type != WalRecordType::Abort
                && rs[i].entry_type != WalRecordType::Checkpoint && rs[i].entry_type
                != WalRecordType::OverflowFree && (#[trigger] rs[i].blocks[j]).page_id == id
                ==> rs[i].lsn <= lsn_of(page_in(m, id)),
    ensures
        page_in(redo_all(m, rs)->0, id) == page_in(m, id),
    decreases rs.len(),
{
    if rs.len() > 0 {
        let t = rs.drop_last();
        let r = rs.last();
        let n = rs.len() - 1;
        assert forall|i: int, j: int|
            0 <= i < t.len() && 0 <= j < t[i].blocks.len() && t[i].entry_type
                != WalRecordType::Commit && t[i].entry_type != WalRecordType::Abort
                && t[i].entry_type != WalRecordType::Checkpoint && t[i].entry_type
                != WalRecordType::OverflowFree && (#[trigger] t[i].blocks[j]).page_id
                == id implies t[i].lsn <= lsn_of(page_in(m, id)) by {
            assert(rs[i] == t[i]);
            assert(rs[i].blocks[j].page_id == id);
        }
        lemma_all_elsewhere(m, t, id);
        assert(rs[n] == r);
        let m1 = redo_all(m, t)->0;
        if r.entry_type != WalRecordType::Commit && r.entry_type != WalRecordType::Abort
            && r.entry_type != WalRecordType::Checkpoint && r.entry_type
            != WalRecordType::OverflowFree {
            assert forall|j: int| 0 <= j < r.blocks.len() && r.lsn > lsn_of(
                page_in(m1, id),
            ) implies (#[trigger] r.blocks[j]).page_id != id by {
                assert(rs[n].blocks[j].page_id == r.blocks[j].page_id);
            }
            lemma_blocks_elsewhere(m1, r, r.blocks.len(), id);
        }
    }
}

/// A full image makes its page what the image says, whatever the page held before, if the
/// page has not seen the record; and a page that a record has changed has seen the record.
pub proof fn law_images_replace_pages(
    m: Map<u64, Seq<u8>>,
    r: WalRecordView,
    j: int,
    image: Seq<u8>,
)
    requires
        redo_one(m, r) is Some,
        r.entry_type != WalRecordType::Commit,
        r.entry_type != WalRecordType::Abort,
        r.entry_type != WalRecordType::Checkpoint,
        r.entry_type != WalRecordType::OverflowFree,
        0 <= j < r.blocks.len(),
        r.blocks[j].fpi == Some(image),
        forall|i: int|
            0 <= i < r.blocks.len() && i != j ==> (#[trigger] r.blocks[i]).page_id
                != r.blocks[j].page_id,
        lsn_of(page_in(m, r.blocks[j].page_id)) < r.lsn,
    ensures
        page_in(redo_one(m, r)->0, r.blocks[j].page_id) == blank(restamped(image, r.lsn)),
{
    lemma_image(m, r, r.blocks.len(), j, image);
}

proof fn lemma_image(m: Map<u64, Seq<u8>>, r: WalRecordView, n: nat, j: int, image: Seq<u8>)
    requires
        redo_blocks(m, r, n) is Some,
        0 <= j < n <= r.blocks.len(),
        r.blocks[j].fpi == Some(image),
        forall|i: int|
            0 <= i < r.blocks.len() && i != j ==> (#[trigger] r.blocks[i]).page_id
                != r.blocks[j].page_id,
        lsn_of(page_in(m, r.blocks[j].page_id)) < r.lsn,
    ensures
        page_in(redo_blocks(m, r, n)->0, r.blocks[j].page_id) == blank(restamped(image, r.lsn)),
    decreases n,
{
    let id = r.blocks[j].page_id;
    if j < n - 1 {
        lemma_image(m, r, (n - 1) as nat, j, image);
        assert(r.blocks[n - 1].page_id != id);
    } else {
        lemma_blocks_elsewhere(m, r, (n - 1) as nat, id);
        reveal(redo_page);
    }
}

/// Which pages a log has to find intact: those that a record names which is no commit, abort
/// or checkpoint and does not free a chain, as far as they are in the file.
pub proof fn law_logs_need_the_pages_they_change(d: DiskManager, rs: Seq<WalRecordView>)
    ensures
        legible(d, rs) <==> forall|i: int, j: int|
            0 <= i < rs.len() && 0 <= j < rs[i].blocks.len() && rs[i].entry_type
                != WalRecordType::Commit && rs[i].entry_type != WalRecordType::Abort
                && rs[i].entry_type != WalRecordType::Checkpoint && rs[i].entry_type
                != WalRecordType::OverflowFree && (#[trigger] rs[i].blocks[j]).page_id
                < d.num_pages ==> verifies(d.at(rs[i].blocks[j].page_id)),
{
    if legible(d, rs) {
        assert forall|i: int, j: int|
            0 <= i < rs.len() && 0 <= j < rs[i].blocks.len() && rs[i].entry_type
                != WalRecordType::Commit && rs[i].entry_type != WalRecordType::Abort
                && rs[i].entry_type != WalRecordType::Checkpoint && rs[i].entry_type
                != WalRecordType::OverflowFree && (#[trigger] rs[i].blocks[j]).page_id
                < d.num_pages implies verifies(d.at(rs[i].blocks[j].page_id)) by {
            assert(intact(d, rs[i].blocks[j].page_id));
        }
    } else {
        let (i, j) = choose|i: int, j: int|
            0 <= i < rs.len() && touches(rs[i].entry_type) && 0 <= j < rs[i].blocks.len()
                && !intact(d, (#[trigger] rs[i].blocks[j]).page_id);
        assert(!verifies(d.at(rs[i].blocks[j].page_id)));
    }
}

/// Why recovery fails: a page that a record changes is in the file without its checksum, or
/// a record does not describe a change of its pages.
pub proof fn law_recovery_fails_for_a_reason(
    d: DiskManager,
    m: Map<u64, Seq<u8>>,
    rs: Seq<WalRecordView>,
    e: IndexError,
)
    requires
        first_failure(d, m, rs, e),
    ensures
        e == IndexError::Wal(WalError::CorruptedLog) || (e matches IndexError::BufferPool(
            BufferPoolError::PageCorruption { page_id, .. },
        ) && page_id < d.num_pages && !verifies(d.at(page_id)) && exists|i: int, j: int|
            0 <= i < rs.len() && 0 <= j < rs[i].blocks.len() && (
            #[trigger] rs[i].blocks[j]).page_id == page_id),
        e == IndexError::Wal(WalError::CorruptedLog) ==> exists|i: int|
            0 <= i < rs.len() && redo_all(m, #[trigger] rs.subrange(0, i)) is Some && redo_all(
                m,
                rs.subrange(0, i + 1),
            ) is None,
{
    if legible(d, rs) {
        assert(rs.subrange(0, rs.len() as int) =~= rs);
        lemma_first_unredone(m, rs, rs.len() as int);
    } else {
        let (i, j) = choose|i: int, j: int| #[trigger]
            illegible_at(d, rs, i, j) && if redo_to(m, rs, i, j) is None {
                e == IndexError::Wal(WalError::CorruptedLog)
            } else {
                load_error(d, rs[i].blocks[j].page_id) matches Some(x) && e
                    == IndexError::BufferPool(x)
            };
        if redo_to(m, rs, i, j) is None {
            lemma_cut_short(m, rs, i, j);
            lemma_first_unredone(m, rs, i + 1);
        } else {
            assert(rs[i].blocks[j].page_id < d.num_pages);
        }
    }
}

/// What cannot be redone in part cannot be redone.
proof fn lemma_cut_short(m: Map<u64, Seq<u8>>, rs: Seq<WalRecordView>, i: int, j: int)
    requires
        0 <= i < rs.len(),
        touches(rs[i].entry_type),
        0 <= j <= rs[i].blocks.len(),
        redo_to(m, rs, i, j) is None,
    ensures
        redo_all(m, rs.subrange(0, i + 1)) is None,
{
    let t = rs.subrange(0, i + 1);
    assert(t.drop_last() =~= rs.subrange(0, i));
    assert(t.last() == rs[i]);
    if redo_all(m, rs.subrange(0, i)) is Some {
        let m1 = redo_all(m, rs.subrange(0, i))->0;
        lemma_fewer_blocks(m1, rs[i], j as nat, rs[i].blocks.len());
    }
}

proof fn lemma_fewer_blocks(m: Map<u64, Seq<u8>>, r: WalRecordView, j: nat, n: nat)
    requires
        j <= n,
        redo_blocks(m, r, j) is None,
    ensures
        redo_blocks(m, r, n) is None,
    decreases n,
{
    if j < n {
        lemma_fewer_blocks(m, r, j, (n - 1) as nat);
    }
}

/// There is a first record that cannot be redone.
proof fn lemma_first_unredone(m: Map<u64, Seq<u8>>, rs: Seq<WalRecordView>, n: int)
    requires
        0 <= n <= rs.len(),
        redo_all(m, rs.subrange(0, n)) is None,
    ensures
        exists|i: int|
            0 <= i < n && redo_all(m, #[trigger] rs.subrange(0, i)) is Some && redo_all(
                m,
                rs.subrange(0, i + 1),
            ) is None,
    decreases n,
{
    if n > 0 {
        if redo_all(m, rs.subrange(0, n - 1)) is None {
            lemma_first_unredone(m, rs, n - 1);
            let i = choose|i: int|
                0 <= i < n - 1 && redo_all(m, #[trigger] rs.subrange(0, i)) is Some && redo_all(
                    m,
                    rs.subrange(0, i + 1),
                ) is None;
            assert(redo_all(m, rs.subrange(0, i)) is Some);
        } else {
            assert(redo_all(m, rs.subrange(0, n - 1)) is Some);
        }
    }
}

/// When a file is sound: every page of it verifies.
pub proof fn law_files_are_sound_page_by_page(d: DiskManager)
    ensures
        sound(d) <==> forall|id: u64| id < d.num_pages ==> verifies(#[trigger] d.at(id)),
{
    if forall|id: u64| id < d.num_pages ==> verifies(#[trigger] d.at(id)) {
        assert forall|id: u64| #[trigger] intact(d, id) by {
            assert(id < d.num_pages ==> verifies(d.at(id)));
        }
    }
    if sound(d) {
        assert forall|id: u64| id < d.num_pages implies verifies(#[trigger] d.at(id)) by {
            assert(intact(d, id));
        }
    }
}

/// Which files are refused, and why: those whose first page is not of type 3. An empty file
/// has none; a first page that does not verify is corrupt; any other one is something else.
pub proof fn law_files_need_a_superblock(d: DiskManager)
    ensures
        has_superblock(d) <==> d.at(0)[0] == 3,
        no_superblock_error(d) == (if d.num_pages == 0 {
            IndexError::BufferPool(BufferPoolError::Disk(DiskError::OutOfBounds(0)))
        } else if verifies(d.at(0)) {
            IndexError::CorruptMetadata
        } else {
            IndexError::BufferPool(load_error(d, 0)->0)
        }),
        d.num_pages > 0 && !verifies(d.at(0)) ==> (load_error(d, 0) matches Some(
            BufferPoolError::PageCorruption { page_id, .. },
        ) && page_id == 0),
{
}

/// Which records can be redone at all: those of a transaction below the last possible id
/// that name pages below the last possible id, with images of 4096 bytes.
pub proof fn law_sane_records_name_possible_ids(r: WalRecordView)
    ensures
        sane(r) <==> r.txn_id < u64::MAX && forall|j: int|
            0 <= j < r.blocks.len() ==> (#[trigger] r.blocks[j]).page_id < u64::MAX && (
            r.blocks[j].fpi is Some ==> r.blocks[j].fpi->0.len() == 4096),
{
}

/// Commits, aborts and checkpoints change no page, and neither does the end of a chain, whose
/// record is legible if it lists ids of eight bytes each.
pub proof fn law_some_records_change_no_page(m: Map<u64, Seq<u8>>, r: WalRecordView)
    ensures
        r.entry_type == WalRecordType::Commit ==> redo_one(m, r) == Some(m),
        r.entry_type == WalRecordType::Abort ==> redo_one(m, r) == Some(m),
        r.entry_type == WalRecordType::Checkpoint ==> redo_one(m, r) == Some(m),
        r.entry_type == WalRecordType::OverflowFree ==> redo_one(m, r) == (
        if r.main_data is Some && r.main_data->0.len() % 8 == 0 {
            Some(m)
        } else {
            None
        }),
{
}

} // verus!
