//! The engine: transactions on an index.
//!
//! An operation that meets a version of a running transaction cannot go on until
//! that transaction settles. The younger of the two gives up at once; the older one
//! is told whom to wait for, and tries again when that transaction has settled.

use vstd::prelude::*;

use crate::batch::{batch_fits, batch_span, batch_swept, Batch};
use crate::change::LogEntry;
use crate::checkpoint::{checkpoint_bytes, lemma_checkpoint_len, CheckpointData, CheckpointView};
use crate::chronicle::{drift, fresh, lemma_present};
use crate::disk::{IoAction, IoView};
use crate::error::{EngineError, IndexError};
use crate::index::BTreeIndex;
use crate::index_edit::{first_opposed, flags, unopposed};
use crate::index_write::{entered, lemma_work_shrinks, stored_as, superseded, work};
use crate::key::Key;
use crate::mvcc::{survivors, visible, wait_for_txn, with_xmax, write_conflict};
use crate::node::RecordView;
use crate::scan::KeyBound;
use crate::sweep::sweepable;
use crate::trace::{carries_on, wrote};
use crate::transaction::{copy_ids, Transaction};
use crate::transaction_manager::{
    TransactionManager, TransactionStatus, EMPTY_SLOT, MAX_READER_SLOTS, OVERFLOW_READER_TOKEN_FLAG,
};
use crate::wal::WalRecordType;

verus! {

/// An open database.
pub struct Engine<K: Key> {
    pub index: BTreeIndex<K>,
    pub tm: TransactionManager,
}

/// What an index error means for a transaction: a conflict ends it, a running
/// transaction with a smaller id as well, and one with a larger id is waited for.
pub open spec fn outcome(e: IndexError, txn_id: u64) -> EngineError {
    match e {
        IndexError::WriteConflict => EngineError::TransactionConflict,
        IndexError::WaitFor(b) => if txn_id > b {
            EngineError::TransactionConflict
        } else {
            EngineError::WaitFor(b)
        },
        _ => EngineError::Index(e),
    }
}

/// Waiting never goes in circles: who waits is older than whom it waits for.
pub proof fn law_wait_die(e: IndexError, txn_id: u64, blocker: u64)
    requires
        outcome(e, txn_id) == EngineError::WaitFor(blocker),
    ensures
        txn_id <= blocker,
        e == IndexError::WaitFor(blocker),
{
}

/// The manager after somebody has been told to wait for a transaction.
pub open spec fn waiting(
    before: TransactionManager,
    after: TransactionManager,
    r: EngineError,
) -> bool {
    &&& after == (TransactionManager { waiters: after.waiters, ..before })
    &&& after.waiters@ == (match r {
        EngineError::WaitFor(b) => if before.in_flight(b) {
            before.waiters@.insert(b, ())
        } else {
            before.waiters@
        },
        _ => before.waiters@,
    })
}

/// Decides what an index error means for a transaction.
fn settle_error(tm: &mut TransactionManager, e: IndexError, txn_id: u64) -> (r: EngineError)
    requires
        old(tm).wf(),
    ensures
        final(tm).wf(),
        r == outcome(e, txn_id),
        waiting(*old(tm), *final(tm), r),
{
    match e {
        IndexError::WriteConflict => EngineError::TransactionConflict,
        IndexError::WaitFor(b) => {
            match wait_for_txn(tm, b, txn_id) {
                Err(_) => EngineError::TransactionConflict,
                Ok(_) => EngineError::WaitFor(b),
            }
        },
        e => EngineError::Index(e),
    }
}

/// One more dead version, unless the counter is full.
pub open spec fn one_more(n: u64) -> u64 {
    if n < u64::MAX {
        (n + 1) as u64
    } else {
        n
    }
}

/// The manager after a transaction has left a dead version behind.
pub open spec fn dead_noted(before: TransactionManager, after: TransactionManager) -> bool {
    after == (TransactionManager { dead_versions: one_more(before.dead_versions), ..before })
}

fn note_dead(tm: &mut TransactionManager)
    requires
        old(tm).wf(),
    ensures
        final(tm).wf(),
        dead_noted(*old(tm), *final(tm)),
{
    if tm.dead_versions() < u64::MAX {
        tm.note_dead_version();
    }
}

/// Transactions that one checkpoint record can name.
pub const MAX_CHECKPOINT_IDS: usize = 8185;

/// Whether there are numbers enough for any one change to an index, even if every
/// split that is incomplete has to be completed on the way.
pub open spec fn plentiful<K: Key>(index: BTreeIndex<K>) -> bool {
    index.store.budget() >= work(index.height as nat, index.incomplete as nat)
}

proof fn lemma_needed(l: u64, f: u64)
    ensures
        l < 0x4000_0000_0000_0000 && f < 0x4000_0000_0000_0000 ==> (f + 200) * (3 * (l + f) + 900)
            <= 0x7fff_ffff_ffff_ffff_ffff_ffff_ffff_ffff,
        l >= 0x4000_0000_0000_0000 || f >= 0x4000_0000_0000_0000 ==> (f + 200) * (3 * (l + f) + 900)
            > u64::MAX,
{
    let c = 3 * (l + f) + 900;
    if l < 0x4000_0000_0000_0000 && f < 0x4000_0000_0000_0000 {
        assert((f + 200) * c <= 0x4000_0000_0000_00c8 * 0x1_8000_0000_0000_0384) by (nonlinear_arith)
            requires
                0 <= f + 200 <= 0x4000_0000_0000_00c8,
                0 <= c <= 0x1_8000_0000_0000_0384,
        ;
    } else {
        assert((f + 200) * c >= 200 * c) by (nonlinear_arith)
            requires
                f >= 0,
                c >= 0,
        ;
    }
}

/// What becomes of a key that is inserted.
pub open spec fn inserted<K: Key>(
    before: Engine<K>,
    after: Engine<K>,
    txn: Transaction,
    key: Seq<u8>,
    value: Seq<u8>,
) -> bool {
    exists|base: Seq<RecordView>, k: int, v: RecordView| #[trigger]
        entered(
            &before.index,
            &after.index,
            before.tm.settled(),
            before.index.records(),
            base,
            k,
            v,
        ) && stored_as(&after.index, v, key, value, txn.txn_id)
}

impl<K: Key> Engine<K> {
    pub open spec fn wf(&self) -> bool {
        self.index.wf() && self.tm.wf()
    }

    /// A new database.
    pub fn create() -> (e: Engine<K>)
        ensures
            e.wf(),
            e.index.records() == Seq::<RecordView>::empty(),
            e.index.root == 1,
            e.tm.next_txn_id == 1,
            e.tm.active_state.active@ == Map::<u64, (u64, u64)>::empty(),
            e.tm.aborts() == Map::<u64, ()>::empty(),
            e.tm.waiters@ == Map::<u64, ()>::empty(),
            forall|i: int| 0 <= i < MAX_READER_SLOTS ==> #[trigger] e.tm.slots@[i] == EMPTY_SLOT,
            e.tm.overflow_readers@ == Map::<u64, u64>::empty(),
            e.tm.next_reader_token == 0,
            e.tm.horizon() == 1,
            e.index.store.log() == Seq::<crate::change::LogEntry>::empty(),
            e.index.store.durable() == 0,
            e.index.store.budget() == u64::MAX - 2,
            e.index.store.next_page() == 2,
            e.index.height == 1,
            e.index.incomplete == 0,
            plentiful(e.index),
    {
        let (index, _root) = BTreeIndex::create();
        Engine { index, tm: TransactionManager::new() }
    }

    /// Whether there are numbers enough for any one change.
    pub fn has_room(&self) -> (b: bool)
        requires
            self.wf(),
        ensures
            b == plentiful(self.index),
            b ==> self.index.store.budget() >= self.index.work(),
    {
        let l: u64 = self.index.height;
        let f: u64 = self.index.incomplete;
        let room: u64 = self.index.store.room();
        proof {
            lemma_needed(l, f);
            lemma_work_shrinks(
                l as nat,
                f as nat,
                l as nat,
                flags(self.index.tree().nodes).len(),
            );
        }
        if l >= 0x4000_0000_0000_0000 || f >= 0x4000_0000_0000_0000 {
            return false;
        }
        let need: u128 = (f as u128 + 200) * (3 * (l as u128 + f as u128) + 900);
        room as u128 >= need
    }

    /// Inserts a key in a transaction.
    pub fn insert_in(&mut self, txn: &mut Transaction, key: &[u8], value: &[u8]) -> (r: Result<
        (),
        EngineError,
    >)
        requires
            old(self).wf(),
        ensures
            final(self).wf(),
            marked_written(*old(txn), *final(txn), r is Ok),
            insert_result::<K>(*old(self), *final(self), *old(txn), key@, value@, r),
    {
        proof {
            lemma_present::<K>(self.index);
        }
        if !self.has_room() {
            return Err(EngineError::OutOfNumbers);
        }
        match self.index.insert(key, value, txn, &self.tm) {
            Ok(()) => {
                txn.wrote_anything = true;
                Ok(())
            },
            Err(x) => {
                let e = settle_error(&mut self.tm, x, txn.txn_id);
                Err(e)
            },
        }
    }

    /// Deletes a key in a transaction.
    pub fn delete_in(&mut self, txn: &mut Transaction, key: &[u8]) -> (r: Result<(), EngineError>)
        requires
            old(self).wf(),
        ensures
            final(self).wf(),
            marked_written(*old(txn), *final(txn), r is Ok),
            delete_result::<K>(*old(self), *final(self), *old(txn), key@, r),
    {
        proof {
            lemma_present::<K>(self.index);
        }
        if self.index.store.room() == 0 {
            return Err(EngineError::OutOfNumbers);
        }
        match self.index.delete(key, txn, &self.tm) {
            Ok(()) => {
                txn.wrote_anything = true;
                note_dead(&mut self.tm);
                Ok(())
            },
            Err(x) => {
                let e = settle_error(&mut self.tm, x, txn.txn_id);
                Err(e)
            },
        }
    }

    /// Gives a key another value in a transaction.
    pub fn update_in(&mut self, txn: &mut Transaction, key: &[u8], value: &[u8]) -> (r: Result<
        (),
        EngineError,
    >)
        requires
            old(self).wf(),
        ensures
            final(self).wf(),
            final(txn).txn_id == old(txn).txn_id,
            final(txn).snapshot == old(txn).snapshot,
            final(txn).wrote_anything == (old(txn).wrote_anything || r is Ok),
            r is Ok ==> dead_noted(old(self).tm, final(self).tm),
            r matches Err(e) ==> waiting(old(self).tm, final(self).tm, e) && final(self).index.same(&old(self).index),
            update_result::<K>(*old(self), *final(self), *old(txn), key@, value@, r),
    {
        proof {
            lemma_present::<K>(self.index);
        }
        if !self.has_room() {
            return Err(EngineError::OutOfNumbers);
        }
        match self.index.update(key, value, txn, &self.tm) {
            Ok(()) => {
                txn.wrote_anything = true;
                note_dead(&mut self.tm);
                Ok(())
            },
            Err(x) => {
                let e = settle_error(&mut self.tm, x, txn.txn_id);
                Err(e)
            },
        }
    }

    /// Reads a key in a transaction.
    pub fn get_in(&mut self, txn: &Transaction, key: &[u8]) -> (r: Result<
        Option<Vec<u8>>,
        EngineError,
    >)
        requires
            old(self).wf(),
        ensures
            final(self).wf(),
            final(self).tm == old(self).tm,
            final(self).index.same(&old(self).index),
            r is Ok,
            read_result::<K>(*old(self), *txn, key@, r->Ok_0),
    {
        Ok(self.index.get(key, txn, &self.tm))
    }
}

// ── Committing, reading without a transaction, checkpoints ──────────────────
/// What settling a transaction does to the manager: it leaves the transactions in
/// flight, and those that wait for it can go on.
pub open spec fn committed(
    before: TransactionManager,
    after: TransactionManager,
    txn_id: u64,
) -> bool {
    &&& after.wf()
    &&& after.clog@ == before.clog@.insert(txn_id, TransactionStatus::Committed)
    &&& after.active_state.active@ == before.active_state.active@.remove(txn_id)
    &&& after.aborts() == before.aborts()
    &&& after.waiters@ == before.waiters@.remove(txn_id)
    &&& after.next_txn_id == before.next_txn_id
    &&& after.vacuum_horizon == before.vacuum_horizon
    &&& after.dead_versions == before.dead_versions
    &&& after.same_readers(&before)
}

/// The same for a transaction that is given up; it is remembered as aborted.
pub open spec fn aborted(
    before: TransactionManager,
    after: TransactionManager,
    txn_id: u64,
) -> bool {
    &&& after.wf()
    &&& after.clog@ == before.clog@.insert(txn_id, TransactionStatus::Aborted)
    &&& after.active_state.active@ == before.active_state.active@.remove(txn_id)
    &&& after.aborts() == before.aborts().insert(txn_id, ())
    &&& after.waiters@ == before.waiters@.remove(txn_id)
    &&& after.next_txn_id == before.next_txn_id
    &&& after.vacuum_horizon == before.vacuum_horizon
    &&& after.dead_versions == before.dead_versions
    &&& after.same_readers(&before)
}

/// Whether a record without changes has been logged, and nothing else about the
/// pages has changed.
pub open spec fn noted<K: Key>(
    before: BTreeIndex<K>,
    after: BTreeIndex<K>,
    kind: WalRecordType,
    txn_id: u64,
    main: Option<Seq<u8>>,
) -> bool {
    &&& after.records() == before.records()
    &&& after.store.pages() == before.store.pages()
    &&& after.chains@ == before.chains@
    &&& after.root == before.root
    &&& after.store.log() == before.store.log().push(
        LogEntry {
            lsn: before.store.next_lsn(),
            kind,
            txn_id,
            changes: Seq::empty(),
            main,
        },
    )
    &&& after.store.budget() >= before.store.budget() - 1
}

/// What committing does.
pub open spec fn commit_result<K: Key>(
    before: Engine<K>,
    after: Engine<K>,
    txn: Transaction,
    r: Result<(), EngineError>,
) -> bool {
    if txn.wrote_anything && before.index.store.budget() == 0 {
        &&& r == Err::<(), EngineError>(EngineError::OutOfNumbers)
        &&& aborted(before.tm, after.tm, txn.txn_id)
        &&& after.index == before.index
    } else {
        &&& r == Ok::<(), EngineError>(())
        &&& committed(before.tm, after.tm, txn.txn_id)
        &&& if txn.wrote_anything {
            &&& noted(before.index, after.index, WalRecordType::Commit, txn.txn_id, None)
            &&& after.index.store.durable() == after.index.store.log().len()
            &&& after.index.store.waiting().len() > 0
            &&& after.index.store.waiting().last()@ == IoView::SyncLog
        } else {
            after.index == before.index
        }
    }
}

/// What giving a transaction up does.
pub open spec fn abort_result<K: Key>(
    before: Engine<K>,
    after: Engine<K>,
    txn: Transaction,
) -> bool {
    &&& aborted(before.tm, after.tm, txn.txn_id)
    &&& if txn.wrote_anything && before.index.store.budget() > 0 {
        noted(before.index, after.index, WalRecordType::Abort, txn.txn_id, None)
    } else {
        after.index == before.index
    }
}

impl<K: Key> Engine<K> {
    /// Commits a transaction. One that wrote something has a commit record, which
    /// is durable before anybody learns that the transaction has committed.
    pub fn commit(&mut self, txn: Transaction) -> (r: Result<(), EngineError>)
        requires
            old(self).wf(),
        ensures
            final(self).wf(),
            commit_result::<K>(*old(self), *final(self), txn, r),
    {
        if !txn.wrote_anything {
            self.tm.mark_committed(txn.txn_id);
            return Ok(());
        }
        if self.index.store.room() == 0 {
            self.tm.mark_aborted(txn.txn_id);
            return Err(EngineError::OutOfNumbers);
        }
        let ghost ix0 = self.index;
        let lsn: u64 = self.index.store.note(WalRecordType::Commit, txn.txn_id, None);
        proof {
            assert(self.index.tree() == ix0.tree());
            let was = self.index.past@;
            self.index.past@ = was.push(self.index.rows());
            self.index.lemma_logged(ix0.store, was);
        }
        let ghost noted = self.index.store;
        proof {
            ix0.store.lemma_wf();
            assert(noted.durable() < noted.log().len() || noted.synced());
        }
        self.index.store.flush_log(lsn);
        proof {
            let log = self.index.store.log();
            assert(log == noted.log());
            assert(log[log.len() - 1].lsn == lsn);
            assert(self.index.store.synced());
        }
        proof {
            assert(self.index.tree() == ix0.tree());
            let log = self.index.store.log();
            self.index.store.law_crash_recovery();
            assert(log[log.len() - 1].lsn == lsn);
        }
        self.tm.mark_committed(txn.txn_id);
        Ok(())
    }

    /// Gives a transaction up. One that wrote something has an abort record, which
    /// need not be durable: without it the transaction counts as aborted anyway.
    pub fn abort(&mut self, txn: Transaction) -> (r: Result<(), EngineError>)
        requires
            old(self).wf(),
        ensures
            final(self).wf(),
            r is Ok,
            abort_result::<K>(*old(self), *final(self), txn),
    {
        if !txn.wrote_anything || self.index.store.room() == 0 {
            self.tm.mark_aborted(txn.txn_id);
            return Ok(());
        }
        let ghost ix0 = self.index;
        let _lsn: u64 = self.index.store.note(WalRecordType::Abort, txn.txn_id, None);
        proof {
            assert(self.index.tree() == ix0.tree());
            let was = self.index.past@;
            self.index.past@ = was.push(self.index.rows());
            self.index.lemma_logged(ix0.store, was);
        }
        self.tm.mark_aborted(txn.txn_id);
        Ok(())
    }

    /// Reads a key as of now, without a transaction id.
    pub fn get(&mut self, key: &[u8]) -> (r: Result<Option<Vec<u8>>, EngineError>)
        requires
            old(self).wf(),
            old(self).tm.next_reader_token < OVERFLOW_READER_TOKEN_FLAG,
        ensures
            final(self).wf(),
            final(self).index.same(&old(self).index),
            final(self).tm.same_transactions(&old(self).tm),
            final(self).tm.slots@ == old(self).tm.slots@,
            final(self).tm.overflow_readers@ == old(self).tm.overflow_readers@,
            final(self).tm.next_reader_token == old(self).tm.next_reader_token + if exists|i: int|
                0 <= i < MAX_READER_SLOTS && #[trigger] old(self).tm.slots@[i] == EMPTY_SLOT {
                0int
            } else {
                1
            },
            r is Ok,
            exists|txn: Transaction|
                txn.txn_id == 0 && txn.snapshot.reflects(old(self).tm.txn_state)
                    && #[trigger] read_result::<K>(*old(self), txn, key@, r->Ok_0),
    {
        let (snapshot, token) = self.tm.read_snapshot();
        let txn = Transaction { txn_id: 0, snapshot, wrote_anything: false };
        let ghost e1 = *self;
        let r = self.index.get(key, &txn, &self.tm);
        proof {
            assert(e1.tm.aborts() == old(self).tm.aborts());
            assert(read_result::<K>(*old(self), txn, key@, r));
        }
        self.tm.end_read(token);
        assert(self.tm.slots@ =~= old(self).tm.slots@);
        assert(self.tm.overflow_readers@ =~= old(self).tm.overflow_readers@);
        let res: Result<Option<Vec<u8>>, EngineError> = Ok(r);
        assert(read_result::<K>(*old(self), txn, key@, res->Ok_0));
        res
    }

    /// Logs a checkpoint: where redo would have to start, the next ids to give
    /// out, and the transactions whose fate later records do not tell. Returns the
    /// redo point.
    pub fn checkpoint(&mut self) -> (r: Result<u64, EngineError>)
        requires
            old(self).wf(),
        ensures
            final(self).wf(),
            checkpoint_result::<K>(*old(self), *final(self), r),
    {
        if self.index.store.room() == 0 {
            return Err(EngineError::OutOfNumbers);
        }
        let ids: usize = self.tm.txn_state.active.len();
        if ids > MAX_CHECKPOINT_IDS || self.tm.txn_state.aborted.len() > MAX_CHECKPOINT_IDS - ids {
            return Err(EngineError::CheckpointTooLarge);
        }
        let ghost ix0 = self.index;
        let redo_point: u64 = self.index.store.redo_point();
        let data = CheckpointData {
            redo_point,
            next_txn_id: self.tm.next_txn_id,
            vacuum_horizon: self.tm.vacuum_horizon(),
            root_page_id: self.index.root,
            next_page_id: self.index.store.next_page_id(),
            active_txns: copy_ids(&self.tm.txn_state.active),
            pinned_aborted: copy_ids(&self.tm.txn_state.aborted),
        };
        let ghost c = data@;
        proof {
            lemma_checkpoint_len(c);
        }
        let bytes: Vec<u8> = data.to_bytes();
        let lsn: u64 = self.index.store.note(WalRecordType::Checkpoint, 0, Some(bytes));
        proof {
            assert(self.index.tree() == ix0.tree());
            let was = self.index.past@;
            self.index.past@ = was.push(self.index.rows());
            self.index.lemma_logged(ix0.store, was);
        }
        let ghost noted = self.index.store;
        proof {
            ix0.store.lemma_wf();
            assert(noted.durable() < noted.log().len() || noted.synced());
        }
        self.index.store.flush_log(lsn);
        proof {
            let log = self.index.store.log();
            assert(log == noted.log());
            assert(log[log.len() - 1].lsn == lsn);
            assert(self.index.store.synced());
        }
        self.index.store.note_redo_point(redo_point);
        proof {
            assert(self.index.tree() == ix0.tree());
            let log = self.index.store.log();
            self.index.store.law_crash_recovery();
            assert(log[log.len() - 1].lsn == lsn);
            assert(c == checkpoint_of(*old(self), redo_point));
        }
        Ok(redo_point)
    }

    /// Removes all versions that nobody can see any more, and returns how many.
    pub fn vacuum(&mut self) -> (r: Result<usize, EngineError>)
        requires
            old(self).wf(),
        ensures
            final(self).wf(),
            vacuum_result::<K>(*old(self), *final(self), r),
    {
        let ghost e1 = *self;
        if !self.index.can_sweep() {
            return Err(EngineError::OutOfNumbers);
        }
        Ok(self.index.vacuum(&mut self.tm))
    }

    /// Removes the versions that nobody can see any more from the leaves of one batch,
    /// from a bound on. A sweep that goes on batch by batch leaves other work its turn in
    /// between.
    pub fn vacuum_batch(&mut self, from: &KeyBound) -> (r: Result<Batch, EngineError>)
        requires
            old(self).wf(),
        ensures
            final(self).wf(),
            batch_result::<K>(*old(self), *final(self), from, r),
    {
        match self.index.vacuum_batch(&self.tm, from) {
            Some(b) => Ok(b),
            None => Err(EngineError::OutOfNumbers),
        }
    }

    /// Writes all changed pages to the file.
    pub fn flush_all_pages(&mut self)
        requires
            old(self).wf(),
        ensures
            final(self).wf(),
            final(self).tm == old(self).tm,
            final(self).index.same(&old(self).index),
            final(self).index.store.clean(),
            final(self).index.store.waiting().len() > 0,
            final(self).index.store.waiting().last()@ == IoView::SyncData,
    {
        let ghost ix0 = self.index;
        self.index.store.flush_pages();
        proof {
            assert(self.index.tree() == ix0.tree());
        }
    }

    /// Hands the host the file operations that have accumulated, in order.
    pub fn take_actions(&mut self) -> (v: Vec<IoAction>)
        requires
            old(self).wf(),
        ensures
            final(self).wf(),
            final(self).tm == old(self).tm,
            final(self).index.same(&old(self).index),
            v@ == old(self).index.store.waiting(),
            final(self).index.store.waiting() == Seq::<IoAction>::empty(),
    {
        let ghost ix0 = self.index;
        let v = self.index.store.take_actions();
        proof {
            assert(self.index.tree() == ix0.tree());
        }
        v
    }
}

/// Whether a transaction sees no version of a key.
pub open spec fn nothing_visible<K: Key>(e: Engine<K>, txn: Transaction, key: Seq<u8>) -> bool {
    forall|k: int|
        0 <= k < e.index.records().len() ==> !visible::<K>(
            &txn,
            e.tm.aborts(),
            key,
            #[trigger] e.index.records()[k],
        )
}

/// What a transaction reads under a key: the value of a version that it sees, or
/// nothing if there is none.
pub open spec fn read_result<K: Key>(
    e: Engine<K>,
    txn: Transaction,
    key: Seq<u8>,
    r: Option<Vec<u8>>,
) -> bool {
    &&& r is None <==> nothing_visible(e, txn, key)
    &&& r matches Some(v) ==> exists|k: int|
        0 <= k < e.index.records().len() && visible::<K>(
            &txn,
            e.tm.aborts(),
            key,
            #[trigger] e.index.records()[k],
        ) && v@ == e.index.content(e.index.records()[k])
}

/// Why an insertion fails: the key or the value is too large, or a version of the
/// key stands in the way.
pub open spec fn insert_fails<K: Key>(
    e: Engine<K>,
    txn: Transaction,
    key: Seq<u8>,
    value: Seq<u8>,
    r: EngineError,
) -> bool {
    if !plentiful(e.index) {
        r == EngineError::OutOfNumbers
    } else if key.len() > crate::constants::MAX_KEY_SIZE {
        r == EngineError::Index(
            IndexError::KeyTooLarge {
                size: key.len() as usize,
                max: crate::constants::MAX_KEY_SIZE,
            },
        )
    } else if value.len() > crate::constants::MAX_VALUE_SIZE {
        r == EngineError::Index(
            IndexError::ValueTooLarge {
                size: value.len() as usize,
                max: crate::constants::MAX_VALUE_SIZE,
            },
        )
    } else {
        exists|i: int, s: int, x: IndexError| #[trigger]
            first_opposed::<K>(e.index.tree(), &txn, &e.tm, key, i, s, x) && r == outcome(
                x,
                txn.txn_id,
            )
    }
}

/// What a checkpoint does: a record says where redo would have to start, the next
/// ids to give out, and which transactions are in flight or have aborted.
pub open spec fn checkpoint_result<K: Key>(
    before: Engine<K>,
    after: Engine<K>,
    r: Result<u64, EngineError>,
) -> bool {
    &&& after.tm == before.tm
    &&& if before.index.store.budget() == 0 {
        r == Err::<u64, EngineError>(EngineError::OutOfNumbers) && after.index == before.index
    } else if before.tm.txn_state.active@.len() + before.tm.txn_state.aborted@.len()
        > MAX_CHECKPOINT_IDS {
        r == Err::<u64, EngineError>(EngineError::CheckpointTooLarge) && after.index
            == before.index
    } else {
        &&& r is Ok
        &&& before.index.store.is_redo_point(r->Ok_0)
        &&& after.index.store.knows_redo_point(r->Ok_0)
        &&& after.index.store.durable() == after.index.store.log().len()
        &&& after.index.store.waiting().len() > 0
        &&& after.index.store.waiting().last()@ == IoView::SyncLog
        &&& noted(
            before.index,
            after.index,
            WalRecordType::Checkpoint,
            0,
            Some(checkpoint_bytes(checkpoint_of(before, r->Ok_0))),
        )
    }
}

/// What the record of a checkpoint says.
pub open spec fn checkpoint_of<K: Key>(e: Engine<K>, redo_point: u64) -> CheckpointView {
    CheckpointView {
        redo_point,
        next_txn_id: e.tm.next_txn_id,
        vacuum_horizon: e.tm.vacuum_horizon,
        root_page_id: e.index.root,
        next_page_id: e.index.store.next_page(),
        active_txns: e.tm.txn_state.active@,
        pinned_aborted: e.tm.txn_state.aborted@,
    }
}

/// What a sweep does: dead versions go, values stay, and the horizon that the sweep
/// went by is published.
pub open spec fn vacuum_result<K: Key>(
    before: Engine<K>,
    after: Engine<K>,
    r: Result<usize, EngineError>,
) -> bool {
    if !sweepable(before.index) {
        &&& r == Err::<usize, EngineError>(EngineError::OutOfNumbers)
        &&& after.tm == before.tm
        &&& after.index.same(&before.index)
    } else {
        &&& r is Ok
        &&& carries_on(before.index.store.log(), after.index.store.log(), 0)
        &&& forall|b: u64|
            fresh(before.tm.settled(), b) ==> #[trigger] drift(
                before.index.past@,
                after.index.past@,
                after.index.store.log(),
                before.tm.settled(),
                b,
            )
        &&& after.index.records() == survivors(before.tm.settled(), before.index.records())
        &&& r->Ok_0 + after.index.records().len() == before.index.records().len()
        &&& forall|k: int|
            0 <= k < after.index.records().len() ==> after.index.content(
                #[trigger] after.index.records()[k],
            ) == before.index.content(after.index.records()[k])
        &&& after.tm.vacuum_horizon == (if before.tm.horizon() > before.tm.vacuum_horizon {
            before.tm.horizon()
        } else {
            before.tm.vacuum_horizon
        })
        &&& forall|id: u64| #[trigger]
            after.tm.aborts().contains_key(id) <==> before.tm.aborts().contains_key(id) && id
                >= after.tm.vacuum_horizon
        &&& after.tm.next_txn_id == before.tm.next_txn_id
        &&& after.tm.clog == before.tm.clog
        &&& after.tm.active_state.active == before.tm.active_state.active
        &&& after.tm.same_readers(&before.tm)
        &&& after.tm.dead_versions == before.tm.dead_versions
        &&& after.tm.waiters == before.tm.waiters
    }
}

/// What a batch of a sweep does: dead versions go from its leaves, and nothing else
/// changes.
pub open spec fn batch_result<K: Key>(
    before: Engine<K>,
    after: Engine<K>,
    from: &KeyBound,
    r: Result<Batch, EngineError>,
) -> bool {
    &&& after.tm == before.tm
    &&& exists|i: int, m: int| #[trigger]
        batch_span::<K>(before.index.tree(), from, i, m) && match r {
            Err(e) => {
                &&& !batch_fits(before.index, m)
                &&& e == EngineError::OutOfNumbers
                &&& after.index.same(&before.index)
            },
            Ok(b) => {
                &&& batch_fits(before.index, m)
                &&& batch_swept(before.index, after.index, before.tm.settled(), i, m, b)
            },
        }
}

/// Whether a transaction is as it was but for having written something.
pub open spec fn marked_written(before: Transaction, after: Transaction, wrote: bool) -> bool {
    &&& after.txn_id == before.txn_id
    &&& after.snapshot == before.snapshot
    &&& after.wrote_anything == (before.wrote_anything || wrote)
}

/// Whether the log has grown by records of changes of a transaction, which nobody
/// else would notice in between; there is one if the transaction has written
/// something.
pub open spec fn written_by<K: Key>(
    before: Engine<K>,
    after: Engine<K>,
    txn: Transaction,
    wrote_something: bool,
) -> bool {
    &&& carries_on(before.index.store.log(), after.index.store.log(), txn.txn_id)
    &&& fresh(before.tm.settled(), txn.txn_id) ==> drift(
        before.index.past@,
        after.index.past@,
        after.index.store.log(),
        before.tm.settled(),
        txn.txn_id,
    )
    &&& wrote_something ==> wrote(after.index.store.log(), txn.txn_id)
}

/// What an insertion does: a new version enters if nothing stands in its way;
/// otherwise no record changes.
pub open spec fn insert_result<K: Key>(
    before: Engine<K>,
    after: Engine<K>,
    txn: Transaction,
    key: Seq<u8>,
    value: Seq<u8>,
    r: Result<(), EngineError>,
) -> bool {
    &&& written_by(before, after, txn, r is Ok)
    &&& after.index.incomplete <= before.index.incomplete
    &&& match r {
        Ok(()) => {
            &&& plentiful(before.index)
            &&& key.len() <= crate::constants::MAX_KEY_SIZE
            &&& value.len() <= crate::constants::MAX_VALUE_SIZE
            &&& after.tm == before.tm
            &&& inserted(before, after, txn, key, value)
            &&& forall|k: int|
                0 <= k < before.index.records().len() ==> unopposed::<K>(
                    &txn,
                    &before.tm,
                    key,
                    #[trigger] before.index.records()[k],
                )
        },
        Err(e) => {
            &&& after.index.records() == before.index.records()
            &&& after.index.store.pages().chunks == before.index.store.pages().chunks
            &&& after.index.chains@ == before.index.chains@
            &&& waiting(before.tm, after.tm, e)
            &&& insert_fails::<K>(before, txn, key, value, e)
        },
    }
}

/// What a deletion does: the version that the transaction sees gets its deleter,
/// unless somebody else was first.
pub open spec fn delete_result<K: Key>(
    before: Engine<K>,
    after: Engine<K>,
    txn: Transaction,
    key: Seq<u8>,
    r: Result<(), EngineError>,
) -> bool {
    &&& written_by(before, after, txn, r is Ok)
    &&& after.index.store.pages().chunks == before.index.store.pages().chunks
    &&& after.index.chains@ == before.index.chains@
    &&& r is Ok ==> dead_noted(before.tm, after.tm)
    &&& r matches Err(e) ==> waiting(before.tm, after.tm, e) && after.index.same(&before.index)
    &&& if before.index.store.budget() == 0 {
        r == Err::<(), EngineError>(EngineError::OutOfNumbers)
    } else if nothing_visible(before, txn, key) {
        r == Err::<(), EngineError>(EngineError::Index(IndexError::KeyNotFound))
    } else {
        exists|k: int|
            {
                let v = #[trigger] before.index.records()[k];
                &&& 0 <= k < before.index.records().len()
                &&& visible::<K>(&txn, before.tm.aborts(), key, v)
                &&& match write_conflict(&txn, &before.tm, v.xmax) {
                    None => {
                        &&& r is Ok
                        &&& after.index.records() == before.index.records().update(
                            k,
                            with_xmax(v, txn.txn_id),
                        )
                    },
                    Some(e) => r == Err::<(), EngineError>(outcome(e, txn.txn_id)),
                }
            }
    }
}

/// What an update does.
pub open spec fn update_result<K: Key>(
    before: Engine<K>,
    after: Engine<K>,
    txn: Transaction,
    key: Seq<u8>,
    value: Seq<u8>,
    r: Result<(), EngineError>,
) -> bool {
    &&& written_by(before, after, txn, r is Ok)
    &&& after.index.incomplete <= before.index.incomplete
    &&& r is Ok ==> dead_noted(before.tm, after.tm)
    &&& r matches Err(e) ==> waiting(before.tm, after.tm, e) && after.index.same(&before.index)
    &&& if !plentiful(before.index) {
        r == Err::<(), EngineError>(EngineError::OutOfNumbers)
    } else if key.len() > crate::constants::MAX_KEY_SIZE {
        r == Err::<(), EngineError>(
            EngineError::Index(
                IndexError::KeyTooLarge {
                    size: key.len() as usize,
                    max: crate::constants::MAX_KEY_SIZE,
                },
            ),
        )
    } else if value.len() > crate::constants::MAX_VALUE_SIZE {
        r == Err::<(), EngineError>(
            EngineError::Index(
                IndexError::ValueTooLarge {
                    size: value.len() as usize,
                    max: crate::constants::MAX_VALUE_SIZE,
                },
            ),
        )
    } else if nothing_visible(before, txn, key) {
        r == Err::<(), EngineError>(EngineError::Index(IndexError::KeyNotFound))
    } else {
        exists|k: int, x: Result<(), IndexError>|
            0 <= k < before.index.records().len() && #[trigger] superseded(
                &before.index,
                &after.index,
                key,
                value,
                &txn,
                &before.tm,
                k,
                x,
            ) && r == (match x {
                Ok(()) => Ok::<(), EngineError>(()),
                Err(e) => Err(outcome(e, txn.txn_id)),
            })
    }
}

} // verus!
