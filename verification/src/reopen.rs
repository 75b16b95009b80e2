//! What an engine that was opened again knows and shows.

use vstd::prelude::*;

use crate::change::LogEntry;
use crate::disk::DiskManager;
use crate::engine::{nothing_visible, read_result, Engine};
use crate::engine_open::{
    files_of, ids_bounded, law_durable_records_return, law_files_can_be_opened, left_behind,
    reads_all,
};
use crate::history::{log_records, state};
use crate::index_open::is_index;
use crate::key::{key_eq, Key};
use crate::ledger::{
    accounted, checkpoint_in, committed_in, commits, consistent, gives_up, heeded, pins, recorded,
    tidy,
};
use crate::log_codec::entry_record;
use crate::mvcc::visible;
use crate::node::RecordView;
use crate::recovery::{
    blank_manager, abort_logged, before, crash_victim, fates_restored, last_checkpoint,
    law_commits_survive, law_unfinished_transactions_are_aborted, max_txn, next_txn_of, pinned,
    seen,
};
use crate::session::{coherent, orderly};
use crate::trace::wrote;
use crate::transaction::Transaction;
use crate::transaction_manager::{law_snapshot_xmin, TransactionManager};
use crate::txn::begun;
use crate::unique::reads;
use crate::versions::{followed, in_line};
use crate::wal::{Wal, WalRecordType, WalRecordView};

verus! {

/// Whether a manager knows what a log says of transactions, and nothing else.
pub open spec fn restored_from(tm: TransactionManager, rs: Seq<WalRecordView>) -> bool {
    &&& tm.wf()
    &&& tm.next_txn_id == next_txn_of(rs)
    &&& exists|tm0: TransactionManager|
        blank_manager(tm0) && #[trigger] fates_restored(tm0, tm, rs)
}

proof fn lemma_last_checkpoint(log: Seq<LogEntry>, rs: Seq<WalRecordView>)
    requires
        rs == log_records(log),
    ensures
        last_checkpoint(rs) matches Some(c) ==> exists|j: int|
            0 <= j < log.len() && checkpoint_in(#[trigger] log[j]) == Some(c) && forall|i: int|
                j < i < log.len() ==> checkpoint_in(#[trigger] log[i]) is None,
        last_checkpoint(rs) is None ==> forall|i: int|
            0 <= i < log.len() ==> checkpoint_in(#[trigger] log[i]) is None,
    decreases log.len(),
{
    if log.len() > 0 {
        let l = log.drop_last();
        let n = log.len() - 1;
        assert(rs.drop_last() =~= log_records(l));
        assert(rs.last().entry_type == log[n].kind);
        lemma_last_checkpoint(l, rs.drop_last());
        if checkpoint_in(log[n]) is None {
            if let Some(c) = last_checkpoint(rs) {
                let j = choose|j: int|
                    0 <= j < l.len() && checkpoint_in(#[trigger] l[j]) == Some(c) && forall|i: int|
                        j < i < l.len() ==> checkpoint_in(#[trigger] l[i]) is None;
                assert(log[j] == l[j]);
                assert forall|i: int| j < i < log.len() implies checkpoint_in(
                    #[trigger] log[i],
                ) is None by {
                    if i < n {
                        assert(l[i] == log[i]);
                    }
                }
            } else {
                assert forall|i: int| 0 <= i < log.len() implies checkpoint_in(
                    #[trigger] log[i],
                ) is None by {
                    if i < n {
                        assert(l[i] == log[i]);
                    }
                }
            }
        }
    }
}

proof fn lemma_max_txn(rs: Seq<WalRecordView>, init: u64, i: int)
    requires
        0 <= i < rs.len(),
    ensures
        rs[i].txn_id <= max_txn(rs, init),
    decreases rs.len(),
{
    if i < rs.len() - 1 {
        lemma_max_txn(rs.drop_last(), init, i);
        assert(rs.drop_last()[i] == rs[i]);
    }
}

/// All ids that a log names are below the next one to give out.
pub proof fn lemma_next_txn(log: Seq<LogEntry>, rs: Seq<WalRecordView>, j: int)
    requires
        rs == log_records(log),
        consistent(log),
        0 <= j < log.len(),
    ensures
        log[j].txn_id < next_txn_of(rs),
        checkpoint_in(log[j]) matches Some(c) ==> c.next_txn_id <= next_txn_of(rs),
{
    lemma_last_checkpoint(log, rs);
    assert(rs[j].txn_id == log[j].txn_id);
    match last_checkpoint(rs) {
        None => {
            lemma_max_txn(rs, 0, j);
        },
        Some(c) => {
            lemma_max_txn(rs, before(c.next_txn_id), j);
            let k = choose|k: int|
                0 <= k < log.len() && checkpoint_in(#[trigger] log[k]) == Some(c) && forall|i: int|
                    k < i < log.len() ==> checkpoint_in(#[trigger] log[i]) is None;
            if checkpoint_in(log[j]) is Some {
                assert(j <= k);
                assert(j == k || checkpoint_in(log[j])->0.next_txn_id <= checkpoint_in(
                    log[k],
                )->0.next_txn_id);
            }
        },
    }
}

/// What a manager knows of a transaction that a log has told it of.
pub proof fn lemma_restored(
    tm: TransactionManager,
    log: Seq<LogEntry>,
    rs: Seq<WalRecordView>,
    id: u64,
)
    requires
        rs == log_records(log),
        consistent(log),
        restored_from(tm, rs),
    ensures
        !tm.in_flight(id),
        committed_in(log, id) ==> tm.committed(id) && !tm.aborts().contains_key(id),
        id != 0 && wrote(log, id) && !committed_in(log, id) ==> tm.aborts().contains_key(id),
        tm.aborts().contains_key(id) ==> 1 <= id < tm.next_txn_id,
{
    let tm0 = choose|tm0: TransactionManager|
        blank_manager(tm0) && #[trigger] fates_restored(tm0, tm, rs);
    if tm.in_flight(id) {
        assert(tm0.in_flight(id));
    }
    lemma_last_checkpoint(log, rs);
    if committed_in(log, id) {
        let i = choose|i: int| 0 <= i < log.len() && commits(#[trigger] log[i], id);
        assert(rs[i].entry_type == WalRecordType::Commit && rs[i].txn_id == id);
        if abort_logged(rs, id) {
            let j = choose|j: int|
                0 <= j < rs.len() && (#[trigger] rs[j]).entry_type == WalRecordType::Abort
                    && rs[j].txn_id == id;
            assert(gives_up(log[j], log[i].txn_id));
        }
        if pinned(rs, id) {
            let c = last_checkpoint(rs)->0;
            let j = choose|j: int| 0 <= j < log.len() && checkpoint_in(#[trigger] log[j]) == Some(c);
            assert(pins(log[j], log[i].txn_id));
        }
        law_commits_survive(tm0, tm, rs, id, i);
    }
    if id != 0 && wrote(log, id) && !committed_in(log, id) {
        let i = choose|i: int| 0 <= i < log.len() && (#[trigger] log[i]).txn_id == id;
        assert(rs[i].txn_id == id);
        assert(seen(rs, id));
        assert forall|k: int| 0 <= k < rs.len() && (#[trigger] rs[k]).txn_id == id implies rs[k].entry_type
            != WalRecordType::Commit by {
            assert(rs[k].entry_type == log[k].kind && rs[k].txn_id == log[k].txn_id);
            assert(!commits(log[k], id));
        }
        law_unfinished_transactions_are_aborted(tm0, tm, rs, id);
    }
    if tm.aborts().contains_key(id) {
        if abort_logged(rs, id) {
            let j = choose|j: int|
                0 <= j < rs.len() && (#[trigger] rs[j]).entry_type == WalRecordType::Abort
                    && rs[j].txn_id == id;
            assert(tidy(log[j]));
            lemma_next_txn(log, rs, j);
        } else if seen(rs, id) {
            let j = choose|j: int| 0 <= j < rs.len() && (#[trigger] rs[j]).txn_id == id;
            assert(log[j].txn_id == id);
            lemma_next_txn(log, rs, j);
        } else {
            assert(pinned(rs, id) || crash_victim(tm0.clog@, tm0.aborts(), rs, id));
            let c = last_checkpoint(rs)->0;
            let j = choose|j: int| 0 <= j < log.len() && checkpoint_in(#[trigger] log[j]) == Some(c);
            assert(tidy(log[j]));
            lemma_next_txn(log, rs, j);
        }
    }
}

/// The durable part of a log does not contradict itself either.
proof fn lemma_consistent_prefix(log: Seq<LogEntry>, n: int)
    requires
        consistent(log),
        0 <= n <= log.len(),
    ensures
        consistent(log.subrange(0, n)),
{
    let l = log.subrange(0, n);
    assert forall|i: int, j: int|
        #![trigger l[i], l[j]]
        0 <= i < l.len() && 0 <= j < l.len() && l[i].kind == WalRecordType::Commit implies !gives_up(
        l[j],
        l[i].txn_id,
    ) && !pins(l[j], l[i].txn_id) by {
        assert(l[i] == log[i] && l[j] == log[j]);
    }
    assert forall|i: int, j: int|
        #![trigger l[i], l[j]]
        0 <= i < j < l.len() && checkpoint_in(l[i]) is Some && checkpoint_in(l[j]) is Some implies checkpoint_in(
    l[i])->0.next_txn_id <= checkpoint_in(l[j])->0.next_txn_id by {
        assert(l[i] == log[i] && l[j] == log[j]);
    }
    assert forall|j: int| 0 <= j < l.len() implies tidy(#[trigger] l[j]) by {
        assert(l[j] == log[j]);
    }
}

/// Whether an engine has been opened from files that another one left, with the
/// log as far as it was durable.
pub open spec fn opened_from<K: Key>(
    e0: Engine<K>,
    d: DiskManager,
    w: Wal,
    rs: Seq<WalRecordView>,
    e1: Engine<K>,
) -> bool {
    &&& e0.wf()
    &&& coherent(e0)
    &&& files_of(e0, d, w, rs)
    &&& e1.wf()
    &&& left_behind::<K>(d, w, rs, e1.index.store.base(), e1.index.store.log())
    &&& reads_all::<K>(d, w, rs, e1)
    &&& restored_from(e1.tm, rs)
}

pub proof fn lemma_opened<K: Key>(
    e0: Engine<K>,
    d: DiskManager,
    w: Wal,
    rs: Seq<WalRecordView>,
    e1: Engine<K>,
)
    requires
        opened_from(e0, d, w, rs, e1),
    ensures
        0 <= e0.index.store.durable() <= e0.index.store.log().len(),
        ids_bounded(e0),
        log_records(e0.index.store.log().subrange(0, e0.index.store.durable())) == rs,
        log_records(e1.index.store.log()) == rs,
        consistent(e0.index.store.log().subrange(0, e0.index.store.durable())),
{
    let log = e0.index.store.log();
    assert(ids_bounded(e0)) by {
        assert forall|i: int| 0 <= i < log.len() implies (#[trigger] log[i]).txn_id < u64::MAX by {
            assert(heeded(e0.tm, log[i]));
        }
    }
    e0.index.store.lemma_wf();
    law_files_can_be_opened::<K>(e0, d, w, rs);
    lemma_consistent_prefix(log, e0.index.store.durable());
}

/// Whenever a crash comes, what is there afterwards is the index that the durable
/// part of the log leads to.
pub proof fn law_crash_gives_the_durable_index<K: Key>(
    e0: Engine<K>,
    d: DiskManager,
    w: Wal,
    rs: Seq<WalRecordView>,
    e1: Engine<K>,
)
    requires
        opened_from(e0, d, w, rs, e1),
    ensures
        is_index::<K>(state(e0.index.store.base(), e0.index.store.log(), e0.index.store.durable())),
        reads::<K>(
            e1.index,
            state(e0.index.store.base(), e0.index.store.log(), e0.index.store.durable()),
        ),
{
    lemma_opened(e0, d, w, rs, e1);
    law_files_can_be_opened::<K>(e0, d, w, rs);
}

/// A commit that was made durable holds after a crash: the transaction counts as
/// committed, and whoever begins sees what it wrote.
pub proof fn law_durable_commits_hold<K: Key>(
    e0: Engine<K>,
    d: DiskManager,
    w: Wal,
    rs: Seq<WalRecordView>,
    e1: Engine<K>,
    id: u64,
    e2: Engine<K>,
    t: Transaction,
    now: u64,
)
    requires
        opened_from(e0, d, w, rs, e1),
        committed_in(e0.index.store.log().subrange(0, e0.index.store.durable()), id),
        begun(e1.tm, e2.tm, t, now),
    ensures
        e1.tm.committed(id),
        t.snapshot.sees(e2.tm.aborts(), id),
{
    lemma_opened(e0, d, w, rs, e1);
    let l = e0.index.store.log().subrange(0, e0.index.store.durable());
    lemma_restored(e1.tm, l, rs, id);
    let i = choose|i: int| 0 <= i < l.len() && commits(#[trigger] l[i], id);
    lemma_next_txn(l, rs, i);
    law_snapshot_xmin(e2.tm, t.snapshot, id);
    assert(!e1.tm.active_state.active@.dom().contains(id));
    assert(!e2.tm.active_state.active@.dom().contains(id));
}

/// A transaction that had not committed when the log ends is given up: nobody sees
/// what it wrote.
pub proof fn law_unfinished_writes_vanish<K: Key>(
    e0: Engine<K>,
    d: DiskManager,
    w: Wal,
    rs: Seq<WalRecordView>,
    e1: Engine<K>,
    id: u64,
    t: Transaction,
)
    requires
        opened_from(e0, d, w, rs, e1),
        id != 0,
        wrote(e0.index.store.log().subrange(0, e0.index.store.durable()), id),
        !committed_in(e0.index.store.log().subrange(0, e0.index.store.durable()), id),
    ensures
        !t.snapshot.sees(e1.tm.aborts(), id),
{
    lemma_opened(e0, d, w, rs, e1);
    let l = e0.index.store.log().subrange(0, e0.index.store.durable());
    lemma_restored(e1.tm, l, rs, id);
}

/// Whether an engine has been opened from files that hold the history of another,
/// neither less nor more. The files are those of that one when all of its records
/// are durable, and they stay so while the records that follow are not durable.
pub open spec fn resumed_from<K: Key>(
    e0: Engine<K>,
    d: DiskManager,
    w: Wal,
    rs: Seq<WalRecordView>,
    e1: Engine<K>,
) -> bool {
    &&& e0.wf()
    &&& coherent(e0)
    &&& left_behind::<K>(d, w, rs, e0.index.store.base(), e0.index.store.log())
    &&& e1.wf()
    &&& left_behind::<K>(d, w, rs, e1.index.store.base(), e1.index.store.log())
    &&& reads_all::<K>(d, w, rs, e1)
    &&& restored_from(e1.tm, rs)
}

/// The files of an engine whose durable records are all that another one had logged
/// hold the history of that one.
pub proof fn law_history_is_resumed<K: Key>(
    e0: Engine<K>,
    e: Engine<K>,
    d: DiskManager,
    w: Wal,
    rs: Seq<WalRecordView>,
    e1: Engine<K>,
)
    requires
        e0.wf(),
        coherent(e0),
        opened_from(e, d, w, rs, e1),
        e.index.store.base() == e0.index.store.base(),
        e.index.store.log().subrange(0, e.index.store.durable()) == e0.index.store.log(),
    ensures
        resumed_from(e0, d, w, rs, e1),
{
    lemma_opened(e, d, w, rs, e1);
    law_files_can_be_opened::<K>(e, d, w, rs);
}

/// An engine that is opened from the history of one in order is in order.
pub proof fn law_reopened_engines_are_coherent<K: Key>(
    e0: Engine<K>,
    d: DiskManager,
    w: Wal,
    rs: Seq<WalRecordView>,
    e1: Engine<K>,
)
    requires
        resumed_from(e0, d, w, rs, e1),
    ensures
        coherent(e1),
{
    let log = e0.index.store.log();
    law_durable_records_return::<K>(e0, d, w, rs, e1);
    lemma_in_line_again::<K>(e0, e1, rs);
    assert forall|k: int| 0 <= k < e0.index.records().len() implies logged(
        log,
        (#[trigger] e0.index.records()[k]).xmin,
    ) && logged(log, e0.index.records()[k].xmax) by {
        let r = e0.index.records()[k];
        assert(accounted(e0.tm, log, r.xmin) && accounted(e0.tm, log, r.xmax));
    }
    lemma_recorded_again(log, rs, e1.tm, e1.index.store.log(), e1.index.records());
}

/// Whether a transaction has a record; the system needs none.
pub open spec fn logged(log: Seq<LogEntry>, id: u64) -> bool {
    id == 0 || wrote(log, id)
}

/// What a manager knows that has been told of a log agrees with it.
pub proof fn lemma_recorded_again(
    log: Seq<LogEntry>,
    rs: Seq<WalRecordView>,
    tm: TransactionManager,
    log1: Seq<LogEntry>,
    recs: Seq<RecordView>,
)
    requires
        rs == log_records(log),
        rs == log_records(log1),
        consistent(log),
        restored_from(tm, rs),
        forall|k: int|
            0 <= k < recs.len() ==> logged(log, (#[trigger] recs[k]).xmin) && logged(
                log,
                recs[k].xmax,
            ),
    ensures
        orderly(tm),
        recorded(tm, log1, recs),
{
    lemma_same_consistent(log, log1);
    assert forall|id: u64| #[trigger] tm.aborts().contains_key(id) implies 1 <= id < tm.next_txn_id
        && !tm.in_flight(id) by {
        lemma_restored(tm, log, rs, id);
    }
    assert forall|j: int| 0 <= j < log1.len() implies heeded(tm, #[trigger] log1[j]) by {
        lemma_restored(tm, log, rs, log1[j].txn_id);
        lemma_next_txn(log1, rs, j);
        if log1[j].kind == WalRecordType::Commit {
            assert(commits(log1[j], log1[j].txn_id));
            assert(committed_in(log1, log1[j].txn_id));
            lemma_same_fate(log1, log, log1[j].txn_id);
        }
        if checkpoint_in(log1[j]) is Some {
            assert forall|id: u64| #[trigger]
                checkpoint_in(log1[j])->0.pinned_aborted.contains(id) implies !tm.in_flight(id) by {
                lemma_restored(tm, log, rs, id);
            }
        }
    }
    assert forall|k: int| 0 <= k < recs.len() implies accounted(
        tm,
        log1,
        (#[trigger] recs[k]).xmin,
    ) && accounted(tm, log1, recs[k].xmax) by {
        lemma_restored(tm, log, rs, recs[k].xmin);
        lemma_restored(tm, log, rs, recs[k].xmax);
        lemma_same_fate(log, log1, recs[k].xmin);
        lemma_same_fate(log, log1, recs[k].xmax);
    }
}

proof fn lemma_same_entry(a: Seq<LogEntry>, b: Seq<LogEntry>, i: int)
    requires
        log_records(a) == log_records(b),
        0 <= i < a.len() || 0 <= i < b.len(),
    ensures
        a.len() == b.len(),
        a[i].kind == b[i].kind,
        a[i].txn_id == b[i].txn_id,
        checkpoint_in(a[i]) == checkpoint_in(b[i]),
{
    assert(log_records(a).len() == a.len());
    assert(log_records(b).len() == b.len());
    assert(log_records(a)[i] == entry_record(a[i]));
    assert(log_records(b)[i] == entry_record(b[i]));
}

/// Two logs with the same records say the same of a transaction.
proof fn lemma_same_fate(a: Seq<LogEntry>, b: Seq<LogEntry>, id: u64)
    requires
        log_records(a) == log_records(b),
    ensures
        committed_in(a, id) ==> committed_in(b, id),
        wrote(a, id) ==> wrote(b, id),
{
    if committed_in(a, id) {
        let i = choose|i: int| 0 <= i < a.len() && commits(#[trigger] a[i], id);
        lemma_same_entry(a, b, i);
        assert(commits(b[i], id));
    }
    if wrote(a, id) {
        let i = choose|i: int| 0 <= i < a.len() && (#[trigger] a[i]).txn_id == id;
        lemma_same_entry(a, b, i);
        assert(b[i].txn_id == id);
    }
}

/// Of two logs with the same records, both contradict themselves or neither does.
proof fn lemma_same_consistent(a: Seq<LogEntry>, b: Seq<LogEntry>)
    requires
        log_records(a) == log_records(b),
        consistent(a),
    ensures
        consistent(b),
{
    assert forall|i: int, j: int|
        #![trigger b[i], b[j]]
        0 <= i < b.len() && 0 <= j < b.len() && b[i].kind == WalRecordType::Commit implies !gives_up(
        b[j],
        b[i].txn_id,
    ) && !pins(b[j], b[i].txn_id) by {
        lemma_same_entry(a, b, i);
        lemma_same_entry(a, b, j);
        assert(!gives_up(a[j], a[i].txn_id) && !pins(a[j], a[i].txn_id));
    }
    assert forall|i: int, j: int|
        #![trigger b[i], b[j]]
        0 <= i < j < b.len() && checkpoint_in(b[i]) is Some && checkpoint_in(b[j]) is Some implies checkpoint_in(
    b[i])->0.next_txn_id <= checkpoint_in(b[j])->0.next_txn_id by {
        lemma_same_entry(a, b, i);
        lemma_same_entry(a, b, j);
        assert(checkpoint_in(a[i])->0.next_txn_id <= checkpoint_in(a[j])->0.next_txn_id);
    }
    assert forall|j: int| 0 <= j < b.len() implies tidy(#[trigger] b[j]) by {
        lemma_same_entry(a, b, j);
        assert(tidy(a[j]));
    }
}

proof fn lemma_in_line_again<K: Key>(e0: Engine<K>, e1: Engine<K>, rs: Seq<WalRecordView>)
    requires
        coherent(e0),
        log_records(e0.index.store.log()) == rs,
        restored_from(e1.tm, rs),
    ensures
        in_line::<K>(e1.tm, e0.index.records()),
{
    let log = e0.index.store.log();
    let recs = e0.index.records();
    assert forall|i: int| 0 <= i < recs.len() implies (#[trigger] recs[i]).xmin < e1.tm.next_txn_id
        && recs[i].xmax < e1.tm.next_txn_id by {
        assert(accounted(e0.tm, log, recs[i].xmin) && accounted(e0.tm, log, recs[i].xmax));
        lemma_id_known(e0.tm, e1.tm, log, rs, recs[i].xmin);
        lemma_id_known(e0.tm, e1.tm, log, rs, recs[i].xmax);
    }
    assert forall|i: int, j: int|
        0 <= i < recs.len() && 0 <= j < recs.len() && i != j && key_eq::<K>(
            (#[trigger] recs[i]).key,
            (#[trigger] recs[j]).key,
        ) && !e1.tm.aborts().contains_key(recs[i].xmin) && !e1.tm.aborts().contains_key(
            recs[j].xmin,
        ) implies followed(e1.tm, recs[i], recs[j]) || followed(e1.tm, recs[j], recs[i]) by {
        lemma_id_known(e0.tm, e1.tm, log, rs, recs[i].xmin);
        lemma_id_known(e0.tm, e1.tm, log, rs, recs[j].xmin);
        lemma_id_known(e0.tm, e1.tm, log, rs, recs[i].xmax);
        lemma_id_known(e0.tm, e1.tm, log, rs, recs[j].xmax);
        assert(!e0.tm.aborts().contains_key(0));
        assert(followed(e0.tm, recs[i], recs[j]) || followed(e0.tm, recs[j], recs[i]));
    }
}

/// Whoever a version bears the id of has committed before a crash if and only if
/// that is so after it.
pub proof fn lemma_id_known(
    tm: TransactionManager,
    after: TransactionManager,
    log: Seq<LogEntry>,
    rs: Seq<WalRecordView>,
    id: u64,
)
    requires
        rs == log_records(log),
        consistent(log),
        forall|j: int| 0 <= j < log.len() ==> heeded(tm, #[trigger] log[j]),
        restored_from(after, rs),
        accounted(tm, log, id),
    ensures
        !after.in_flight(id),
        id < after.next_txn_id,
        id != 0 ==> (!after.aborts().contains_key(id) <==> !tm.aborts().contains_key(id)
            && !tm.in_flight(id)),
        !after.aborts().contains_key(0),
{
    lemma_restored(after, log, rs, id);
    lemma_restored(after, log, rs, 0);
    if id != 0 {
        let i = choose|i: int| 0 <= i < log.len() && (#[trigger] log[i]).txn_id == id;
        lemma_next_txn(log, rs, i);
        if committed_in(log, id) {
            let j = choose|j: int| 0 <= j < log.len() && commits(#[trigger] log[j], id);
            assert(heeded(tm, log[j]));
        }
    }
}

/// Committed data survives a crash: whoever begins after an engine was opened again
/// reads what whoever had begun at the end of the durable history would have read.
pub proof fn law_committed_data_survives<K: Key>(
    e0: Engine<K>,
    d: DiskManager,
    w: Wal,
    rs: Seq<WalRecordView>,
    e1: Engine<K>,
    s0: Engine<K>,
    a: Transaction,
    s1: Engine<K>,
    t: Transaction,
    now: u64,
    later: u64,
    key: Seq<u8>,
    got: Option<Vec<u8>>,
)
    requires
        resumed_from(e0, d, w, rs, e1),
        begun(e0.tm, s0.tm, a, now),
        s0.index == e0.index,
        begun(e1.tm, s1.tm, t, later),
        s1.index == e1.index,
    ensures
        read_result::<K>(s0, a, key, got) <==> read_result::<K>(s1, t, key, got),
{
    let log = e0.index.store.log();
    law_durable_records_return::<K>(e0, d, w, rs, e1);
    let recs = e0.index.records();
    assert forall|k: int| 0 <= k < recs.len() implies visible::<K>(
        &a,
        s0.tm.aborts(),
        key,
        #[trigger] recs[k],
    ) == visible::<K>(&t, s1.tm.aborts(), key, recs[k]) && s0.index.content(recs[k])
        == s1.index.content(recs[k]) by {
        lemma_seen_again(e0.tm, log, rs, e1.tm, s0.tm, a, s1.tm, t, now, later, recs[k].xmin);
        lemma_seen_again(e0.tm, log, rs, e1.tm, s0.tm, a, s1.tm, t, now, later, recs[k].xmax);
    }
    assert(nothing_visible(s0, a, key) == nothing_visible(s1, t, key));
}

pub proof fn lemma_seen_again(
    tm: TransactionManager,
    log: Seq<LogEntry>,
    rs: Seq<WalRecordView>,
    after: TransactionManager,
    m0: TransactionManager,
    a: Transaction,
    m1: TransactionManager,
    t: Transaction,
    now: u64,
    later: u64,
    id: u64,
)
    requires
        rs == log_records(log),
        consistent(log),
        forall|j: int| 0 <= j < log.len() ==> heeded(tm, #[trigger] log[j]),
        restored_from(after, rs),
        accounted(tm, log, id),
        begun(tm, m0, a, now),
        begun(after, m1, t, later),
    ensures
        a.snapshot.sees(m0.aborts(), id) == t.snapshot.sees(m1.aborts(), id),
        id != 0 ==> id != a.txn_id && id != t.txn_id,
        a.txn_id != 0,
        t.txn_id != 0,
{
    lemma_id_known(tm, after, log, rs, id);
    law_snapshot_xmin(m0, a.snapshot, id);
    law_snapshot_xmin(m1, t.snapshot, id);
    if id != 0 {
        let i = choose|i: int| 0 <= i < log.len() && (#[trigger] log[i]).txn_id == id;
        assert(heeded(tm, log[i]));
        assert(tm.active_state.active@.dom().contains(id) == tm.in_flight(id));
        assert(m0.active_state.active@.dom().contains(id) == m0.in_flight(id));
        assert(after.active_state.active@.dom().contains(id) == after.in_flight(id));
        assert(m1.active_state.active@.dom().contains(id) == m1.in_flight(id));
    }
}

} // verus!
