//! What the log says of transactions, and that it agrees with what the manager
//! knows of them.

use vstd::prelude::*;

use crate::change::LogEntry;
use crate::checkpoint::{checkpoint_at, CheckpointView};
use crate::index::BTreeIndex;
use crate::index_write::{entered, kin};
use crate::key::Key;
use crate::mvcc::{cleared, dead, lemma_survivors_member, survivors, with_xmax, Settled};
use crate::node::RecordView;
use crate::trace::{carries_on, lemma_wrote_stays, settles, wrote};
use crate::transaction_manager::TransactionManager;
use crate::wal::{part, WalRecordType};

verus! {

/// Whether a record says that a transaction has committed.
pub open spec fn commits(e: LogEntry, id: u64) -> bool {
    e.kind == WalRecordType::Commit && e.txn_id == id
}

/// Whether a record says that a transaction was given up.
pub open spec fn gives_up(e: LogEntry, id: u64) -> bool {
    e.kind == WalRecordType::Abort && e.txn_id == id
}

/// The checkpoint that a record holds.
pub open spec fn checkpoint_in(e: LogEntry) -> Option<CheckpointView> {
    if e.kind == WalRecordType::Checkpoint {
        checkpoint_at(part(e.main))
    } else {
        None
    }
}

/// Whether a record is a checkpoint that remembers a transaction as aborted.
pub open spec fn pins(e: LogEntry, id: u64) -> bool {
    match checkpoint_in(e) {
        Some(c) => c.pinned_aborted.contains(id),
        None => false,
    }
}

/// Whether a log says that a transaction has committed.
pub open spec fn committed_in(log: Seq<LogEntry>, id: u64) -> bool {
    exists|i: int| 0 <= i < log.len() && commits(#[trigger] log[i], id)
}

/// Whether a log does not contradict itself: no transaction that has committed was
/// given up, and checkpoints come in order.
pub open spec fn consistent(log: Seq<LogEntry>) -> bool {
    &&& forall|i: int, j: int|
        #![trigger log[i], log[j]]
        0 <= i < log.len() && 0 <= j < log.len() && log[i].kind == WalRecordType::Commit
            ==> !gives_up(log[j], log[i].txn_id) && !pins(log[j], log[i].txn_id)
    &&& forall|i: int, j: int|
        #![trigger log[i], log[j]]
        0 <= i < j < log.len() && checkpoint_in(log[i]) is Some && checkpoint_in(log[j]) is Some
            ==> checkpoint_in(log[i])->0.next_txn_id <= checkpoint_in(log[j])->0.next_txn_id
    &&& forall|j: int| 0 <= j < log.len() ==> tidy(#[trigger] log[j])
}

/// Whether a checkpoint names only transactions that had been given out, and
/// commits and aborts are those of transactions.
pub open spec fn tidy(e: LogEntry) -> bool {
    &&& e.kind == WalRecordType::Commit || e.kind == WalRecordType::Abort ==> e.txn_id != 0
    &&& checkpoint_in(e) is Some ==> {
        let c = checkpoint_in(e)->0;
        &&& forall|id: u64| #[trigger] c.pinned_aborted.contains(id) ==> 1 <= id < c.next_txn_id
        &&& forall|id: u64| #[trigger] c.active_txns.contains(id) ==> 1 <= id < c.next_txn_id
    }
}

/// Whether the manager knows what one record of the log says.
pub open spec fn heeded(tm: TransactionManager, e: LogEntry) -> bool {
    &&& e.txn_id < tm.next_txn_id
    &&& e.kind == WalRecordType::Commit ==> !tm.in_flight(e.txn_id) && !tm.aborts().contains_key(
        e.txn_id,
    )
    &&& e.kind == WalRecordType::Abort ==> !tm.in_flight(e.txn_id)
    &&& checkpoint_in(e) is Some ==> {
        let c = checkpoint_in(e)->0;
        &&& c.next_txn_id <= tm.next_txn_id
        &&& forall|id: u64| #[trigger] c.pinned_aborted.contains(id) ==> !tm.in_flight(id)
    }
}

/// Whether a transaction whose id a version bears has a record, and its fate is
/// known.
pub open spec fn accounted(tm: TransactionManager, log: Seq<LogEntry>, id: u64) -> bool {
    id == 0 || (wrote(log, id) && (tm.in_flight(id) || tm.aborts().contains_key(id) || committed_in(
        log,
        id,
    )))
}

/// Whether the log, the manager and the versions agree.
pub open spec fn recorded(
    tm: TransactionManager,
    log: Seq<LogEntry>,
    recs: Seq<RecordView>,
) -> bool {
    &&& consistent(log)
    &&& forall|j: int| 0 <= j < log.len() ==> heeded(tm, #[trigger] log[j])
    &&& forall|k: int|
        0 <= k < recs.len() ==> accounted(tm, log, (#[trigger] recs[k]).xmin) && accounted(
            tm,
            log,
            recs[k].xmax,
        )
}

/// Whether a version bears the id of a transaction.
pub open spec fn bears(recs: Seq<RecordView>, id: u64) -> bool {
    exists|k: int| 0 <= k < recs.len() && ((#[trigger] recs[k]).xmin == id || recs[k].xmax == id)
}

/// Whether versions bear only ids that others bear, and one more.
pub open spec fn drawn(old: Seq<RecordView>, now: Seq<RecordView>, by: u64) -> bool {
    forall|k: int|
        0 <= k < now.len() ==> {
            let r = #[trigger] now[k];
            &&& r.xmin == 0 || r.xmin == by || bears(old, r.xmin)
            &&& r.xmax == 0 || r.xmax == by || bears(old, r.xmax)
        }
}

pub proof fn lemma_drawn_entered<K: Key>(
    before: BTreeIndex<K>,
    after: BTreeIndex<K>,
    e: Settled,
    recs: Seq<RecordView>,
    base: Seq<RecordView>,
    q: int,
    v: RecordView,
    old: Seq<RecordView>,
    by: u64,
)
    requires
        entered(&before, &after, e, recs, base, q, v),
        drawn(old, recs, by),
        v.xmin == by,
        v.xmax == 0,
    ensures
        drawn(old, after.records(), by),
{
    let now = after.records();
    assert forall|k: int| 0 <= k < now.len() implies {
        let r = #[trigger] now[k];
        &&& r.xmin == 0 || r.xmin == by || bears(old, r.xmin)
        &&& r.xmax == 0 || r.xmax == by || bears(old, r.xmax)
    } by {
        if k != q {
            let z = if k < q {
                k
            } else {
                k - 1
            };
            assert(now[k] == base[z]);
            assert(kin(e, recs, base[z]));
            let i = choose|i: int|
                0 <= i < recs.len() && (base[z] == #[trigger] recs[i] || base[z] == cleared(
                    e,
                    recs[i],
                ));
            assert(recs[i].xmin == 0 || recs[i].xmin == by || bears(old, recs[i].xmin));
        }
    }
}

pub proof fn lemma_drawn_marked(old: Seq<RecordView>, m: int, by: u64)
    requires
        0 <= m < old.len(),
    ensures
        drawn(old, old.update(m, with_xmax(old[m], by)), by),
        drawn(old, old, by),
{
    let now = old.update(m, with_xmax(old[m], by));
    assert forall|k: int| 0 <= k < now.len() implies {
        let r = #[trigger] now[k];
        &&& r.xmin == 0 || r.xmin == by || bears(old, r.xmin)
        &&& r.xmax == 0 || r.xmax == by || bears(old, r.xmax)
    } by {
        assert(old[k].xmin == now[k].xmin);
    }
}

/// Records of changes tell nothing of anybody's fate.
pub proof fn lemma_fates_stay(a: Seq<LogEntry>, b: Seq<LogEntry>, by: u64, id: u64)
    requires
        carries_on(a, b, by),
    ensures
        committed_in(b, id) == committed_in(a, id),
{
    if committed_in(a, id) {
        let i = choose|i: int| 0 <= i < a.len() && commits(#[trigger] a[i], id);
        assert(b[i] == a[i]);
    }
    if committed_in(b, id) {
        let i = choose|i: int| 0 <= i < b.len() && commits(#[trigger] b[i], id);
        assert(b[i].kind == WalRecordType::Commit);
        assert(a[i] == b[i]);
    }
}

/// What a transaction writes is recorded.
pub proof fn lemma_recorded_write(
    tm: TransactionManager,
    after: TransactionManager,
    a: Seq<LogEntry>,
    b: Seq<LogEntry>,
    old: Seq<RecordView>,
    now: Seq<RecordView>,
    by: u64,
)
    requires
        recorded(tm, a, old),
        after.next_txn_id == tm.next_txn_id,
        after.active_state == tm.active_state,
        carries_on(a, b, by),
        drawn(old, now, by),
        by == 0 || tm.in_flight(by),
        by < tm.next_txn_id,
        by == 0 || wrote(b, by) || now == old,
    ensures
        recorded(after, b, now),
{
    assert forall|j: int| 0 <= j < b.len() && a.len() <= j implies !settles(#[trigger] b[j]) by {}
    assert(consistent(b)) by {
        assert forall|i: int, j: int|
            #![trigger b[i], b[j]]
            0 <= i < b.len() && 0 <= j < b.len() && b[i].kind
                == WalRecordType::Commit implies !gives_up(b[j], b[i].txn_id) && !pins(
            b[j],
            b[i].txn_id,
        ) by {
            assert(a[i] == b[i]);
            if j < a.len() {
                assert(a[j] == b[j]);
            }
        }
        assert forall|i: int, j: int|
            #![trigger b[i], b[j]]
            0 <= i < j < b.len() && checkpoint_in(b[i]) is Some && checkpoint_in(
                b[j],
            ) is Some implies checkpoint_in(b[i])->0.next_txn_id <= checkpoint_in(
            b[j],
        )->0.next_txn_id by {
            assert(a[i] == b[i]);
            assert(a[j] == b[j]);
        }
        assert forall|j: int| 0 <= j < b.len() implies tidy(#[trigger] b[j]) by {
            if j < a.len() {
                assert(a[j] == b[j]);
            }
        }
    }
    assert forall|j: int| 0 <= j < b.len() implies heeded(after, #[trigger] b[j]) by {
        if j < a.len() {
            assert(a[j] == b[j]);
            assert(heeded(tm, a[j]));
        }
    }
    assert forall|k: int| 0 <= k < now.len() implies accounted(
        after,
        b,
        (#[trigger] now[k]).xmin,
    ) && accounted(after, b, now[k].xmax) by {
        if now == old {
            assert(accounted(tm, a, old[k].xmin) && accounted(tm, a, old[k].xmax));
            lemma_still_accounted(tm, after, a, b, by, old[k].xmin);
            lemma_still_accounted(tm, after, a, b, by, old[k].xmax);
        } else {
            lemma_borne(tm, after, a, b, old, by, now[k].xmin);
            lemma_borne(tm, after, a, b, old, by, now[k].xmax);
        }
    }
}

proof fn lemma_still_accounted(
    tm: TransactionManager,
    after: TransactionManager,
    a: Seq<LogEntry>,
    b: Seq<LogEntry>,
    by: u64,
    id: u64,
)
    requires
        accounted(tm, a, id),
        after.active_state == tm.active_state,
        carries_on(a, b, by),
    ensures
        accounted(after, b, id),
{
    lemma_fates_stay(a, b, by, id);
    if id != 0 {
        lemma_wrote_stays(a, b, by, id);
    }
}

proof fn lemma_borne(
    tm: TransactionManager,
    after: TransactionManager,
    a: Seq<LogEntry>,
    b: Seq<LogEntry>,
    old: Seq<RecordView>,
    by: u64,
    id: u64,
)
    requires
        recorded(tm, a, old),
        after.active_state == tm.active_state,
        carries_on(a, b, by),
        by == 0 || (tm.in_flight(by) && wrote(b, by)),
        id == 0 || id == by || bears(old, id),
    ensures
        accounted(after, b, id),
{
    if id != 0 && id != by {
        let k = choose|k: int|
            0 <= k < old.len() && ((#[trigger] old[k]).xmin == id || old[k].xmax == id);
        lemma_still_accounted(tm, after, a, b, by, id);
    }
}

/// A record without changes is logged.
pub proof fn lemma_recorded_note(
    tm: TransactionManager,
    after: TransactionManager,
    a: Seq<LogEntry>,
    e: LogEntry,
    recs: Seq<RecordView>,
)
    requires
        recorded(tm, a, recs),
        after.next_txn_id == tm.next_txn_id,
        e.txn_id < tm.next_txn_id,
        match e.kind {
            WalRecordType::Commit => {
                &&& e.txn_id != 0
                &&& tm.in_flight(e.txn_id)
                &&& !tm.aborts().contains_key(e.txn_id)
                &&& after.active_state.active@ == tm.active_state.active@.remove(e.txn_id)
                &&& after.aborts() == tm.aborts()
            },
            WalRecordType::Abort => {
                &&& e.txn_id != 0
                &&& tm.in_flight(e.txn_id)
                &&& after.active_state.active@ == tm.active_state.active@.remove(e.txn_id)
                &&& after.aborts() == tm.aborts().insert(e.txn_id, ())
            },
            WalRecordType::Checkpoint => {
                &&& after.active_state == tm.active_state
                &&& checkpoint_in(e) matches Some(c) ==> {
                    &&& c.next_txn_id == tm.next_txn_id
                    &&& forall|id: u64| #[trigger]
                        c.pinned_aborted.contains(id) ==> tm.aborts().contains_key(id)
                            && !tm.in_flight(id) && 1 <= id < tm.next_txn_id
                    &&& forall|id: u64| #[trigger]
                        c.active_txns.contains(id) ==> 1 <= id < tm.next_txn_id
                }
            },
            _ => false,
        },
    ensures
        recorded(after, a.push(e), recs),
{
    let b = a.push(e);
    let n = a.len() as int;
    assert(consistent(b)) by {
        assert forall|i: int, j: int|
            #![trigger b[i], b[j]]
            0 <= i < b.len() && 0 <= j < b.len() && b[i].kind
                == WalRecordType::Commit implies !gives_up(b[j], b[i].txn_id) && !pins(
            b[j],
            b[i].txn_id,
        ) by {
            if i < n {
                assert(a[i] == b[i]);
                assert(heeded(tm, a[i]));
            }
            if j < n {
                assert(a[j] == b[j]);
                assert(heeded(tm, a[j]));
            }
        }
        assert forall|i: int, j: int|
            #![trigger b[i], b[j]]
            0 <= i < j < b.len() && checkpoint_in(b[i]) is Some && checkpoint_in(
                b[j],
            ) is Some implies checkpoint_in(b[i])->0.next_txn_id <= checkpoint_in(
            b[j],
        )->0.next_txn_id by {
            assert(a[i] == b[i]);
            assert(heeded(tm, a[i]));
            if j < n {
                assert(a[j] == b[j]);
            }
        }
        assert forall|j: int| 0 <= j < b.len() implies tidy(#[trigger] b[j]) by {
            if j < n {
                assert(a[j] == b[j]);
            }
        }
    }
    assert forall|j: int| 0 <= j < b.len() implies heeded(after, #[trigger] b[j]) by {
        if j < n {
            assert(a[j] == b[j]);
            assert(heeded(tm, a[j]));
        }
    }
    assert forall|k: int| 0 <= k < recs.len() implies accounted(
        after,
        b,
        (#[trigger] recs[k]).xmin,
    ) && accounted(after, b, recs[k].xmax) by {
        lemma_noted_accounted(tm, after, a, e, recs[k].xmin);
        lemma_noted_accounted(tm, after, a, e, recs[k].xmax);
    }
}

proof fn lemma_noted_accounted(
    tm: TransactionManager,
    after: TransactionManager,
    a: Seq<LogEntry>,
    e: LogEntry,
    id: u64,
)
    requires
        accounted(tm, a, id),
        forall|x: u64|
            x != e.txn_id && #[trigger] tm.in_flight(x) ==> after.in_flight(x),
        forall|x: u64| #[trigger]
            tm.aborts().contains_key(x) ==> after.aborts().contains_key(x),
        tm.in_flight(e.txn_id) ==> after.in_flight(e.txn_id) || after.aborts().contains_key(
            e.txn_id,
        ) || e.kind == WalRecordType::Commit,
    ensures
        accounted(after, a.push(e), id),
{
    let b = a.push(e);
    if id != 0 {
        let i = choose|i: int| 0 <= i < a.len() && (#[trigger] a[i]).txn_id == id;
        assert(b[i] == a[i]);
        if committed_in(a, id) {
            let j = choose|j: int| 0 <= j < a.len() && commits(#[trigger] a[j], id);
            assert(b[j] == a[j]);
        }
        assert(b[a.len() as int] == e);
    }
}

/// A transaction that no version bears the id of ends without a record, or one
/// that aborts does.
pub proof fn lemma_recorded_quiet_end(
    tm: TransactionManager,
    after: TransactionManager,
    log: Seq<LogEntry>,
    recs: Seq<RecordView>,
    id: u64,
)
    requires
        recorded(tm, log, recs),
        after.next_txn_id == tm.next_txn_id,
        tm.in_flight(id),
        after.active_state.active@ == tm.active_state.active@.remove(id),
        after.aborts() == tm.aborts().insert(id, ()) || (after.aborts() == tm.aborts() && !bears(
            recs,
            id,
        )),
    ensures
        recorded(after, log, recs),
{
    assert forall|j: int| 0 <= j < log.len() implies heeded(after, #[trigger] log[j]) by {
        assert(heeded(tm, log[j]));
    }
    assert forall|k: int| 0 <= k < recs.len() implies accounted(
        after,
        log,
        (#[trigger] recs[k]).xmin,
    ) && accounted(after, log, recs[k].xmax) by {
        assert(accounted(tm, log, recs[k].xmin) && accounted(tm, log, recs[k].xmax));
    }
}

/// A transaction begins.
pub proof fn lemma_recorded_begun(
    tm: TransactionManager,
    after: TransactionManager,
    log: Seq<LogEntry>,
    recs: Seq<RecordView>,
    id: u64,
)
    requires
        recorded(tm, log, recs),
        id == tm.next_txn_id,
        after.next_txn_id == tm.next_txn_id + 1,
        after.active_state.active@.dom() == tm.active_state.active@.dom().insert(id),
        after.aborts() == tm.aborts(),
    ensures
        recorded(after, log, recs),
{
    assert forall|x: u64| #[trigger] after.in_flight(x) == (x == id || tm.in_flight(x)) by {
        assert(after.active_state.active@.dom().contains(x) == after.in_flight(x));
        assert(tm.active_state.active@.dom().contains(x) == tm.in_flight(x));
    }
    assert forall|j: int| 0 <= j < log.len() implies heeded(after, #[trigger] log[j]) by {
        assert(heeded(tm, log[j]));
        assert(tidy(log[j]));
    }
    assert forall|k: int| 0 <= k < recs.len() implies accounted(
        after,
        log,
        (#[trigger] recs[k]).xmin,
    ) && accounted(after, log, recs[k].xmax) by {
        assert(accounted(tm, log, recs[k].xmin) && accounted(tm, log, recs[k].xmax));
    }
}

/// A sweep leaves no version of an aborted transaction, so that the manager can
/// forget it.
pub proof fn lemma_recorded_swept(
    tm: TransactionManager,
    after: TransactionManager,
    a: Seq<LogEntry>,
    b: Seq<LogEntry>,
    recs: Seq<RecordView>,
)
    requires
        recorded(tm, a, recs),
        tm.next_txn_id >= 1,
        after.next_txn_id == tm.next_txn_id,
        after.active_state.active == tm.active_state.active,
        forall|id: u64| #[trigger] after.aborts().contains_key(id) ==> tm.aborts().contains_key(id),
        carries_on(a, b, 0),
    ensures
        recorded(after, b, survivors(tm.settled(), recs)),
{
    let e = tm.settled();
    let now = survivors(e, recs);
    assert(drawn(recs, recs, 0)) by {
        assert forall|k: int| 0 <= k < recs.len() implies {
            let r = #[trigger] recs[k];
            &&& r.xmin == 0 || r.xmin == 0 || bears(recs, r.xmin)
            &&& r.xmax == 0 || r.xmax == 0 || bears(recs, r.xmax)
        } by {}
    }
    lemma_recorded_write(tm, tm, a, b, recs, recs, 0);
    assert forall|j: int| 0 <= j < b.len() implies heeded(after, #[trigger] b[j]) by {
        assert(heeded(tm, b[j]));
    }
    assert forall|k: int| 0 <= k < now.len() implies accounted(
        after,
        b,
        (#[trigger] now[k]).xmin,
    ) && accounted(after, b, now[k].xmax) by {
        lemma_survivors_member(e, recs, now[k]);
        let i = choose|i: int|
            0 <= i < recs.len() && !dead(e, #[trigger] recs[i]) && now[k] == cleared(e, recs[i]);
        assert(accounted(tm, b, recs[i].xmin) && accounted(tm, b, recs[i].xmax));
    }
}

} // verus!
