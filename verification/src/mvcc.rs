//! Which versions count: visibility, conflicts and dead versions.

use vstd::prelude::*;

use crate::error::IndexError;
use crate::key::{key_eq, Key};
use crate::node::{Record, RecordView};
use crate::transaction::Transaction;
use crate::transaction_manager::{law_horizon_is_least, TransactionManager};

verus! {

/// What a sweep has to know: the aborted transactions and the vacuum horizon.
#[verifier::ext_equal]
pub struct Settled {
    pub aborts: Map<u64, ()>,
    pub horizon: u64,
}

impl TransactionManager {
    /// What a sweep that starts now has to know.
    pub open spec fn settled(&self) -> Settled {
        Settled { aborts: self.aborts(), horizon: self.horizon() }
    }
}

/// Whether nobody can see a version any more: its creator aborted, or its
/// deleter committed before every snapshot in use.
pub open spec fn dead(e: Settled, r: RecordView) -> bool {
    e.aborts.contains_key(r.xmin) || (r.xmax != 0 && r.xmax < e.horizon && !e.aborts.contains_key(
        r.xmax,
    ))
}

/// A version without the stamp of a deleter that aborted.
pub open spec fn cleared(e: Settled, r: RecordView) -> RecordView {
    if e.aborts.contains_key(r.xmax) {
        RecordView { xmax: 0, ..r }
    } else {
        r
    }
}

/// A version with a deleter.
pub open spec fn with_xmax(r: RecordView, xmax: u64) -> RecordView {
    RecordView { xmax, ..r }
}

/// The versions that a sweep leaves, in order.
pub open spec fn survivors(e: Settled, s: Seq<RecordView>) -> Seq<RecordView>
    decreases s.len(),
{
    if s.len() == 0 {
        Seq::empty()
    } else {
        let rest = survivors(e, s.drop_last());
        if dead(e, s.last()) {
            rest
        } else {
            rest.push(cleared(e, s.last()))
        }
    }
}

/// The versions that a sweep takes away, in order.
pub open spec fn deads(e: Settled, s: Seq<RecordView>) -> Seq<RecordView>
    decreases s.len(),
{
    if s.len() == 0 {
        Seq::empty()
    } else {
        let rest = deads(e, s.drop_last());
        if dead(e, s.last()) {
            rest.push(s.last())
        } else {
            rest
        }
    }
}

/// Whether `r` is a version of `key` that the transaction sees.
pub open spec fn visible<K: Key>(
    txn: &Transaction,
    aborts: Map<u64, ()>,
    key: Seq<u8>,
    r: RecordView,
) -> bool {
    key_eq::<K>(r.key, key) && txn.sees(aborts, r.xmin, r.xmax)
}

/// Whether a version whose creator and deleter have settled is the current one: the
/// creator did not abort, and the deleter, if there is one, did.
pub open spec fn live(aborts: Map<u64, ()>, r: RecordView) -> bool {
    &&& !aborts.contains_key(r.xmin)
    &&& r.xmax == 0 || aborts.contains_key(r.xmax)
}

/// What a conflict means for a transaction: of two, the younger gives up where it would
/// have to wait, which rules out circular waits; the older one waits.
pub open spec fn by_age(txn_id: u64, e: IndexError) -> IndexError {
    match e {
        IndexError::WaitFor(b) => if txn_id > b {
            IndexError::WriteConflict
        } else {
            e
        },
        _ => e,
    }
}

/// How a version of a key stands in the way of inserting the key. A running
/// creator or deleter has to settle first. A version that is visible is a
/// duplicate, and so is one that was committed after the transaction began: the
/// first writer wins.
pub open spec fn insert_conflict(
    txn: &Transaction,
    tm: &TransactionManager,
    r: RecordView,
) -> Option<IndexError> {
    if r.xmin != txn.txn_id && tm.in_flight(r.xmin) {
        Some(IndexError::WaitFor(r.xmin))
    } else if txn.sees(tm.aborts(), r.xmin, r.xmax) {
        Some(IndexError::DuplicateKey)
    } else if r.xmax != 0 && r.xmax != txn.txn_id && tm.in_flight(r.xmax) {
        Some(IndexError::WaitFor(r.xmax))
    } else if live(tm.aborts(), r) {
        Some(IndexError::DuplicateKey)
    } else {
        None
    }
}

/// How the deleter of a version stands in the way of changing the version.
pub open spec fn write_conflict(
    txn: &Transaction,
    tm: &TransactionManager,
    xmax: u64,
) -> Option<IndexError> {
    if xmax == 0 || xmax == txn.txn_id {
        None
    } else if tm.in_flight(xmax) {
        Some(IndexError::WaitFor(xmax))
    } else if tm.aborts().contains_key(xmax) {
        None
    } else {
        Some(IndexError::WriteConflict)
    }
}

/// Only an older transaction is told to wait, and only for one that is running.
pub proof fn law_only_the_older_waits(
    txn: &Transaction,
    tm: &TransactionManager,
    r: RecordView,
    e: IndexError,
    blocker: u64,
)
    requires
        insert_conflict(txn, tm, r) == Some(e) || write_conflict(txn, tm, r.xmax) == Some(e),
        by_age(txn.txn_id, e) == IndexError::WaitFor(blocker),
    ensures
        txn.txn_id < blocker,
        tm.in_flight(blocker),
{
}

/// Decides what a conflict means for a transaction.
pub fn decide_by_age(txn_id: u64, e: IndexError) -> (r: IndexError)
    ensures
        r == by_age(txn_id, e),
{
    match e {
        IndexError::WaitFor(b) => if txn_id > b {
            IndexError::WriteConflict
        } else {
            IndexError::WaitFor(b)
        },
        e => e,
    }
}

/// Checks whether a version may be changed: nobody deleted it, the transaction
/// itself did, or the deleter aborted. A running deleter is to be waited for; a
/// committed one was first and wins.
pub fn check_write_conflict(rec_xmax: u64, txn: &Transaction, tm: &TransactionManager) -> (r: Result<
    (),
    IndexError,
>)
    requires
        tm.wf(),
    ensures
        r is Ok <==> write_conflict(txn, tm, rec_xmax) is None,
        r matches Err(e) ==> write_conflict(txn, tm, rec_xmax) == Some(e),
{
    if rec_xmax == 0 {
        return Ok(());
    }
    if rec_xmax == txn.txn_id {
        return Ok(());
    }
    if txn.is_in_progress(tm, rec_xmax) {
        return Err(IndexError::WaitFor(rec_xmax));
    }
    if tm.is_aborted(rec_xmax) {
        return Ok(());
    }
    Err(IndexError::WriteConflict)
}

/// Checks whether one version of a key stands in the way of inserting the key.
pub fn check_version_conflict(
    xmin: u64,
    xmax: u64,
    txn: &Transaction,
    tm: &TransactionManager,
) -> (r: Result<(), IndexError>)
    requires
        tm.wf(),
    ensures
        forall|v: RecordView|
            v.xmin == xmin && v.xmax == xmax ==> {
                &&& r is Ok <==> #[trigger] insert_conflict(txn, tm, v) is None
                &&& r matches Err(e) ==> insert_conflict(txn, tm, v) == Some(e)
            },
{
    if xmin != txn.txn_id && txn.is_in_progress(tm, xmin) {
        return Err(IndexError::WaitFor(xmin));
    }
    if txn.is_visible(tm, xmin, xmax) {
        return Err(IndexError::DuplicateKey);
    }
    if xmax != 0 && xmax != txn.txn_id && txn.is_in_progress(tm, xmax) {
        return Err(IndexError::WaitFor(xmax));
    }
    if !tm.is_aborted(xmin) && (xmax == 0 || tm.is_aborted(xmax)) {
        return Err(IndexError::DuplicateKey);
    }
    Ok(())
}

/// What a transaction that hits `WaitFor(blocking_txn)` does: the younger of
/// the two gives up, which rules out circular waits; the older one sleeps until
/// the blocker settles and tries again.
pub fn wait_for_txn(tm: &mut TransactionManager, blocking_txn: u64, my_txn_id: u64) -> (r: Result<
    bool,
    IndexError,
>)
    requires
        old(tm).wf(),
    ensures
        final(tm).wf(),
        r is Err <==> my_txn_id > blocking_txn,
        r matches Err(e) ==> e == IndexError::WriteConflict && *final(tm) == *old(tm),
        r matches Ok(sleep) ==> sleep == old(tm).in_flight(blocking_txn) && final(tm).waiters@ == (
        if sleep {
            old(tm).waiters@.insert(blocking_txn, ())
        } else {
            old(tm).waiters@
        }) && *final(tm) == (TransactionManager { waiters: final(tm).waiters, ..*old(tm) }),
{
    if my_txn_id > blocking_txn {
        return Err(IndexError::WriteConflict);
    }
    Ok(tm.wait_until_settled(blocking_txn))
}

/// Whether nobody can see a version any more.
pub fn is_dead(r: &Record, horizon: u64, tm: &TransactionManager) -> (b: bool)
    requires
        tm.wf(),
    ensures
        b == dead(Settled { aborts: tm.aborts(), horizon }, r@),
{
    tm.is_aborted(r.xmin) || (r.xmax != 0 && r.xmax < horizon && !tm.is_aborted(r.xmax))
}

// ── Survivors ────────────────────────────────────────────────────────────────
pub proof fn lemma_survivors_add(e: Settled, a: Seq<RecordView>, b: Seq<RecordView>)
    ensures
        survivors(e, a + b) == survivors(e, a) + survivors(e, b),
    decreases b.len(),
{
    if b.len() == 0 {
        assert(a + b =~= a);
        assert(survivors(e, a) + survivors(e, b) =~= survivors(e, a));
    } else {
        assert((a + b).drop_last() =~= a + b.drop_last());
        lemma_survivors_add(e, a, b.drop_last());
        assert(survivors(e, a + b) =~= survivors(e, a) + survivors(e, b));
    }
}

pub proof fn lemma_survivors_one(e: Settled, r: RecordView)
    requires
        !dead(e, r),
    ensures
        survivors(e, seq![r]) == seq![cleared(e, r)],
{
    assert(seq![r].drop_last() =~= Seq::<RecordView>::empty());
    assert(survivors(e, Seq::<RecordView>::empty()) =~= Seq::<RecordView>::empty());
    assert(survivors(e, seq![r]) =~= seq![cleared(e, r)]);
}

/// Sweeping twice is sweeping once.
pub proof fn lemma_survivors_idempotent(e: Settled, s: Seq<RecordView>)
    ensures
        survivors(e, survivors(e, s)) == survivors(e, s),
    decreases s.len(),
{
    if s.len() > 0 {
        let rest = survivors(e, s.drop_last());
        lemma_survivors_idempotent(e, s.drop_last());
        let r = s.last();
        if !dead(e, r) {
            let c = cleared(e, r);
            assert(!dead(e, c));
            assert(cleared(e, c) == c);
            assert(rest.push(c) =~= rest + seq![c]);
            lemma_survivors_add(e, rest, seq![c]);
            lemma_survivors_one(e, c);
        }
    }
}

/// A sweep that finds nothing to do leaves the versions as they are.
pub proof fn lemma_survivors_noop(e: Settled, s: Seq<RecordView>)
    requires
        forall|i: int| 0 <= i < s.len() ==> !dead(e, #[trigger] s[i]) && cleared(e, s[i]) == s[i],
    ensures
        survivors(e, s) == s,
    decreases s.len(),
{
    if s.len() > 0 {
        let t = s.drop_last();
        assert forall|i: int| 0 <= i < t.len() implies !dead(e, #[trigger] t[i]) && cleared(e, t[i])
            == t[i] by {
            assert(t[i] == s[i]);
        }
        lemma_survivors_noop(e, t);
        assert(s.last() == s[s.len() - 1]);
        assert(survivors(e, s) =~= s);
    } else {
        assert(survivors(e, s) =~= s);
    }
}

/// Every survivor is a version that is not dead, cleared; and the other way round.
pub proof fn lemma_survivors_member(e: Settled, s: Seq<RecordView>, r: RecordView)
    ensures
        survivors(e, s).contains(r) <==> exists|i: int|
            0 <= i < s.len() && !dead(e, #[trigger] s[i]) && r == cleared(e, s[i]),
    decreases s.len(),
{
    let t = survivors(e, s);
    if s.len() > 0 {
        let s1 = s.drop_last();
        let t1 = survivors(e, s1);
        lemma_survivors_member(e, s1, r);
        if t.contains(r) {
            let k = choose|k: int| 0 <= k < t.len() && t[k] == r;
            if k < t1.len() {
                assert(t1[k] == r);
                let i = choose|i: int|
                    0 <= i < s1.len() && !dead(e, #[trigger] s1[i]) && r == cleared(e, s1[i]);
                assert(s[i] == s1[i]);
            } else {
                assert(s[s.len() - 1] == s.last());
            }
        }
        if exists|i: int| 0 <= i < s.len() && !dead(e, #[trigger] s[i]) && r == cleared(e, s[i]) {
            let i = choose|i: int|
                0 <= i < s.len() && !dead(e, #[trigger] s[i]) && r == cleared(e, s[i]);
            if i < s1.len() {
                assert(s1[i] == s[i]);
                let k = choose|k: int| 0 <= k < t1.len() && t1[k] == r;
                assert(t[k] == r);
            } else {
                assert(t[t.len() - 1] == r);
            }
        }
    }
}

/// Whether the horizon protects a transaction: what its snapshot lists as in
/// flight or not yet begun, and the transaction itself, is not below it. The
/// system, id 0, never aborts.
pub open spec fn protected(e: Settled, txn: &Transaction) -> bool {
    &&& txn.txn_id >= e.horizon
    &&& txn.txn_id != 0
    &&& !e.aborts.contains_key(txn.txn_id)
    &&& !e.aborts.contains_key(0)
    &&& txn.snapshot.xmax >= e.horizon
    &&& forall|id: u64| #[trigger] txn.snapshot.active@.contains(id) ==> id >= e.horizon
}

/// Whether an abort that the snapshot knows of as the deleter's of a version is
/// still on record.
pub open spec fn remembered(e: Settled, txn: &Transaction, r: RecordView) -> bool {
    txn.snapshot.aborted@.contains(r.xmax) ==> e.aborts.contains_key(r.xmax)
}

/// Nobody whom the horizon protects sees a dead version, and clearing the stamp
/// of an aborted deleter changes nothing for them.
pub proof fn law_dead_versions_are_invisible(e: Settled, txn: &Transaction, r: RecordView)
    requires
        protected(e, txn),
        remembered(e, txn, r),
    ensures
        dead(e, r) ==> !txn.sees(e.aborts, r.xmin, r.xmax),
        txn.sees(e.aborts, r.xmin, r.xmax) == txn.sees(
            e.aborts,
            cleared(e, r).xmin,
            cleared(e, r).xmax,
        ),
{
}

/// A running transaction is protected: the horizon does not pass what its
/// snapshot lists as in flight.
pub proof fn law_running_transactions_are_protected(tm: TransactionManager, txn: &Transaction)
    requires
        tm.wf(),
        tm.in_flight(txn.txn_id),
        !tm.aborts().contains_key(txn.txn_id),
        !tm.aborts().contains_key(0),
        txn.snapshot.xmax > txn.txn_id,
        forall|id: u64| #[trigger]
            txn.snapshot.active@.contains(id) ==> tm.active_state.active@[txn.txn_id].0 <= id,
    ensures
        protected(tm.settled(), txn),
{
    law_horizon_is_least(tm);
    assert(tm.in_flight(txn.txn_id));
    assert(tm.horizon() <= tm.active_state.active@[txn.txn_id].0);
}

} // verus!
