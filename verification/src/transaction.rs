//! Transactions and the snapshots they read through.

use vstd::prelude::*;

use crate::transaction_manager::{TransactionManager, TxnState};

verus! {

/// A point-in-time view: which transactions count as committed.
#[derive(Debug)]
pub struct Snapshot {
    /// Oldest snapshot `xmin` that was in flight.
    pub xmin: u64,
    /// First transaction id that had not been given out.
    pub xmax: u64,
    /// Transactions that were in flight, in increasing order.
    pub active: Vec<u64>,
    /// Transactions known to have aborted, in increasing order.
    pub aborted: Vec<u64>,
}

/// A running transaction.
#[derive(Debug)]
pub struct Transaction {
    pub txn_id: u64,
    pub snapshot: Snapshot,
    /// Whether the transaction wrote anything that has to be logged as committed.
    pub wrote_anything: bool,
}

/// Whether an id is in a list.
pub fn contains_id(v: &Vec<u64>, id: u64) -> (b: bool)
    ensures
        b == v@.contains(id),
{
    let mut i: usize = 0;
    while i < v.len()
        invariant
            i <= v.len(),
            forall|j: int| 0 <= j < i ==> v@[j] != id,
        decreases v.len() - i,
    {
        if v[i] == id {
            assert(v@[i as int] == id);
            return true;
        }
        i = i + 1;
    }
    false
}

/// A copy of a list of ids.
pub fn copy_ids(v: &Vec<u64>) -> (w: Vec<u64>)
    ensures
        w@ == v@,
{
    let mut w: Vec<u64> = Vec::new();
    let mut i: usize = 0;
    while i < v.len()
        invariant
            i <= v.len(),
            w@ == v@.subrange(0, i as int),
        decreases v.len() - i,
    {
        w.push(v[i]);
        assert(v@.subrange(0, i + 1) =~= v@.subrange(0, i as int).push(v@[i as int]));
        i = i + 1;
    }
    assert(v@.subrange(0, v@.len() as int) =~= v@);
    w
}

impl Snapshot {
    /// Whether the snapshot holds the writes of `id`, when `aborts` are the
    /// transactions now known to have aborted: `id` had settled when the
    /// snapshot was taken and did not abort. Id 0 stands for the system.
    pub open spec fn sees(&self, aborts: Map<u64, ()>, id: u64) -> bool {
        id == 0 || (id < self.xmax && !self.active@.contains(id) && !self.aborted@.contains(id)
            && !aborts.contains_key(id))
    }

    /// Whether the snapshot is the view that `state` describes.
    pub open spec fn reflects(&self, state: TxnState) -> bool {
        &&& self.xmin == state.xmin
        &&& self.xmax == state.xmax
        &&& self.active@ == state.active@
        &&& self.aborted@ == state.aborted@
    }

    /// The snapshot of a published state.
    pub fn from_state(state: &TxnState) -> (s: Snapshot)
        ensures
            s.reflects(*state),
    {
        Snapshot {
            xmin: state.xmin,
            xmax: state.xmax,
            active: copy_ids(&state.active),
            aborted: copy_ids(&state.aborted),
        }
    }

    /// Whether `id` counts as committed in this snapshot.
    pub fn is_committed(&self, id: u64, tm: &TransactionManager) -> (b: bool)
        requires
            tm.wf(),
        ensures
            b == self.sees(tm.aborts(), id),
    {
        id == 0 || (id < self.xmax && !contains_id(&self.active, id) && !contains_id(
            &self.aborted,
            id,
        ) && !tm.is_aborted(id))
    }
}

impl Transaction {
    /// Whether a version stamped `xmin`, `xmax` exists for this transaction: its
    /// creator is the transaction itself or committed, and its deleter, if any,
    /// is neither.
    pub open spec fn sees(&self, aborts: Map<u64, ()>, xmin: u64, xmax: u64) -> bool {
        &&& xmin == self.txn_id || self.snapshot.sees(aborts, xmin)
        &&& xmax == 0 || (xmax != self.txn_id && !self.snapshot.sees(aborts, xmax))
    }

    /// Whether a version stamped `xmin`, `xmax` is visible.
    pub fn is_visible(&self, tm: &TransactionManager, xmin: u64, xmax: u64) -> (b: bool)
        requires
            tm.wf(),
        ensures
            b == self.sees(tm.aborts(), xmin, xmax),
    {
        if xmin != self.txn_id && !self.snapshot.is_committed(xmin, tm) {
            return false;
        }
        xmax == 0 || (xmax != self.txn_id && !self.snapshot.is_committed(xmax, tm))
    }

    /// Whether `id` is still running.
    pub fn is_in_progress(&self, tm: &TransactionManager, id: u64) -> (b: bool)
        requires
            tm.wf(),
        ensures
            b == tm.in_flight(id),
    {
        tm.is_active(id)
    }
}

/// A transaction that was in flight when a snapshot was taken stays invisible
/// to it, whatever becomes of the transaction later.
pub proof fn law_snapshot_is_stable(s: Snapshot, aborts: Map<u64, ()>, id: u64)
    requires
        id != 0,
        s.active@.contains(id) || id >= s.xmax,
    ensures
        !s.sees(aborts, id),
{
}

} // verus!
