//! Transactions in progress, and operations that are transactions of their own.

use vstd::prelude::*;

use crate::engine::{
    abort_result, commit_result, delete_result, insert_result, marked_written, read_result,
    update_result, Engine,
};
use crate::error::EngineError;
use crate::key::Key;
use crate::transaction::Transaction;
use crate::transaction_manager::{TransactionManager, TransactionStatus};

verus! {

/// A transaction in progress. A conflict poisons it: nothing more can be done with
/// it but giving it up.
pub struct TxnHandle {
    /// Nothing once the transaction has been committed or given up.
    pub txn: Option<Transaction>,
    pub poisoned: bool,
}

/// What beginning a transaction does to the manager.
pub open spec fn begun(
    before: TransactionManager,
    after: TransactionManager,
    t: Transaction,
    now: u64,
) -> bool {
    &&& after.wf()
    &&& t.txn_id == before.next_txn_id
    &&& !t.wrote_anything
    &&& t.snapshot.reflects(after.txn_state)
    &&& t.snapshot.active@.contains(t.txn_id)
    &&& after.next_txn_id == before.next_txn_id + 1
    &&& t.snapshot.xmin == before.txn_state.xmin
    &&& after.active_state.active@ == before.active_state.active@.insert(
        t.txn_id,
        (t.snapshot.xmin, now),
    )
    &&& forall|id: u64| #[trigger] t.snapshot.active@.contains(id) ==> t.snapshot.xmin <= id
    &&& after.horizon() == before.horizon()
    &&& after.aborts() == before.aborts()
    &&& after.clog@ == before.clog@.insert(t.txn_id, TransactionStatus::Active)
    &&& after.vacuum_horizon == before.vacuum_horizon
    &&& after.dead_versions == before.dead_versions
    &&& after.waiters == before.waiters
    &&& after.same_readers(&before)
}

/// Whether an operation was refused because the transaction has been poisoned.
pub open spec fn refused<K: Key>(
    before: Engine<K>,
    after: Engine<K>,
    h0: TxnHandle,
    h: TxnHandle,
    r: Result<(), EngineError>,
) -> bool {
    &&& r == Err::<(), EngineError>(EngineError::TransactionConflict)
    &&& after == before
    &&& h == h0
}

/// Whether a handle still stands for its transaction after an operation; a
/// conflict has poisoned it.
pub open spec fn carried_on(h0: TxnHandle, h: TxnHandle, r: Result<(), EngineError>) -> bool {
    &&& h.txn is Some
    &&& marked_written(h0.txn->0, h.txn->0, r is Ok)
    &&& h.poisoned == (r == Err::<(), EngineError>(EngineError::TransactionConflict))
}

impl TxnHandle {
    /// Commits the transaction. A poisoned one is given up instead.
    pub fn commit<K: Key>(self, engine: &mut Engine<K>) -> (r: Result<(), EngineError>)
        requires
            old(engine).wf(),
        ensures
            final(engine).wf(),
            match self.txn {
                None => *final(engine) == *old(engine) && (r == if self.poisoned {
                    Err::<(), EngineError>(EngineError::TransactionConflict)
                } else {
                    Ok::<(), EngineError>(())
                }),
                Some(t) => if self.poisoned {
                    &&& r == Err::<(), EngineError>(EngineError::TransactionConflict)
                    &&& abort_result::<K>(*old(engine), *final(engine), t)
                } else {
                    commit_result::<K>(*old(engine), *final(engine), t, r)
                },
            },
    {
        match self.txn {
            None => {
                if self.poisoned {
                    return Err(EngineError::TransactionConflict);
                }
                Ok(())
            },
            Some(txn) => {
                if self.poisoned {
                    let _ = engine.abort(txn);
                    return Err(EngineError::TransactionConflict);
                }
                engine.commit(txn)
            },
        }
    }

    /// Inserts a key.
    pub fn insert<K: Key>(&mut self, engine: &mut Engine<K>, key: &[u8], value: &[u8]) -> (r:
        Result<(), EngineError>)
        requires
            old(engine).wf(),
            old(self).txn is Some,
        ensures
            final(engine).wf(),
            if old(self).poisoned {
                refused(*old(engine), *final(engine), *old(self), *final(self), r)
            } else {
                &&& carried_on(*old(self), *final(self), r)
                &&& insert_result::<K>(
                    *old(engine),
                    *final(engine),
                    old(self).txn->0,
                    key@,
                    value@,
                    r,
                )
            },
    {
        if self.poisoned {
            return Err(EngineError::TransactionConflict);
        }
        match self.txn.take() {
            Some(t) => {
                let mut t = t;
                let res = engine.insert_in(&mut t, key, value);
                self.txn = Some(t);
                if let Err(EngineError::TransactionConflict) = res {
                    self.poisoned = true;
                }
                res
            },
            None => vstd::pervasive::unreached(),
        }
    }

    /// Deletes a key.
    pub fn delete<K: Key>(&mut self, engine: &mut Engine<K>, key: &[u8]) -> (r: Result<
        (),
        EngineError,
    >)
        requires
            old(engine).wf(),
            old(self).txn is Some,
        ensures
            final(engine).wf(),
            if old(self).poisoned {
                refused(*old(engine), *final(engine), *old(self), *final(self), r)
            } else {
                &&& carried_on(*old(self), *final(self), r)
                &&& delete_result::<K>(*old(engine), *final(engine), old(self).txn->0, key@, r)
            },
    {
        if self.poisoned {
            return Err(EngineError::TransactionConflict);
        }
        match self.txn.take() {
            Some(t) => {
                let mut t = t;
                let res = engine.delete_in(&mut t, key);
                self.txn = Some(t);
                if let Err(EngineError::TransactionConflict) = res {
                    self.poisoned = true;
                }
                res
            },
            None => vstd::pervasive::unreached(),
        }
    }

    /// Gives a key another value.
    pub fn update<K: Key>(&mut self, engine: &mut Engine<K>, key: &[u8], value: &[u8]) -> (r:
        Result<(), EngineError>)
        requires
            old(engine).wf(),
            old(self).txn is Some,
        ensures
            final(engine).wf(),
            if old(self).poisoned {
                refused(*old(engine), *final(engine), *old(self), *final(self), r)
            } else {
                &&& carried_on(*old(self), *final(self), r)
                &&& update_result::<K>(
                    *old(engine),
                    *final(engine),
                    old(self).txn->0,
                    key@,
                    value@,
                    r,
                )
            },
    {
        if self.poisoned {
            return Err(EngineError::TransactionConflict);
        }
        match self.txn.take() {
            Some(t) => {
                let mut t = t;
                let res = engine.update_in(&mut t, key, value);
                self.txn = Some(t);
                if let Err(EngineError::TransactionConflict) = res {
                    self.poisoned = true;
                }
                res
            },
            None => vstd::pervasive::unreached(),
        }
    }

    /// Reads a key.
    pub fn get<K: Key>(&mut self, engine: &mut Engine<K>, key: &[u8]) -> (r: Result<
        Option<Vec<u8>>,
        EngineError,
    >)
        requires
            old(engine).wf(),
            old(self).txn is Some,
        ensures
            final(engine).wf(),
            *final(self) == *old(self),
            if old(self).poisoned {
                &&& r == Err::<Option<Vec<u8>>, EngineError>(EngineError::TransactionConflict)
                &&& *final(engine) == *old(engine)
            } else {
                &&& r is Ok
                &&& read_result::<K>(*old(engine), old(self).txn->0, key@, r->Ok_0)
                &&& final(engine).tm == old(engine).tm
                &&& final(engine).index.same(&old(engine).index)
            },
    {
        if self.poisoned {
            return Err(EngineError::TransactionConflict);
        }
        match &self.txn {
            Some(t) => engine.get_in(t, key),
            None => vstd::pervasive::unreached(),
        }
    }

    /// Gives the transaction up.
    pub fn abort<K: Key>(self, engine: &mut Engine<K>)
        requires
            old(engine).wf(),
        ensures
            final(engine).wf(),
            match self.txn {
                None => *final(engine) == *old(engine),
                Some(t) => abort_result::<K>(*old(engine), *final(engine), t),
            },
    {
        if let Some(txn) = self.txn {
            let _ = engine.abort(txn);
        }
    }
}

/// How an operation that is a transaction of its own ends: the transaction is
/// committed if the operation succeeded, and given up otherwise.
pub open spec fn ended<K: Key>(
    before: Engine<K>,
    after: Engine<K>,
    t: Transaction,
    done: Result<(), EngineError>,
    r: Result<(), EngineError>,
) -> bool {
    match done {
        Ok(()) => commit_result::<K>(before, after, t, r),
        Err(e) => abort_result::<K>(before, after, t) && r == done,
    }
}

impl<K: Key> Engine<K> {
    /// Begins a transaction at time `now`.
    pub fn begin(&mut self, now: u64) -> (h: TxnHandle)
        requires
            old(self).wf(),
            old(self).tm.next_txn_id < u64::MAX,
        ensures
            final(self).wf(),
            final(self).index == old(self).index,
            !h.poisoned,
            h.txn matches Some(t) && begun(old(self).tm, final(self).tm, t, now),
    {
        let t = self.tm.begin(now);
        TxnHandle { txn: Some(t), poisoned: false }
    }

    fn end(&mut self, txn: Transaction, done: Result<(), EngineError>) -> (r: Result<
        (),
        EngineError,
    >)
        requires
            old(self).wf(),
        ensures
            final(self).wf(),
            ended::<K>(*old(self), *final(self), txn, done, r),
    {
        match done {
            Ok(()) => self.commit(txn),
            Err(e) => {
                let _ = self.abort(txn);
                Err(e)
            },
        }
    }

    /// Inserts a key in a transaction of its own.
    pub fn insert(&mut self, key: &[u8], value: &[u8], now: u64) -> (r: Result<(), EngineError>)
        requires
            old(self).wf(),
            old(self).tm.next_txn_id < u64::MAX,
        ensures
            final(self).wf(),
            exists|e1: Engine<K>, t1: Transaction, e2: Engine<K>, t2: Transaction, done: Result<
                (),
                EngineError,
            >|
                e1.index == old(self).index && #[trigger] begun(old(self).tm, e1.tm, t1, now)
                    && insert_result::<K>(e1, e2, t1, key@, value@, done) && marked_written(
                    t1,
                    t2,
                    done is Ok,
                ) && #[trigger] ended::<K>(e2, *final(self), t2, done, r),
    {
        let t = self.tm.begin(now);
        let ghost e1 = *self;
        let ghost t1 = t;
        let mut t = t;
        let done = self.insert_in(&mut t, key, value);
        let ghost e2 = *self;
        let ghost t2 = t;
        let r = self.end(t, done);
        proof {
            assert(begun(old(self).tm, e1.tm, t1, now));
            assert(ended::<K>(e2, *self, t2, done, r));
        }
        r
    }

    /// Gives a key another value in a transaction of its own.
    pub fn update(&mut self, key: &[u8], value: &[u8], now: u64) -> (r: Result<(), EngineError>)
        requires
            old(self).wf(),
            old(self).tm.next_txn_id < u64::MAX,
        ensures
            final(self).wf(),
            exists|e1: Engine<K>, t1: Transaction, e2: Engine<K>, t2: Transaction, done: Result<
                (),
                EngineError,
            >|
                e1.index == old(self).index && #[trigger] begun(old(self).tm, e1.tm, t1, now)
                    && update_result::<K>(e1, e2, t1, key@, value@, done) && marked_written(
                    t1,
                    t2,
                    done is Ok,
                ) && #[trigger] ended::<K>(e2, *final(self), t2, done, r),
    {
        let t = self.tm.begin(now);
        let ghost e1 = *self;
        let ghost t1 = t;
        let mut t = t;
        let done = self.update_in(&mut t, key, value);
        let ghost e2 = *self;
        let ghost t2 = t;
        let r = self.end(t, done);
        proof {
            assert(begun(old(self).tm, e1.tm, t1, now));
            assert(ended::<K>(e2, *self, t2, done, r));
        }
        r
    }

    /// Deletes a key in a transaction of its own.
    pub fn delete(&mut self, key: &[u8], now: u64) -> (r: Result<(), EngineError>)
        requires
            old(self).wf(),
            old(self).tm.next_txn_id < u64::MAX,
        ensures
            final(self).wf(),
            exists|e1: Engine<K>, t1: Transaction, e2: Engine<K>, t2: Transaction, done: Result<
                (),
                EngineError,
            >|
                e1.index == old(self).index && #[trigger] begun(old(self).tm, e1.tm, t1, now)
                    && delete_result::<K>(e1, e2, t1, key@, done) && marked_written(
                    t1,
                    t2,
                    done is Ok,
                ) && #[trigger] ended::<K>(e2, *final(self), t2, done, r),
    {
        let t = self.tm.begin(now);
        let ghost e1 = *self;
        let ghost t1 = t;
        let mut t = t;
        let done = self.delete_in(&mut t, key);
        let ghost e2 = *self;
        let ghost t2 = t;
        let r = self.end(t, done);
        proof {
            assert(begun(old(self).tm, e1.tm, t1, now));
            assert(ended::<K>(e2, *self, t2, done, r));
        }
        r
    }
}

} // verus!
