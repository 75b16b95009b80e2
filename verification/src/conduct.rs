//! What the operations do, told by the versions on record and by which transactions are
//! running or have aborted.

use vstd::prelude::*;

use crate::batch::{batch_span, batch_swept, on_leaves, stale, stale_leaves, Batch};
use crate::checkpoint::{checkpoint_at, law_checkpoint_roundtrip};
use crate::disk::IoView;
use crate::engine::{
    abort_result, batch_result, checkpoint_of, checkpoint_result, commit_result, delete_result,
    insert_result, nothing_visible, outcome, read_result, update_result, vacuum_result, Engine,
};
use crate::error::{EngineError, IndexError};
use crate::index::BTreeIndex;
use crate::index_edit::{first_opposed, lemma_first_opposed, opposed, unopposed};
use crate::index_write::{entered, kin, stored_as, superseded};
use crate::key::{key_eq, Key};
use crate::mvcc::{
    cleared, dead, lemma_survivors_member, lemma_survivors_noop, survivors, visible, with_xmax,
    Settled,
};
use crate::node::{RecordView, REC_TYPE_INLINE, REC_TYPE_OVERFLOW};
use crate::pacing::lemma_outside;
use crate::scan::{range_pairs, KeyBound};
use crate::session::{coherent, law_one_version, law_ranges_hold_what_reads_give, orderly, runs};
use crate::transaction::Transaction;
use crate::transaction_manager::{law_snapshot_xmin, lemma_published};
use crate::tree_spec::{bound_le, Tree};
use crate::txn::{begun, carried_on, ended, refused, TxnHandle};
use crate::wal::WalRecordType;

verus! {

/// Whether the page and sequence numbers that are left suffice for an insertion or an
/// update, even if every split that is incomplete has to be completed on the way.
pub open spec fn ample<K: Key>(index: BTreeIndex<K>) -> bool {
    index.store.budget() >= (index.incomplete + 200) * (3 * (index.height + index.incomplete) + 900)
}

// ── Insertions ───────────────────────────────────────────────────────────────
/// A key can be inserted if the transaction reads nothing under it and every version of it
/// is over: its creator aborted, or its deleter settled without aborting or is the
/// transaction itself; no other transaction that is running made or deleted one.
pub proof fn law_insertions_succeed<K: Key>(
    before: Engine<K>,
    after: Engine<K>,
    txn: Transaction,
    key: Seq<u8>,
    value: Seq<u8>,
    r: Result<(), EngineError>,
    got: Option<Vec<u8>>,
)
    requires
        before.wf(),
        insert_result::<K>(before, after, txn, key, value, r),
        ample(before.index),
        key.len() <= 512,
        value.len() <= 2048,
        read_result::<K>(before, txn, key, got),
        got is None,
        forall|k: int|
            0 <= k < before.index.records().len() && key_eq::<K>(
                (#[trigger] before.index.records()[k]).key,
                key,
            ) ==> {
                let v = before.index.records()[k];
                &&& v.xmin == txn.txn_id || !before.tm.in_flight(v.xmin)
                &&& v.xmax == 0 || v.xmax == txn.txn_id || !before.tm.in_flight(v.xmax)
                &&& before.tm.aborts().contains_key(v.xmin) || (v.xmax != 0
                    && !before.tm.aborts().contains_key(v.xmax))
            },
    ensures
        r is Ok,
{
    if r is Err {
        let e = r->Err_0;
        let (i, s, x) = choose|i: int, s: int, x: IndexError| #[trigger]
            first_opposed::<K>(before.index.tree(), &txn, &before.tm, key, i, s, x) && e == outcome(
                x,
                txn.txn_id,
            );
        let k = lemma_first_opposed::<K>(before.index.tree(), &txn, &before.tm, key, i, s, x);
        let v = before.index.records()[k];
        assert(key_eq::<K>(v.key, key));
        assert(!visible::<K>(&txn, before.tm.aborts(), key, v));
    }
}

/// A transaction that has just begun can insert a key every version of which is over: its
/// creator aborted, or its deleter settled without aborting.
pub proof fn law_newcomers_can_insert_what_is_gone<K: Key>(
    earlier: Engine<K>,
    before: Engine<K>,
    after: Engine<K>,
    txn: Transaction,
    now: u64,
    key: Seq<u8>,
    value: Seq<u8>,
    r: Result<(), EngineError>,
)
    requires
        earlier.wf(),
        coherent(earlier),
        begun(earlier.tm, before.tm, txn, now),
        before.index == earlier.index,
        insert_result::<K>(before, after, txn, key, value, r),
        ample(before.index),
        key.len() <= 512,
        value.len() <= 2048,
        forall|k: int|
            0 <= k < before.index.records().len() && key_eq::<K>(
                (#[trigger] before.index.records()[k]).key,
                key,
            ) ==> {
                let v = before.index.records()[k];
                ||| earlier.tm.aborts().contains_key(v.xmin) && (v.xmax == 0
                    || !earlier.tm.in_flight(v.xmax))
                ||| !earlier.tm.in_flight(v.xmin) && v.xmax != 0 && !earlier.tm.in_flight(v.xmax)
                    && !earlier.tm.aborts().contains_key(v.xmax)
            },
    ensures
        r is Ok,
{
    assert forall|k: int|
        0 <= k < before.index.records().len() && key_eq::<K>(
            (#[trigger] before.index.records()[k]).key,
            key,
        ) implies !visible::<K>(&txn, before.tm.aborts(), key, before.index.records()[k]) && ({
        let v = before.index.records()[k];
        &&& !before.tm.in_flight(v.xmin)
        &&& v.xmax == 0 || !before.tm.in_flight(v.xmax)
    }) by {
        let v = before.index.records()[k];
        K::le_laws();
        assert(v.xmin < earlier.tm.next_txn_id && v.xmax < earlier.tm.next_txn_id);
        assert(before.tm.in_flight(v.xmin) == earlier.tm.in_flight(v.xmin));
        assert(before.tm.in_flight(v.xmax) == earlier.tm.in_flight(v.xmax));
        law_newcomers_see_what_is_committed::<K>(earlier, before, txn, now, k);
        if earlier.tm.aborts().contains_key(v.xmin) {
            assert(!earlier.tm.in_flight(v.xmin));
        }
    }
    if r is Err {
        let e = r->Err_0;
        let (i, s, x) = choose|i: int, s: int, x: IndexError| #[trigger]
            first_opposed::<K>(before.index.tree(), &txn, &before.tm, key, i, s, x) && e == outcome(
                x,
                txn.txn_id,
            );
        let k = lemma_first_opposed::<K>(before.index.tree(), &txn, &before.tm, key, i, s, x);
        let v = before.index.records()[k];
        assert(key_eq::<K>(v.key, key));
    }
}

/// Why an insertion with legal sizes fails. A key is a duplicate only if some version of it
/// was made by a transaction that did not abort, and is read by the transaction or has no
/// deleter that settled without aborting. A conflict or a wait is reported only if another
/// transaction that is running has made or deleted a version of the key: the younger of the
/// two gives up, the older one waits. Nothing else goes wrong.
pub proof fn law_insertions_fail_for_a_reason<K: Key>(
    before: Engine<K>,
    after: Engine<K>,
    txn: Transaction,
    key: Seq<u8>,
    value: Seq<u8>,
    e: EngineError,
) -> (k: int)
    requires
        runs(before, txn),
        before.wf(),
        insert_result::<K>(before, after, txn, key, value, Err(e)),
        ample(before.index),
        key.len() <= 512,
        value.len() <= 2048,
    ensures
        0 <= k < before.index.records().len(),
        key_eq::<K>(before.index.records()[k].key, key),
        ({
            let v = before.index.records()[k];
            ||| e == EngineError::Index(IndexError::DuplicateKey)
                && !before.tm.aborts().contains_key(v.xmin) && (v.xmin == txn.txn_id
                || !before.tm.in_flight(v.xmin)) && (v.xmax == 0 || before.tm.aborts().contains_key(
                v.xmax,
            ) || visible::<K>(&txn, before.tm.aborts(), key, v))
            ||| e == EngineError::WaitFor(v.xmin) && before.tm.in_flight(v.xmin) && txn.txn_id
                < v.xmin
            ||| e == EngineError::WaitFor(v.xmax) && before.tm.in_flight(v.xmax) && txn.txn_id
                < v.xmax
            ||| e == EngineError::TransactionConflict && before.tm.in_flight(v.xmin) && v.xmin
                < txn.txn_id
            ||| e == EngineError::TransactionConflict && v.xmax != 0 && before.tm.in_flight(v.xmax)
                && v.xmax < txn.txn_id
        }),
        after.index.records() == before.index.records(),
{
    let (i, s, x) = choose|i: int, s: int, x: IndexError| #[trigger]
        first_opposed::<K>(before.index.tree(), &txn, &before.tm, key, i, s, x) && e == outcome(
            x,
            txn.txn_id,
        );
    let k = lemma_first_opposed::<K>(before.index.tree(), &txn, &before.tm, key, i, s, x);
    let v = before.index.records()[k];
    assert(opposed::<K>(&txn, &before.tm, key, v, x));
    assert(!before.tm.aborts().contains_key(txn.txn_id));
    if txn.sees(before.tm.aborts(), v.xmin, v.xmax) {
        assert(visible::<K>(&txn, before.tm.aborts(), key, v));
    }
    assert(!before.tm.aborts().contains_key(0));
    k
}

/// What stands in the way of an insertion: it fails if the transaction reads something under
/// the key, if a version of the key has no deleter but an aborted one and its creator did
/// not abort, or if another transaction that is running has made or deleted a version of the
/// key.
pub proof fn law_insertions_are_refused<K: Key>(
    before: Engine<K>,
    after: Engine<K>,
    txn: Transaction,
    key: Seq<u8>,
    value: Seq<u8>,
    r: Result<(), EngineError>,
    k: int,
)
    requires
        before.wf(),
        insert_result::<K>(before, after, txn, key, value, r),
        0 <= k < before.index.records().len(),
        key_eq::<K>(before.index.records()[k].key, key),
        ({
            let v = before.index.records()[k];
            ||| visible::<K>(&txn, before.tm.aborts(), key, v)
            ||| !before.tm.aborts().contains_key(v.xmin) && (v.xmax == 0
                || before.tm.aborts().contains_key(v.xmax))
            ||| v.xmin != txn.txn_id && before.tm.in_flight(v.xmin)
            ||| v.xmax != 0 && v.xmax != txn.txn_id && before.tm.in_flight(v.xmax)
        }),
    ensures
        r is Err,
        after.index.records() == before.index.records(),
{
    if r is Ok {
        assert(unopposed::<K>(&txn, &before.tm, key, before.index.records()[k]));
    }
}

/// Whether a version is in the way of inserting a key in a transaction: it is one of the
/// key, and another transaction that is running has made or deleted it, or the transaction
/// sees it, or it is the current one.
pub open spec fn in_the_way<K: Key>(
    e: Engine<K>,
    txn: Transaction,
    key: Seq<u8>,
    v: RecordView,
) -> bool {
    &&& key_eq::<K>(v.key, key)
    &&& {
        ||| v.xmin != txn.txn_id && e.tm.in_flight(v.xmin)
        ||| v.xmax != 0 && v.xmax != txn.txn_id && e.tm.in_flight(v.xmax)
        ||| visible::<K>(&txn, e.tm.aborts(), key, v)
        ||| !e.tm.aborts().contains_key(v.xmin) && (v.xmax == 0 || e.tm.aborts().contains_key(
            v.xmax,
        ))
    }
}

/// Which of several versions in the way decides how an insertion fails: the first one on
/// the last leaf that has one. Whoever is running and has made it comes first, then that it
/// is seen, then whoever is running and has deleted it.
pub proof fn law_the_first_on_the_last_leaf_decides<K: Key>(
    before: Engine<K>,
    after: Engine<K>,
    txn: Transaction,
    key: Seq<u8>,
    value: Seq<u8>,
    e: EngineError,
) -> (r: (int, int))
    requires
        before.wf(),
        insert_result::<K>(before, after, txn, key, value, Err(e)),
        ample(before.index),
        key.len() <= 512,
        value.len() <= 2048,
    ensures
        ({
            let t = before.index.tree();
            let v = t.leaf(r.0).entries[r.1];
            &&& 0 <= r.0 < t.levels[0].len()
            &&& 0 <= r.1 < t.leaf(r.0).entries.len()
            &&& in_the_way(before, txn, key, v)
            &&& forall|s: int|
                0 <= s < r.1 ==> !in_the_way(before, txn, key, #[trigger] t.leaf(r.0).entries[s])
            &&& forall|i: int, s: int|
                r.0 < i < t.levels[0].len() && 0 <= s < t.leaf(i).entries.len() ==> !in_the_way(
                    before,
                    txn,
                    key,
                    #[trigger] t.leaf(i).entries[s],
                )
            &&& e == if v.xmin != txn.txn_id && before.tm.in_flight(v.xmin) {
                if txn.txn_id > v.xmin {
                    EngineError::TransactionConflict
                } else {
                    EngineError::WaitFor(v.xmin)
                }
            } else if !visible::<K>(&txn, before.tm.aborts(), key, v) && v.xmax != 0 && v.xmax
                != txn.txn_id && before.tm.in_flight(v.xmax) {
                if txn.txn_id > v.xmax {
                    EngineError::TransactionConflict
                } else {
                    EngineError::WaitFor(v.xmax)
                }
            } else {
                EngineError::Index(IndexError::DuplicateKey)
            }
        }),
{
    let t = before.index.tree();
    let (i, s, x) = choose|i: int, s: int, x: IndexError| #[trigger]
        first_opposed::<K>(t, &txn, &before.tm, key, i, s, x) && e == outcome(x, txn.txn_id);
    assert forall|u: int| 0 <= u < s implies !in_the_way(
        before,
        txn,
        key,
        #[trigger] t.leaf(i).entries[u],
    ) by {
        assert(unopposed::<K>(&txn, &before.tm, key, t.leaf(i).entries[u]));
    }
    assert forall|j: int, u: int|
        i < j < t.levels[0].len() && 0 <= u < t.leaf(j).entries.len() implies !in_the_way(
        before,
        txn,
        key,
        #[trigger] t.leaf(j).entries[u],
    ) by {
        assert(unopposed::<K>(&txn, &before.tm, key, t.leaf(j).entries[u]));
    }
    (i, s)
}

/// Keys and values above their limits are refused, whatever is on record: a key of more
/// than 512 bytes, and a value of more than 2048 bytes under a key that is not too large.
/// At the limits they are not.
pub proof fn law_sizes_are_limited<K: Key>(
    before: Engine<K>,
    after: Engine<K>,
    txn: Transaction,
    key: Seq<u8>,
    value: Seq<u8>,
    r: Result<(), EngineError>,
)
    requires
        before.wf(),
        insert_result::<K>(before, after, txn, key, value, r) || update_result::<K>(
            before,
            after,
            txn,
            key,
            value,
            r,
        ),
        ample(before.index),
        key.len() <= usize::MAX,
        value.len() <= usize::MAX,
    ensures
        key.len() > 512 <==> (r matches Err(EngineError::Index(IndexError::KeyTooLarge { .. }))),
        key.len() > 512 ==> r == Err::<(), EngineError>(
            EngineError::Index(IndexError::KeyTooLarge { size: key.len() as usize, max: 512 }),
        ),
        key.len() <= 512 && value.len() > 2048 <==> (r matches Err(
            EngineError::Index(IndexError::ValueTooLarge { .. }),
        )),
        key.len() <= 512 && value.len() > 2048 ==> r == Err::<(), EngineError>(
            EngineError::Index(IndexError::ValueTooLarge { size: value.len() as usize, max: 2048 }),
        ),
{
}

// ── Updates and deletions ────────────────────────────────────────────────────
/// A key that a transaction reads can be updated and deleted in it if the version that it
/// sees has no deleter or only one that aborted.
pub proof fn law_changes_succeed<K: Key>(
    before: Engine<K>,
    after: Engine<K>,
    txn: Transaction,
    key: Seq<u8>,
    value: Seq<u8>,
    r: Result<(), EngineError>,
    got: Option<Vec<u8>>,
)
    requires
        runs(before, txn),
        before.wf(),
        ample(before.index),
        delete_result::<K>(before, after, txn, key, r) || (key.len() <= 512 && value.len() <= 2048
            && update_result::<K>(before, after, txn, key, value, r)),
        read_result::<K>(before, txn, key, got),
        got is Some,
        forall|k: int|
            0 <= k < before.index.records().len() && visible::<K>(
                &txn,
                before.tm.aborts(),
                key,
                #[trigger] before.index.records()[k],
            ) ==> {
                let v = before.index.records()[k];
                v.xmax == 0 || before.tm.aborts().contains_key(v.xmax)
            },
    ensures
        r is Ok,
        after.tm.dead_versions == before.tm.dead_versions + 1 || before.tm.dead_versions == u64::MAX,
{
    lemma_ample(before.index);
}

/// Why an update or a deletion in a running transaction fails, sizes apart. The key is not
/// found exactly if the transaction reads nothing under it. A conflict or a wait is reported
/// only if the version that it sees has been deleted by another transaction, which did not
/// abort: one that is running, where the younger of the two gives up and the older one
/// waits, or one that has settled, where the transaction gives up.
pub proof fn law_changes_fail_for_a_reason<K: Key>(
    before: Engine<K>,
    after: Engine<K>,
    txn: Transaction,
    key: Seq<u8>,
    value: Seq<u8>,
    e: EngineError,
) -> (k: int)
    requires
        runs(before, txn),
        before.wf(),
        ample(before.index),
        delete_result::<K>(before, after, txn, key, Err(e)) || (key.len() <= 512 && value.len()
            <= 2048 && update_result::<K>(before, after, txn, key, value, Err(e))),
    ensures
        after.index.records() == before.index.records(),
        nothing_visible(before, txn, key) <==> e == EngineError::Index(IndexError::KeyNotFound),
        !nothing_visible(before, txn, key) ==> {
            let v = before.index.records()[k];
            &&& 0 <= k < before.index.records().len()
            &&& visible::<K>(&txn, before.tm.aborts(), key, v)
            &&& v.xmax != 0 && v.xmax != txn.txn_id && !before.tm.aborts().contains_key(v.xmax)
            &&& if before.tm.in_flight(v.xmax) && txn.txn_id < v.xmax {
                e == EngineError::WaitFor(v.xmax)
            } else {
                e == EngineError::TransactionConflict
            }
        },
{
    lemma_ample(before.index);
    let recs = before.index.records();
    assert(forall|id: u64| before.tm.in_flight(id) ==> !before.tm.aborts().contains_key(id));
    if nothing_visible(before, txn, key) {
        0
    } else {
        let k = choose|k: int|
            0 <= k < recs.len() && visible::<K>(&txn, before.tm.aborts(), key, #[trigger] recs[k]);
        law_one_version::<K>(before, txn, key);
        k
    }
}

/// Whoever changes what a committed transaction has deleted since gives up: the first writer
/// wins.
pub proof fn law_first_writer_wins<K: Key>(
    before: Engine<K>,
    after: Engine<K>,
    txn: Transaction,
    key: Seq<u8>,
    value: Seq<u8>,
    r: Result<(), EngineError>,
    k: int,
)
    requires
        runs(before, txn),
        before.wf(),
        ample(before.index),
        delete_result::<K>(before, after, txn, key, r) || (key.len() <= 512 && value.len() <= 2048
            && update_result::<K>(before, after, txn, key, value, r)),
        0 <= k < before.index.records().len(),
        visible::<K>(&txn, before.tm.aborts(), key, before.index.records()[k]),
        before.index.records()[k].xmax != 0,
        !before.tm.in_flight(before.index.records()[k].xmax),
        !before.tm.aborts().contains_key(before.index.records()[k].xmax),
    ensures
        r == Err::<(), EngineError>(EngineError::TransactionConflict),
{
    lemma_ample(before.index);
    law_one_version::<K>(before, txn, key);
}

proof fn lemma_ample<K: Key>(index: BTreeIndex<K>)
    requires
        ample(index),
    ensures
        index.store.budget() > 0,
{
    let a = index.incomplete + 200;
    let b = 3 * (index.height + index.incomplete) + 900;
    assert(a * b > 0) by (nonlinear_arith)
        requires
            a > 0,
            b > 0,
    ;
}

// ── Visibility ───────────────────────────────────────────────────────────────
/// Whoever begins sees exactly the versions that have been committed and that no committed
/// transaction has deleted.
pub proof fn law_newcomers_see_what_is_committed<K: Key>(
    before: Engine<K>,
    after: Engine<K>,
    t: Transaction,
    now: u64,
    k: int,
)
    requires
        before.wf(),
        coherent(before),
        begun(before.tm, after.tm, t, now),
        after.index == before.index,
        0 <= k < before.index.records().len(),
    ensures
        ({
            let v = before.index.records()[k];
            visible::<K>(&t, after.tm.aborts(), v.key, v) <==> {
                &&& !before.tm.in_flight(v.xmin) && !before.tm.aborts().contains_key(v.xmin)
                &&& v.xmax == 0 || before.tm.in_flight(v.xmax) || before.tm.aborts().contains_key(
                    v.xmax,
                )
            }
        }),
{
    K::le_laws();
    let v = before.index.records()[k];
    law_snapshot_xmin(after.tm, t.snapshot, v.xmin);
    law_snapshot_xmin(after.tm, t.snapshot, v.xmax);
    assert(v.xmin < before.tm.next_txn_id && v.xmax < before.tm.next_txn_id);
    assert(!before.tm.aborts().contains_key(0));
    assert(!before.tm.in_flight(0));
}

// ── Sweeps ───────────────────────────────────────────────────────────────────
/// What a sweep leaves: no version whose creator is known to have aborted, no stamp of a
/// deleter that is known to have aborted, and no version with a deleter below the horizon,
/// whatever the key or the value. Every version of another kind is still there, without the
/// stamp of a deleter that aborted, and nothing is there that was not. The result counts
/// the versions that went.
pub proof fn law_sweeps_leave_nothing_dead<K: Key>(before: Engine<K>, after: Engine<K>, n: usize)
    requires
        before.wf(),
        orderly(before.tm),
        vacuum_result::<K>(before, after, Ok(n)),
    ensures
        forall|k: int|
            0 <= k < after.index.records().len() ==> {
                let v = #[trigger] after.index.records()[k];
                &&& !before.tm.aborts().contains_key(v.xmin)
                &&& !before.tm.aborts().contains_key(v.xmax)
                &&& v.xmax == 0 || v.xmax >= before.tm.horizon()
            },
        forall|k: int|
            0 <= k < after.index.records().len() ==> taken_over(
                before.tm.aborts(),
                before.index.records(),
                #[trigger] after.index.records()[k],
            ),
        forall|i: int|
            #![trigger before.index.records()[i]]
            0 <= i < before.index.records().len() && {
                let v = before.index.records()[i];
                &&& !before.tm.aborts().contains_key(v.xmin)
                &&& v.xmax == 0 || v.xmax >= before.tm.horizon() || before.tm.aborts().contains_key(
                    v.xmax,
                )
            } ==> after.index.records().contains(
                RecordView {
                    xmax: if before.tm.aborts().contains_key(before.index.records()[i].xmax) {
                        0
                    } else {
                        before.index.records()[i].xmax
                    },
                    ..before.index.records()[i]
                },
            ),
        n == before.index.records().len() - after.index.records().len(),
{
    let e = before.tm.settled();
    let old = before.index.records();
    let now = after.index.records();
    assert(!before.tm.aborts().contains_key(0));
    assert forall|k: int| 0 <= k < now.len() implies {
        let v = #[trigger] now[k];
        &&& !before.tm.aborts().contains_key(v.xmin)
        &&& !before.tm.aborts().contains_key(v.xmax)
        &&& v.xmax == 0 || v.xmax >= before.tm.horizon()
        &&& taken_over(before.tm.aborts(), old, v)
    } by {
        law_swept_lists_hold_nothing_dead(e, old, k);
    }
    assert forall|i: int|
        #![trigger old[i]]
        0 <= i < old.len() && {
            let v = old[i];
            &&& !before.tm.aborts().contains_key(v.xmin)
            &&& v.xmax == 0 || v.xmax >= before.tm.horizon() || before.tm.aborts().contains_key(
                v.xmax,
            )
        } implies now.contains(
        RecordView {
            xmax: if before.tm.aborts().contains_key(old[i].xmax) {
                0
            } else {
                old[i].xmax
            },
            ..old[i]
        },
    ) by {
        lemma_survivors_member(e, old, cleared(e, old[i]));
    }
}

/// Whether a version is one of a list, or one of them without the stamp of a deleter that
/// aborted.
pub open spec fn taken_over(aborts: Map<u64, ()>, s: Seq<RecordView>, v: RecordView) -> bool {
    exists|i: int|
        0 <= i < s.len() && {
            let w = #[trigger] s[i];
            &&& w.key == v.key
            &&& w.value == v.value
            &&& w.rec_type == v.rec_type
            &&& w.xmin == v.xmin
            &&& w.xmax == v.xmax || (v.xmax == 0 && aborts.contains_key(w.xmax))
        }
}

/// What sweeping a list of versions leaves of it, be it a leaf or all of them: no version
/// whose creator is known to have aborted, no stamp of a deleter that is known to have
/// aborted, no version with a deleter below the horizon, and nothing that was not there.
pub proof fn law_swept_lists_hold_nothing_dead(e: Settled, s: Seq<RecordView>, k: int)
    requires
        0 <= k < survivors(e, s).len(),
        !e.aborts.contains_key(0),
    ensures
        ({
            let v = survivors(e, s)[k];
            &&& !e.aborts.contains_key(v.xmin)
            &&& !e.aborts.contains_key(v.xmax)
            &&& v.xmax == 0 || v.xmax >= e.horizon
            &&& taken_over(e.aborts, s, v)
        }),
{
    let v = survivors(e, s)[k];
    assert(survivors(e, s).contains(v));
    lemma_survivors_member(e, s, v);
    let i = choose|i: int| 0 <= i < s.len() && !dead(e, #[trigger] s[i]) && v == cleared(e, s[i]);
    assert(s[i].key == v.key);
}

/// What sweeping a list of versions does not take away.
pub proof fn law_swept_lists_keep_what_is_alive(e: Settled, s: Seq<RecordView>, i: int)
    requires
        0 <= i < s.len(),
        !e.aborts.contains_key(s[i].xmin),
        s[i].xmax == 0 || s[i].xmax >= e.horizon || e.aborts.contains_key(s[i].xmax),
    ensures
        survivors(e, s).contains(
            RecordView {
                xmax: if e.aborts.contains_key(s[i].xmax) {
                    0
                } else {
                    s[i].xmax
                },
                ..s[i]
            },
        ),
{
    lemma_survivors_member(e, s, cleared(e, s[i]));
}

/// What a batch of a sweep leaves between the bound where it starts and the key from which
/// the next one goes on: no version whose creator is known to have aborted, no stamp of a
/// deleter that is known to have aborted, and no version with a deleter below the horizon,
/// whatever the key or the value. Elsewhere and otherwise, every version is still there.
pub proof fn law_batches_leave_nothing_dead<K: Key>(
    before: Engine<K>,
    after: Engine<K>,
    from: KeyBound,
    b: Batch,
)
    requires
        before.wf(),
        orderly(before.tm),
        batch_result::<K>(before, after, &from, Ok(b)),
    ensures
        forall|k: int|
            0 <= k < after.index.records().len() && {
                let v = #[trigger] after.index.records()[k];
                &&& match from {
                    KeyBound::Included(f) => K::le(f@, v.key),
                    KeyBound::Excluded(f) => !K::le(v.key, f@),
                    KeyBound::Unbounded => true,
                }
                &&& b.next matches Some(x) ==> !K::le(x@, v.key)
            } ==> {
                let v = after.index.records()[k];
                &&& !before.tm.aborts().contains_key(v.xmin)
                &&& !before.tm.aborts().contains_key(v.xmax)
                &&& v.xmax == 0 || v.xmax >= before.tm.horizon()
            },
        forall|k: int|
            0 <= k < after.index.records().len() ==> taken_over(
                before.tm.aborts(),
                before.index.records(),
                #[trigger] after.index.records()[k],
            ),
        forall|i: int|
            #![trigger before.index.records()[i]]
            0 <= i < before.index.records().len() && {
                let v = before.index.records()[i];
                &&& !before.tm.aborts().contains_key(v.xmin)
                &&& v.xmax == 0 || v.xmax >= before.tm.horizon() || before.tm.aborts().contains_key(
                    v.xmax,
                )
            } ==> {
                let v = before.index.records()[i];
                ||| after.index.records().contains(v)
                ||| before.tm.aborts().contains_key(v.xmax) && after.index.records().contains(
                    RecordView { xmax: 0, ..v },
                )
            },
        b.gone == before.index.records().len() - after.index.records().len(),
        b.touched == 0 ==> after.index.records() == before.index.records(),
{
    K::le_laws();
    let e = before.tm.settled();
    let t = before.index.tree();
    let now = after.index.records();
    let old = before.index.records();
    let (i, m) = choose|i: int, m: int| #[trigger]
        batch_span::<K>(t, &from, i, m) && batch_swept(before.index, after.index, e, i, m, b);
    lemma_outside::<K>(t, &from, i, m);
    let n = t.levels[0].len() as int;
    let pa = on_leaves(t, 0, i);
    let px = on_leaves(t, i, i + m);
    let pb = on_leaves(t, i + m, n);
    let s = survivors(e, px);
    assert(now == pa + s + pb);
    assert(old == pa + px + pb);
    assert(!before.tm.aborts().contains_key(0));
    assert forall|k: int| 0 <= k < now.len() implies taken_over(
        before.tm.aborts(),
        old,
        #[trigger] now[k],
    ) && ({
        let v = now[k];
        &&& match from {
            KeyBound::Included(f) => K::le(f@, v.key),
            KeyBound::Excluded(f) => !K::le(v.key, f@),
            KeyBound::Unbounded => true,
        }
        &&& b.next matches Some(x) ==> !K::le(x@, v.key)
    } ==> {
        let v = now[k];
        &&& !before.tm.aborts().contains_key(v.xmin)
        &&& !before.tm.aborts().contains_key(v.xmax)
        &&& v.xmax == 0 || v.xmax >= before.tm.horizon()
    }) by {
        if k < pa.len() {
            assert(now[k] == pa[k]);
            assert(old[k] == pa[k]);
            assert(!from.starts_before::<K>(pa[k].key));
        } else if k < pa.len() + s.len() {
            let q = k - pa.len();
            assert(now[k] == s[q]);
            law_swept_lists_hold_nothing_dead(e, px, q);
            let j = choose|j: int|
                0 <= j < px.len() && {
                    let w = #[trigger] px[j];
                    &&& w.key == s[q].key
                    &&& w.value == s[q].value
                    &&& w.rec_type == s[q].rec_type
                    &&& w.xmin == s[q].xmin
                    &&& w.xmax == s[q].xmax || (s[q].xmax == 0 && e.aborts.contains_key(w.xmax))
                };
            assert(old[pa.len() + j] == px[j]);
        } else {
            let q = k - pa.len() - s.len();
            assert(now[k] == pb[q]);
            assert(old[pa.len() + px.len() + q] == pb[q]);
            assert(bound_le::<K>(t.leaf(i + m - 1).high_key, Some(pb[q].key)));
        }
    }
    assert forall|z: int|
        #![trigger old[z]]
        0 <= z < old.len() && !dead(e, old[z]) implies now.contains(old[z]) || (
    before.tm.aborts().contains_key(old[z].xmax) && now.contains(
        RecordView { xmax: 0, ..old[z] },
    )) by {
        if z < pa.len() {
            assert(now[z] == old[z]);
        } else if z < pa.len() + px.len() {
            let c = cleared(e, old[z]);
            assert(px[z - pa.len()] == old[z]);
            lemma_survivors_member(e, px, c);
            let q = choose|q: int| 0 <= q < s.len() && s[q] == c;
            assert(now[pa.len() + q] == c);
        } else {
            let q = z - pa.len() - px.len();
            assert(now[pa.len() + s.len() + q] == old[z]);
        }
    }
    if b.touched == 0 {
        lemma_untouched::<K>(e, t, i, m);
        lemma_survivors_noop(e, px);
    }
}

/// Leaves on which a sweep has nothing to do.
proof fn lemma_untouched<K: Key>(e: Settled, t: Tree, i: int, m: int)
    requires
        t.wf::<K>(),
        0 <= i,
        0 <= m,
        i + m <= t.levels[0].len(),
        stale_leaves(e, t, i, m) == 0,
    ensures
        forall|k: int|
            0 <= k < on_leaves(t, i, i + m).len() ==> {
                let v = #[trigger] on_leaves(t, i, i + m)[k];
                !dead(e, v) && cleared(e, v) == v
            },
    decreases m,
{
    let c = t.levels[0].subrange(i, i + m);
    if m > 0 {
        lemma_untouched::<K>(e, t, i, m - 1);
        assert(c.drop_last() =~= t.levels[0].subrange(i, i + m - 1));
        assert(c.last() == t.page(0, i + m - 1));
        let l = t.leaf(i + m - 1).entries;
        assert(!stale(e, l));
        assert(t.valid(0, i + m - 1));
        assert(t.page_ok::<K>(0, i + m - 1));
        assert(on_leaves(t, i, i + m) == on_leaves(t, i, i + m - 1) + l);
        assert forall|k: int| 0 <= k < on_leaves(t, i, i + m).len() implies {
            let v = #[trigger] on_leaves(t, i, i + m)[k];
            !dead(e, v) && cleared(e, v) == v
        } by {
            let a = on_leaves(t, i, i + m - 1);
            if k < a.len() {
                assert(on_leaves(t, i, i + m)[k] == a[k]);
            } else {
                assert(on_leaves(t, i, i + m)[k] == l[k - a.len()]);
            }
        }
    } else {
        assert(c =~= Seq::<u64>::empty());
    }
}

// ── Reads ────────────────────────────────────────────────────────────────────
/// Reading without a transaction gives the value of a version that has been committed and
/// that no committed transaction has deleted, and nothing exactly if the key has none.
pub proof fn law_plain_reads_give_what_is_committed<K: Key>(
    e: Engine<K>,
    reader: Transaction,
    key: Seq<u8>,
    got: Option<Vec<u8>>,
) -> (k: int)
    requires
        e.wf(),
        coherent(e),
        reader.txn_id == 0,
        reader.snapshot.reflects(e.tm.txn_state),
        read_result::<K>(e, reader, key, got),
    ensures
        got is None <==> forall|i: int|
            0 <= i < e.index.records().len() && key_eq::<K>(
                (#[trigger] e.index.records()[i]).key,
                key,
            ) ==> {
                let v = e.index.records()[i];
                ||| e.tm.in_flight(v.xmin)
                ||| e.tm.aborts().contains_key(v.xmin)
                ||| v.xmax != 0 && !e.tm.in_flight(v.xmax) && !e.tm.aborts().contains_key(v.xmax)
            },
        got matches Some(x) ==> {
            let v = e.index.records()[k];
            &&& 0 <= k < e.index.records().len()
            &&& key_eq::<K>(v.key, key)
            &&& !e.tm.in_flight(v.xmin) && !e.tm.aborts().contains_key(v.xmin)
            &&& v.xmax == 0 || e.tm.in_flight(v.xmax) || e.tm.aborts().contains_key(v.xmax)
            &&& x@ == e.index.content(v)
        },
{
    let recs = e.index.records();
    assert(!e.tm.aborts().contains_key(0));
    assert(!e.tm.in_flight(0));
    assert forall|i: int| 0 <= i < recs.len() && key_eq::<K>(
        (#[trigger] recs[i]).key,
        key,
    ) implies visible::<K>(&reader, e.tm.aborts(), key, recs[i]) == {
        let v = recs[i];
        &&& !e.tm.in_flight(v.xmin) && !e.tm.aborts().contains_key(v.xmin)
        &&& v.xmax == 0 || e.tm.in_flight(v.xmax) || e.tm.aborts().contains_key(v.xmax)
    } by {
        let v = recs[i];
        law_snapshot_xmin(e.tm, reader.snapshot, v.xmin);
        law_snapshot_xmin(e.tm, reader.snapshot, v.xmax);
        assert(v.xmin < e.tm.next_txn_id && v.xmax < e.tm.next_txn_id);
    }
    if got is None {
        assert forall|i: int| 0 <= i < recs.len() && key_eq::<K>(
            (#[trigger] recs[i]).key,
            key,
        ) implies !visible::<K>(&reader, e.tm.aborts(), key, recs[i]) by {}
        0
    } else {
        choose|k: int|
            0 <= k < recs.len() && visible::<K>(&reader, e.tm.aborts(), key, #[trigger] recs[k])
                && got->0@ == e.index.content(recs[k])
    }
}

/// What a running transaction sees of a version by who made and who deleted it. It sees its
/// own until it deletes them; of the others none that was made by somebody running or
/// aborted, or by somebody who began later; and a deletion by such a one hides nothing.
pub proof fn law_transactions_see_their_own_and_what_was_committed<K: Key>(
    e: Engine<K>,
    txn: Transaction,
    k: int,
)
    requires
        e.wf(),
        runs(e, txn),
        0 <= k < e.index.records().len(),
    ensures
        ({
            let v = e.index.records()[k];
            let seen = visible::<K>(&txn, e.tm.aborts(), v.key, v);
            let unheard = |id: u64|
                id != txn.txn_id && (e.tm.in_flight(id) || e.tm.aborts().contains_key(id) || id
                    >= txn.snapshot.xmax || txn.snapshot.active@.contains(id));
            let settled_then = |id: u64|
                id < txn.snapshot.xmax && !txn.snapshot.active@.contains(id)
                    && !txn.snapshot.aborted@.contains(id) && !e.tm.aborts().contains_key(id);
            &&& v.xmax == txn.txn_id ==> !seen
            &&& unheard(v.xmin) ==> !seen
            &&& v.xmin == txn.txn_id && (v.xmax == 0 || unheard(v.xmax)) ==> seen
            &&& settled_then(v.xmin) && (v.xmax == 0 || unheard(v.xmax)) ==> seen
            &&& v.xmax != 0 && settled_then(v.xmax) ==> !seen
        }),
{
    K::le_laws();
    let v = e.index.records()[k];
    assert(!e.tm.aborts().contains_key(0));
    assert(!e.tm.in_flight(0));
    assert(!e.tm.aborts().contains_key(txn.txn_id));
    assert(!txn.snapshot.active@.contains(0)) by {
        if txn.snapshot.active@.contains(0) {
            assert(e.tm.active_state.active@[txn.txn_id].0 <= 0);
            assert(e.tm.active_state.active@.contains_key(txn.txn_id));
        }
    }
    assert(e.tm.in_flight(txn.txn_id));
}

/// A range holds the keys from its start to its end, the bounds among them exactly if they
/// are included: each entry lies there and reading its key gives its value, whatever key
/// there reads as something is an entry, and the keys ascend.
pub proof fn law_ranges_go_by_key_order<K: Key>(
    e: Engine<K>,
    txn: Transaction,
    start: KeyBound,
    end: KeyBound,
    key: Seq<u8>,
)
    requires
        e.wf(),
        runs(e, txn),
    ensures
        ({
            let ps = range_pairs(&e.index, &txn, e.tm.aborts(), &start, &end);
            let within = |k: Seq<u8>|
                {
                    &&& match start {
                        KeyBound::Included(b) => K::le(b@, k),
                        KeyBound::Excluded(b) => !K::le(k, b@),
                        KeyBound::Unbounded => true,
                    }
                    &&& match end {
                        KeyBound::Included(b) => K::le(k, b@),
                        KeyBound::Excluded(b) => !K::le(b@, k),
                        KeyBound::Unbounded => true,
                    }
                };
            &&& forall|i: int, j: int|
                0 <= i < j < ps.len() ==> !K::le((#[trigger] ps[j]).0, (#[trigger] ps[i]).0)
            &&& forall|i: int| 0 <= i < ps.len() ==> within((#[trigger] ps[i]).0)
            &&& forall|i: int, got: Option<Vec<u8>>|
                0 <= i < ps.len() && #[trigger] read_result(e, txn, (#[trigger] ps[i]).0, got) ==> (
                got matches Some(v) && v@ == ps[i].1)
            &&& forall|v: Vec<u8>|
                within(key) && #[trigger] read_result(e, txn, key, Some(v)) ==> exists|i: int|
                    0 <= i < ps.len() && key_eq::<K>((#[trigger] ps[i]).0, key) && ps[i].1 == v@
        }),
{
    law_ranges_hold_what_reads_give::<K>(e, txn, start, end);
}

// ── Endings ──────────────────────────────────────────────────────────────────
/// What a commit does. It fails only for want of a number for its record, and then the
/// transaction has aborted. Otherwise the transaction has committed: it is running no more,
/// nobody waits for it, and if it wrote something, the log ends with a commit of it, and the
/// host is asked for all of the log and to make it durable. Nobody else's fate and no version changes.
pub proof fn law_commits_settle<K: Key>(
    before: Engine<K>,
    after: Engine<K>,
    txn: Transaction,
    r: Result<(), EngineError>,
    other: u64,
)
    requires
        before.wf(),
        commit_result::<K>(before, after, txn, r),
        !before.tm.aborts().contains_key(txn.txn_id),
        txn.txn_id != 0,
    ensures
        r is Ok <==> !txn.wrote_anything || before.index.store.budget() != 0,
        !after.tm.in_flight(txn.txn_id),
        !after.tm.waiters@.contains_key(txn.txn_id),
        r is Ok <==> after.tm.committed(txn.txn_id),
        r is Ok <==> !after.tm.aborts().contains_key(txn.txn_id),
        r is Ok && txn.wrote_anything ==> {
            let log = after.index.store.log();
            &&& log.len() == before.index.store.log().len() + 1
            &&& log.last().kind == WalRecordType::Commit
            &&& log.last().txn_id == txn.txn_id
            &&& after.index.store.durable() == log.len()
            &&& after.index.store.waiting().len() > 0
            &&& after.index.store.waiting().last()@ == IoView::SyncLog
        },
        !txn.wrote_anything ==> after.index == before.index,
        after.index.records() == before.index.records(),
        other != txn.txn_id ==> {
            &&& after.tm.in_flight(other) == before.tm.in_flight(other)
            &&& after.tm.committed(other) == before.tm.committed(other)
            &&& after.tm.aborts().contains_key(other) == before.tm.aborts().contains_key(other)
            &&& after.tm.waiters@.contains_key(other) == before.tm.waiters@.contains_key(other)
        },
        after.tm.next_txn_id == before.tm.next_txn_id,
        after.tm.dead_versions == before.tm.dead_versions,
{
}

/// What giving a transaction up does: it has aborted, is running no more, and nobody waits
/// for it; if it wrote something and there is a number left, the log ends with an abort of
/// it. Nobody else's fate and no version changes.
pub proof fn law_aborts_settle<K: Key>(
    before: Engine<K>,
    after: Engine<K>,
    txn: Transaction,
    other: u64,
)
    requires
        before.wf(),
        abort_result::<K>(before, after, txn),
        txn.txn_id != 0,
    ensures
        after.tm.aborts().contains_key(txn.txn_id),
        !after.tm.committed(txn.txn_id),
        !after.tm.in_flight(txn.txn_id),
        !after.tm.waiters@.contains_key(txn.txn_id),
        txn.wrote_anything && before.index.store.budget() > 0 ==> {
            let log = after.index.store.log();
            &&& log.len() == before.index.store.log().len() + 1
            &&& log.last().kind == WalRecordType::Abort
            &&& log.last().txn_id == txn.txn_id
        },
        !txn.wrote_anything ==> after.index == before.index,
        after.index.records() == before.index.records(),
        other != txn.txn_id ==> {
            &&& after.tm.in_flight(other) == before.tm.in_flight(other)
            &&& after.tm.committed(other) == before.tm.committed(other)
            &&& after.tm.aborts().contains_key(other) == before.tm.aborts().contains_key(other)
            &&& after.tm.waiters@.contains_key(other) == before.tm.waiters@.contains_key(other)
        },
        after.tm.next_txn_id == before.tm.next_txn_id,
        after.tm.dead_versions == before.tm.dead_versions,
{
}

/// An operation that is a transaction of its own leaves none behind: the transaction has
/// settled, it has committed exactly if the call succeeded, and an operation that failed has
/// it given up and hands its error on.
pub proof fn law_single_operations_settle<K: Key>(
    before: Engine<K>,
    after: Engine<K>,
    t: Transaction,
    done: Result<(), EngineError>,
    r: Result<(), EngineError>,
)
    requires
        before.wf(),
        ended::<K>(before, after, t, done, r),
        !before.tm.aborts().contains_key(t.txn_id),
        t.txn_id != 0,
    ensures
        !after.tm.in_flight(t.txn_id),
        r is Ok <==> after.tm.committed(t.txn_id),
        r is Err <==> after.tm.aborts().contains_key(t.txn_id),
        done is Err ==> r == done,
        done is Ok && before.index.store.budget() != 0 ==> r is Ok,
{
}

/// An operation of a handle leaves it standing for the same transaction and the same
/// snapshot. It is poisoned by a conflict and by nothing else: whoever has to wait, or has
/// asked for what cannot be done, can go on.
pub proof fn law_only_conflicts_poison(h0: TxnHandle, h: TxnHandle, r: Result<(), EngineError>)
    requires
        carried_on(h0, h, r),
    ensures
        h.txn matches Some(t) && t.txn_id == h0.txn->0.txn_id && t.snapshot == h0.txn->0.snapshot
            && t.wrote_anything == (h0.txn->0.wrote_anything || r is Ok),
        h.poisoned <==> (r matches Err(EngineError::TransactionConflict)),
{
}

/// A poisoned handle refuses every operation: each reports a conflict and changes nothing.
pub proof fn law_poisoned_handles_refuse<K: Key>(
    before: Engine<K>,
    after: Engine<K>,
    h0: TxnHandle,
    h: TxnHandle,
    r: Result<(), EngineError>,
)
    requires
        refused(before, after, h0, h, r),
    ensures
        r == Err::<(), EngineError>(EngineError::TransactionConflict),
        after == before,
        h == h0,
{
}

// ── Checkpoints ──────────────────────────────────────────────────────────────
/// What a checkpoint leaves in the log. It succeeds if there is a number left and at most
/// 8185 transactions are running or remembered as aborted. The log then ends with its
/// record, all of it durable, which reads as the next ids to give out, the root, exactly the
/// transactions that are running, and exactly those that are remembered as aborted.
pub proof fn law_checkpoints_say_who_is_running<K: Key>(
    before: Engine<K>,
    after: Engine<K>,
    r: Result<u64, EngineError>,
    id: u64,
)
    requires
        before.wf(),
        checkpoint_result::<K>(before, after, r),
        before.index.store.budget() != 0,
        before.tm.txn_state.active@.len() + before.tm.txn_state.aborted@.len() <= 8185,
    ensures
        r is Ok,
        after.tm == before.tm,
        after.index.records() == before.index.records(),
        ({
            let log = after.index.store.log();
            &&& log.len() == before.index.store.log().len() + 1
            &&& after.index.store.durable() == log.len()
            &&& after.index.store.waiting().len() > 0
            &&& after.index.store.waiting().last()@ == IoView::SyncLog
            &&& log.last().kind == WalRecordType::Checkpoint
            &&& log.last().main matches Some(d) && (checkpoint_at(d) matches Some(c) && {
                &&& c.redo_point == r->Ok_0
                &&& c.next_txn_id == before.tm.next_txn_id
                &&& c.next_page_id == before.index.store.next_page()
                &&& c.vacuum_horizon == before.tm.vacuum_horizon
                &&& c.root_page_id == before.index.root
                &&& c.active_txns.contains(id) <==> before.tm.in_flight(id)
                &&& c.pinned_aborted.contains(id) <==> before.tm.aborts().contains_key(id)
            })
        }),
{
    let c = checkpoint_of(before, r->Ok_0);
    law_checkpoint_roundtrip(c);
    lemma_published(before.tm, id);
}

/// A checkpoint that has no number for its record, or too many transactions to name, fails
/// and changes nothing.
pub proof fn law_checkpoints_can_be_too_large<K: Key>(
    before: Engine<K>,
    after: Engine<K>,
    r: Result<u64, EngineError>,
)
    requires
        checkpoint_result::<K>(before, after, r),
        before.index.store.budget() == 0 || before.tm.txn_state.active@.len()
            + before.tm.txn_state.aborted@.len() > 8185,
    ensures
        after == before,
        r == Err::<u64, EngineError>(
            if before.index.store.budget() == 0 {
                EngineError::OutOfNumbers
            } else {
                EngineError::CheckpointTooLarge
            },
        ),
{
}

// ── Effects ──────────────────────────────────────────────────────────────────
/// Whether a version is of a kind that a sweep may take away: its creator aborted, or its
/// deleter lies below the horizon and did not abort.
pub open spec fn over(aborts: Map<u64, ()>, horizon: u64, v: RecordView) -> bool {
    ||| aborts.contains_key(v.xmin)
    ||| v.xmax != 0 && v.xmax < horizon && !aborts.contains_key(v.xmax)
}

/// What an insertion that succeeds does: there is a version of the key more, made by the
/// transaction, not deleted, with the value; besides it there is nothing that was not there,
/// with the same value; and nothing is gone but versions that nobody can see any more.
pub proof fn law_insertions_add_one_version<K: Key>(
    before: Engine<K>,
    after: Engine<K>,
    txn: Transaction,
    key: Seq<u8>,
    value: Seq<u8>,
) -> (k: int)
    requires
        before.wf(),
        insert_result::<K>(before, after, txn, key, value, Ok(())),
    ensures
        0 <= k < after.index.records().len(),
        after.index.records()[k].key == key,
        after.index.records()[k].xmin == txn.txn_id,
        after.index.records()[k].xmax == 0,
        after.index.content(after.index.records()[k]) == value,
        after.index.records()[k].rec_type == (if value.len() <= 1024 {
            REC_TYPE_INLINE
        } else {
            REC_TYPE_OVERFLOW
        }),
        after.tm == before.tm,
        forall|j: int|
            0 <= j < after.index.records().len() && j != k ==> taken_over(
                before.tm.aborts(),
                before.index.records(),
                #[trigger] after.index.records()[j],
            ) && after.index.content(after.index.records()[j]) == before.index.content(
                after.index.records()[j],
            ),
        forall|i: int|
            0 <= i < before.index.records().len() && !over(
                before.tm.aborts(),
                before.tm.horizon(),
                #[trigger] before.index.records()[i],
            ) ==> stays(before.tm.aborts(), after.index.records(), before.index.records()[i]),
{
    let (base, k, v) = choose|base: Seq<RecordView>, k: int, v: RecordView| #[trigger]
        entered(
            &before.index,
            &after.index,
            before.tm.settled(),
            before.index.records(),
            base,
            k,
            v,
        ) && stored_as(&after.index, v, key, value, txn.txn_id);
    lemma_entered(before, after, before.index.records(), base, k, v);
    k
}

/// Whether a version is among those on record, stamps of deleters that aborted apart.
pub open spec fn stays(aborts: Map<u64, ()>, s: Seq<RecordView>, v: RecordView) -> bool {
    exists|i: int|
        0 <= i < s.len() && {
            let w = #[trigger] s[i];
            &&& w.key == v.key
            &&& w.value == v.value
            &&& w.rec_type == v.rec_type
            &&& w.xmin == v.xmin
            &&& w.xmax == v.xmax || ((w.xmax == 0 || aborts.contains_key(w.xmax)) && (v.xmax == 0
                || aborts.contains_key(v.xmax)))
        }
}

/// What is there once a version has entered.
proof fn lemma_entered<K: Key>(
    before: Engine<K>,
    after: Engine<K>,
    recs: Seq<RecordView>,
    base: Seq<RecordView>,
    k: int,
    v: RecordView,
)
    requires
        entered(&before.index, &after.index, before.tm.settled(), recs, base, k, v),
    ensures
        0 <= k < after.index.records().len(),
        after.index.records()[k] == v,
        forall|j: int|
            0 <= j < after.index.records().len() && j != k ==> taken_over(
                before.tm.aborts(),
                recs,
                #[trigger] after.index.records()[j],
            ) && after.index.content(after.index.records()[j]) == before.index.content(
                after.index.records()[j],
            ),
        forall|i: int|
            0 <= i < recs.len() && !over(
                before.tm.aborts(),
                before.tm.horizon(),
                #[trigger] recs[i],
            ) ==> stays(before.tm.aborts(), after.index.records(), recs[i]),
{
    let e = before.tm.settled();
    let now = after.index.records();
    assert forall|j: int| 0 <= j < now.len() && j != k implies taken_over(
        e.aborts,
        recs,
        #[trigger] now[j],
    ) && after.index.content(now[j]) == before.index.content(now[j]) by {
        let z = if j < k {
            j
        } else {
            j - 1
        };
        assert(now[j] == base[z]);
        assert(kin(e, recs, base[z]));
        let i = choose|i: int|
            0 <= i < recs.len() && (base[z] == #[trigger] recs[i] || base[z] == cleared(
                e,
                recs[i],
            ));
        assert(recs[i].key == now[j].key);
    }
    assert forall|i: int| 0 <= i < recs.len() && !over(
        e.aborts,
        e.horizon,
        #[trigger] recs[i],
    ) implies stays(e.aborts, now, recs[i]) by {
        let c = cleared(e, recs[i]);
        assert(!dead(e, recs[i]));
        lemma_survivors_member(e, recs, c);
        assert(survivors(e, base).contains(c));
        lemma_survivors_member(e, base, c);
        let b = choose|b: int| 0 <= b < base.len() && !dead(e, #[trigger] base[b]) && c == cleared(
            e,
            base[b],
        );
        let z = if b < k {
            b
        } else {
            b + 1
        };
        assert(now[z] == base[b]);
    }
}

/// What an update that succeeds does: the version that the transaction saw has it as its
/// deleter, and there is a version of the key more, made by the transaction, not deleted,
/// with the new value. Besides these there is nothing that was not there, and nothing is
/// gone but versions that nobody can see any more. The version that was replaced is counted
/// as dead.
pub proof fn law_updates_replace_one_version<K: Key>(
    before: Engine<K>,
    after: Engine<K>,
    txn: Transaction,
    key: Seq<u8>,
    value: Seq<u8>,
) -> (r: (int, int))
    requires
        before.wf(),
        update_result::<K>(before, after, txn, key, value, Ok(())),
    ensures
        0 <= r.0 < before.index.records().len(),
        visible::<K>(&txn, before.tm.aborts(), key, before.index.records()[r.0]),
        0 <= r.1 < after.index.records().len(),
        after.index.records()[r.1].key == key,
        after.index.records()[r.1].xmin == txn.txn_id,
        after.index.records()[r.1].xmax == 0,
        after.index.content(after.index.records()[r.1]) == value,
        before.tm.dead_versions < u64::MAX ==> after.tm.dead_versions == before.tm.dead_versions + 1,
        ({
            let old = before.index.records();
            let stamped = old.update(r.0, RecordView { xmax: txn.txn_id, ..old[r.0] });
            &&& forall|j: int|
                0 <= j < after.index.records().len() && j != r.1 ==> taken_over(
                    before.tm.aborts(),
                    stamped,
                    #[trigger] after.index.records()[j],
                ) && after.index.content(after.index.records()[j]) == before.index.content(
                    after.index.records()[j],
                )
            &&& forall|i: int|
                0 <= i < stamped.len() && !over(
                    before.tm.aborts(),
                    before.tm.horizon(),
                    #[trigger] stamped[i],
                ) ==> stays(before.tm.aborts(), after.index.records(), stamped[i])
        }),
{
    let old = before.index.records();
    let (m, x) = choose|m: int, x: Result<(), IndexError>|
        0 <= m < old.len() && #[trigger] superseded(
            &before.index,
            &after.index,
            key,
            value,
            &txn,
            &before.tm,
            m,
            x,
        ) && Ok::<(), EngineError>(()) == (match x {
            Ok(()) => Ok::<(), EngineError>(()),
            Err(e) => Err(outcome(e, txn.txn_id)),
        });
    let recs = old.update(m, RecordView { xmax: txn.txn_id, ..old[m] });
    assert(recs == old.update(m, with_xmax(old[m], txn.txn_id)));
    let (base, k, v) = choose|base: Seq<RecordView>, k: int, v: RecordView| #[trigger]
        entered(&before.index, &after.index, before.tm.settled(), recs, base, k, v) && stored_as(
            &after.index,
            v,
            key,
            value,
            txn.txn_id,
        );
    lemma_entered(before, after, recs, base, k, v);
    (m, k)
}

/// What a deletion that succeeds does: the version that the transaction saw has it as its
/// deleter, every other version is as it was, and a dead version more is counted.
pub proof fn law_deletions_stamp_one_version<K: Key>(
    before: Engine<K>,
    after: Engine<K>,
    txn: Transaction,
    key: Seq<u8>,
) -> (k: int)
    requires
        before.wf(),
        delete_result::<K>(before, after, txn, key, Ok(())),
    ensures
        0 <= k < before.index.records().len(),
        visible::<K>(&txn, before.tm.aborts(), key, before.index.records()[k]),
        after.index.records().len() == before.index.records().len(),
        after.index.records()[k] == (RecordView {
            xmax: txn.txn_id,
            ..before.index.records()[k]
        }),
        forall|j: int|
            0 <= j < before.index.records().len() && j != k ==> #[trigger] after.index.records()[j]
                == before.index.records()[j],
        before.tm.dead_versions < u64::MAX ==> after.tm.dead_versions == before.tm.dead_versions + 1,
{
    let old = before.index.records();
    choose|k: int|
        {
            let v = #[trigger] old[k];
            &&& 0 <= k < old.len()
            &&& visible::<K>(&txn, before.tm.aborts(), key, v)
            &&& after.index.records() == old.update(k, with_xmax(v, txn.txn_id))
        }
}

/// Whoever is told to wait for a running transaction is among those that are told when it
/// settles; nothing else that fails changes who waits.
pub proof fn law_waiting_is_noted<K: Key>(
    before: Engine<K>,
    after: Engine<K>,
    txn: Transaction,
    key: Seq<u8>,
    value: Seq<u8>,
    e: EngineError,
    id: u64,
)
    requires
        ({
            ||| insert_result::<K>(before, after, txn, key, value, Err(e))
            ||| update_result::<K>(before, after, txn, key, value, Err(e))
            ||| delete_result::<K>(before, after, txn, key, Err(e))
        }),
    ensures
        after.tm.waiters@.contains_key(id) <==> before.tm.waiters@.contains_key(id) || (e
            == EngineError::WaitFor(id) && before.tm.in_flight(id)),
        after.tm.dead_versions == before.tm.dead_versions,
        after.tm.in_flight(id) == before.tm.in_flight(id),
        after.tm.aborts() == before.tm.aborts(),
{
}

/// A sweep succeeds where there are 193 numbers left for each leaf, and a batch where there
/// are as many for each leaf of the batch; neither fails otherwise than for want of numbers.
pub proof fn law_sweeps_succeed<K: Key>(
    before: Engine<K>,
    after: Engine<K>,
    r: Result<usize, EngineError>,
)
    requires
        vacuum_result::<K>(before, after, r),
    ensures
        before.index.store.budget() >= 193 * before.index.levels@[0].len()
            && before.index.records().len() <= usize::MAX ==> r is Ok,
        r matches Err(e) ==> e == EngineError::OutOfNumbers && after.tm == before.tm
            && after.index.records() == before.index.records(),
{
}

/// A sweep says how many versions went, and raises the published horizon to the one that it
/// swept at. Aborted transactions are forgotten below the published horizon, where no version
/// of theirs is left, and are remembered from there on. The sweep leaves the transactions, the
/// readers and the count of dead versions alone.
pub proof fn law_sweeps_publish_their_horizon<K: Key>(
    before: Engine<K>,
    after: Engine<K>,
    n: usize,
    id: u64,
)
    requires
        vacuum_result::<K>(before, after, Ok(n)),
    ensures
        n == before.index.records().len() - after.index.records().len(),
        after.tm.vacuum_horizon >= before.tm.horizon(),
        after.tm.vacuum_horizon >= before.tm.vacuum_horizon,
        after.tm.vacuum_horizon == before.tm.horizon() || after.tm.vacuum_horizon
            == before.tm.vacuum_horizon,
        id < after.tm.vacuum_horizon ==> !after.tm.aborts().contains_key(id),
        id >= after.tm.vacuum_horizon ==> (after.tm.aborts().contains_key(id)
            <==> before.tm.aborts().contains_key(id)),
        after.tm.committed(id) == before.tm.committed(id),
        after.tm.in_flight(id) == before.tm.in_flight(id),
        after.tm.next_txn_id == before.tm.next_txn_id,
        after.tm.slots@ == before.tm.slots@,
        after.tm.overflow_readers@ == before.tm.overflow_readers@,
        after.tm.dead_versions == before.tm.dead_versions,
{
}

/// The same for a batch, which is never more than all leaves.
pub proof fn law_batches_succeed<K: Key>(
    before: Engine<K>,
    after: Engine<K>,
    from: KeyBound,
    r: Result<Batch, EngineError>,
)
    requires
        before.wf(),
        batch_result::<K>(before, after, &from, r),
    ensures
        before.index.store.budget() >= 193 * before.index.levels@[0].len() && 192
            * before.index.levels@[0].len() <= usize::MAX ==> r is Ok,
        r matches Err(e) ==> e == EngineError::OutOfNumbers && after.index.records()
            == before.index.records(),
        after.tm == before.tm,
{
}

/// Whoever begins gets an id that nobody had, and a snapshot of the moment: it lists exactly
/// those that are running, the transaction among them, and exactly those that are remembered
/// as aborted, and nobody who begins later is below its end.
pub proof fn law_beginnings_take_a_snapshot<K: Key>(
    before: Engine<K>,
    after: Engine<K>,
    t: Transaction,
    now: u64,
    id: u64,
)
    requires
        before.wf(),
        begun(before.tm, after.tm, t, now),
    ensures
        !before.tm.in_flight(t.txn_id),
        before.tm.in_flight(id) ==> id < t.txn_id,
        after.tm.in_flight(id) <==> before.tm.in_flight(id) || id == t.txn_id,
        t.snapshot.active@.contains(id) <==> before.tm.in_flight(id) || id == t.txn_id,
        t.snapshot.aborted@.contains(id) <==> before.tm.aborts().contains_key(id),
        t.snapshot.xmax == t.txn_id + 1,
        after.tm.next_txn_id == t.txn_id + 1,
        !t.wrote_anything,
        after.tm.aborts().contains_key(id) == before.tm.aborts().contains_key(id),
        after.tm.dead_versions == before.tm.dead_versions,
{
    law_snapshot_xmin(after.tm, t.snapshot, id);
    assert(before.tm.active_state.active@.contains_key(id) == before.tm.in_flight(id));
}

/// Whoever reads without a transaction is protected from sweeps while it is registered: as
/// long as the horizon has not passed the start of its snapshot, it does not see any version
/// that a sweep may take away.
pub proof fn law_sweeps_spare_readers<K: Key>(
    e: Engine<K>,
    earlier: Engine<K>,
    reader: Transaction,
    v: RecordView,
)
    requires
        earlier.wf(),
        orderly(e.tm),
        reader.txn_id == 0,
        reader.snapshot.reflects(earlier.tm.txn_state),
        e.tm.horizon() <= reader.snapshot.xmin,
        reader.snapshot.aborted@.contains(v.xmax) ==> e.tm.aborts().contains_key(v.xmax),
        over(e.tm.aborts(), e.tm.horizon(), v),
    ensures
        !visible::<K>(&reader, e.tm.aborts(), v.key, v),
{
    assert(!e.tm.aborts().contains_key(0));
    law_snapshot_xmin(earlier.tm, reader.snapshot, v.xmax);
}

} // verus!
