//! What a transaction reads of what it wrote, and of what others wrote.

use vstd::prelude::*;

use crate::batch::{thinned, Batch};
use crate::change::LogEntry;
use crate::checkpoint::law_checkpoint_roundtrip;
use crate::engine::{
    abort_result, batch_result, checkpoint_of, checkpoint_result, commit_result, delete_result,
    insert_result, marked_written, nothing_visible, outcome, read_result, update_result,
    vacuum_result, written_by, Engine,
};
use crate::error::{EngineError, IndexError};
use crate::index::BTreeIndex;
use crate::index_edit::unopposed;
use crate::index_write::{entered, kin, stored_as, superseded};
use crate::key::{key_eq, Key};
use crate::ledger::{
    bears, checkpoint_in, drawn, lemma_drawn_entered, lemma_drawn_marked, lemma_recorded_begun,
    lemma_recorded_note, lemma_recorded_quiet_end, lemma_recorded_swept, lemma_recorded_write,
    recorded,
};
use crate::mvcc::{
    cleared, dead, law_dead_versions_are_invisible, law_running_transactions_are_protected,
    lemma_survivors_member, protected, remembered, survivors, visible, with_xmax, write_conflict,
    Settled,
};
use crate::node::RecordView;
use crate::scan::{
    in_range, law_records_are_sorted, lemma_filter_order, lemma_filter_place, range_pairs, KeyBound,
};
use crate::transaction::Transaction;
use crate::transaction_manager::{law_snapshot_xmin, lemma_published, TransactionManager};
use crate::txn::begun;
use crate::versions::{
    followed, in_line, lemma_begun_lone, lemma_entered_in_line, lemma_entered_lone,
    lemma_marked_in_line, lemma_settled_in_line, lemma_swept_in_line, lemma_swept_lone,
    lemma_thinned_in_line, lemma_thinned_lone, lemma_unopposed_followed, lone,
};

verus! {

/// Whether a manager remembers as aborted only transactions that it has given out
/// and that have ended.
pub open spec fn orderly(tm: TransactionManager) -> bool {
    forall|id: u64| #[trigger]
        tm.aborts().contains_key(id) ==> 1 <= id < tm.next_txn_id && !tm.in_flight(id)
}

/// Whether an engine is in order: the versions of each key follow one another, the
/// log says what the manager knows, and only transactions that have ended are
/// remembered as aborted.
pub open spec fn coherent<K: Key>(e: Engine<K>) -> bool {
    &&& orderly(e.tm)
    &&& in_line::<K>(e.tm, e.index.records())
    &&& recorded(e.tm, e.index.store.log(), e.index.records())
}

/// Whether a transaction is running: it has begun and not ended, its snapshot lists
/// whoever was in flight then, it sees at most one version of each key, the aborts
/// that its snapshot knows of are on record as long as versions bear their stamps,
/// and it knows whether it has written anything.
pub open spec fn runs<K: Key>(e: Engine<K>, txn: Transaction) -> bool {
    &&& e.tm.wf()
    &&& coherent(e)
    &&& lone::<K>(e.tm.aborts(), txn, e.index.records())
    &&& e.tm.in_flight(txn.txn_id)
    &&& bears(e.index.records(), txn.txn_id) ==> txn.wrote_anything
    &&& txn.txn_id < txn.snapshot.xmax <= e.tm.next_txn_id
    &&& forall|id: u64| #[trigger]
        txn.snapshot.active@.contains(id) ==> e.tm.active_state.active@[txn.txn_id].0 <= id
    &&& forall|id: u64| #[trigger]
        e.tm.in_flight(id) && id < txn.snapshot.xmax ==> txn.snapshot.active@.contains(id)
    &&& forall|id: u64| #[trigger]
        txn.snapshot.aborted@.contains(id) ==> 1 <= id < txn.snapshot.xmax && !e.tm.in_flight(id)
    &&& forall|k: int|
        0 <= k < e.index.records().len() ==> remembered(
            e.tm.settled(),
            &txn,
            #[trigger] e.index.records()[k],
        )
}

/// Whether an engine keeps what a transaction may still read: the horizon protects
/// it, and the aborts that its snapshot knows of are on record.
spec fn attends<K: Key>(e: Engine<K>, txn: Transaction) -> bool {
    &&& protected(e.tm.settled(), &txn)
    &&& !txn.snapshot.aborted@.contains(0)
    &&& !txn.snapshot.aborted@.contains(txn.txn_id)
    &&& forall|k: int|
        0 <= k < e.index.records().len() ==> remembered(
            e.tm.settled(),
            &txn,
            #[trigger] e.index.records()[k],
        )
}

proof fn lemma_attends<K: Key>(e: Engine<K>, txn: Transaction)
    requires
        runs(e, txn),
    ensures
        attends(e, txn),
{
    assert(!e.tm.aborts().contains_key(0));
    assert(!e.tm.aborts().contains_key(txn.txn_id));
    law_running_transactions_are_protected(e.tm, &txn);
}

proof fn lemma_apart<K: Key>(e: Engine<K>, a: Transaction, b: Transaction)
    requires
        runs(e, a),
        e.tm.in_flight(b.txn_id),
        a.txn_id != b.txn_id,
    ensures
        apart(e, a, b),
{
}

/// Whoever begins sees at most one version of each key, and changes nothing.
proof fn lemma_begun_in_line<K: Key>(
    before: Engine<K>,
    after: Engine<K>,
    t: Transaction,
    now: u64,
)
    requires
        before.wf(),
        coherent(before),
        begun(before.tm, after.tm, t, now),
        after.index == before.index,
    ensures
        in_line::<K>(after.tm, after.index.records()),
        lone::<K>(after.tm.aborts(), t, after.index.records()),
{
    let recs = after.index.records();
    assert forall|i: int| 0 <= i < recs.len() implies (#[trigger] recs[i]).xmin < after.tm.next_txn_id
        && recs[i].xmax < after.tm.next_txn_id && recs[i].xmin != t.txn_id && recs[i].xmax
        != t.txn_id by {
        assert(before.index.records()[i].xmin < before.tm.next_txn_id);
    }
    assert forall|i: int, j: int|
        0 <= i < recs.len() && 0 <= j < recs.len() && i != j && key_eq::<K>(
            (#[trigger] recs[i]).key,
            (#[trigger] recs[j]).key,
        ) && !after.tm.aborts().contains_key(recs[i].xmin) && !after.tm.aborts().contains_key(
            recs[j].xmin,
        ) implies followed(after.tm, recs[i], recs[j]) || followed(after.tm, recs[j], recs[i]) by {
        let old = before.index.records();
        assert(followed(before.tm, old[i], old[j]) || followed(before.tm, old[j], old[i]));
        lemma_still_followed(before.tm, after.tm, t, now, old[i], old[j]);
        lemma_still_followed(before.tm, after.tm, t, now, old[j], old[i]);
    }
    assert(after.tm.active_state.active@.dom().contains(t.txn_id));
    assert(!after.tm.aborts().contains_key(0)) by {
        assert(before.tm.aborts() == after.tm.aborts());
    }
    lemma_begun_lone::<K>(after.tm, t, recs);
}

proof fn lemma_still_followed(
    before: TransactionManager,
    after: TransactionManager,
    t: Transaction,
    now: u64,
    r: RecordView,
    by: RecordView,
)
    requires
        begun(before, after, t, now),
        r.xmax < before.next_txn_id,
    ensures
        followed(before, r, by) ==> followed(after, r, by),
{
    if after.in_flight(r.xmax) {
        assert(after.active_state.active@.dom().contains(r.xmax));
        assert(before.active_state.active@.dom().contains(r.xmax));
    }
}

/// A transaction that has begun is running, and so is whoever was running before.
pub proof fn law_begun_transactions_run<K: Key>(
    before: Engine<K>,
    after: Engine<K>,
    t: Transaction,
    now: u64,
    a: Transaction,
)
    requires
        before.wf(),
        coherent(before),
        begun(before.tm, after.tm, t, now),
        after.index == before.index,
    ensures
        coherent(after),
        runs(after, t),
        runs(before, a) ==> runs(after, a),
{
    lemma_begun_in_line::<K>(before, after, t, now);
    lemma_recorded_begun(
        before.tm,
        after.tm,
        before.index.store.log(),
        before.index.records(),
        t.txn_id,
    );
    assert(!bears(after.index.records(), t.txn_id)) by {
        let recs = before.index.records();
        assert forall|k: int| 0 <= k < recs.len() implies (#[trigger] recs[k]).xmin != t.txn_id
            && recs[k].xmax != t.txn_id by {
            assert(recs[k].xmin < before.tm.next_txn_id);
        }
    }
    assert(orderly(after.tm)) by {
        assert forall|id: u64| #[trigger] after.tm.aborts().contains_key(id) implies 1 <= id
            < after.tm.next_txn_id && !after.tm.in_flight(id) by {
            assert(before.tm.aborts().contains_key(id));
            assert(!before.tm.in_flight(id));
            assert(!before.tm.active_state.active@.dom().contains(id));
            assert(!after.tm.active_state.active@.dom().contains(id));
        }
    }
    assert(after.tm.active_state.active@.dom().contains(t.txn_id));
    assert forall|id: u64| #[trigger] after.tm.in_flight(id) && id < t.snapshot.xmax implies
        t.snapshot.active@.contains(id) by {
        law_snapshot_xmin(after.tm, t.snapshot, id);
    }
    assert forall|id: u64| #[trigger] t.snapshot.aborted@.contains(id) implies 1 <= id
        < t.snapshot.xmax && !after.tm.in_flight(id) by {
        law_snapshot_xmin(after.tm, t.snapshot, id);
    }
    let recs = after.index.records();
    assert forall|k: int| 0 <= k < recs.len() implies remembered(
        after.tm.settled(),
        &t,
        #[trigger] recs[k],
    ) by {
        law_snapshot_xmin(after.tm, t.snapshot, recs[k].xmax);
    }
    if runs(before, a) {
        assert(before.tm.active_state.active@.dom().contains(a.txn_id));
        assert(after.tm.active_state.active@.dom().contains(a.txn_id));
        assert forall|id: u64| #[trigger] after.tm.in_flight(id) && id < a.snapshot.xmax implies
            a.snapshot.active@.contains(id) by {
            assert(after.tm.active_state.active@.dom().contains(id));
            assert(before.tm.in_flight(id));
        }
        assert forall|id: u64| #[trigger] a.snapshot.aborted@.contains(id) implies 1 <= id
            < a.snapshot.xmax && !after.tm.in_flight(id) by {
            assert(!before.tm.in_flight(id));
            if after.tm.in_flight(id) {
                assert(after.tm.active_state.active@.dom().contains(id));
            }
        }
        assert forall|k: int| 0 <= k < recs.len() implies remembered(
            after.tm.settled(),
            &a,
            #[trigger] recs[k],
        ) by {
            assert(remembered(before.tm.settled(), &a, before.index.records()[k]));
        }
    }
}

/// Whether a transaction sees at most one version of a key.
pub open spec fn sole<K: Key>(e: Engine<K>, txn: Transaction, key: Seq<u8>) -> bool {
    forall|i: int, j: int|
        0 <= i < e.index.records().len() && 0 <= j < e.index.records().len() && visible::<K>(
            &txn,
            e.tm.aborts(),
            key,
            #[trigger] e.index.records()[i],
        ) && visible::<K>(&txn, e.tm.aborts(), key, #[trigger] e.index.records()[j]) ==> i == j
}

/// A running transaction sees at most one version of a key.
pub proof fn law_one_version<K: Key>(e: Engine<K>, txn: Transaction, key: Seq<u8>)
    requires
        runs(e, txn),
    ensures
        sole(e, txn, key),
{
    K::le_laws();
    let recs = e.index.records();
    assert forall|i: int, j: int|
        0 <= i < recs.len() && 0 <= j < recs.len() && visible::<K>(
            &txn,
            e.tm.aborts(),
            key,
            #[trigger] recs[i],
        ) && visible::<K>(&txn, e.tm.aborts(), key, #[trigger] recs[j]) implies i == j by {
        assert(K::le(recs[i].key, key) && K::le(key, recs[j].key));
        assert(K::le(recs[j].key, key) && K::le(key, recs[i].key));
        assert(key_eq::<K>(recs[i].key, recs[j].key));
    }
}

/// Keys that compare equal are cut off by a bound alike.
proof fn lemma_bound_of_equals<K: Key>(b: &KeyBound, k: Seq<u8>, l: Seq<u8>)
    requires
        key_eq::<K>(k, l),
    ensures
        b.starts_before::<K>(k) == b.starts_before::<K>(l),
        b.ends_after::<K>(k) == b.ends_after::<K>(l),
{
    K::le_laws();
}

/// A range holds what single reads give: for a running transaction, each entry of a
/// range lies between the bounds and reading its key gives its value; whatever key
/// between the bounds reads as something is in it with that value; and the keys
/// ascend strictly, so that each occurs once.
pub proof fn law_ranges_hold_what_reads_give<K: Key>(
    e: Engine<K>,
    txn: Transaction,
    start: KeyBound,
    end: KeyBound,
)
    requires
        e.wf(),
        runs(e, txn),
    ensures
        ({
            let ps = range_pairs(&e.index, &txn, e.tm.aborts(), &start, &end);
            &&& forall|i: int, j: int|
                0 <= i < j < ps.len() ==> K::le((#[trigger] ps[i]).0, (#[trigger] ps[j]).0)
                    && !key_eq::<K>(ps[i].0, ps[j].0)
            &&& forall|i: int|
                0 <= i < ps.len() ==> start.starts_before::<K>((#[trigger] ps[i]).0)
                    && end.ends_after::<K>(ps[i].0)
            &&& forall|i: int, got: Option<Vec<u8>>|
                0 <= i < ps.len() && #[trigger] read_result(
                    e,
                    txn,
                    (#[trigger] ps[i]).0,
                    got,
                ) ==> (got matches Some(v) && v@ == ps[i].1)
            &&& forall|key: Seq<u8>, v: Vec<u8>|
                start.starts_before::<K>(key) && end.ends_after::<K>(key) && #[trigger] read_result(
                    e,
                    txn,
                    key,
                    Some(v),
                ) ==> exists|i: int|
                    0 <= i < ps.len() && key_eq::<K>((#[trigger] ps[i]).0, key) && ps[i].1 == v@
        }),
{
    K::le_laws();
    let recs = e.index.records();
    let aborts = e.tm.aborts();
    let f = |r: RecordView|
        txn.sees(aborts, r.xmin, r.xmax) && start.starts_before::<K>(r.key)
            && end.ends_after::<K>(r.key);
    let hs = in_range::<K>(&txn, aborts, &start, &end, recs);
    assert(hs == recs.filter(f));
    let ps = range_pairs(&e.index, &txn, aborts, &start, &end);
    law_records_are_sorted::<K>(e.index.tree());
    assert forall|i: int, j: int| 0 <= i < j < ps.len() implies K::le(
        (#[trigger] ps[i]).0,
        (#[trigger] ps[j]).0,
    ) && !key_eq::<K>(ps[i].0, ps[j].0) by {
        let (a, b) = lemma_filter_order(recs, f, i, j);
        assert(K::le(recs[a].key, recs[b].key));
        if key_eq::<K>(recs[a].key, recs[b].key) {
            assert(!(txn.sees(aborts, recs[a].xmin, recs[a].xmax) && txn.sees(
                aborts,
                recs[b].xmin,
                recs[b].xmax,
            )));
        }
    }
    assert forall|i: int| 0 <= i < ps.len() implies start.starts_before::<K>((#[trigger] ps[i]).0)
        && end.ends_after::<K>(ps[i].0) by {
        let a = lemma_filter_place(recs, f, i);
    }
    assert forall|i: int, got: Option<Vec<u8>>|
        0 <= i < ps.len() && #[trigger] read_result(e, txn, (#[trigger] ps[i]).0, got) implies (
    got matches Some(v) && v@ == ps[i].1) by {
        let a = lemma_filter_place(recs, f, i);
        assert(visible::<K>(&txn, aborts, ps[i].0, recs[a]));
        law_one_version(e, txn, ps[i].0);
    }
    assert forall|key: Seq<u8>, v: Vec<u8>|
        start.starts_before::<K>(key) && end.ends_after::<K>(key) && #[trigger] read_result(
            e,
            txn,
            key,
            Some(v),
        ) implies exists|i: int|
        0 <= i < ps.len() && key_eq::<K>((#[trigger] ps[i]).0, key) && ps[i].1 == v@ by {
        let k = choose|k: int|
            0 <= k < recs.len() && visible::<K>(&txn, aborts, key, #[trigger] recs[k]) && v@
                == e.index.content(recs[k]);
        lemma_bound_of_equals::<K>(&start, recs[k].key, key);
        lemma_bound_of_equals::<K>(&end, recs[k].key, key);
        assert(f(recs[k]));
        recs.lemma_filter_contains(f, k);
        let i = choose|i: int| 0 <= i < hs.len() && hs[i] == recs[k];
        assert(ps[i] == (recs[k].key, e.index.content(recs[k])));
    }
}

/// Whoever begins sees the version of a key that has been committed and that no
/// committed transaction has deleted.
pub proof fn law_live_versions_are_seen<K: Key>(
    before: Engine<K>,
    after: Engine<K>,
    t: Transaction,
    now: u64,
    k: int,
)
    requires
        before.wf(),
        coherent(before),
        begun(before.tm, after.tm, t, now),
        after.index == before.index,
        0 <= k < before.index.records().len(),
        ({
            let r = before.index.records()[k];
            &&& !before.tm.in_flight(r.xmin) && !before.tm.aborts().contains_key(r.xmin)
            &&& r.xmax == 0 || before.tm.in_flight(r.xmax) || before.tm.aborts().contains_key(
                r.xmax,
            )
        }),
    ensures
        visible::<K>(
            &t,
            after.tm.aborts(),
            after.index.records()[k].key,
            after.index.records()[k],
        ),
        sole(after, t, after.index.records()[k].key),
{
    let r = after.index.records()[k];
    K::le_laws();
    law_begun_transactions_run(before, after, t, now, t);
    law_one_version(after, t, r.key);
    law_snapshot_xmin(after.tm, t.snapshot, r.xmin);
    law_snapshot_xmin(after.tm, t.snapshot, r.xmax);
    assert(before.index.records()[k].xmin < before.tm.next_txn_id);
    assert(!before.tm.active_state.active@.dom().contains(r.xmin));
    assert(!after.tm.active_state.active@.dom().contains(r.xmin));
    if before.tm.in_flight(r.xmax) {
        assert(after.tm.active_state.active@.dom().contains(r.xmax));
    }
}

/// Whether a transaction does not see what another one does, which is still
/// running.
spec fn apart<K: Key>(e: Engine<K>, a: Transaction, b: Transaction) -> bool {
    &&& a.txn_id != b.txn_id
    &&& b.txn_id != 0
    &&& !a.snapshot.sees(e.tm.aborts(), b.txn_id)
    &&& !a.snapshot.aborted@.contains(b.txn_id)
}

proof fn lemma_kin_visible<K: Key>(
    e: Settled,
    txn: Transaction,
    key: Seq<u8>,
    r: RecordView,
    x: RecordView,
)
    requires
        protected(e, &txn),
        remembered(e, &txn, r),
        x == r || x == cleared(e, r),
    ensures
        visible::<K>(&txn, e.aborts, key, x) == visible::<K>(&txn, e.aborts, key, r),
{
    law_dead_versions_are_invisible(e, &txn, r);
}

/// Dead versions that have gone and stamps that have been cleared make no
/// difference to what a transaction sees.
proof fn lemma_swept_visible<K: Key>(
    e: Settled,
    txn: Transaction,
    key: Seq<u8>,
    recs: Seq<RecordView>,
    base: Seq<RecordView>,
    i: int,
) -> (j: int)
    requires
        protected(e, &txn),
        forall|k: int| 0 <= k < recs.len() ==> remembered(e, &txn, #[trigger] recs[k]),
        survivors(e, base) == survivors(e, recs),
        forall|k: int| 0 <= k < base.len() ==> kin(e, recs, #[trigger] base[k]),
        0 <= i < recs.len(),
        visible::<K>(&txn, e.aborts, key, recs[i]),
    ensures
        0 <= j < base.len(),
        visible::<K>(&txn, e.aborts, key, base[j]),
        base[j] == with_xmax(recs[i], base[j].xmax),
{
    let r = recs[i];
    law_dead_versions_are_invisible(e, &txn, r);
    let c = cleared(e, r);
    lemma_survivors_member(e, recs, c);
    lemma_survivors_member(e, base, c);
    assert(survivors(e, recs).contains(c));
    let j = choose|j: int|
        0 <= j < base.len() && !dead(e, #[trigger] base[j]) && c == cleared(e, base[j]);
    let b = base[j];
    assert(kin(e, recs, b));
    let k = choose|k: int| 0 <= k < recs.len() && (b == #[trigger] recs[k] || b == cleared(
        e,
        recs[k],
    ));
    lemma_kin_visible::<K>(e, txn, key, recs[k], b);
    lemma_kin_visible::<K>(e, txn, key, r, c);
    lemma_kin_visible::<K>(e, txn, key, recs[k], cleared(e, recs[k]));
    assert(c == cleared(e, recs[k]));
    j
}

/// What a transaction sees when a version has entered.
proof fn lemma_entered_visible<K: Key>(
    before: BTreeIndex<K>,
    after: BTreeIndex<K>,
    e: Settled,
    recs: Seq<RecordView>,
    base: Seq<RecordView>,
    k: int,
    v: RecordView,
    txn: Transaction,
    key: Seq<u8>,
    j: int,
)
    requires
        entered(&before, &after, e, recs, base, k, v),
        protected(e, &txn),
        forall|i: int| 0 <= i < recs.len() ==> remembered(e, &txn, #[trigger] recs[i]),
        0 <= j < after.records().len(),
        visible::<K>(&txn, e.aborts, key, after.records()[j]),
    ensures
        (j == k && after.records()[j] == v) || exists|i: int|
            0 <= i < recs.len() && visible::<K>(&txn, e.aborts, key, #[trigger] recs[i])
                && after.records()[j] == with_xmax(recs[i], after.records()[j].xmax)
                && after.content(after.records()[j]) == before.content(after.records()[j]),
{
    let r = after.records()[j];
    if j == k {
        assert(r == v);
    } else {
        let q = if j < k {
            j
        } else {
            j - 1
        };
        assert(base[q] == r);
        assert(kin(e, recs, base[q]));
        let i = choose|i: int|
            0 <= i < recs.len() && (r == #[trigger] recs[i] || r == cleared(e, recs[i]));
        lemma_kin_visible::<K>(e, txn, key, recs[i], r);
    }
}

/// A transaction reads what it has inserted.
pub proof fn law_insert_is_read_back<K: Key>(
    before: Engine<K>,
    after: Engine<K>,
    txn: Transaction,
    key: Seq<u8>,
    value: Seq<u8>,
    got: Option<Vec<u8>>,
)
    requires
        runs(before, txn),
        insert_result::<K>(before, after, txn, key, value, Ok(())),
        read_result::<K>(after, txn, key, got),
    ensures
        got matches Some(v) && v@ == value,
{
    lemma_attends(before, txn);
    let e = before.tm.settled();
    let recs = before.index.records();
    let (base, k, v) = choose|base: Seq<RecordView>, k: int, v: RecordView| #[trigger]
        entered(&before.index, &after.index, e, recs, base, k, v) && stored_as(
            &after.index,
            v,
            key,
            value,
            txn.txn_id,
        );
    let now = after.index.records();
    K::le_laws();
    assert(now[k] == v);
    assert(visible::<K>(&txn, after.tm.aborts(), key, now[k]));
    let j = choose|j: int|
        0 <= j < now.len() && visible::<K>(&txn, after.tm.aborts(), key, #[trigger] now[j])
            && got->0@ == after.index.content(now[j]);
    lemma_entered_visible::<K>(before.index, after.index, e, recs, base, k, v, txn, key, j);
    if j != k {
        let i = choose|i: int|
            0 <= i < recs.len() && visible::<K>(&txn, e.aborts, key, #[trigger] recs[i])
                && now[j] == with_xmax(recs[i], now[j].xmax);
        assert(unopposed::<K>(&txn, &before.tm, key, recs[i]));
    }
}

/// A transaction reads what it has updated.
pub proof fn law_update_is_read_back<K: Key>(
    before: Engine<K>,
    after: Engine<K>,
    txn: Transaction,
    key: Seq<u8>,
    value: Seq<u8>,
    got: Option<Vec<u8>>,
)
    requires
        runs(before, txn),
        update_result::<K>(before, after, txn, key, value, Ok(())),
        read_result::<K>(after, txn, key, got),
    ensures
        got matches Some(v) && v@ == value,
{
    lemma_attends(before, txn);
    law_one_version(before, txn, key);
    let e = before.tm.settled();
    let old = before.index.records();
    let (m, x) = choose|m: int, x: Result<(), IndexError>|
        0 <= m < old.len() && #[trigger] superseded(
            &before.index,
            &after.index,
            key,
            value,
            &txn,
            &before.tm,
            m,
            x,
        ) && Ok::<(), EngineError>(()) == (match x {
            Ok(()) => Ok::<(), EngineError>(()),
            Err(e) => Err(outcome(e, txn.txn_id)),
        });
    let recs = old.update(m, with_xmax(old[m], txn.txn_id));
    let (base, k, v) = choose|base: Seq<RecordView>, k: int, v: RecordView| #[trigger]
        entered(&before.index, &after.index, e, recs, base, k, v) && stored_as(
            &after.index,
            v,
            key,
            value,
            txn.txn_id,
        );
    let now = after.index.records();
    K::le_laws();
    assert(now[k] == v);
    assert(visible::<K>(&txn, after.tm.aborts(), key, now[k]));
    lemma_marked(e, txn, old, recs, m, txn.txn_id);
    assert forall|j: int| 0 <= j < now.len() && visible::<K>(
        &txn,
        after.tm.aborts(),
        key,
        #[trigger] now[j],
    ) implies j == k by {
        lemma_entered_visible::<K>(before.index, after.index, e, recs, base, k, v, txn, key, j);
        if j != k {
            let i = choose|i: int|
                0 <= i < recs.len() && visible::<K>(&txn, e.aborts, key, #[trigger] recs[i])
                    && now[j] == with_xmax(recs[i], now[j].xmax);
            if i != m {
                assert(recs[i] == old[i]);
                assert(visible::<K>(&txn, before.tm.aborts(), key, old[i]));
                assert(visible::<K>(&txn, before.tm.aborts(), key, old[m]));
            }
        }
    }
}

/// The stamp of a transaction that is still running does not make anybody forget
/// anything.
proof fn lemma_marked(
    e: Settled,
    txn: Transaction,
    old: Seq<RecordView>,
    recs: Seq<RecordView>,
    m: int,
    by: u64,
)
    requires
        forall|k: int| 0 <= k < old.len() ==> remembered(e, &txn, #[trigger] old[k]),
        0 <= m < old.len(),
        recs == old.update(m, with_xmax(old[m], by)),
        !txn.snapshot.aborted@.contains(by),
    ensures
        forall|k: int| 0 <= k < recs.len() ==> remembered(e, &txn, #[trigger] recs[k]),
{
    assert forall|k: int| 0 <= k < recs.len() implies remembered(e, &txn, #[trigger] recs[k]) by {
        if k != m {
            assert(recs[k] == old[k]);
        }
    }
}

/// A transaction reads nothing under a key that it has deleted.
pub proof fn law_delete_hides<K: Key>(
    before: Engine<K>,
    after: Engine<K>,
    txn: Transaction,
    key: Seq<u8>,
    got: Option<Vec<u8>>,
)
    requires
        runs(before, txn),
        delete_result::<K>(before, after, txn, key, Ok(())),
        read_result::<K>(after, txn, key, got),
    ensures
        got is None,
{
    law_one_version(before, txn, key);
    let old = before.index.records();
    let now = after.index.records();
    let m = choose|m: int|
        {
            let v = #[trigger] old[m];
            &&& 0 <= m < old.len()
            &&& visible::<K>(&txn, before.tm.aborts(), key, v)
            &&& now == old.update(m, with_xmax(v, txn.txn_id))
        };
    assert forall|j: int| 0 <= j < now.len() implies !visible::<K>(
        &txn,
        after.tm.aborts(),
        key,
        #[trigger] now[j],
    ) by {
        if j != m {
            assert(now[j] == old[j]);
            if visible::<K>(&txn, before.tm.aborts(), key, old[j]) {
                assert(visible::<K>(&txn, before.tm.aborts(), key, old[m]));
            }
        }
    }
}

/// Whether a transaction reads the same under a key before and after.
pub open spec fn reads_alike<K: Key>(
    before: Engine<K>,
    after: Engine<K>,
    txn: Transaction,
    key: Seq<u8>,
) -> bool {
    forall|got: Option<Vec<u8>>| #[trigger]
        read_result::<K>(before, txn, key, got) <==> read_result::<K>(after, txn, key, got)
}

/// A transaction sees the same when every version that it sees has a counterpart
/// with the same value, both ways.
pub proof fn lemma_reads_alike<K: Key>(
    before: Engine<K>,
    after: Engine<K>,
    txn: Transaction,
    key: Seq<u8>,
)
    requires
        forall|i: int|
            0 <= i < before.index.records().len() && visible::<K>(
                &txn,
                before.tm.aborts(),
                key,
                #[trigger] before.index.records()[i],
            ) ==> exists|j: int|
                0 <= j < after.index.records().len() && visible::<K>(
                    &txn,
                    after.tm.aborts(),
                    key,
                    #[trigger] after.index.records()[j],
                ) && after.index.content(after.index.records()[j]) == before.index.content(
                    before.index.records()[i],
                ),
        forall|j: int|
            0 <= j < after.index.records().len() && visible::<K>(
                &txn,
                after.tm.aborts(),
                key,
                #[trigger] after.index.records()[j],
            ) ==> exists|i: int|
                0 <= i < before.index.records().len() && visible::<K>(
                    &txn,
                    before.tm.aborts(),
                    key,
                    #[trigger] before.index.records()[i],
                ) && after.index.content(after.index.records()[j]) == before.index.content(
                    before.index.records()[i],
                ),
    ensures
        reads_alike(before, after, txn, key),
{
    assert(nothing_visible(before, txn, key) == nothing_visible(after, txn, key));
}

/// Where the records and their values are the same, and the transactions that have
/// been given up since were not seen, a transaction reads the same.
proof fn lemma_untouched<K: Key>(
    before: Engine<K>,
    after: Engine<K>,
    txn: Transaction,
    key: Seq<u8>,
)
    requires
        after.index.records() == before.index.records(),
        after.index.store.pages().chunks == before.index.store.pages().chunks,
        after.index.chains@ == before.index.chains@,
        forall|id: u64|
            txn.snapshot.sees(after.tm.aborts(), id) == #[trigger] txn.snapshot.sees(
                before.tm.aborts(),
                id,
            ),
    ensures
        reads_alike(before, after, txn, key),
{
    let old = before.index.records();
    let now = after.index.records();
    assert forall|i: int|
        0 <= i < old.len() && visible::<K>(
            &txn,
            before.tm.aborts(),
            key,
            #[trigger] old[i],
        ) implies exists|j: int|
        0 <= j < now.len() && visible::<K>(&txn, after.tm.aborts(), key, #[trigger] now[j])
            && after.index.content(now[j]) == before.index.content(old[i]) by {
        assert(visible::<K>(&txn, after.tm.aborts(), key, now[i]));
    }
    assert forall|j: int|
        0 <= j < now.len() && visible::<K>(
            &txn,
            after.tm.aborts(),
            key,
            #[trigger] now[j],
        ) implies exists|i: int|
        0 <= i < old.len() && visible::<K>(&txn, before.tm.aborts(), key, #[trigger] old[i])
            && after.index.content(now[j]) == before.index.content(old[i]) by {
        assert(visible::<K>(&txn, before.tm.aborts(), key, old[j]));
    }
    lemma_reads_alike::<K>(before, after, txn, key);
}

proof fn lemma_entered_alike<K: Key>(
    before: Engine<K>,
    after: Engine<K>,
    recs: Seq<RecordView>,
    base: Seq<RecordView>,
    k: int,
    v: RecordView,
    txn: Transaction,
    key: Seq<u8>,
)
    requires
        attends(before, txn),
        entered(&before.index, &after.index, before.tm.settled(), recs, base, k, v),
        after.tm.aborts() == before.tm.aborts(),
        forall|i: int|
            0 <= i < recs.len() ==> remembered(before.tm.settled(), &txn, #[trigger] recs[i]),
        recs.len() == before.index.records().len(),
        forall|i: int|
            0 <= i < recs.len() ==> (#[trigger] recs[i]) == with_xmax(
                before.index.records()[i],
                recs[i].xmax,
            ) && visible::<K>(&txn, before.tm.aborts(), key, recs[i]) == visible::<K>(
                &txn,
                before.tm.aborts(),
                key,
                before.index.records()[i],
            ),
        !visible::<K>(&txn, before.tm.aborts(), key, v),
    ensures
        reads_alike(before, after, txn, key),
{
    let e = before.tm.settled();
    let old = before.index.records();
    let now = after.index.records();
    assert forall|i: int|
        0 <= i < old.len() && visible::<K>(
            &txn,
            before.tm.aborts(),
            key,
            #[trigger] old[i],
        ) implies exists|j: int|
        0 <= j < now.len() && visible::<K>(&txn, after.tm.aborts(), key, #[trigger] now[j])
            && after.index.content(now[j]) == before.index.content(old[i]) by {
        assert(visible::<K>(&txn, e.aborts, key, recs[i]));
        let q = lemma_swept_visible::<K>(e, txn, key, recs, base, i);
        let j = if q < k {
            q
        } else {
            q + 1
        };
        assert(now[j] == base[q]);
        assert(after.index.content(base[q]) == before.index.content(base[q]));
        assert(before.index.content(base[q]) == before.index.content(old[i]));
    }
    assert forall|j: int|
        0 <= j < now.len() && visible::<K>(
            &txn,
            after.tm.aborts(),
            key,
            #[trigger] now[j],
        ) implies exists|i: int|
        0 <= i < old.len() && visible::<K>(&txn, before.tm.aborts(), key, #[trigger] old[i])
            && after.index.content(now[j]) == before.index.content(old[i]) by {
        lemma_entered_visible::<K>(before.index, after.index, e, recs, base, k, v, txn, key, j);
        let i = choose|i: int|
            0 <= i < recs.len() && visible::<K>(&txn, e.aborts, key, #[trigger] recs[i]) && now[j]
                == with_xmax(recs[i], now[j].xmax) && after.index.content(now[j])
                == before.index.content(now[j]);
        assert(visible::<K>(&txn, before.tm.aborts(), key, old[i]));
        assert(before.index.content(now[j]) == before.index.content(old[i]));
    }
    lemma_reads_alike::<K>(before, after, txn, key);
}

/// What another transaction inserts changes nothing that a transaction reads.
pub proof fn law_reads_repeat_over_insert<K: Key>(
    before: Engine<K>,
    after: Engine<K>,
    a: Transaction,
    b: Transaction,
    key: Seq<u8>,
    other: Seq<u8>,
    value: Seq<u8>,
    r: Result<(), EngineError>,
)
    requires
        runs(before, a),
        before.tm.in_flight(b.txn_id),
        a.txn_id != b.txn_id,
        insert_result::<K>(before, after, b, other, value, r),
    ensures
        reads_alike(before, after, a, key),
{
    lemma_attends(before, a);
    lemma_apart(before, a, b);
    if r is Err {
        lemma_untouched::<K>(before, after, a, key);
    } else {
        lemma_insert_alike::<K>(before, after, a, b, key, other, value);
    }
}

proof fn lemma_insert_alike<K: Key>(
    before: Engine<K>,
    after: Engine<K>,
    a: Transaction,
    b: Transaction,
    key: Seq<u8>,
    other: Seq<u8>,
    value: Seq<u8>,
)
    requires
        attends(before, a),
        apart(before, a, b),
        insert_result::<K>(before, after, b, other, value, Ok(())),
    ensures
        reads_alike(before, after, a, key),
{
    let e = before.tm.settled();
    let old = before.index.records();
    let (base, k, v) = choose|base: Seq<RecordView>, k: int, v: RecordView| #[trigger]
        entered(&before.index, &after.index, e, old, base, k, v) && stored_as(
            &after.index,
            v,
            other,
            value,
            b.txn_id,
        );
    lemma_entered_alike::<K>(before, after, old, base, k, v, a, key);
}

/// What another transaction updates changes nothing that a transaction reads.
pub proof fn law_reads_repeat_over_update<K: Key>(
    before: Engine<K>,
    after: Engine<K>,
    a: Transaction,
    b: Transaction,
    key: Seq<u8>,
    other: Seq<u8>,
    value: Seq<u8>,
    r: Result<(), EngineError>,
)
    requires
        runs(before, a),
        before.tm.in_flight(b.txn_id),
        a.txn_id != b.txn_id,
        update_result::<K>(before, after, b, other, value, r),
    ensures
        reads_alike(before, after, a, key),
{
    lemma_attends(before, a);
    lemma_apart(before, a, b);
    if r is Err {
        lemma_untouched::<K>(before, after, a, key);
    } else {
        lemma_update_alike::<K>(before, after, a, b, key, other, value);
    }
}

proof fn lemma_update_alike<K: Key>(
    before: Engine<K>,
    after: Engine<K>,
    a: Transaction,
    b: Transaction,
    key: Seq<u8>,
    other: Seq<u8>,
    value: Seq<u8>,
)
    requires
        attends(before, a),
        apart(before, a, b),
        update_result::<K>(before, after, b, other, value, Ok(())),
    ensures
        reads_alike(before, after, a, key),
{
    let e = before.tm.settled();
    let old = before.index.records();
    let (m, x) = choose|m: int, x: Result<(), IndexError>|
        0 <= m < old.len() && #[trigger] superseded(
            &before.index,
            &after.index,
            other,
            value,
            &b,
            &before.tm,
            m,
            x,
        ) && Ok::<(), EngineError>(()) == (match x {
            Ok(()) => Ok::<(), EngineError>(()),
            Err(e) => Err(outcome(e, b.txn_id)),
        });
    let recs = old.update(m, with_xmax(old[m], b.txn_id));
    let (base, k, v) = choose|base: Seq<RecordView>, k: int, v: RecordView| #[trigger]
        entered(&before.index, &after.index, e, recs, base, k, v) && stored_as(
            &after.index,
            v,
            other,
            value,
            b.txn_id,
        );
    lemma_marked(e, a, old, recs, m, b.txn_id);
    lemma_replaced::<K>(before, a, b, key, m);
    assert forall|i: int| 0 <= i < recs.len() implies (#[trigger] recs[i]) == with_xmax(
        old[i],
        recs[i].xmax,
    ) && visible::<K>(&a, before.tm.aborts(), key, recs[i]) == visible::<K>(
        &a,
        before.tm.aborts(),
        key,
        old[i],
    ) by {
        if i != m {
            assert(recs[i] == old[i]);
        }
    }
    lemma_entered_alike::<K>(before, after, recs, base, k, v, a, key);
}

/// A version that may be changed looks the same when it has got the stamp of
/// somebody whom one does not see.
proof fn lemma_replaced<K: Key>(
    e: Engine<K>,
    a: Transaction,
    b: Transaction,
    key: Seq<u8>,
    m: int,
)
    requires
        attends(e, a),
        apart(e, a, b),
        0 <= m < e.index.records().len(),
        write_conflict(&b, &e.tm, e.index.records()[m].xmax) is None,
    ensures
        visible::<K>(
            &a,
            e.tm.aborts(),
            key,
            with_xmax(e.index.records()[m], b.txn_id),
        ) == visible::<K>(&a, e.tm.aborts(), key, e.index.records()[m]),
{
    let r = e.index.records()[m];
    assert(remembered(e.tm.settled(), &a, r));
}

/// What another transaction deletes changes nothing that a transaction reads.
pub proof fn law_reads_repeat_over_delete<K: Key>(
    before: Engine<K>,
    after: Engine<K>,
    a: Transaction,
    b: Transaction,
    key: Seq<u8>,
    other: Seq<u8>,
    r: Result<(), EngineError>,
)
    requires
        runs(before, a),
        before.tm.in_flight(b.txn_id),
        a.txn_id != b.txn_id,
        delete_result::<K>(before, after, b, other, r),
    ensures
        reads_alike(before, after, a, key),
{
    lemma_attends(before, a);
    lemma_apart(before, a, b);
    if r is Err {
        lemma_untouched::<K>(before, after, a, key);
    } else {
        lemma_delete_alike::<K>(before, after, a, b, key, other);
    }
}

proof fn lemma_delete_alike<K: Key>(
    before: Engine<K>,
    after: Engine<K>,
    a: Transaction,
    b: Transaction,
    key: Seq<u8>,
    other: Seq<u8>,
)
    requires
        attends(before, a),
        apart(before, a, b),
        delete_result::<K>(before, after, b, other, Ok(())),
    ensures
        reads_alike(before, after, a, key),
{
    let old = before.index.records();
    let now = after.index.records();
    let m = choose|m: int|
        {
            let v = #[trigger] old[m];
            &&& 0 <= m < old.len()
            &&& visible::<K>(&b, before.tm.aborts(), other, v)
            &&& write_conflict(&b, &before.tm, v.xmax) is None
            &&& now == old.update(m, with_xmax(v, b.txn_id))
        };
    lemma_replaced::<K>(before, a, b, key, m);
    assert forall|i: int|
        0 <= i < old.len() && visible::<K>(
            &a,
            before.tm.aborts(),
            key,
            #[trigger] old[i],
        ) implies exists|j: int|
        0 <= j < now.len() && visible::<K>(&a, after.tm.aborts(), key, #[trigger] now[j])
            && after.index.content(now[j]) == before.index.content(old[i]) by {
        assert(visible::<K>(&a, after.tm.aborts(), key, now[i]));
        assert(after.index.content(now[i]) == before.index.content(old[i]));
    }
    assert forall|j: int|
        0 <= j < now.len() && visible::<K>(
            &a,
            after.tm.aborts(),
            key,
            #[trigger] now[j],
        ) implies exists|i: int|
        0 <= i < old.len() && visible::<K>(&a, before.tm.aborts(), key, #[trigger] old[i])
            && after.index.content(now[j]) == before.index.content(old[i]) by {
        assert(visible::<K>(&a, before.tm.aborts(), key, old[j]));
        assert(after.index.content(now[j]) == before.index.content(old[j]));
    }
    lemma_reads_alike::<K>(before, after, a, key);
}

/// That another transaction commits or is given up changes nothing that a
/// transaction reads.
pub proof fn law_reads_repeat_over_settling<K: Key>(
    before: Engine<K>,
    after: Engine<K>,
    a: Transaction,
    b: Transaction,
    key: Seq<u8>,
    r: Result<(), EngineError>,
)
    requires
        runs(before, a),
        before.tm.in_flight(b.txn_id),
        a.txn_id != b.txn_id,
        commit_result::<K>(before, after, b, r) || abort_result::<K>(before, after, b),
    ensures
        reads_alike(before, after, a, key),
{
    lemma_apart(before, a, b);
    lemma_untouched::<K>(before, after, a, key);
}

/// A sweep changes nothing that a transaction reads.
pub proof fn law_reads_repeat_over_vacuum<K: Key>(
    before: Engine<K>,
    after: Engine<K>,
    a: Transaction,
    key: Seq<u8>,
    r: Result<usize, EngineError>,
)
    requires
        runs(before, a),
        vacuum_result::<K>(before, after, r),
    ensures
        reads_alike(before, after, a, key),
{
    lemma_attends(before, a);
    if r is Ok {
        let e = before.tm.settled();
        let old = before.index.records();
        let now = after.index.records();
        assert forall|i: int|
            0 <= i < old.len() && visible::<K>(
                &a,
                before.tm.aborts(),
                key,
                #[trigger] old[i],
            ) implies exists|j: int|
            0 <= j < now.len() && visible::<K>(&a, after.tm.aborts(), key, #[trigger] now[j])
                && after.index.content(now[j]) == before.index.content(old[i]) by {
            law_dead_versions_are_invisible(e, &a, old[i]);
            let c = cleared(e, old[i]);
            lemma_survivors_member(e, old, c);
            let j = choose|j: int| 0 <= j < now.len() && now[j] == c;
            assert(visible::<K>(&a, after.tm.aborts(), key, now[j]));
            assert(before.index.content(c) == before.index.content(old[i]));
        }
        assert forall|j: int|
            0 <= j < now.len() && visible::<K>(
                &a,
                after.tm.aborts(),
                key,
                #[trigger] now[j],
            ) implies exists|i: int|
            0 <= i < old.len() && visible::<K>(&a, before.tm.aborts(), key, #[trigger] old[i])
                && after.index.content(now[j]) == before.index.content(old[i]) by {
            let c = now[j];
            lemma_survivors_member(e, old, c);
            let i = choose|i: int|
                0 <= i < old.len() && !dead(e, #[trigger] old[i]) && c == cleared(e, old[i]);
            law_dead_versions_are_invisible(e, &a, old[i]);
            assert(visible::<K>(&a, before.tm.aborts(), key, old[i]));
            assert(before.index.content(c) == before.index.content(old[i]));
        }
        lemma_reads_alike::<K>(before, after, a, key);
    }
}

/// What a write leaves as it should be for a transaction.
spec fn kept<K: Key>(
    tm: TransactionManager,
    a: Transaction,
    old: Seq<RecordView>,
    recs: Seq<RecordView>,
    by: u64,
) -> bool {
    &&& drawn(old, recs, by)
    &&& in_line::<K>(tm, recs)
    &&& lone::<K>(tm.aborts(), a, recs)
    &&& forall|k: int|
        0 <= k < recs.len() ==> remembered(tm.settled(), &a, #[trigger] recs[k])
}

proof fn lemma_kept_runs<K: Key>(
    before: Engine<K>,
    after: Engine<K>,
    a: Transaction,
    a1: Transaction,
    b: Transaction,
    ok: bool,
)
    requires
        runs(before, a),
        runs(before, b),
        after.tm.wf(),
        kept::<K>(
            before.tm,
            a,
            before.index.records(),
            after.index.records(),
            b.txn_id,
        ),
        written_by(before, after, b, ok),
        ok || after.index.records() == before.index.records(),
        marked_written(a, a1, ok && a.txn_id == b.txn_id),
        after.tm.next_txn_id == before.tm.next_txn_id,
        after.tm.active_state == before.tm.active_state,
        after.tm.horizon() == before.tm.horizon(),
    ensures
        runs(after, a1),
{
    let now = after.index.records();
    lemma_recorded_write(
        before.tm,
        after.tm,
        before.index.store.log(),
        after.index.store.log(),
        before.index.records(),
        now,
        b.txn_id,
    );
    if bears(now, a.txn_id) && !a1.wrote_anything {
        let k = choose|k: int|
            0 <= k < now.len() && ((#[trigger] now[k]).xmin == a.txn_id || now[k].xmax == a.txn_id);
        assert(bears(before.index.records(), a.txn_id));
    }
    assert(after.tm.settled() == before.tm.settled());
    assert forall|id: u64| #[trigger] after.tm.in_flight(id) == before.tm.in_flight(id) by {}
    assert(orderly(after.tm));
    assert forall|i: int, j: int|
        0 <= i < now.len() && 0 <= j < now.len() && i != j && key_eq::<K>(
            (#[trigger] now[i]).key,
            (#[trigger] now[j]).key,
        ) && !after.tm.aborts().contains_key(now[i].xmin) && !after.tm.aborts().contains_key(
            now[j].xmin,
        ) implies followed(after.tm, now[i], now[j]) || followed(after.tm, now[j], now[i]) by {
        assert(followed(before.tm, now[i], now[j]) || followed(before.tm, now[j], now[i]));
    }
}

proof fn lemma_insert_kept<K: Key>(
    before: Engine<K>,
    after: Engine<K>,
    a: Transaction,
    b: Transaction,
    key: Seq<u8>,
    value: Seq<u8>,
)
    requires
        runs(before, a),
        runs(before, b),
        a.txn_id == b.txn_id ==> a.snapshot == b.snapshot,
        insert_result::<K>(before, after, b, key, value, Ok(())),
    ensures
        kept::<K>(
            before.tm,
            a,
            before.index.records(),
            after.index.records(),
            b.txn_id,
        ),
{
    lemma_attends(before, a);
    let e = before.tm.settled();
    let old = before.index.records();
    let now = after.index.records();
    let (base, q, v) = choose|base: Seq<RecordView>, q: int, v: RecordView| #[trigger]
        entered(&before.index, &after.index, e, old, base, q, v) && stored_as(
            &after.index,
            v,
            key,
            value,
            b.txn_id,
        );
    assert forall|k: int| 0 <= k < now.len() implies remembered(e, &a, #[trigger] now[k]) by {
        lemma_entered_remembered(before.index, after.index, e, old, base, q, v, a, k);
    }
    assert forall|i: int|
        0 <= i < old.len() && key_eq::<K>((#[trigger] old[i]).key, v.key)
            && !before.tm.aborts().contains_key(old[i].xmin) implies followed(
        before.tm,
        old[i],
        v,
    ) by {
        assert(unopposed::<K>(&b, &before.tm, key, old[i]));
        lemma_unopposed_followed(before.tm, b, old[i], v);
    }
    lemma_entered_in_line::<K>(before.index, after.index, before.tm, old, base, q, v);
    if a.txn_id != b.txn_id {
        lemma_apart(before, a, b);
    } else {
        assert forall|i: int|
            0 <= i < old.len() && key_eq::<K>((#[trigger] old[i]).key, v.key) implies !a.sees(
            e.aborts,
            old[i].xmin,
            old[i].xmax,
        ) by {
            assert(unopposed::<K>(&b, &before.tm, key, old[i]));
        }
    }
    lemma_entered_lone::<K>(before.index, after.index, e, old, base, q, v, a);
    assert(drawn(old, old, b.txn_id)) by {
        if old.len() > 0 {
            lemma_drawn_marked(old, 0, b.txn_id);
        }
    }
    lemma_drawn_entered(before.index, after.index, e, old, base, q, v, old, b.txn_id);
}

proof fn lemma_update_kept<K: Key>(
    before: Engine<K>,
    after: Engine<K>,
    a: Transaction,
    b: Transaction,
    key: Seq<u8>,
    value: Seq<u8>,
)
    requires
        runs(before, a),
        runs(before, b),
        a.txn_id == b.txn_id ==> a.snapshot == b.snapshot,
        update_result::<K>(before, after, b, key, value, Ok(())),
    ensures
        kept::<K>(
            before.tm,
            a,
            before.index.records(),
            after.index.records(),
            b.txn_id,
        ),
{
    lemma_attends(before, a);
    let e = before.tm.settled();
    let old = before.index.records();
    let now = after.index.records();
    let (m, x) = choose|m: int, x: Result<(), IndexError>|
        0 <= m < old.len() && #[trigger] superseded(
            &before.index,
            &after.index,
            key,
            value,
            &b,
            &before.tm,
            m,
            x,
        ) && Ok::<(), EngineError>(()) == (match x {
            Ok(()) => Ok::<(), EngineError>(()),
            Err(e) => Err(outcome(e, b.txn_id)),
        });
    let recs = old.update(m, with_xmax(old[m], b.txn_id));
    let (base, q, v) = choose|base: Seq<RecordView>, q: int, v: RecordView| #[trigger]
        entered(&before.index, &after.index, e, recs, base, q, v) && stored_as(
            &after.index,
            v,
            key,
            value,
            b.txn_id,
        );
    K::le_laws();
    lemma_mark_kept::<K>(before, a, b, m);
    lemma_marked_in_line::<K>(before.tm, b, old, m);
    assert forall|k: int| 0 <= k < now.len() implies remembered(e, &a, #[trigger] now[k]) by {
        lemma_entered_remembered(before.index, after.index, e, recs, base, q, v, a, k);
    }
    assert forall|i: int|
        0 <= i < recs.len() && key_eq::<K>((#[trigger] recs[i]).key, v.key)
            && !before.tm.aborts().contains_key(recs[i].xmin) implies followed(
        before.tm,
        recs[i],
        v,
    ) by {
        if i != m {
            assert(recs[i] == old[i]);
            assert(key_eq::<K>(old[i].key, old[m].key));
            assert(followed(before.tm, old[i], old[m]));
        }
    }
    lemma_entered_in_line::<K>(before.index, after.index, before.tm, recs, base, q, v);
    if a.txn_id != b.txn_id {
        lemma_apart(before, a, b);
    } else {
        assert forall|i: int|
            0 <= i < recs.len() && key_eq::<K>((#[trigger] recs[i]).key, v.key) implies !a.sees(
            e.aborts,
            recs[i].xmin,
            recs[i].xmax,
        ) by {
            if i != m {
                assert(recs[i] == old[i]);
                assert(key_eq::<K>(old[i].key, old[m].key));
            }
        }
    }
    lemma_entered_lone::<K>(before.index, after.index, e, recs, base, q, v, a);
    lemma_drawn_entered(before.index, after.index, e, recs, base, q, v, old, b.txn_id);
}

/// Marking a version as deleted, or as superseded.
proof fn lemma_mark_kept<K: Key>(e: Engine<K>, a: Transaction, b: Transaction, m: int)
    requires
        runs(e, a),
        runs(e, b),
        a.txn_id == b.txn_id ==> a.snapshot == b.snapshot,
        0 <= m < e.index.records().len(),
        b.sees(e.tm.aborts(), e.index.records()[m].xmin, e.index.records()[m].xmax),
        write_conflict(&b, &e.tm, e.index.records()[m].xmax) is None,
    ensures
        kept::<K>(
            e.tm,
            a,
            e.index.records(),
            e.index.records().update(m, with_xmax(e.index.records()[m], b.txn_id)),
            b.txn_id,
        ),
{
    let old = e.index.records();
    let recs = old.update(m, with_xmax(old[m], b.txn_id));
    lemma_attends(e, a);
    assert(!a.snapshot.aborted@.contains(b.txn_id));
    lemma_marked(e.tm.settled(), a, old, recs, m, b.txn_id);
    lemma_drawn_marked(old, m, b.txn_id);
    lemma_marked_in_line::<K>(e.tm, b, old, m);
    if a.txn_id != b.txn_id {
        lemma_apart(e, a, b);
        lemma_replaced::<K>(e, a, b, old[m].key, m);
        K::le_laws();
    }
    assert(a.sees(e.tm.aborts(), recs[m].xmin, recs[m].xmax) ==> a.sees(
        e.tm.aborts(),
        old[m].xmin,
        old[m].xmax,
    ));
    assert forall|i: int, j: int|
        0 <= i < recs.len() && 0 <= j < recs.len() && i != j && key_eq::<K>(
            (#[trigger] recs[i]).key,
            (#[trigger] recs[j]).key,
        ) implies !(a.sees(e.tm.aborts(), recs[i].xmin, recs[i].xmax) && a.sees(
        e.tm.aborts(),
        recs[j].xmin,
        recs[j].xmax,
    )) by {
        assert(key_eq::<K>(old[i].key, old[j].key));
    }
}

/// Who is running goes on doing so over what a transaction writes, that transaction
/// with the note that it has written.
pub proof fn law_writes_stop_nobody<K: Key>(
    before: Engine<K>,
    after: Engine<K>,
    a: Transaction,
    a1: Transaction,
    b: Transaction,
    key: Seq<u8>,
    value: Seq<u8>,
    r: Result<(), EngineError>,
)
    requires
        runs(before, a),
        runs(before, b),
        a.txn_id == b.txn_id ==> a == b,
        marked_written(a, a1, r is Ok && a.txn_id == b.txn_id),
        after.wf(),
        insert_result::<K>(before, after, b, key, value, r) || update_result::<K>(
            before,
            after,
            b,
            key,
            value,
            r,
        ) || delete_result::<K>(before, after, b, key, r),
    ensures
        runs(after, a1),
{
    let old = before.index.records();
    let now = after.index.records();
    if r is Err {
        assert(now == old);
        if old.len() > 0 {
            lemma_drawn_marked(old, 0, b.txn_id);
        }
    } else if insert_result::<K>(before, after, b, key, value, r) {
        lemma_insert_kept::<K>(before, after, a, b, key, value);
    } else if update_result::<K>(before, after, b, key, value, r) {
        lemma_update_kept::<K>(before, after, a, b, key, value);
    } else {
        let m = choose|m: int|
            {
                let v = #[trigger] old[m];
                &&& 0 <= m < old.len()
                &&& visible::<K>(&b, before.tm.aborts(), key, v)
                &&& write_conflict(&b, &before.tm, v.xmax) is None
                &&& now == old.update(m, with_xmax(v, b.txn_id))
            };
        lemma_mark_kept::<K>(before, a, b, m);
    }
    lemma_kept_runs(before, after, a, a1, b, r is Ok);
}

proof fn lemma_entered_remembered<K: Key>(
    before: BTreeIndex<K>,
    after: BTreeIndex<K>,
    e: Settled,
    recs: Seq<RecordView>,
    base: Seq<RecordView>,
    q: int,
    v: RecordView,
    a: Transaction,
    k: int,
)
    requires
        entered(&before, &after, e, recs, base, q, v),
        forall|i: int| 0 <= i < recs.len() ==> remembered(e, &a, #[trigger] recs[i]),
        !a.snapshot.aborted@.contains(0),
        v.xmax == 0,
        0 <= k < after.records().len(),
    ensures
        remembered(e, &a, after.records()[k]),
{
    let x = after.records()[k];
    if k != q {
        let z = if k < q {
            k
        } else {
            k - 1
        };
        assert(base[z] == x);
        assert(kin(e, recs, base[z]));
        let i = choose|i: int|
            0 <= i < recs.len() && (x == #[trigger] recs[i] || x == cleared(e, recs[i]));
        assert(remembered(e, &a, recs[i]));
    }
}

/// The end of a transaction is recorded.
proof fn lemma_ended_recorded<K: Key>(
    before: Engine<K>,
    after: Engine<K>,
    b: Transaction,
    r: Result<(), EngineError>,
)
    requires
        runs(before, b),
        commit_result::<K>(before, after, b, r) || abort_result::<K>(before, after, b),
    ensures
        recorded(after.tm, after.index.store.log(), after.index.records()),
{
    let recs = before.index.records();
    let log = before.index.store.log();
    lemma_attends(before, b);
    if after.index.store.log() == log {
        lemma_recorded_quiet_end(before.tm, after.tm, log, recs, b.txn_id);
    } else {
        lemma_recorded_note(before.tm, after.tm, log, after.index.store.log().last(), recs);
        assert(after.index.store.log() =~= log.push(after.index.store.log().last()));
    }
}

/// An engine is in order when a transaction has ended.
pub proof fn law_endings_keep_order<K: Key>(
    before: Engine<K>,
    after: Engine<K>,
    b: Transaction,
    r: Result<(), EngineError>,
)
    requires
        runs(before, b),
        commit_result::<K>(before, after, b, r) || abort_result::<K>(before, after, b),
    ensures
        coherent(after),
{
    lemma_ended_recorded::<K>(before, after, b, r);
    lemma_settled_in_line::<K>(before.tm, after.tm, b.txn_id, after.index.records());
    assert forall|id: u64| #[trigger] after.tm.in_flight(id) implies before.tm.in_flight(id) by {}
}

/// Who is running goes on doing so when another transaction ends.
pub proof fn law_endings_stop_nobody_else<K: Key>(
    before: Engine<K>,
    after: Engine<K>,
    a: Transaction,
    b: Transaction,
    r: Result<(), EngineError>,
)
    requires
        runs(before, a),
        runs(before, b),
        a.txn_id != b.txn_id,
        commit_result::<K>(before, after, b, r) || abort_result::<K>(before, after, b),
    ensures
        runs(after, a),
{
    law_endings_keep_order::<K>(before, after, b, r);
    let now = after.index.records();
    assert(now == before.index.records());
    assert forall|id: u64| #[trigger] after.tm.in_flight(id) implies before.tm.in_flight(id) by {}
    assert forall|k: int| 0 <= k < now.len() implies remembered(
        after.tm.settled(),
        &a,
        #[trigger] now[k],
    ) by {
        assert(remembered(before.tm.settled(), &a, before.index.records()[k]));
    }
}

/// A new engine is in order.
pub proof fn law_new_engines_are_coherent<K: Key>(e: Engine<K>)
    requires
        e.index.records() == Seq::<RecordView>::empty(),
        e.index.store.log() == Seq::<LogEntry>::empty(),
        e.tm.aborts() == Map::<u64, ()>::empty(),
    ensures
        coherent(e),
{
}

/// An engine is in order after a checkpoint.
pub proof fn law_checkpoints_keep_order<K: Key>(
    before: Engine<K>,
    after: Engine<K>,
    r: Result<u64, EngineError>,
)
    requires
        before.wf(),
        coherent(before),
        checkpoint_result::<K>(before, after, r),
    ensures
        coherent(after),
{
    if r is Ok {
        let log = before.index.store.log();
        let e = after.index.store.log().last();
        let c = checkpoint_of(before, r->Ok_0);
        law_checkpoint_roundtrip(c);
        assert(checkpoint_in(e) == Some(c));
        assert forall|id: u64| #[trigger] c.pinned_aborted.contains(id) implies before.tm.aborts().contains_key(
            id,
        ) && !before.tm.in_flight(id) && 1 <= id < before.tm.next_txn_id by {
            lemma_published(before.tm, id);
        }
        assert forall|id: u64| #[trigger] c.active_txns.contains(id) implies 1 <= id
            < before.tm.next_txn_id by {
            lemma_published(before.tm, id);
        }
        lemma_recorded_note(before.tm, after.tm, log, e, before.index.records());
        assert(after.index.store.log() =~= log.push(e));
    }
}

/// A checkpoint changes nothing that a transaction reads, and stops nobody.
pub proof fn law_checkpoints_pass_unnoticed<K: Key>(
    before: Engine<K>,
    after: Engine<K>,
    a: Transaction,
    key: Seq<u8>,
    r: Result<u64, EngineError>,
)
    requires
        before.wf(),
        runs(before, a),
        checkpoint_result::<K>(before, after, r),
    ensures
        runs(after, a),
        reads_alike(before, after, a, key),
{
    lemma_untouched::<K>(before, after, a, key);
    law_checkpoints_keep_order(before, after, r);
}

/// An engine is in order after a sweep.
pub proof fn law_vacuum_keeps_order<K: Key>(
    before: Engine<K>,
    after: Engine<K>,
    r: Result<usize, EngineError>,
)
    requires
        before.wf(),
        coherent(before),
        vacuum_result::<K>(before, after, r),
    ensures
        coherent(after),
{
    if r is Ok {
        let old = before.index.records();
        lemma_swept_in_line::<K>(before.tm, after.tm, old);
        lemma_recorded_swept(
            before.tm,
            after.tm,
            before.index.store.log(),
            after.index.store.log(),
            old,
        );
        assert forall|id: u64| #[trigger] after.tm.in_flight(id) == before.tm.in_flight(id) by {}
        assert forall|id: u64| #[trigger] after.tm.aborts().contains_key(id) implies 1 <= id
            < after.tm.next_txn_id && !after.tm.in_flight(id) by {
            assert(before.tm.aborts().contains_key(id));
        }
    }
}

/// Who is running goes on doing so over a sweep.
pub proof fn law_vacuum_stops_nobody<K: Key>(
    before: Engine<K>,
    after: Engine<K>,
    a: Transaction,
    r: Result<usize, EngineError>,
)
    requires
        before.wf(),
        runs(before, a),
        after.wf(),
        vacuum_result::<K>(before, after, r),
    ensures
        runs(after, a),
{
    lemma_attends(before, a);
    if r is Ok {
        let e = before.tm.settled();
        let old = before.index.records();
        let now = after.index.records();
        law_vacuum_keeps_order(before, after, r);
        if bears(now, a.txn_id) {
            let k = choose|k: int|
                0 <= k < now.len() && ((#[trigger] now[k]).xmin == a.txn_id || now[k].xmax
                    == a.txn_id);
            lemma_survivors_member(e, old, now[k]);
            assert(bears(old, a.txn_id));
        }
        lemma_swept_lone::<K>(e, after.tm.aborts(), a, old);
        assert forall|k: int| 0 <= k < now.len() implies remembered(
            after.tm.settled(),
            &a,
            #[trigger] now[k],
        ) by {
            lemma_survivors_member(e, old, now[k]);
            let i = choose|i: int|
                0 <= i < old.len() && !dead(e, #[trigger] old[i]) && now[k] == cleared(e, old[i]);
            assert(remembered(e, &a, old[i]));
        }
        assert forall|id: u64| #[trigger] after.tm.in_flight(id) == before.tm.in_flight(id) by {}
    }
}

/// An engine is in order after a batch of a sweep.
pub proof fn law_batches_keep_order<K: Key>(
    before: Engine<K>,
    after: Engine<K>,
    from: KeyBound,
    r: Result<Batch, EngineError>,
)
    requires
        before.wf(),
        coherent(before),
        batch_result::<K>(before, after, &from, r),
    ensures
        coherent(after),
{
    if r is Ok {
        let e = before.tm.settled();
        let old = before.index.records();
        let now = after.index.records();
        assert(thinned(before.index, after.index, e));
        lemma_thinned_in_line::<K>(before.tm, old, now);
        assert(drawn(old, now, 0)) by {
            assert forall|k: int| 0 <= k < now.len() implies {
                let r = #[trigger] now[k];
                &&& r.xmin == 0 || r.xmin == 0 || bears(old, r.xmin)
                &&& r.xmax == 0 || r.xmax == 0 || bears(old, r.xmax)
            } by {
                assert(kin(e, old, now[k]));
            }
        }
        lemma_recorded_write(
            before.tm,
            after.tm,
            before.index.store.log(),
            after.index.store.log(),
            old,
            now,
            0,
        );
    }
}

/// Who is running goes on doing so over a batch of a sweep.
pub proof fn law_batches_stop_nobody<K: Key>(
    before: Engine<K>,
    after: Engine<K>,
    a: Transaction,
    from: KeyBound,
    r: Result<Batch, EngineError>,
)
    requires
        before.wf(),
        runs(before, a),
        batch_result::<K>(before, after, &from, r),
    ensures
        runs(after, a),
{
    lemma_attends(before, a);
    law_batches_keep_order(before, after, from, r);
    if r is Ok {
        let e = before.tm.settled();
        let old = before.index.records();
        let now = after.index.records();
        assert(thinned(before.index, after.index, e));
        lemma_thinned_lone::<K>(e, old, now, a);
        if bears(now, a.txn_id) {
            let k = choose|k: int|
                0 <= k < now.len() && ((#[trigger] now[k]).xmin == a.txn_id || now[k].xmax
                    == a.txn_id);
            assert(kin(e, old, now[k]));
            assert(bears(old, a.txn_id));
        }
    }
}

/// A batch of a sweep changes nothing that a transaction reads.
pub proof fn law_reads_repeat_over_batches<K: Key>(
    before: Engine<K>,
    after: Engine<K>,
    a: Transaction,
    key: Seq<u8>,
    from: KeyBound,
    r: Result<Batch, EngineError>,
)
    requires
        runs(before, a),
        batch_result::<K>(before, after, &from, r),
    ensures
        reads_alike(before, after, a, key),
{
    lemma_attends(before, a);
    if r is Err {
        lemma_untouched::<K>(before, after, a, key);
    } else {
        let e = before.tm.settled();
        let old = before.index.records();
        let now = after.index.records();
        assert(thinned(before.index, after.index, e));
        assert forall|i: int|
            0 <= i < old.len() && visible::<K>(
                &a,
                before.tm.aborts(),
                key,
                #[trigger] old[i],
            ) implies exists|j: int|
            0 <= j < now.len() && visible::<K>(&a, after.tm.aborts(), key, #[trigger] now[j])
                && after.index.content(now[j]) == before.index.content(old[i]) by {
            let j = lemma_swept_visible::<K>(e, a, key, old, now, i);
            assert(before.index.content(now[j]) == before.index.content(old[i]));
        }
        assert forall|j: int|
            0 <= j < now.len() && visible::<K>(
                &a,
                after.tm.aborts(),
                key,
                #[trigger] now[j],
            ) implies exists|i: int|
            0 <= i < old.len() && visible::<K>(&a, before.tm.aborts(), key, #[trigger] old[i])
                && after.index.content(now[j]) == before.index.content(old[i]) by {
            assert(kin(e, old, now[j]));
            let i = choose|i: int|
                0 <= i < old.len() && (now[j] == #[trigger] old[i] || now[j] == cleared(e, old[i]));
            lemma_kin_visible::<K>(e, a, key, old[i], now[j]);
            assert(before.index.content(now[j]) == before.index.content(old[i]));
        }
        lemma_reads_alike::<K>(before, after, a, key);
    }
}

/// What a transaction inserts leaves what it reads under other keys.
pub proof fn law_own_insert_leaves_other_keys<K: Key>(
    before: Engine<K>,
    after: Engine<K>,
    txn: Transaction,
    key: Seq<u8>,
    value: Seq<u8>,
    other: Seq<u8>,
    r: Result<(), EngineError>,
)
    requires
        runs(before, txn),
        insert_result::<K>(before, after, txn, key, value, r),
        !key_eq::<K>(key, other),
    ensures
        reads_alike(before, after, txn, other),
{
    lemma_attends(before, txn);
    if r is Err {
        lemma_untouched::<K>(before, after, txn, other);
    } else {
        let e = before.tm.settled();
        let old = before.index.records();
        let (base, k, v) = choose|base: Seq<RecordView>, k: int, v: RecordView| #[trigger]
            entered(&before.index, &after.index, e, old, base, k, v) && stored_as(
                &after.index,
                v,
                key,
                value,
                txn.txn_id,
            );
        lemma_entered_alike::<K>(before, after, old, base, k, v, txn, other);
    }
}

/// What a transaction updates leaves what it reads under other keys.
pub proof fn law_own_update_leaves_other_keys<K: Key>(
    before: Engine<K>,
    after: Engine<K>,
    txn: Transaction,
    key: Seq<u8>,
    value: Seq<u8>,
    other: Seq<u8>,
    r: Result<(), EngineError>,
)
    requires
        runs(before, txn),
        update_result::<K>(before, after, txn, key, value, r),
        !key_eq::<K>(key, other),
    ensures
        reads_alike(before, after, txn, other),
{
    K::le_laws();
    lemma_attends(before, txn);
    if r is Err {
        lemma_untouched::<K>(before, after, txn, other);
    } else {
        let e = before.tm.settled();
        let old = before.index.records();
        let (m, x) = choose|m: int, x: Result<(), IndexError>|
            0 <= m < old.len() && #[trigger] superseded(
                &before.index,
                &after.index,
                key,
                value,
                &txn,
                &before.tm,
                m,
                x,
            ) && Ok::<(), EngineError>(()) == (match x {
                Ok(()) => Ok::<(), EngineError>(()),
                Err(e) => Err(outcome(e, txn.txn_id)),
            });
        let recs = old.update(m, with_xmax(old[m], txn.txn_id));
        let (base, k, v) = choose|base: Seq<RecordView>, k: int, v: RecordView| #[trigger]
            entered(&before.index, &after.index, e, recs, base, k, v) && stored_as(
                &after.index,
                v,
                key,
                value,
                txn.txn_id,
            );
        lemma_marked(e, txn, old, recs, m, txn.txn_id);
        assert(key_eq::<K>(old[m].key, key));
        assert(!key_eq::<K>(old[m].key, other));
        assert forall|i: int| 0 <= i < recs.len() implies (#[trigger] recs[i]) == with_xmax(
            old[i],
            recs[i].xmax,
        ) && visible::<K>(&txn, before.tm.aborts(), other, recs[i]) == visible::<K>(
            &txn,
            before.tm.aborts(),
            other,
            old[i],
        ) by {}
        lemma_entered_alike::<K>(before, after, recs, base, k, v, txn, other);
    }
}

/// What a transaction deletes leaves what it reads under other keys.
pub proof fn law_own_delete_leaves_other_keys<K: Key>(
    before: Engine<K>,
    after: Engine<K>,
    txn: Transaction,
    key: Seq<u8>,
    other: Seq<u8>,
    r: Result<(), EngineError>,
)
    requires
        runs(before, txn),
        delete_result::<K>(before, after, txn, key, r),
        !key_eq::<K>(key, other),
    ensures
        reads_alike(before, after, txn, other),
{
    K::le_laws();
    if r is Err {
        lemma_untouched::<K>(before, after, txn, other);
    } else {
        let old = before.index.records();
        let now = after.index.records();
        let m = choose|m: int|
            {
                let v = #[trigger] old[m];
                &&& 0 <= m < old.len()
                &&& visible::<K>(&txn, before.tm.aborts(), key, v)
                &&& now == old.update(m, with_xmax(v, txn.txn_id))
            };
        assert(!key_eq::<K>(old[m].key, other));
        assert forall|i: int|
            0 <= i < old.len() && visible::<K>(
                &txn,
                before.tm.aborts(),
                other,
                #[trigger] old[i],
            ) implies exists|j: int|
            0 <= j < now.len() && visible::<K>(&txn, after.tm.aborts(), other, #[trigger] now[j])
                && after.index.content(now[j]) == before.index.content(old[i]) by {
            assert(now[i] == old[i]);
        }
        assert forall|j: int|
            0 <= j < now.len() && visible::<K>(
                &txn,
                after.tm.aborts(),
                other,
                #[trigger] now[j],
            ) implies exists|i: int|
            0 <= i < old.len() && visible::<K>(&txn, before.tm.aborts(), other, #[trigger] old[i])
                && after.index.content(now[j]) == before.index.content(old[i]) by {
            assert(now[j] == old[j]);
        }
        lemma_reads_alike::<K>(before, after, txn, other);
    }
}

/// Whoever begins once an update has been committed reads the new value, and sees no
/// other version of the key: a scan shows it once.
pub proof fn law_committed_update_is_read<K: Key>(
    before: Engine<K>,
    written: Engine<K>,
    settled: Engine<K>,
    later: Engine<K>,
    txn: Transaction,
    txn1: Transaction,
    t: Transaction,
    key: Seq<u8>,
    value: Seq<u8>,
    now: u64,
    got: Option<Vec<u8>>,
)
    requires
        runs(before, txn),
        written.wf(),
        update_result::<K>(before, written, txn, key, value, Ok(())),
        marked_written(txn, txn1, true),
        settled.wf(),
        commit_result::<K>(written, settled, txn1, Ok(())),
        begun(settled.tm, later.tm, t, now),
        later.index == settled.index,
        read_result::<K>(later, t, key, got),
    ensures
        got matches Some(v) && v@ == value,
        sole(later, t, key),
{
    K::le_laws();
    law_writes_stop_nobody::<K>(before, written, txn, txn1, txn, key, value, Ok(()));
    law_endings_keep_order::<K>(written, settled, txn1, Ok(()));
    let old = before.index.records();
    let (m, x) = choose|m: int, x: Result<(), IndexError>|
        0 <= m < old.len() && #[trigger] superseded(
            &before.index,
            &written.index,
            key,
            value,
            &txn,
            &before.tm,
            m,
            x,
        ) && Ok::<(), EngineError>(()) == (match x {
            Ok(()) => Ok::<(), EngineError>(()),
            Err(e) => Err(outcome(e, txn.txn_id)),
        });
    let recs = old.update(m, with_xmax(old[m], txn.txn_id));
    let (base, k, v) = choose|base: Seq<RecordView>, k: int, v: RecordView| #[trigger]
        entered(&before.index, &written.index, before.tm.settled(), recs, base, k, v) && stored_as(
            &written.index,
            v,
            key,
            value,
            txn.txn_id,
        );
    assert(written.index.records()[k] == v);
    assert(settled.index.records()[k] == v);
    assert(!settled.tm.in_flight(txn.txn_id));
    assert(!settled.tm.aborts().contains_key(txn.txn_id)) by {
        assert(!before.tm.aborts().contains_key(txn.txn_id));
    }
    law_live_versions_are_seen::<K>(settled, later, t, now, k);
    assert(later.index.content(v) == written.index.content(v));
    assert(visible::<K>(&t, later.tm.aborts(), key, later.index.records()[k]));
}

/// Whoever begins after a transaction has committed sees its writes.
pub proof fn law_commits_are_seen<K: Key>(
    before: Engine<K>,
    after: Engine<K>,
    later: Engine<K>,
    b: Transaction,
    t: Transaction,
    now: u64,
)
    requires
        runs(before, b),
        commit_result::<K>(before, after, b, Ok(())),
        begun(after.tm, later.tm, t, now),
    ensures
        t.snapshot.sees(later.tm.aborts(), b.txn_id),
{
    assert(!before.tm.aborts().contains_key(b.txn_id));
    law_snapshot_xmin(later.tm, t.snapshot, b.txn_id);
    assert(!after.tm.active_state.active@.dom().contains(b.txn_id));
    assert(!later.tm.active_state.active@.dom().contains(b.txn_id));
}

/// Nobody but the transaction itself sees the writes of one that was given up.
pub proof fn law_aborts_are_unseen<K: Key>(
    before: Engine<K>,
    after: Engine<K>,
    b: Transaction,
    t: Transaction,
)
    requires
        runs(before, b),
        abort_result::<K>(before, after, b),
    ensures
        !t.snapshot.sees(after.tm.aborts(), b.txn_id),
{
}

} // verus!
