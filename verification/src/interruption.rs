//! What is left of an operation that a crash has cut short.

use vstd::prelude::*;

use crate::batch::Batch;
use crate::change::LogEntry;
use crate::chronicle::{
    borne, drift, fresh, kept, lemma_present, lemma_then, lemma_told_two, told, unmarked,
};
use crate::disk::DiskManager;
use crate::engine::{batch_result, nothing_visible, read_result, vacuum_result, written_by, Engine};
use crate::error::EngineError;
use crate::history::log_records;
use crate::key::{key_eq, Key};
use crate::ledger::{accounted, commits, committed_in, consistent, heeded, lemma_fates_stay};
use crate::mvcc::{visible, Settled};
use crate::node::RecordView;
use crate::reopen::{
    law_crash_gives_the_durable_index, lemma_id_known, lemma_next_txn, lemma_opened,
    lemma_recorded_again, lemma_restored, lemma_seen_again, logged, opened_from, restored_from,
};
use crate::scan::KeyBound;
use crate::session::{coherent, runs};
use crate::trace::{carries_on, lemma_wrote_stays, settles, wrote};
use crate::transaction::Transaction;
use crate::transaction_manager::{law_horizon_is_least, law_snapshot_xmin};
use crate::txn::begun;
use crate::versions::followed;
use crate::wal::{Wal, WalRecordView};

verus! {

/// Whether a transaction takes another for one that has happened.
spec fn believes(t: Transaction, aborts: Map<u64, ()>, id: u64) -> bool {
    id == t.txn_id || t.snapshot.sees(aborts, id)
}

/// Whether a transaction agrees with a manager about an id, and does not see one
/// transaction.
spec fn fits(e: Settled, b: u64, t: Transaction, aborts: Map<u64, ()>, id: u64) -> bool {
    &&& id == b ==> !believes(t, aborts, id)
    &&& e.aborts.contains_key(id) ==> !believes(t, aborts, id)
    &&& id != 0 && id < e.horizon && !e.aborts.contains_key(id) ==> believes(t, aborts, id)
}

/// Whether a transaction finds a value under a key.
spec fn shows<K: Key>(
    t: Transaction,
    aborts: Map<u64, ()>,
    key: Seq<u8>,
    rows: Seq<(RecordView, Seq<u8>)>,
    value: Seq<u8>,
) -> bool {
    exists|k: int|
        0 <= k < rows.len() && visible::<K>(&t, aborts, key, (#[trigger] rows[k]).0) && rows[k].1
            == value
}

proof fn lemma_shows_last<K: Key>(
    t: Transaction,
    aborts: Map<u64, ()>,
    key: Seq<u8>,
    rows: Seq<(RecordView, Seq<u8>)>,
    value: Seq<u8>,
)
    requires
        rows.len() > 0,
    ensures
        shows::<K>(t, aborts, key, rows, value) == (shows::<K>(
            t,
            aborts,
            key,
            rows.drop_last(),
            value,
        ) || (visible::<K>(&t, aborts, key, rows.last().0) && rows.last().1 == value)),
{
    let front = rows.drop_last();
    let n = rows.len() - 1;
    if shows::<K>(t, aborts, key, rows, value) {
        let k = choose|k: int|
            0 <= k < rows.len() && visible::<K>(&t, aborts, key, (#[trigger] rows[k]).0)
                && rows[k].1 == value;
        if k < n {
            assert(front[k] == rows[k]);
        }
    }
    if shows::<K>(t, aborts, key, front, value) {
        let k = choose|k: int|
            0 <= k < front.len() && visible::<K>(&t, aborts, key, (#[trigger] front[k]).0)
                && front[k].1 == value;
        assert(rows[k] == front[k]);
    }
    if visible::<K>(&t, aborts, key, rows.last().0) && rows.last().1 == value {
        assert(rows[n] == rows.last());
    }
}

/// What remains without one transaction shows the same to whoever does not see it.
proof fn lemma_told_shows<K: Key>(
    e: Settled,
    b: u64,
    t: Transaction,
    aborts: Map<u64, ()>,
    key: Seq<u8>,
    rows: Seq<(RecordView, Seq<u8>)>,
    value: Seq<u8>,
)
    requires
        fresh(e, b),
        forall|k: int|
            0 <= k < rows.len() ==> fits(e, b, t, aborts, (#[trigger] rows[k]).0.xmin) && fits(
                e,
                b,
                t,
                aborts,
                rows[k].0.xmax,
            ),
    ensures
        shows::<K>(t, aborts, key, told(e, b, rows), value) == shows::<K>(
            t,
            aborts,
            key,
            rows,
            value,
        ),
    decreases rows.len(),
{
    if rows.len() > 0 {
        let front = rows.drop_last();
        assert forall|k: int| 0 <= k < front.len() implies fits(
            e,
            b,
            t,
            aborts,
            (#[trigger] front[k]).0.xmin,
        ) && fits(e, b, t, aborts, front[k].0.xmax) by {
            assert(front[k] == rows[k]);
        }
        lemma_told_shows::<K>(e, b, t, aborts, key, front, value);
        lemma_shows_last::<K>(t, aborts, key, rows, value);
        let last = rows.last();
        assert(rows[rows.len() - 1] == last);
        let now = told(e, b, rows);
        let r = unmarked(b, last.0);
        if last.0.xmin == b || crate::mvcc::dead(e, r) {
            assert(!visible::<K>(&t, aborts, key, last.0));
        } else {
            lemma_shows_last::<K>(t, aborts, key, now, value);
            assert(now.drop_last() =~= told(e, b, front));
            assert(visible::<K>(&t, aborts, key, now.last().0) == visible::<K>(
                &t,
                aborts,
                key,
                last.0,
            ));
        }
    }
}

/// Two transactions that find the same values read the same.
proof fn lemma_reads_same<K: Key>(
    s: Engine<K>,
    a: Transaction,
    r: Engine<K>,
    t: Transaction,
    key: Seq<u8>,
    got: Option<Vec<u8>>,
)
    requires
        forall|value: Seq<u8>| #[trigger]
            shows::<K>(a, s.tm.aborts(), key, s.index.rows(), value) ==> shows::<K>(
                t,
                r.tm.aborts(),
                key,
                r.index.rows(),
                value,
            ),
        forall|value: Seq<u8>| #[trigger]
            shows::<K>(t, r.tm.aborts(), key, r.index.rows(), value) ==> shows::<K>(
                a,
                s.tm.aborts(),
                key,
                s.index.rows(),
                value,
            ),
    ensures
        read_result::<K>(s, a, key, got) ==> read_result::<K>(r, t, key, got),
{
    let x = s.index.rows();
    let y = r.index.rows();
    assert(nothing_visible(s, a, key) == nothing_visible(r, t, key)) by {
        if !nothing_visible(s, a, key) {
            let k = choose|k: int|
                0 <= k < s.index.records().len() && visible::<K>(
                    &a,
                    s.tm.aborts(),
                    key,
                    #[trigger] s.index.records()[k],
                );
            assert(x[k].0 == s.index.records()[k]);
            assert(shows::<K>(a, s.tm.aborts(), key, x, x[k].1));
            assert(shows::<K>(t, r.tm.aborts(), key, y, x[k].1));
            let m = choose|m: int|
                0 <= m < y.len() && visible::<K>(&t, r.tm.aborts(), key, (#[trigger] y[m]).0)
                    && y[m].1 == x[k].1;
            assert(y[m].0 == r.index.records()[m]);
        }
        if !nothing_visible(r, t, key) {
            let k = choose|k: int|
                0 <= k < r.index.records().len() && visible::<K>(
                    &t,
                    r.tm.aborts(),
                    key,
                    #[trigger] r.index.records()[k],
                );
            assert(y[k].0 == r.index.records()[k]);
            assert(shows::<K>(t, r.tm.aborts(), key, y, y[k].1));
            assert(shows::<K>(a, s.tm.aborts(), key, x, y[k].1));
            let m = choose|m: int|
                0 <= m < x.len() && visible::<K>(&a, s.tm.aborts(), key, (#[trigger] x[m]).0)
                    && x[m].1 == y[k].1;
            assert(x[m].0 == s.index.records()[m]);
        }
    }
    if read_result::<K>(s, a, key, got) && got is Some {
        let k = choose|k: int|
            0 <= k < s.index.records().len() && visible::<K>(
                &a,
                s.tm.aborts(),
                key,
                #[trigger] s.index.records()[k],
            ) && got->0@ == s.index.content(s.index.records()[k]);
        assert(x[k].0 == s.index.records()[k]);
        assert(x[k].1 == s.index.content(s.index.records()[k]));
        assert(shows::<K>(a, s.tm.aborts(), key, x, x[k].1));
        assert(shows::<K>(t, r.tm.aborts(), key, y, x[k].1));
        let m = choose|m: int|
            0 <= m < y.len() && visible::<K>(&t, r.tm.aborts(), key, (#[trigger] y[m]).0)
                && y[m].1 == x[k].1;
        assert(y[m].0 == r.index.records()[m]);
        assert(y[m].1 == r.index.content(r.index.records()[m]));
    }
}

/// Whether an engine has gone on from another by the changes of one transaction that
/// has not ended, or by those of nobody, and everything that had been logged before
/// is durable.
pub open spec fn under_way<K: Key>(e0: Engine<K>, e: Engine<K>, by: u64, b: u64) -> bool {
    &&& e0.wf()
    &&& coherent(e0)
    &&& by == b && e0.tm.in_flight(b) || by == 0 && b == e0.tm.next_txn_id
    &&& carries_on(e0.index.store.log(), e.index.store.log(), by)
    &&& fresh(e0.tm.settled(), b) ==> drift(
        e0.index.past@,
        e.index.past@,
        e.index.store.log(),
        e0.tm.settled(),
        b,
    )
    &&& e0.index.store.log().len() <= e.index.store.durable()
}

/// What a crash on the way leaves, held against the state before.
proof fn lemma_cut<K: Key>(
    e0: Engine<K>,
    e: Engine<K>,
    by: u64,
    b: u64,
    d: DiskManager,
    w: Wal,
    rs: Seq<WalRecordView>,
    e1: Engine<K>,
)
    requires
        under_way(e0, e, by, b),
        opened_from(e, d, w, rs, e1),
    ensures
        fresh(e0.tm.settled(), b),
        told(e0.tm.settled(), b, e1.index.rows()) == told(e0.tm.settled(), b, e0.index.rows()),
        ({
            let l = e.index.store.log().subrange(0, e.index.store.durable());
            &&& rs == log_records(l)
            &&& consistent(l)
            &&& forall|j: int| 0 <= j < l.len() ==> heeded(e0.tm, #[trigger] l[j])
            &&& forall|id: u64| #[trigger]
                borne(e0.index.rows(), id) ==> accounted(e0.tm, l, id)
            &&& forall|id: u64| #[trigger]
                borne(e1.index.rows(), id) ==> borne(e0.index.rows(), id) || (id == b && wrote(
                    l,
                    b,
                ))
            &&& !committed_in(l, b)
        }),
{
    let s = e0.tm.settled();
    let n = e.index.store.durable();
    let log0 = e0.index.store.log();
    let log = e.index.store.log();
    let l = log.subrange(0, n);
    law_horizon_is_least(e0.tm);
    assert(fresh(s, b));
    lemma_opened(e, d, w, rs, e1);
    law_crash_gives_the_durable_index(e, d, w, rs, e1);
    e.index.store.lemma_wf();
    lemma_then::<K>(e.index, n, e1.index);
    lemma_present::<K>(e0.index);
    lemma_present::<K>(e.index);
    let rows0 = e0.index.rows();
    let rows1 = e1.index.rows();
    assert(rows1 == e.index.past@[n]);
    assert(told(s, b, rows1) == told(s, b, rows0));
    assert(carries_on(log0, l, by)) by {
        assert forall|i: int| 0 <= i < l.len() implies if i < log0.len() {
            #[trigger] l[i] == log0[i]
        } else {
            !settles(l[i]) && (l[i].txn_id == 0 || l[i].txn_id == by)
        } by {
            assert(l[i] == log[i]);
        }
    }
    assert forall|j: int| 0 <= j < l.len() implies heeded(e0.tm, #[trigger] l[j]) by {
        if j < log0.len() {
            assert(l[j] == log0[j]);
            assert(heeded(e0.tm, log0[j]));
        }
    }
    assert forall|id: u64| #[trigger] borne(rows0, id) implies accounted(e0.tm, l, id) by {
        if id != 0 {
            let k = choose|k: int|
                0 <= k < rows0.len() && ((#[trigger] rows0[k]).0.xmin == id || rows0[k].0.xmax
                    == id);
            assert(rows0[k].0 == e0.index.records()[k]);
            assert(accounted(e0.tm, log0, id));
            lemma_wrote_stays(log0, l, by, id);
            lemma_fates_stay(log0, l, by, id);
        }
    }
    assert forall|id: u64| #[trigger] borne(rows1, id) implies borne(rows0, id) || (id == b && wrote(
        l,
        b,
    )) by {
        if n >= e0.index.past@.len() {
            assert(borne(e.index.past@[n], id));
            if !borne(rows0, id) {
                let j = choose|j: int|
                    0 <= j < n && j < log.len() && (#[trigger] log[j]).txn_id == b;
                assert(l[j].txn_id == b);
            }
        }
    }
    if committed_in(l, b) {
        let j = choose|j: int| 0 <= j < l.len() && commits(#[trigger] l[j], b);
        assert(heeded(e0.tm, l[j]));
    }
}

/// How whoever begins after the crash judges ids, held against whoever would have
/// begun before the changes.
proof fn lemma_judged<K: Key>(
    e0: Engine<K>,
    b: u64,
    l: Seq<LogEntry>,
    rs: Seq<WalRecordView>,
    e1: Engine<K>,
    s0: Engine<K>,
    a: Transaction,
    s1: Engine<K>,
    t: Transaction,
    now: u64,
    later: u64,
    id: u64,
)
    requires
        e0.wf(),
        coherent(e0),
        fresh(e0.tm.settled(), b),
        rs == log_records(l),
        consistent(l),
        forall|j: int| 0 <= j < l.len() ==> heeded(e0.tm, #[trigger] l[j]),
        !committed_in(l, b),
        restored_from(e1.tm, rs),
        begun(e0.tm, s0.tm, a, now),
        begun(e1.tm, s1.tm, t, later),
        accounted(e0.tm, l, id) || (id == b && wrote(l, b)),
    ensures
        fits(e0.tm.settled(), b, t, s1.tm.aborts(), id),
        accounted(e0.tm, l, id) ==> believes(a, s0.tm.aborts(), id) == believes(
            t,
            s1.tm.aborts(),
            id,
        ),
{
    lemma_restored(e1.tm, l, rs, id);
    if id != 0 {
        let i = choose|i: int| 0 <= i < l.len() && (#[trigger] l[i]).txn_id == id;
        lemma_next_txn(l, rs, i);
        assert(heeded(e0.tm, l[i]));
    }
    if accounted(e0.tm, l, id) {
        lemma_id_known(e0.tm, e1.tm, l, rs, id);
        lemma_seen_again(e0.tm, l, rs, e1.tm, s0.tm, a, s1.tm, t, now, later, id);
        law_horizon_is_least(e0.tm);
        law_snapshot_xmin(s0.tm, a.snapshot, id);
        assert(e0.tm.active_state.active@.dom().contains(id) == e0.tm.in_flight(id));
        assert(s0.tm.active_state.active@.dom().contains(id) == s0.tm.in_flight(id));
    }
}

/// What a transaction was doing when a crash came leaves no trace: whoever begins
/// afterwards reads what whoever had begun before the changes would have read.
proof fn lemma_unnoticed<K: Key>(
    e0: Engine<K>,
    e: Engine<K>,
    by: u64,
    b: u64,
    d: DiskManager,
    w: Wal,
    rs: Seq<WalRecordView>,
    e1: Engine<K>,
    s0: Engine<K>,
    a: Transaction,
    s1: Engine<K>,
    t: Transaction,
    now: u64,
    later: u64,
    key: Seq<u8>,
    got: Option<Vec<u8>>,
)
    requires
        under_way(e0, e, by, b),
        opened_from(e, d, w, rs, e1),
        begun(e0.tm, s0.tm, a, now),
        s0.index == e0.index,
        begun(e1.tm, s1.tm, t, later),
        s1.index == e1.index,
    ensures
        read_result::<K>(s0, a, key, got) <==> read_result::<K>(s1, t, key, got),
{
    let s = e0.tm.settled();
    let l = e.index.store.log().subrange(0, e.index.store.durable());
    let rows0 = e0.index.rows();
    let rows1 = e1.index.rows();
    let old = s0.tm.aborts();
    let new = s1.tm.aborts();
    lemma_cut(e0, e, by, b, d, w, rs, e1);
    assert forall|k: int| 0 <= k < rows0.len() implies fits(
        s,
        b,
        t,
        new,
        (#[trigger] rows0[k]).0.xmin,
    ) && fits(s, b, t, new, rows0[k].0.xmax) && visible::<K>(&a, old, key, rows0[k].0)
        == visible::<K>(&t, new, key, rows0[k].0) by {
        let r = rows0[k].0;
        assert(borne(rows0, r.xmin) && borne(rows0, r.xmax));
        lemma_judged(e0, b, l, rs, e1, s0, a, s1, t, now, later, r.xmin);
        lemma_judged(e0, b, l, rs, e1, s0, a, s1, t, now, later, r.xmax);
    }
    assert forall|k: int| 0 <= k < rows1.len() implies fits(
        s,
        b,
        t,
        new,
        (#[trigger] rows1[k]).0.xmin,
    ) && fits(s, b, t, new, rows1[k].0.xmax) by {
        let r = rows1[k].0;
        assert(borne(rows1, r.xmin) && borne(rows1, r.xmax));
        lemma_judged(e0, b, l, rs, e1, s0, a, s1, t, now, later, r.xmin);
        lemma_judged(e0, b, l, rs, e1, s0, a, s1, t, now, later, r.xmax);
    }
    assert forall|value: Seq<u8>|
        #![trigger shows::<K>(a, old, key, rows0, value)]
        #![trigger shows::<K>(t, new, key, rows1, value)]
        shows::<K>(a, old, key, rows0, value) == shows::<K>(t, new, key, rows1, value) by {
        lemma_told_shows::<K>(s, b, t, new, key, rows0, value);
        lemma_told_shows::<K>(s, b, t, new, key, rows1, value);
        assert(shows::<K>(a, old, key, rows0, value) == shows::<K>(t, new, key, rows0, value));
    }
    lemma_reads_same(s0, a, s1, t, key, got);
    lemma_reads_same(s1, t, s0, a, key, got);
}

/// Whoever a version bears the id of after the crash has ended, and counts as
/// committed if and only if that was so before.
proof fn lemma_ended<K: Key>(
    e0: Engine<K>,
    b: u64,
    l: Seq<LogEntry>,
    rs: Seq<WalRecordView>,
    e1: Engine<K>,
    id: u64,
)
    requires
        e0.wf(),
        coherent(e0),
        fresh(e0.tm.settled(), b),
        e0.tm.in_flight(b) || b == e0.tm.next_txn_id,
        rs == log_records(l),
        consistent(l),
        forall|j: int| 0 <= j < l.len() ==> heeded(e0.tm, #[trigger] l[j]),
        !committed_in(l, b),
        restored_from(e1.tm, rs),
        accounted(e0.tm, l, id) || (id == b && wrote(l, b)),
    ensures
        !e1.tm.in_flight(id),
        id < e1.tm.next_txn_id,
        !e1.tm.aborts().contains_key(0),
        id != 0 ==> (!e1.tm.aborts().contains_key(id) <==> !e0.tm.aborts().contains_key(id)
            && !e0.tm.in_flight(id)),
{
    lemma_restored(e1.tm, l, rs, id);
    lemma_restored(e1.tm, l, rs, 0);
    if id != 0 {
        let i = choose|i: int| 0 <= i < l.len() && (#[trigger] l[i]).txn_id == id;
        lemma_next_txn(l, rs, i);
        assert(heeded(e0.tm, l[i]));
    }
    if accounted(e0.tm, l, id) {
        lemma_id_known(e0.tm, e1.tm, l, rs, id);
    }
}

/// An engine that is opened after a crash on the way is in order.
proof fn lemma_coherent_again<K: Key>(
    e0: Engine<K>,
    e: Engine<K>,
    by: u64,
    b: u64,
    d: DiskManager,
    w: Wal,
    rs: Seq<WalRecordView>,
    e1: Engine<K>,
)
    requires
        under_way(e0, e, by, b),
        opened_from(e, d, w, rs, e1),
    ensures
        coherent(e1),
{
    let s = e0.tm.settled();
    let l = e.index.store.log().subrange(0, e.index.store.durable());
    let rows0 = e0.index.rows();
    let rows1 = e1.index.rows();
    let recs0 = e0.index.records();
    let recs = e1.index.records();
    lemma_cut(e0, e, by, b, d, w, rs, e1);
    lemma_opened(e, d, w, rs, e1);
    law_horizon_is_least(e0.tm);
    assert forall|k: int| 0 <= k < recs.len() implies {
        &&& logged(l, (#[trigger] recs[k]).xmin)
        &&& logged(l, recs[k].xmax)
        &&& accounted(e0.tm, l, recs[k].xmin) || (recs[k].xmin == b && wrote(l, b))
        &&& accounted(e0.tm, l, recs[k].xmax) || (recs[k].xmax == b && wrote(l, b))
    } by {
        assert(rows1[k].0 == recs[k]);
        assert(borne(rows1, recs[k].xmin) && borne(rows1, recs[k].xmax));
        assert(borne(rows0, recs[k].xmin) ==> accounted(e0.tm, l, recs[k].xmin));
        assert(borne(rows0, recs[k].xmax) ==> accounted(e0.tm, l, recs[k].xmax));
    }
    lemma_recorded_again(l, rs, e1.tm, e1.index.store.log(), recs);
    assert forall|i: int| 0 <= i < recs.len() implies (#[trigger] recs[i]).xmin
        < e1.tm.next_txn_id && recs[i].xmax < e1.tm.next_txn_id by {
        lemma_ended(e0, b, l, rs, e1, recs[i].xmin);
        lemma_ended(e0, b, l, rs, e1, recs[i].xmax);
    }
    assert forall|i: int, j: int|
        0 <= i < recs.len() && 0 <= j < recs.len() && i != j && key_eq::<K>(
            (#[trigger] recs[i]).key,
            (#[trigger] recs[j]).key,
        ) && !e1.tm.aborts().contains_key(recs[i].xmin) && !e1.tm.aborts().contains_key(
            recs[j].xmin,
        ) implies followed(e1.tm, recs[i], recs[j]) || followed(e1.tm, recs[j], recs[i]) by {
        lemma_ended(e0, b, l, rs, e1, recs[i].xmin);
        lemma_ended(e0, b, l, rs, e1, recs[i].xmax);
        lemma_ended(e0, b, l, rs, e1, recs[j].xmin);
        lemma_ended(e0, b, l, rs, e1, recs[j].xmax);
        assert(rows1[i].0 == recs[i] && rows1[j].0 == recs[j]);
        if recs[i].xmin == b || recs[j].xmin == b {
            assert(wrote(l, b));
            lemma_restored(e1.tm, l, rs, b);
        } else if kept(s, b, recs[i]) && kept(s, b, recs[j]) {
            let (p, q) = lemma_told_two(s, b, rows1, rows0, i, j);
            assert(rows0[p].0 == recs0[p] && rows0[q].0 == recs0[q]);
            assert(recs0[p].key == recs[i].key && recs0[p].xmin == recs[i].xmin);
            assert(recs0[q].key == recs[j].key && recs0[q].xmin == recs[j].xmin);
            assert(followed(e0.tm, recs0[p], recs0[q]) || followed(e0.tm, recs0[q], recs0[p]));
        }
    }
}

/// An engine that is opened after a crash in the middle of a write is in order.
pub proof fn law_cut_writes_leave_order<K: Key>(
    e0: Engine<K>,
    e: Engine<K>,
    txn: Transaction,
    wrote_something: bool,
    d: DiskManager,
    w: Wal,
    rs: Seq<WalRecordView>,
    e1: Engine<K>,
)
    requires
        e0.wf(),
        runs(e0, txn),
        written_by(e0, e, txn, wrote_something),
        opened_from(e, d, w, rs, e1),
        e0.index.store.log().len() <= e.index.store.durable(),
    ensures
        coherent(e1),
{
    let b = txn.txn_id;
    assert(under_way(e0, e, b, b));
    lemma_coherent_again(e0, e, b, b, d, w, rs, e1);
}

/// An engine that is opened after a crash in the middle of a sweep is in order.
pub proof fn law_cut_sweeps_leave_order<K: Key>(
    e0: Engine<K>,
    e: Engine<K>,
    r: Result<usize, EngineError>,
    d: DiskManager,
    w: Wal,
    rs: Seq<WalRecordView>,
    e1: Engine<K>,
)
    requires
        e0.wf(),
        coherent(e0),
        vacuum_result(e0, e, r),
        opened_from(e, d, w, rs, e1),
        e0.index.store.log().len() <= e.index.store.durable(),
    ensures
        coherent(e1),
{
    let b = e0.tm.next_txn_id;
    lemma_present::<K>(e0.index);
    assert(under_way(e0, e, 0, b));
    lemma_coherent_again(e0, e, 0, b, d, w, rs, e1);
}

/// A crash in the middle of a write leaves no trace of it: whoever begins after the
/// engine was opened again reads what whoever had begun before the write would have
/// read. An insertion, an update and a deletion are such writes.
pub proof fn law_cut_writes_leave_no_trace<K: Key>(
    e0: Engine<K>,
    e: Engine<K>,
    txn: Transaction,
    wrote_something: bool,
    d: DiskManager,
    w: Wal,
    rs: Seq<WalRecordView>,
    e1: Engine<K>,
    s0: Engine<K>,
    a: Transaction,
    s1: Engine<K>,
    t: Transaction,
    now: u64,
    later: u64,
    key: Seq<u8>,
    got: Option<Vec<u8>>,
)
    requires
        e0.wf(),
        runs(e0, txn),
        written_by(e0, e, txn, wrote_something),
        opened_from(e, d, w, rs, e1),
        e0.index.store.log().len() <= e.index.store.durable(),
        begun(e0.tm, s0.tm, a, now),
        s0.index == e0.index,
        begun(e1.tm, s1.tm, t, later),
        s1.index == e1.index,
    ensures
        read_result::<K>(s0, a, key, got) <==> read_result::<K>(s1, t, key, got),
{
    let b = txn.txn_id;
    assert(under_way(e0, e, b, b));
    lemma_unnoticed(e0, e, b, b, d, w, rs, e1, s0, a, s1, t, now, later, key, got);
}

/// A crash in the middle of a sweep loses nothing: whoever begins after the engine
/// was opened again reads what whoever had begun before the sweep would have read.
pub proof fn law_cut_sweeps_lose_nothing<K: Key>(
    e0: Engine<K>,
    e: Engine<K>,
    r: Result<usize, EngineError>,
    d: DiskManager,
    w: Wal,
    rs: Seq<WalRecordView>,
    e1: Engine<K>,
    s0: Engine<K>,
    a: Transaction,
    s1: Engine<K>,
    t: Transaction,
    now: u64,
    later: u64,
    key: Seq<u8>,
    got: Option<Vec<u8>>,
)
    requires
        e0.wf(),
        coherent(e0),
        vacuum_result(e0, e, r),
        opened_from(e, d, w, rs, e1),
        e0.index.store.log().len() <= e.index.store.durable(),
        begun(e0.tm, s0.tm, a, now),
        s0.index == e0.index,
        begun(e1.tm, s1.tm, t, later),
        s1.index == e1.index,
    ensures
        read_result::<K>(s0, a, key, got) <==> read_result::<K>(s1, t, key, got),
{
    let b = e0.tm.next_txn_id;
    lemma_present::<K>(e0.index);
    assert(under_way(e0, e, 0, b));
    lemma_unnoticed(e0, e, 0, b, d, w, rs, e1, s0, a, s1, t, now, later, key, got);
}

/// An engine that is opened after a crash in the middle of a batch is in order.
pub proof fn law_cut_batches_leave_order<K: Key>(
    e0: Engine<K>,
    e: Engine<K>,
    from: KeyBound,
    r: Result<Batch, EngineError>,
    d: DiskManager,
    w: Wal,
    rs: Seq<WalRecordView>,
    e1: Engine<K>,
)
    requires
        e0.wf(),
        coherent(e0),
        batch_result(e0, e, &from, r),
        opened_from(e, d, w, rs, e1),
        e0.index.store.log().len() <= e.index.store.durable(),
    ensures
        coherent(e1),
{
    let b = e0.tm.next_txn_id;
    lemma_present::<K>(e0.index);
    assert(under_way(e0, e, 0, b));
    lemma_coherent_again(e0, e, 0, b, d, w, rs, e1);
}

/// A crash in the middle of a batch loses nothing: whoever begins after the engine
/// was opened again reads what whoever had begun before the batch would have read.
pub proof fn law_cut_batches_lose_nothing<K: Key>(
    e0: Engine<K>,
    e: Engine<K>,
    from: KeyBound,
    r: Result<Batch, EngineError>,
    d: DiskManager,
    w: Wal,
    rs: Seq<WalRecordView>,
    e1: Engine<K>,
    s0: Engine<K>,
    a: Transaction,
    s1: Engine<K>,
    t: Transaction,
    now: u64,
    later: u64,
    key: Seq<u8>,
    got: Option<Vec<u8>>,
)
    requires
        e0.wf(),
        coherent(e0),
        batch_result(e0, e, &from, r),
        opened_from(e, d, w, rs, e1),
        e0.index.store.log().len() <= e.index.store.durable(),
        begun(e0.tm, s0.tm, a, now),
        s0.index == e0.index,
        begun(e1.tm, s1.tm, t, later),
        s1.index == e1.index,
    ensures
        read_result::<K>(s0, a, key, got) <==> read_result::<K>(s1, t, key, got),
{
    let b = e0.tm.next_txn_id;
    lemma_present::<K>(e0.index);
    assert(under_way(e0, e, 0, b));
    lemma_unnoticed(e0, e, 0, b, d, w, rs, e1, s0, a, s1, t, now, later, key, got);
}

} // verus!
