//! What a sweep in batches has achieved, whatever others do in between.

use vstd::prelude::*;

use crate::batch::{batch_span, batch_swept, on_leaves, Batch};
use crate::engine::{
    abort_result, batch_result, checkpoint_result, commit_result, delete_result, insert_result,
    outcome, update_result, vacuum_result, Engine,
};
use crate::error::{EngineError, IndexError};
use crate::index::place;
use crate::index_write::{entered, kin, stored_as, superseded};
use crate::key::{key_eq, Key};
use crate::ledger::{accounted, bears, heeded, recorded};
use crate::mvcc::{cleared, dead, lemma_survivors_member, remembered, survivors, visible, with_xmax};
use crate::node::RecordView;
use crate::scan::{cut_at, lemma_member, lemma_place_order, KeyBound};
use crate::session::{coherent, lemma_reads_alike, orderly, reads_alike, runs};
use crate::transaction::Transaction;
use crate::transaction_manager::{law_horizon_is_least, TransactionManager};
use crate::tree_spec::{bound_le, lemma_flat_add, lemma_lows_monotone, records_ok, Tree};
use crate::txn::begun;
use crate::versions::{followed, in_line, lone};

verus! {

/// How far a sweep has come.
pub enum Reach {
    Nothing,
    Below(Seq<u8>),
    All,
}

/// Whether a sweep has come past a key.
pub open spec fn passed<K: Key>(reach: Reach, key: Seq<u8>) -> bool {
    match reach {
        Reach::Nothing => false,
        Reach::Below(k) => !K::le(k, key),
        Reach::All => true,
    }
}

/// Whether a version bears no stamp of an aborted transaction below a horizon.
pub open spec fn scrubbed(aborts: Map<u64, ()>, h: u64, r: RecordView) -> bool {
    &&& aborts.contains_key(r.xmin) ==> h <= r.xmin
    &&& aborts.contains_key(r.xmax) ==> h <= r.xmax
}

/// Whether a sweep that began at a horizon has done its work as far as it has come: the
/// versions there bear no stamp of an aborted transaction below the horizon, and nobody
/// who could put one there is running.
pub open spec fn cleansed<K: Key>(e: Engine<K>, h: u64, reach: Reach) -> bool {
    &&& h <= e.tm.horizon()
    &&& forall|k: int|
        0 <= k < e.index.records().len() && passed::<K>(
            reach,
            (#[trigger] e.index.records()[k]).key,
        ) ==> scrubbed(e.tm.aborts(), h, e.index.records()[k])
}

/// Whether a sweep that began at a horizon has left no version there whose deleter lies
/// below the horizon, as far as it has come.
pub open spec fn purged<K: Key>(e: Engine<K>, h: u64, reach: Reach) -> bool {
    forall|k: int|
        0 <= k < e.index.records().len() && passed::<K>(
            reach,
            (#[trigger] e.index.records()[k]).key,
        ) ==> e.index.records()[k].xmax == 0 || h <= e.index.records()[k].xmax
}

/// Whether the horizon of a completed sweep has been published, if it is ahead of the one
/// that was: aborted transactions below it are forgotten.
pub open spec fn published(before: TransactionManager, after: TransactionManager, h: u64) -> bool {
    if h > before.vacuum_horizon {
        &&& after.wf()
        &&& after.vacuum_horizon == h
        &&& forall|id: u64| #[trigger]
            after.aborts().contains_key(id) <==> before.aborts().contains_key(id) && id >= h
        &&& after.next_txn_id == before.next_txn_id
        &&& after.clog == before.clog
        &&& after.dead_versions == before.dead_versions
        &&& after.active_state.active == before.active_state.active
        &&& after.waiters == before.waiters
        &&& after.same_readers(&before)
    } else {
        after == before
    }
}

/// Whether somebody's operation leads from one state to another.
pub open spec fn worked<K: Key>(before: Engine<K>, after: Engine<K>, b: Transaction) -> bool {
    ||| exists|key: Seq<u8>, value: Seq<u8>, r: Result<(), EngineError>| #[trigger]
        insert_result::<K>(before, after, b, key, value, r)
    ||| exists|key: Seq<u8>, value: Seq<u8>, r: Result<(), EngineError>| #[trigger]
        update_result::<K>(before, after, b, key, value, r)
    ||| exists|key: Seq<u8>, r: Result<(), EngineError>| #[trigger]
        delete_result::<K>(before, after, b, key, r)
    ||| exists|r: Result<(), EngineError>| #[trigger] commit_result::<K>(before, after, b, r)
    ||| abort_result::<K>(before, after, b)
}

/// The horizon does not fall while nobody begins.
proof fn lemma_horizon_rises(before: TransactionManager, after: TransactionManager)
    requires
        before.wf(),
        after.wf(),
        after.next_txn_id == before.next_txn_id,
        after.slots@ == before.slots@,
        after.overflow_readers@ == before.overflow_readers@,
        forall|id: u64| #[trigger]
            after.active_state.active@.contains_key(id) ==> before.active_state.active@.contains_key(
                id,
            ) && after.active_state.active@[id] == before.active_state.active@[id],
    ensures
        after.horizon() >= before.horizon(),
{
    law_horizon_is_least(before);
    law_horizon_is_least(after);
    if exists|id: u64| #[trigger]
        after.in_flight(id) && after.horizon() == after.active_state.active@[id].0 {
        let id = choose|id: u64| #[trigger]
            after.in_flight(id) && after.horizon() == after.active_state.active@[id].0;
        assert(after.active_state.active@.contains_key(id));
        assert(before.in_flight(id));
    } else if after.slots@.contains(after.horizon()) {
        let i = choose|i: int| 0 <= i < after.slots@.len() && after.slots@[i] == after.horizon();
        assert(before.slots@[i] == after.horizon());
    } else if after.horizon() != after.next_txn_id {
        let token = choose|token: u64| #[trigger]
            after.overflow_readers@.contains_key(token) && after.horizon()
                == after.overflow_readers@[token];
        assert(before.overflow_readers@.contains_key(token));
    }
}

/// Whether a version is one of a list but for stamps that a transaction has put on it, or
/// that have been taken off; or it bears no stamps but those of the transaction.
spec fn stems(old: Seq<RecordView>, r: RecordView, b: u64) -> bool {
    ||| r.xmin == b && r.xmax == 0
    ||| exists|i: int|
        0 <= i < old.len() && (#[trigger] old[i]).key == r.key && old[i].xmin == r.xmin && (r.xmax
            == 0 || r.xmax == b || r.xmax == old[i].xmax)
}

proof fn lemma_stays_cleansed<K: Key>(
    before: Engine<K>,
    after: Engine<K>,
    h: u64,
    reach: Reach,
    b: u64,
)
    requires
        cleansed(before, h, reach),
        after.tm.horizon() >= before.tm.horizon(),
        h <= b,
        !before.tm.aborts().contains_key(0),
        b != 0,
        forall|id: u64| #[trigger]
            after.tm.aborts().contains_key(id) ==> id == b || before.tm.aborts().contains_key(id),
        forall|k: int|
            0 <= k < after.index.records().len() ==> stems(
                before.index.records(),
                #[trigger] after.index.records()[k],
                b,
            ),
    ensures
        cleansed(after, h, reach),
        purged(before, h, reach) ==> purged(after, h, reach),
{
    let old = before.index.records();
    let now = after.index.records();
    assert forall|k: int| 0 <= k < now.len() && passed::<K>(reach, (#[trigger] now[k]).key) implies
        scrubbed(after.tm.aborts(), h, now[k]) by {
        assert(stems(old, now[k], b));
        if !(now[k].xmin == b && now[k].xmax == 0) {
            let i = choose|i: int|
                0 <= i < old.len() && (#[trigger] old[i]).key == now[k].key && old[i].xmin
                    == now[k].xmin && (now[k].xmax == 0 || now[k].xmax == b || now[k].xmax
                    == old[i].xmax);
            assert(scrubbed(before.tm.aborts(), h, old[i]));
        }
    }
    if purged(before, h, reach) {
        assert forall|k: int| 0 <= k < now.len() && passed::<K>(
            reach,
            (#[trigger] now[k]).key,
        ) implies now[k].xmax == 0 || h <= now[k].xmax by {
            assert(stems(old, now[k], b));
            if !(now[k].xmin == b && now[k].xmax == 0) {
                let i = choose|i: int|
                    0 <= i < old.len() && (#[trigger] old[i]).key == now[k].key && old[i].xmin
                        == now[k].xmin && (now[k].xmax == 0 || now[k].xmax == b || now[k].xmax
                        == old[i].xmax);
                assert(passed::<K>(reach, old[i].key));
            }
        }
    }
}

/// What is entered stems from what was there.
proof fn lemma_entered_stems<K: Key>(
    before: Engine<K>,
    after: Engine<K>,
    recs: Seq<RecordView>,
    base: Seq<RecordView>,
    q: int,
    v: RecordView,
    b: u64,
)
    requires
        entered(&before.index, &after.index, before.tm.settled(), recs, base, q, v),
        v.xmin == b,
        v.xmax == 0,
        recs.len() == before.index.records().len(),
        forall|i: int|
            0 <= i < recs.len() ==> (#[trigger] recs[i]).key == before.index.records()[i].key
                && recs[i].xmin == before.index.records()[i].xmin && (recs[i].xmax == b
                || recs[i].xmax == before.index.records()[i].xmax),
    ensures
        forall|k: int|
            0 <= k < after.index.records().len() ==> stems(
                before.index.records(),
                #[trigger] after.index.records()[k],
                b,
            ),
{
    let e = before.tm.settled();
    let old = before.index.records();
    let now = after.index.records();
    assert forall|k: int| 0 <= k < now.len() implies stems(old, #[trigger] now[k], b) by {
        if k == q {
            assert(now[k] == v);
        } else {
            let z = if k < q {
                k
            } else {
                k - 1
            };
            assert(now[k] == base[z]);
            assert(kin(e, recs, base[z]));
            let i = choose|i: int|
                0 <= i < recs.len() && (base[z] == #[trigger] recs[i] || base[z] == cleared(
                    e,
                    recs[i],
                ));
            assert(old[i].key == now[k].key);
        }
    }
}

proof fn lemma_same_stems(s: Seq<RecordView>, b: u64)
    ensures
        forall|k: int| 0 <= k < s.len() ==> stems(s, #[trigger] s[k], b),
{
}

/// Whoever begins leaves what a sweep has done.
pub proof fn law_begun_leave_sweeps<K: Key>(
    before: Engine<K>,
    after: Engine<K>,
    t: Transaction,
    now: u64,
    h: u64,
    reach: Reach,
)
    requires
        cleansed(before, h, reach),
        begun(before.tm, after.tm, t, now),
        after.index == before.index,
    ensures
        cleansed(after, h, reach),
        purged(before, h, reach) ==> purged(after, h, reach),
{
}

/// A sweep that begins has its horizon.
pub proof fn law_sweeps_begin<K: Key>(e: Engine<K>)
    ensures
        cleansed(e, e.tm.horizon(), Reach::Nothing),
        purged(e, e.tm.horizon(), Reach::Nothing),
{
}

/// What running transactions do, be it that they insert, update, delete, commit or abort,
/// leaves what a sweep has done.
pub proof fn law_work_leaves_sweeps<K: Key>(
    before: Engine<K>,
    after: Engine<K>,
    b: Transaction,
    h: u64,
    reach: Reach,
)
    requires
        before.wf(),
        after.wf(),
        runs(before, b),
        cleansed(before, h, reach),
        worked(before, after, b),
    ensures
        cleansed(after, h, reach),
        purged(before, h, reach) ==> purged(after, h, reach),
{
    let old = before.index.records();
    let now = after.index.records();
    let id = b.txn_id;
    law_horizon_is_least(before.tm);
    assert(before.tm.in_flight(id));
    assert(!before.tm.aborts().contains_key(0)) by {
        assert(orderly(before.tm));
    }
    lemma_same_stems(old, id);
    if exists|key: Seq<u8>, value: Seq<u8>, r: Result<(), EngineError>| #[trigger]
        insert_result::<K>(before, after, b, key, value, r) {
        let (key, value, r) = choose|key: Seq<u8>, value: Seq<u8>, r: Result<(), EngineError>|
            #[trigger] insert_result::<K>(before, after, b, key, value, r);
        if r is Ok {
            let (base, k, v) = choose|base: Seq<RecordView>, k: int, v: RecordView| #[trigger]
                entered(&before.index, &after.index, before.tm.settled(), old, base, k, v)
                    && stored_as(&after.index, v, key, value, id);
            lemma_entered_stems(before, after, old, base, k, v, id);
        }
        lemma_stays_cleansed(before, after, h, reach, id);
    } else if exists|key: Seq<u8>, value: Seq<u8>, r: Result<(), EngineError>| #[trigger]
        update_result::<K>(before, after, b, key, value, r) {
        let (key, value, r) = choose|key: Seq<u8>, value: Seq<u8>, r: Result<(), EngineError>|
            #[trigger] update_result::<K>(before, after, b, key, value, r);
        if r is Ok {
            let (m, x) = choose|m: int, x: Result<(), IndexError>|
                0 <= m < old.len() && #[trigger] superseded(
                    &before.index,
                    &after.index,
                    key,
                    value,
                    &b,
                    &before.tm,
                    m,
                    x,
                ) && r == (match x {
                    Ok(()) => Ok::<(), EngineError>(()),
                    Err(e) => Err(outcome(e, id)),
                });
            let recs = old.update(m, with_xmax(old[m], id));
            let (base, q, v) = choose|base: Seq<RecordView>, q: int, v: RecordView| #[trigger]
                entered(&before.index, &after.index, before.tm.settled(), recs, base, q, v)
                    && stored_as(&after.index, v, key, value, id);
            lemma_entered_stems(before, after, recs, base, q, v, id);
        }
        lemma_stays_cleansed(before, after, h, reach, id);
    } else if exists|key: Seq<u8>, r: Result<(), EngineError>| #[trigger]
        delete_result::<K>(before, after, b, key, r) {
        let (key, r) = choose|key: Seq<u8>, r: Result<(), EngineError>| #[trigger]
            delete_result::<K>(before, after, b, key, r);
        if r is Ok {
            let k = choose|k: int|
                {
                    let v = #[trigger] old[k];
                    &&& 0 <= k < old.len()
                    &&& visible::<K>(&b, before.tm.aborts(), key, v)
                    &&& now == old.update(k, with_xmax(v, id))
                };
            assert forall|j: int| 0 <= j < now.len() implies stems(old, #[trigger] now[j], id) by {
                assert(old[j].key == now[j].key);
            }
        }
        lemma_stays_cleansed(before, after, h, reach, id);
    } else {
        assert forall|x: u64| #[trigger]
            after.tm.active_state.active@.contains_key(
                x,
            ) implies before.tm.active_state.active@.contains_key(x)
            && after.tm.active_state.active@[x] == before.tm.active_state.active@[x] by {}
        lemma_horizon_rises(before.tm, after.tm);
        lemma_stays_cleansed(before, after, h, reach, id);
    }
}

/// Reading without a transaction leaves what a sweep has done.
pub proof fn law_reads_leave_sweeps<K: Key>(
    before: Engine<K>,
    after: Engine<K>,
    h: u64,
    reach: Reach,
)
    requires
        before.wf(),
        after.wf(),
        cleansed(before, h, reach),
        after.index.same(&before.index),
        after.tm.same_transactions(&before.tm),
        after.tm.slots@ == before.tm.slots@,
        after.tm.overflow_readers@ == before.tm.overflow_readers@,
    ensures
        cleansed(after, h, reach),
        purged(before, h, reach) ==> purged(after, h, reach),
{
    lemma_horizon_rises(before.tm, after.tm);
}

/// A checkpoint leaves what a sweep has done.
pub proof fn law_checkpoints_leave_sweeps<K: Key>(
    before: Engine<K>,
    after: Engine<K>,
    r: Result<u64, EngineError>,
    h: u64,
    reach: Reach,
)
    requires
        cleansed(before, h, reach),
        checkpoint_result::<K>(before, after, r),
    ensures
        cleansed(after, h, reach),
        purged(before, h, reach) ==> purged(after, h, reach),
{
}

/// A sweep of all leaves in one go leaves what a sweep in batches has done.
pub proof fn law_vacuum_leaves_sweeps<K: Key>(
    before: Engine<K>,
    after: Engine<K>,
    r: Result<usize, EngineError>,
    h: u64,
    reach: Reach,
)
    requires
        before.wf(),
        after.wf(),
        orderly(before.tm),
        cleansed(before, h, reach),
        vacuum_result::<K>(before, after, r),
    ensures
        cleansed(after, h, reach),
        purged(before, h, reach) ==> purged(after, h, reach),
{
    if r is Ok {
        let e = before.tm.settled();
        let old = before.index.records();
        let now = after.index.records();
        lemma_horizon_rises(before.tm, after.tm);
        assert forall|k: int| 0 <= k < now.len() && passed::<K>(
            reach,
            (#[trigger] now[k]).key,
        ) implies scrubbed(after.tm.aborts(), h, now[k]) by {
            lemma_survivors_member(e, old, now[k]);
            let i = choose|i: int|
                0 <= i < old.len() && !dead(e, #[trigger] old[i]) && now[k] == cleared(e, old[i]);
            assert(scrubbed(before.tm.aborts(), h, old[i]));
        }
        if purged(before, h, reach) {
            assert forall|k: int| 0 <= k < now.len() && passed::<K>(
                reach,
                (#[trigger] now[k]).key,
            ) implies now[k].xmax == 0 || h <= now[k].xmax by {
                lemma_survivors_member(e, old, now[k]);
                let i = choose|i: int|
                    0 <= i < old.len() && !dead(e, #[trigger] old[i]) && now[k] == cleared(
                        e,
                        old[i],
                    );
                assert(passed::<K>(reach, old[i].key));
            }
        }
    }
}

/// The records before and behind the leaves of a batch.
pub proof fn lemma_outside<K: Key>(t: Tree, from: &KeyBound, i: int, m: int)
    requires
        t.wf::<K>(),
        batch_span::<K>(t, from, i, m),
    ensures
        ({
            let n = t.levels[0].len() as int;
            let a = on_leaves(t, 0, i);
            let x = on_leaves(t, i, i + m);
            let b = on_leaves(t, i + m, n);
            &&& t.records() == a + x + b
            &&& forall|k: int| 0 <= k < a.len() ==> !from.starts_before::<K>(#[trigger] a[k].key)
            &&& i + m < n ==> forall|k: int|
                0 <= k < b.len() ==> bound_le::<K>(
                    t.leaf(i + m - 1).high_key,
                    Some(#[trigger] b[k].key),
                )
            &&& i + m == n ==> b.len() == 0
        }),
{
    K::le_laws();
    let c = t.levels[0];
    let n = c.len() as int;
    let recs = t.records();
    let ca = c.subrange(0, i);
    let cx = c.subrange(i, i + m);
    let cb = c.subrange(i + m, n);
    let a = on_leaves(t, 0, i);
    let x = on_leaves(t, i, i + m);
    let b = on_leaves(t, i + m, n);
    assert(c =~= ca + cx + cb);
    lemma_flat_add(t.nodes, ca + cx, cb);
    lemma_flat_add(t.nodes, ca, cx);
    assert(recs == a + x + b);
    let s = choose|s: int|
        0 <= s <= t.leaf(i).entries.len() && cut_at::<K>(recs, #[trigger] place(t, i, s), from);
    assert forall|k: int| 0 <= k < a.len() implies !from.starts_before::<K>(
        #[trigger] a[k].key,
    ) by {
        assert(recs[k] == a[k]);
        assert(k < place(t, i, s));
    }
    if i + m < n {
        let y = i + m;
        assert(c.subrange(0, y) =~= ca + cx);
        assert(t.valid(0, y) && t.valid(0, y - 1));
        assert(t.page_ok::<K>(0, y) && t.page_ok::<K>(0, y - 1));
        assert(t.linked(0, y) && t.linked(0, y - 1));
        assert forall|k: int| 0 <= k < b.len() implies bound_le::<K>(
            t.leaf(y - 1).high_key,
            Some(#[trigger] b[k].key),
        ) by {
            let p = a.len() + x.len() + k;
            assert(recs[p] == b[k]);
            let (j, u) = lemma_member::<K>(t, p);
            lemma_place_order::<K>(t, y, 0, j, u);
            assert(place(t, y, 0) == a.len() + x.len());
            assert(t.page_ok::<K>(0, j));
            lemma_lows_monotone::<K>(t, y, j);
            reveal(records_ok);
            assert(t.leaf_ok::<K>(t.leaf(j)));
            assert(bound_le::<K>(t.lows[t.page(0, j)], Some(t.leaf(j).entries[u].key)));
        }
    } else {
        assert(cb =~= Seq::<u64>::empty());
    }
}

/// A batch takes a sweep further: it has then come to where the next batch goes on, and
/// past all keys if there is none.
pub proof fn law_batches_get_further<K: Key>(
    before: Engine<K>,
    after: Engine<K>,
    from: KeyBound,
    b: Batch,
    h: u64,
    reach: Reach,
)
    requires
        before.wf(),
        orderly(before.tm),
        cleansed(before, h, reach),
        match from {
            KeyBound::Unbounded => true,
            KeyBound::Included(k) => reach == Reach::Below(k@),
            KeyBound::Excluded(_) => false,
        },
        batch_result::<K>(before, after, &from, Ok(b)),
    ensures
        cleansed(
            after,
            h,
            match b.next {
                Some(k) => Reach::Below(k@),
                None => Reach::All,
            },
        ),
        purged(before, h, reach) ==> purged(
            after,
            h,
            match b.next {
                Some(k) => Reach::Below(k@),
                None => Reach::All,
            },
        ),
{
    K::le_laws();
    let e = before.tm.settled();
    let t = before.index.tree();
    let now = after.index.records();
    let old = before.index.records();
    let (i, m) = choose|i: int, m: int| #[trigger]
        batch_span::<K>(t, &from, i, m) && batch_swept(before.index, after.index, e, i, m, b);
    lemma_outside::<K>(t, &from, i, m);
    let n = t.levels[0].len() as int;
    let pa = on_leaves(t, 0, i);
    let px = on_leaves(t, i, i + m);
    let pb = on_leaves(t, i + m, n);
    let s = survivors(e, px);
    assert(now == pa + s + pb);
    let next = match b.next {
        Some(k) => Reach::Below(k@),
        None => Reach::All,
    };
    assert forall|k: int| 0 <= k < now.len() && passed::<K>(
        next,
        (#[trigger] now[k]).key,
    ) implies scrubbed(after.tm.aborts(), h, now[k]) && (purged(before, h, reach) ==> now[k].xmax
        == 0 || h <= now[k].xmax) by {
        if k < pa.len() {
            assert(now[k] == pa[k]);
            assert(old[k] == pa[k]);
            assert(!from.starts_before::<K>(pa[k].key));
            assert(passed::<K>(reach, old[k].key));
        } else if k < pa.len() + s.len() {
            let q = k - pa.len();
            assert(now[k] == s[q]);
            assert(s.contains(s[q]));
            lemma_survivors_member(e, px, s[q]);
            let j = choose|j: int|
                0 <= j < px.len() && !dead(e, #[trigger] px[j]) && s[q] == cleared(e, px[j]);
            assert(!e.aborts.contains_key(px[j].xmin));
        } else {
            let q = k - pa.len() - s.len();
            assert(now[k] == pb[q]);
            assert(bound_le::<K>(t.leaf(i + m - 1).high_key, Some(pb[q].key)));
        }
    }
}

/// A sweep that has come past all keys can publish its horizon: the engine is in order
/// then, whoever is running goes on doing so, and reads what it read before.
pub proof fn law_finished_sweeps_publish<K: Key>(
    before: Engine<K>,
    after: Engine<K>,
    h: u64,
    a: Transaction,
    key: Seq<u8>,
)
    requires
        before.wf(),
        coherent(before),
        cleansed(before, h, Reach::All),
        published(before.tm, after.tm, h),
        after.index == before.index,
    ensures
        coherent(after),
        runs(before, a) ==> runs(after, a),
        runs(before, a) ==> reads_alike(before, after, a, key),
        purged(before, h, Reach::All) ==> purged(after, h, Reach::All),
{
    let recs = before.index.records();
    let log = before.index.store.log();
    if h > before.tm.vacuum_horizon {
        assert forall|id: u64| #[trigger] after.tm.in_flight(id) == before.tm.in_flight(id) by {}
        assert(orderly(after.tm)) by {
            assert forall|id: u64| #[trigger] after.tm.aborts().contains_key(id) implies 1 <= id
                < after.tm.next_txn_id && !after.tm.in_flight(id) by {
                assert(before.tm.aborts().contains_key(id));
            }
        }
        assert forall|k: int| 0 <= k < recs.len() implies {
            let r = #[trigger] recs[k];
            &&& after.tm.aborts().contains_key(r.xmin) == before.tm.aborts().contains_key(r.xmin)
            &&& after.tm.aborts().contains_key(r.xmax) == before.tm.aborts().contains_key(r.xmax)
        } by {
            assert(passed::<K>(Reach::All, recs[k].key));
            assert(scrubbed(before.tm.aborts(), h, recs[k]));
        }
        assert forall|i: int, j: int|
            0 <= i < recs.len() && 0 <= j < recs.len() && i != j && key_eq::<K>(
                (#[trigger] recs[i]).key,
                (#[trigger] recs[j]).key,
            ) && !after.tm.aborts().contains_key(recs[i].xmin)
                && !after.tm.aborts().contains_key(recs[j].xmin) implies followed(
            after.tm,
            recs[i],
            recs[j],
        ) || followed(after.tm, recs[j], recs[i]) by {
            assert(followed(before.tm, recs[i], recs[j]) || followed(before.tm, recs[j], recs[i]));
        }
        assert(in_line::<K>(after.tm, recs));
        assert(recorded(after.tm, log, recs)) by {
            assert forall|j: int| 0 <= j < log.len() implies heeded(
                after.tm,
                #[trigger] log[j],
            ) by {
                assert(heeded(before.tm, log[j]));
            }
            assert forall|k: int| 0 <= k < recs.len() implies accounted(
                after.tm,
                log,
                (#[trigger] recs[k]).xmin,
            ) && accounted(after.tm, log, recs[k].xmax) by {
                assert(accounted(before.tm, log, recs[k].xmin) && accounted(
                    before.tm,
                    log,
                    recs[k].xmax,
                ));
            }
        }
        if runs(before, a) {
            assert(lone::<K>(after.tm.aborts(), a, recs)) by {
                assert forall|i: int, j: int|
                    0 <= i < recs.len() && 0 <= j < recs.len() && i != j && key_eq::<K>(
                        (#[trigger] recs[i]).key,
                        (#[trigger] recs[j]).key,
                    ) implies !(a.sees(after.tm.aborts(), recs[i].xmin, recs[i].xmax) && a.sees(
                    after.tm.aborts(),
                    recs[j].xmin,
                    recs[j].xmax,
                )) by {}
            }
            assert forall|k: int| 0 <= k < recs.len() implies remembered(
                after.tm.settled(),
                &a,
                #[trigger] recs[k],
            ) by {
                assert(remembered(before.tm.settled(), &a, recs[k]));
            }
            assert forall|i: int|
                0 <= i < recs.len() && visible::<K>(
                    &a,
                    before.tm.aborts(),
                    key,
                    #[trigger] recs[i],
                ) implies exists|j: int|
                0 <= j < recs.len() && visible::<K>(&a, after.tm.aborts(), key, #[trigger] recs[j])
                    && after.index.content(recs[j]) == before.index.content(recs[i]) by {
                assert(visible::<K>(&a, after.tm.aborts(), key, recs[i]));
            }
            assert forall|j: int|
                0 <= j < recs.len() && visible::<K>(
                    &a,
                    after.tm.aborts(),
                    key,
                    #[trigger] recs[j],
                ) implies exists|i: int|
                0 <= i < recs.len() && visible::<K>(&a, before.tm.aborts(), key, #[trigger] recs[i])
                    && after.index.content(recs[j]) == before.index.content(recs[i]) by {
                assert(visible::<K>(&a, before.tm.aborts(), key, recs[j]));
            }
            lemma_reads_alike::<K>(before, after, a, key);
        }
    }
}

} // verus!
