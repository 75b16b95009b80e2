//! The versions of a key follow one another: at most one of them is current, and
//! every transaction sees at most one.

use vstd::prelude::*;

use crate::index::BTreeIndex;
use crate::index_write::{entered, kin};
use crate::key::{key_eq, Key};
use crate::mvcc::{
    cleared, dead, insert_conflict, law_dead_versions_are_invisible, lemma_survivors_add,
    lemma_survivors_one, protected, remembered, survivors, with_xmax, write_conflict, Settled,
};
use crate::node::RecordView;
use crate::transaction::Transaction;
use crate::transaction_manager::{law_horizon_is_least, law_snapshot_xmin, TransactionManager};

verus! {

/// Where a version that survives a sweep stands afterwards.
spec fn rank(e: Settled, s: Seq<RecordView>, i: int) -> int {
    survivors(e, s.take(i)).len() as int
}

proof fn lemma_rank(e: Settled, s: Seq<RecordView>, i: int)
    requires
        0 <= i < s.len(),
        !dead(e, s[i]),
    ensures
        0 <= rank(e, s, i) < survivors(e, s).len(),
        survivors(e, s)[rank(e, s, i)] == cleared(e, s[i]),
{
    let a = s.take(i);
    let b = seq![s[i]];
    let c = s.skip(i + 1);
    assert(s =~= (a + b) + c);
    lemma_survivors_add(e, a + b, c);
    lemma_survivors_add(e, a, b);
    lemma_survivors_one(e, s[i]);
}

proof fn lemma_rank_grows(e: Settled, s: Seq<RecordView>, i: int, j: int)
    requires
        0 <= i < j <= s.len(),
        !dead(e, s[i]),
    ensures
        rank(e, s, i) < rank(e, s, j),
{
    lemma_rank(e, s.take(j), i);
    assert(s.take(j).take(i) =~= s.take(i));
}

proof fn lemma_source(e: Settled, s: Seq<RecordView>, p: int) -> (i: int)
    requires
        0 <= p < survivors(e, s).len(),
    ensures
        0 <= i < s.len(),
        !dead(e, s[i]),
        rank(e, s, i) == p,
        survivors(e, s)[p] == cleared(e, s[i]),
    decreases s.len(),
{
    let t = s.drop_last();
    let n = s.len() - 1;
    assert(s.take(n) =~= t);
    if p < survivors(e, t).len() {
        let i = lemma_source(e, t, p);
        assert(s.take(i) =~= t.take(i));
        assert(s[i] == t[i]);
        i
    } else {
        assert(s[n] == s.last());
        n
    }
}

/// Two versions that survive come from two versions of any list with the same
/// survivors.
proof fn lemma_two(
    e: Settled,
    base: Seq<RecordView>,
    recs: Seq<RecordView>,
    p: int,
    q: int,
) -> (ij: (int, int))
    requires
        survivors(e, base) == survivors(e, recs),
        0 <= p < base.len(),
        0 <= q < base.len(),
        p != q,
        !dead(e, base[p]),
        !dead(e, base[q]),
    ensures
        0 <= ij.0 < recs.len(),
        0 <= ij.1 < recs.len(),
        ij.0 != ij.1,
        cleared(e, recs[ij.0]) == cleared(e, base[p]),
        cleared(e, recs[ij.1]) == cleared(e, base[q]),
{
    lemma_rank(e, base, p);
    lemma_rank(e, base, q);
    if p < q {
        lemma_rank_grows(e, base, p, q);
    } else {
        lemma_rank_grows(e, base, q, p);
    }
    let i = lemma_source(e, recs, rank(e, base, p));
    let j = lemma_source(e, recs, rank(e, base, q));
    (i, j)
}

/// Whether a version was ended for good before another one was made, or by whoever
/// made that.
pub open spec fn followed(tm: TransactionManager, r: RecordView, by: RecordView) -> bool {
    &&& r.xmax != 0
    &&& !tm.aborts().contains_key(r.xmax)
    &&& r.xmax == by.xmin || !tm.in_flight(r.xmax)
}

/// Whether the versions of each key follow one another, apart from those of
/// aborted transactions.
pub open spec fn in_line<K: Key>(tm: TransactionManager, recs: Seq<RecordView>) -> bool {
    &&& forall|i: int|
        0 <= i < recs.len() ==> (#[trigger] recs[i]).xmin < tm.next_txn_id && recs[i].xmax
            < tm.next_txn_id
    &&& forall|i: int, j: int|
        0 <= i < recs.len() && 0 <= j < recs.len() && i != j && key_eq::<K>(
            (#[trigger] recs[i]).key,
            (#[trigger] recs[j]).key,
        ) && !tm.aborts().contains_key(recs[i].xmin) && !tm.aborts().contains_key(recs[j].xmin)
            ==> followed(tm, recs[i], recs[j]) || followed(tm, recs[j], recs[i])
}

/// Whether a transaction sees at most one version of each key.
pub open spec fn lone<K: Key>(
    aborts: Map<u64, ()>,
    txn: Transaction,
    recs: Seq<RecordView>,
) -> bool {
    forall|i: int, j: int|
        0 <= i < recs.len() && 0 <= j < recs.len() && i != j && key_eq::<K>(
            (#[trigger] recs[i]).key,
            (#[trigger] recs[j]).key,
        ) ==> !(txn.sees(aborts, recs[i].xmin, recs[i].xmax) && txn.sees(
            aborts,
            recs[j].xmin,
            recs[j].xmax,
        ))
}

/// Where the versions follow one another, whoever begins sees at most one of each
/// key.
pub proof fn lemma_begun_lone<K: Key>(
    tm: TransactionManager,
    t: Transaction,
    recs: Seq<RecordView>,
)
    requires
        tm.wf(),
        in_line::<K>(tm, recs),
        t.snapshot.reflects(tm.txn_state),
        tm.in_flight(t.txn_id),
        !tm.aborts().contains_key(0),
        forall|i: int|
            0 <= i < recs.len() ==> (#[trigger] recs[i]).xmin != t.txn_id && recs[i].xmax
                != t.txn_id,
    ensures
        lone::<K>(tm.aborts(), t, recs),
{
    assert forall|i: int, j: int|
        0 <= i < recs.len() && 0 <= j < recs.len() && i != j && key_eq::<K>(
            (#[trigger] recs[i]).key,
            (#[trigger] recs[j]).key,
        ) implies !(t.sees(tm.aborts(), recs[i].xmin, recs[i].xmax) && t.sees(
        tm.aborts(),
        recs[j].xmin,
        recs[j].xmax,
    )) by {
        law_snapshot_xmin(tm, t.snapshot, recs[i].xmin);
        law_snapshot_xmin(tm, t.snapshot, recs[j].xmin);
        law_snapshot_xmin(tm, t.snapshot, recs[i].xmax);
        law_snapshot_xmin(tm, t.snapshot, recs[j].xmax);
        if t.sees(tm.aborts(), recs[i].xmin, recs[i].xmax) && t.sees(
            tm.aborts(),
            recs[j].xmin,
            recs[j].xmax,
        ) {
            assert(followed(tm, recs[i], recs[j]) || followed(tm, recs[j], recs[i]));
        }
    }
}

/// A version that has entered after all others of its key keeps them in line.
pub proof fn lemma_entered_in_line<K: Key>(
    before: BTreeIndex<K>,
    after: BTreeIndex<K>,
    tm: TransactionManager,
    recs: Seq<RecordView>,
    base: Seq<RecordView>,
    k: int,
    v: RecordView,
)
    requires
        tm.wf(),
        entered(&before, &after, tm.settled(), recs, base, k, v),
        in_line::<K>(tm, recs),
        v.xmax == 0,
        v.xmin < tm.next_txn_id,
        forall|i: int|
            0 <= i < recs.len() && key_eq::<K>((#[trigger] recs[i]).key, v.key)
                && !tm.aborts().contains_key(recs[i].xmin) ==> followed(tm, recs[i], v),
    ensures
        in_line::<K>(tm, after.records()),
{
    let e = tm.settled();
    let now = after.records();
    law_horizon_is_least(tm);
    assert forall|i: int| 0 <= i < now.len() implies (#[trigger] now[i]).xmin < tm.next_txn_id
        && now[i].xmax < tm.next_txn_id by {
        if i != k {
            let z = if i < k {
                i
            } else {
                i - 1
            };
            assert(now[i] == base[z]);
            assert(kin(e, recs, base[z]));
        }
    }
    assert forall|i: int, j: int|
        0 <= i < now.len() && 0 <= j < now.len() && i != j && key_eq::<K>(
            (#[trigger] now[i]).key,
            (#[trigger] now[j]).key,
        ) && !tm.aborts().contains_key(now[i].xmin) && !tm.aborts().contains_key(
            now[j].xmin,
        ) implies followed(tm, now[i], now[j]) || followed(tm, now[j], now[i]) by {
        if i == k || j == k {
            let o = if i == k {
                j
            } else {
                i
            };
            let z = if o < k {
                o
            } else {
                o - 1
            };
            assert(now[o] == base[z]);
            assert(now[k] == v);
            lemma_one_follows::<K>(tm, recs, base[z], v);
        } else {
            let y = if i < k {
                i
            } else {
                i - 1
            };
            let z = if j < k {
                j
            } else {
                j - 1
            };
            assert(now[i] == base[y]);
            assert(now[j] == base[z]);
            lemma_pair_follows::<K>(tm, recs, base, y, z);
        }
    }
}

/// Versions of which some dead ones have gone are still in line.
pub proof fn lemma_thinned_in_line<K: Key>(
    tm: TransactionManager,
    recs: Seq<RecordView>,
    base: Seq<RecordView>,
)
    requires
        tm.wf(),
        in_line::<K>(tm, recs),
        survivors(tm.settled(), base) == survivors(tm.settled(), recs),
        forall|k: int| 0 <= k < base.len() ==> kin(tm.settled(), recs, #[trigger] base[k]),
    ensures
        in_line::<K>(tm, base),
{
    law_horizon_is_least(tm);
    assert forall|i: int| 0 <= i < base.len() implies (#[trigger] base[i]).xmin < tm.next_txn_id
        && base[i].xmax < tm.next_txn_id by {
        assert(kin(tm.settled(), recs, base[i]));
    }
    assert forall|i: int, j: int|
        0 <= i < base.len() && 0 <= j < base.len() && i != j && key_eq::<K>(
            (#[trigger] base[i]).key,
            (#[trigger] base[j]).key,
        ) && !tm.aborts().contains_key(base[i].xmin) && !tm.aborts().contains_key(
            base[j].xmin,
        ) implies followed(tm, base[i], base[j]) || followed(tm, base[j], base[i]) by {
        lemma_pair_follows::<K>(tm, recs, base, i, j);
    }
}

/// A transaction that sees at most one version of each key still does when some dead
/// versions have gone, and the aborts that its snapshot knows of are still on record.
pub proof fn lemma_thinned_lone<K: Key>(
    e: Settled,
    recs: Seq<RecordView>,
    base: Seq<RecordView>,
    a: Transaction,
)
    requires
        survivors(e, base) == survivors(e, recs),
        forall|k: int| 0 <= k < base.len() ==> kin(e, recs, #[trigger] base[k]),
        protected(e, &a),
        forall|i: int| 0 <= i < recs.len() ==> remembered(e, &a, #[trigger] recs[i]),
        !a.snapshot.aborted@.contains(0),
        lone::<K>(e.aborts, a, recs),
    ensures
        lone::<K>(e.aborts, a, base),
        forall|k: int| 0 <= k < base.len() ==> remembered(e, &a, #[trigger] base[k]),
{
    assert forall|k: int| 0 <= k < base.len() implies remembered(e, &a, #[trigger] base[k]) by {
        lemma_kin_remembered(e, recs, base[k], a);
    }
    assert forall|y: int, z: int|
        0 <= y < base.len() && 0 <= z < base.len() && y != z && key_eq::<K>(
            (#[trigger] base[y]).key,
            (#[trigger] base[z]).key,
        ) implies !(a.sees(e.aborts, base[y].xmin, base[y].xmax) && a.sees(
        e.aborts,
        base[z].xmin,
        base[z].xmax,
    )) by {
        law_dead_versions_are_invisible(e, &a, base[y]);
        law_dead_versions_are_invisible(e, &a, base[z]);
        if !dead(e, base[y]) && !dead(e, base[z]) {
            let (p, q) = lemma_two(e, base, recs, y, z);
            law_dead_versions_are_invisible(e, &a, recs[p]);
            law_dead_versions_are_invisible(e, &a, recs[q]);
            assert(recs[p].key == base[y].key && recs[q].key == base[z].key);
            assert(key_eq::<K>(recs[p].key, recs[q].key));
        }
    }
}

/// A dead version of a transaction that did not abort has been ended for good.
proof fn lemma_dead_followed(tm: TransactionManager, r: RecordView, by: RecordView)
    requires
        tm.wf(),
        dead(tm.settled(), r),
        !tm.aborts().contains_key(r.xmin),
    ensures
        followed(tm, r, by),
{
    law_horizon_is_least(tm);
    if tm.in_flight(r.xmax) {
        assert(tm.horizon() <= tm.active_state.active@[r.xmax].0);
    }
}

proof fn lemma_one_follows<K: Key>(
    tm: TransactionManager,
    recs: Seq<RecordView>,
    b: RecordView,
    v: RecordView,
)
    requires
        tm.wf(),
        kin(tm.settled(), recs, b),
        key_eq::<K>(b.key, v.key) || key_eq::<K>(v.key, b.key),
        !tm.aborts().contains_key(b.xmin),
        forall|i: int|
            0 <= i < recs.len() && key_eq::<K>((#[trigger] recs[i]).key, v.key)
                && !tm.aborts().contains_key(recs[i].xmin) ==> followed(tm, recs[i], v),
    ensures
        followed(tm, b, v),
{
    let e = tm.settled();
    let i = choose|i: int|
        0 <= i < recs.len() && (b == #[trigger] recs[i] || b == cleared(e, recs[i]));
    assert(followed(tm, recs[i], v));
}

proof fn lemma_pair_follows<K: Key>(
    tm: TransactionManager,
    recs: Seq<RecordView>,
    base: Seq<RecordView>,
    y: int,
    z: int,
)
    requires
        tm.wf(),
        in_line::<K>(tm, recs),
        survivors(tm.settled(), base) == survivors(tm.settled(), recs),
        0 <= y < base.len(),
        0 <= z < base.len(),
        y != z,
        key_eq::<K>(base[y].key, base[z].key),
        !tm.aborts().contains_key(base[y].xmin),
        !tm.aborts().contains_key(base[z].xmin),
    ensures
        followed(tm, base[y], base[z]) || followed(tm, base[z], base[y]),
{
    let e = tm.settled();
    if dead(e, base[y]) {
        lemma_dead_followed(tm, base[y], base[z]);
    } else if dead(e, base[z]) {
        lemma_dead_followed(tm, base[z], base[y]);
    } else {
        let (i, j) = lemma_two(e, base, recs, y, z);
        assert(recs[i].key == base[y].key && recs[j].key == base[z].key);
        assert(recs[i].xmin == base[y].xmin && recs[j].xmin == base[z].xmin);
        assert(key_eq::<K>(recs[i].key, recs[j].key));
        assert(followed(tm, recs[i], recs[j]) || followed(tm, recs[j], recs[i]));
    }
}

/// A sweep keeps the versions in line, and so does forgetting aborted transactions
/// afterwards.
pub proof fn lemma_swept_in_line<K: Key>(
    tm: TransactionManager,
    after: TransactionManager,
    recs: Seq<RecordView>,
)
    requires
        in_line::<K>(tm, recs),
        after.next_txn_id == tm.next_txn_id,
        tm.next_txn_id >= 1,
        after.active_state.active == tm.active_state.active,
        forall|id: u64| #[trigger] after.aborts().contains_key(id) ==> tm.aborts().contains_key(id),
    ensures
        in_line::<K>(after, survivors(tm.settled(), recs)),
{
    let e = tm.settled();
    let now = survivors(e, recs);
    assert forall|i: int| 0 <= i < now.len() implies (#[trigger] now[i]).xmin < after.next_txn_id
        && now[i].xmax < after.next_txn_id by {
        let x = lemma_source(e, recs, i);
        assert(recs[x].xmin < tm.next_txn_id);
    }
    assert forall|i: int, j: int|
        0 <= i < now.len() && 0 <= j < now.len() && i != j && key_eq::<K>(
            (#[trigger] now[i]).key,
            (#[trigger] now[j]).key,
        ) && !after.aborts().contains_key(now[i].xmin) && !after.aborts().contains_key(
            now[j].xmin,
        ) implies followed(after, now[i], now[j]) || followed(after, now[j], now[i]) by {
        let x = lemma_source(e, recs, i);
        let y = lemma_source(e, recs, j);
        assert(x != y);
        assert(key_eq::<K>(recs[x].key, recs[y].key));
        assert(followed(tm, recs[x], recs[y]) || followed(tm, recs[y], recs[x]));
    }
}

/// A transaction that sees at most one version of each key still does after a
/// sweep.
pub proof fn lemma_swept_lone<K: Key>(
    e: Settled,
    later: Map<u64, ()>,
    a: Transaction,
    recs: Seq<RecordView>,
)
    requires
        protected(e, &a),
        forall|i: int| 0 <= i < recs.len() ==> remembered(e, &a, #[trigger] recs[i]),
        forall|id: u64| #[trigger] later.contains_key(id) ==> e.aborts.contains_key(id),
        lone::<K>(e.aborts, a, recs),
    ensures
        lone::<K>(later, a, survivors(e, recs)),
{
    let now = survivors(e, recs);
    assert forall|i: int, j: int|
        0 <= i < now.len() && 0 <= j < now.len() && i != j && key_eq::<K>(
            (#[trigger] now[i]).key,
            (#[trigger] now[j]).key,
        ) implies !(a.sees(later, now[i].xmin, now[i].xmax) && a.sees(
        later,
        now[j].xmin,
        now[j].xmax,
    )) by {
        let x = lemma_source(e, recs, i);
        let y = lemma_source(e, recs, j);
        assert(x != y);
        law_dead_versions_are_invisible(e, &a, recs[x]);
        law_dead_versions_are_invisible(e, &a, recs[y]);
        assert(key_eq::<K>(recs[x].key, recs[y].key));
    }
}

/// The same when a version has entered that does not show another one twice.
pub proof fn lemma_entered_lone<K: Key>(
    before: BTreeIndex<K>,
    after: BTreeIndex<K>,
    e: Settled,
    recs: Seq<RecordView>,
    base: Seq<RecordView>,
    k: int,
    v: RecordView,
    a: Transaction,
)
    requires
        entered(&before, &after, e, recs, base, k, v),
        protected(e, &a),
        forall|i: int| 0 <= i < recs.len() ==> remembered(e, &a, #[trigger] recs[i]),
        !a.snapshot.aborted@.contains(0),
        lone::<K>(e.aborts, a, recs),
        a.sees(e.aborts, v.xmin, v.xmax) ==> forall|i: int|
            0 <= i < recs.len() && key_eq::<K>((#[trigger] recs[i]).key, v.key) ==> !a.sees(
                e.aborts,
                recs[i].xmin,
                recs[i].xmax,
            ),
    ensures
        lone::<K>(e.aborts, a, after.records()),
{
    let now = after.records();
    assert forall|i: int, j: int|
        0 <= i < now.len() && 0 <= j < now.len() && i != j && key_eq::<K>(
            (#[trigger] now[i]).key,
            (#[trigger] now[j]).key,
        ) implies !(a.sees(e.aborts, now[i].xmin, now[i].xmax) && a.sees(
        e.aborts,
        now[j].xmin,
        now[j].xmax,
    )) by {
        if i == k || j == k {
            let o = if i == k {
                j
            } else {
                i
            };
            let z = if o < k {
                o
            } else {
                o - 1
            };
            assert(now[o] == base[z]);
            assert(now[k] == v);
            assert(kin(e, recs, base[z]));
            let x = choose|x: int|
                0 <= x < recs.len() && (base[z] == #[trigger] recs[x] || base[z] == cleared(
                    e,
                    recs[x],
                ));
            law_dead_versions_are_invisible(e, &a, recs[x]);
            assert(key_eq::<K>(recs[x].key, v.key));
        } else {
            let y = if i < k {
                i
            } else {
                i - 1
            };
            let z = if j < k {
                j
            } else {
                j - 1
            };
            assert(now[i] == base[y]);
            assert(now[j] == base[z]);
            lemma_kin_remembered(e, recs, base[y], a);
            lemma_kin_remembered(e, recs, base[z], a);
            law_dead_versions_are_invisible(e, &a, base[y]);
            law_dead_versions_are_invisible(e, &a, base[z]);
            if !dead(e, base[y]) && !dead(e, base[z]) {
                let (p, q) = lemma_two(e, base, recs, y, z);
                law_dead_versions_are_invisible(e, &a, recs[p]);
                law_dead_versions_are_invisible(e, &a, recs[q]);
                assert(recs[p].key == base[y].key && recs[q].key == base[z].key);
                assert(key_eq::<K>(recs[p].key, recs[q].key));
            }
        }
    }
}

proof fn lemma_kin_remembered(e: Settled, recs: Seq<RecordView>, x: RecordView, a: Transaction)
    requires
        kin(e, recs, x),
        forall|i: int| 0 <= i < recs.len() ==> remembered(e, &a, #[trigger] recs[i]),
        !a.snapshot.aborted@.contains(0),
    ensures
        remembered(e, &a, x),
{
    let i = choose|i: int|
        0 <= i < recs.len() && (x == #[trigger] recs[i] || x == cleared(e, recs[i]));
    assert(remembered(e, &a, recs[i]));
}

/// The stamp on a version that could be changed keeps the versions in line.
pub proof fn lemma_marked_in_line<K: Key>(
    tm: TransactionManager,
    b: Transaction,
    old: Seq<RecordView>,
    m: int,
)
    requires
        tm.wf(),
        in_line::<K>(tm, old),
        tm.in_flight(b.txn_id),
        0 <= m < old.len(),
        b.sees(tm.aborts(), old[m].xmin, old[m].xmax),
        write_conflict(&b, &tm, old[m].xmax) is None,
    ensures
        in_line::<K>(tm, old.update(m, with_xmax(old[m], b.txn_id))),
        forall|j: int|
            0 <= j < old.len() && j != m && key_eq::<K>((#[trigger] old[j]).key, old[m].key)
                && !tm.aborts().contains_key(old[j].xmin) && !tm.aborts().contains_key(old[m].xmin)
                ==> followed(tm, old[j], old[m]),
{
    let now = old.update(m, with_xmax(old[m], b.txn_id));
    assert(old[m].xmax == 0 || tm.aborts().contains_key(old[m].xmax));
    assert forall|j: int|
        0 <= j < old.len() && j != m && key_eq::<K>((#[trigger] old[j]).key, old[m].key)
            && !tm.aborts().contains_key(old[j].xmin) && !tm.aborts().contains_key(
            old[m].xmin,
        ) implies followed(tm, old[j], old[m]) by {
        assert(followed(tm, old[j], old[m]) || followed(tm, old[m], old[j]));
    }
    assert forall|i: int| 0 <= i < now.len() implies (#[trigger] now[i]).xmin < tm.next_txn_id
        && now[i].xmax < tm.next_txn_id by {
        assert(old[i].xmin < tm.next_txn_id);
    }
    assert forall|i: int, j: int|
        0 <= i < now.len() && 0 <= j < now.len() && i != j && key_eq::<K>(
            (#[trigger] now[i]).key,
            (#[trigger] now[j]).key,
        ) && !tm.aborts().contains_key(now[i].xmin) && !tm.aborts().contains_key(
            now[j].xmin,
        ) implies followed(tm, now[i], now[j]) || followed(tm, now[j], now[i]) by {
        if i == m {
            assert(key_eq::<K>(old[j].key, old[m].key));
            assert(followed(tm, old[j], old[m]));
        } else if j == m {
            assert(key_eq::<K>(old[i].key, old[m].key));
            assert(followed(tm, old[i], old[m]));
        } else {
            assert(now[i] == old[i] && now[j] == old[j]);
        }
    }
}

/// Nothing that an insertion does not conflict with is current any more.
pub proof fn lemma_unopposed_followed(
    tm: TransactionManager,
    b: Transaction,
    r: RecordView,
    v: RecordView,
)
    requires
        insert_conflict(&b, &tm, r) is None,
        v.xmin == b.txn_id,
        !tm.aborts().contains_key(r.xmin),
    ensures
        followed(tm, r, v),
{
}

/// When a transaction has ended, the versions are still in line.
pub proof fn lemma_settled_in_line<K: Key>(
    tm: TransactionManager,
    after: TransactionManager,
    b: u64,
    recs: Seq<RecordView>,
)
    requires
        in_line::<K>(tm, recs),
        tm.in_flight(b),
        after.next_txn_id == tm.next_txn_id,
        after.active_state.active@ == tm.active_state.active@.remove(b),
        after.aborts() == tm.aborts() || after.aborts() == tm.aborts().insert(b, ()),
    ensures
        in_line::<K>(after, recs),
{
    assert forall|i: int| 0 <= i < recs.len() implies (#[trigger] recs[i]).xmin < after.next_txn_id
        && recs[i].xmax < after.next_txn_id by {}
    assert forall|i: int, j: int|
        0 <= i < recs.len() && 0 <= j < recs.len() && i != j && key_eq::<K>(
            (#[trigger] recs[i]).key,
            (#[trigger] recs[j]).key,
        ) && !after.aborts().contains_key(recs[i].xmin) && !after.aborts().contains_key(
            recs[j].xmin,
        ) implies followed(after, recs[i], recs[j]) || followed(after, recs[j], recs[i]) by {
        assert(followed(tm, recs[i], recs[j]) || followed(tm, recs[j], recs[i]));
    }
}

} // verus!
