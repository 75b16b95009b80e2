//! The versions and values that an index has had, one state after the other.

use vstd::prelude::*;

use crate::change::{replay, ChunkView, LogEntry, Pages};
use crate::compact::swept_part;
use crate::history::state;
use crate::index::{content, rows_of, BTreeIndex};
use crate::index_open::{indexes, is_index, lemma_alike_indexes, lemma_alike_sym, tree_of};
use crate::index_write::{kin, lemma_kin_swept};
use crate::key::Key;
use crate::mvcc::{cleared, dead, survivors, with_xmax, Settled};
use crate::node::RecordView;
use crate::store::PageStore;
use crate::trace::{carries_on, holds_more, padded};
use crate::unique::{agree, lemma_reads, reads};

verus! {

/// The versions and values of an index that pages form.
pub open spec fn rows_in(
    p: Pages,
    levels: Seq<Seq<u64>>,
    lows: Map<u64, Option<Seq<u8>>>,
    chains: Map<u64, Seq<u64>>,
) -> Seq<(RecordView, Seq<u8>)> {
    rows_of(tree_of(p, levels, lows).records(), p.chunks, chains)
}

/// Whether pages show these versions and values, whatever way they are read as an
/// index.
pub open spec fn formed<K: Key>(p: Pages, rows: Seq<(RecordView, Seq<u8>)>) -> bool {
    forall|
        levels: Seq<Seq<u64>>,
        lows: Map<u64, Option<Seq<u8>>>,
        chains: Map<u64, Seq<u64>>,
    | #[trigger]
        indexes::<K>(p, levels, lows, chains) ==> rows == rows_in(p, levels, lows, chains)
}

/// Whether these are the versions and values of the states that a log leads
/// through, from the one after the first `since` records on.
#[verifier::opaque]
pub open spec fn chronicle<K: Key>(
    base: Pages,
    log: Seq<LogEntry>,
    since: int,
    past: Seq<Seq<(RecordView, Seq<u8>)>>,
) -> bool {
    &&& past.len() == log.len() + 1
    &&& forall|k: int|
        since <= k <= log.len() ==> formed::<K>(#[trigger] state(base, log, k), past[k])
}

/// Pages that agree with those of an index show what the index holds.
pub proof fn lemma_formed<K: Key>(ix: BTreeIndex<K>, p: Pages)
    requires
        ix.sound(),
        agree(ix.store.pages(), p),
    ensures
        formed::<K>(p, ix.rows()),
{
    lemma_reads::<K>(ix, p);
    assert(reads::<K>(ix, p));
    assert forall|
        levels: Seq<Seq<u64>>,
        lows: Map<u64, Option<Seq<u8>>>,
        chains: Map<u64, Seq<u64>>,
    | #[trigger] indexes::<K>(p, levels, lows, chains) implies ix.rows() == rows_in(
        p,
        levels,
        lows,
        chains,
    ) by {
        assert(ix.rows() =~= rows_in(p, levels, lows, chains));
    }
}

/// One more record.
pub proof fn lemma_chronicle_step<K: Key>(
    s0: PageStore,
    was: Seq<Seq<(RecordView, Seq<u8>)>>,
    ix: BTreeIndex<K>,
)
    requires
        s0.wf(),
        ix.store.wf(),
        ix.sound(),
        chronicle::<K>(s0.base(), s0.log(), s0.since(), was),
        ix.store.log() == s0.log().push(ix.store.log().last()),
        ix.store.follows_on(&s0),
        ix.past@ == was.push(ix.rows()),
    ensures
        chronicle::<K>(ix.store.base(), ix.store.log(), ix.store.since(), ix.past@),
{
    reveal(chronicle);
    s0.lemma_wf();
    ix.store.lemma_wf();
    let s = ix.store;
    let n = s.log().len() as int;
    let last = replay(s.base(), s.log());
    assert(s.log().subrange(0, n) =~= s.log());
    lemma_formed::<K>(ix, last);
    assert forall|k: int| s.since() <= k <= n implies formed::<K>(
        #[trigger] state(s.base(), s.log(), k),
        ix.past@[k],
    ) by {
        if k < n && s0.next_lsn() > 0 {
            assert(s.log().subrange(0, k) =~= s0.log().subrange(0, k));
            assert(formed::<K>(state(s0.base(), s0.log(), k), was[k]));
        }
    }
}

/// Records that only add chunks.
pub proof fn lemma_chronicle_padded<K: Key>(before: BTreeIndex<K>, after: BTreeIndex<K>)
    requires
        before.wf(),
        after.store.wf(),
        padded(before.store, after.store),
        after.past@.len() == after.store.log().len() + 1,
        forall|k: int|
            0 <= k < after.past@.len() ==> #[trigger] after.past@[k] == if k < before.past@.len() {
                before.past@[k]
            } else {
                before.rows()
            },
    ensures
        chronicle::<K>(
            after.store.base(),
            after.store.log(),
            after.store.since(),
            after.past@,
        ),
{
    reveal(chronicle);
    reveal(padded);
    let s0 = before.store;
    let s = after.store;
    let n = s0.log().len() as int;
    s0.lemma_wf();
    s.lemma_wf();
    assert forall|k: int| s.since() <= k <= s.log().len() implies formed::<K>(
        #[trigger] state(s.base(), s.log(), k),
        after.past@[k],
    ) by {
        if k <= n {
            assert(s.log().subrange(0, k) =~= s0.log().subrange(0, k));
            assert(formed::<K>(state(s0.base(), s0.log(), k), before.past@[k]));
        } else {
            assert(holds_more(s0.pages(), state(s.base(), s.log(), k)));
            lemma_formed::<K>(before, state(s.base(), s.log(), k));
        }
    }
}

/// The last state is the present one.
pub proof fn lemma_present<K: Key>(ix: BTreeIndex<K>)
    requires
        ix.wf(),
    ensures
        ix.past@.len() == ix.store.log().len() + 1,
        ix.past@.last() == ix.rows(),
{
    reveal(chronicle);
    let s = ix.store;
    s.lemma_wf();
    let n = s.log().len() as int;
    let last = replay(s.base(), s.log());
    assert(s.log().subrange(0, n) =~= s.log());
    assert(formed::<K>(state(s.base(), s.log(), n), ix.past@[n]));
    lemma_formed::<K>(ix, last);
    let p = s.pages();
    assert(tree_of(p, ix.levels@, ix.lows@) == ix.tree());
    assert(indexes::<K>(p, ix.levels@, ix.lows@, ix.chains@));
    lemma_alike_sym(p, last);
    lemma_alike_indexes::<K>(last, p, ix.levels@, ix.lows@, ix.chains@);
    assert(indexes::<K>(last, ix.levels@, ix.lows@, ix.chains@));
}

/// An index that is read from an earlier state shows what was there then.
pub proof fn lemma_then<K: Key>(ix: BTreeIndex<K>, k: int, other: BTreeIndex<K>)
    requires
        ix.wf(),
        ix.store.since() <= k <= ix.store.log().len(),
        is_index::<K>(state(ix.store.base(), ix.store.log(), k)),
        reads::<K>(other, state(ix.store.base(), ix.store.log(), k)),
    ensures
        other.rows() == ix.past@[k],
{
    reveal(chronicle);
    let p = state(ix.store.base(), ix.store.log(), k);
    assert(formed::<K>(p, ix.past@[k]));
    let (levels, lows, chains) = choose|
        levels: Seq<Seq<u64>>,
        lows: Map<u64, Option<Seq<u8>>>,
        chains: Map<u64, Seq<u64>>,
    | #[trigger]
        indexes::<K>(p, levels, lows, chains);
    assert(other.rows() =~= rows_in(p, levels, lows, chains));
}

/// Whether states follow one another in which nothing has changed.
pub open spec fn calm(
    p: Seq<Seq<(RecordView, Seq<u8>)>>,
    q: Seq<Seq<(RecordView, Seq<u8>)>>,
) -> bool {
    &&& 1 <= p.len() <= q.len()
    &&& forall|i: int|
        0 <= i < q.len() ==> #[trigger] q[i] == if i < p.len() {
            p[i]
        } else {
            p.last()
        }
}

/// What remains of versions when those of one transaction are left out, its stamps
/// are taken back, and the rest is swept.
pub open spec fn told(
    e: Settled,
    b: u64,
    rows: Seq<(RecordView, Seq<u8>)>,
) -> Seq<(RecordView, Seq<u8>)>
    decreases rows.len(),
{
    if rows.len() == 0 {
        Seq::empty()
    } else {
        let rest = told(e, b, rows.drop_last());
        let r = unmarked(b, rows.last().0);
        if rows.last().0.xmin == b || dead(e, r) {
            rest
        } else {
            rest.push((cleared(e, r), rows.last().1))
        }
    }
}

/// A version without the stamp of a transaction.
pub open spec fn unmarked(b: u64, r: RecordView) -> RecordView {
    if r.xmax == b {
        with_xmax(r, 0)
    } else {
        r
    }
}

/// Whether a version bears an id; 0 stands for nobody.
pub open spec fn borne(rows: Seq<(RecordView, Seq<u8>)>, id: u64) -> bool {
    id == 0 || exists|k: int|
        0 <= k < rows.len() && ((#[trigger] rows[k]).0.xmin == id || rows[k].0.xmax == id)
}

/// Whether one of the first records of a log is one of a transaction.
pub open spec fn named(log: Seq<LogEntry>, i: int, b: u64) -> bool {
    exists|j: int| 0 <= j < i && j < log.len() && (#[trigger] log[j]).txn_id == b
}

/// Whether states follow one another that differ only by what a transaction does,
/// and by sweeping. The transaction has a record before a version bears its id.
pub open spec fn drift(
    p: Seq<Seq<(RecordView, Seq<u8>)>>,
    q: Seq<Seq<(RecordView, Seq<u8>)>>,
    log: Seq<LogEntry>,
    e: Settled,
    b: u64,
) -> bool {
    &&& 1 <= p.len() <= q.len()
    &&& forall|i: int| 0 <= i < p.len() ==> #[trigger] q[i] == p[i]
    &&& forall|i: int| p.len() <= i < q.len() ==> told(e, b, #[trigger] q[i]) == told(e, b, p.last())
    &&& forall|i: int, id: u64|
        p.len() <= i < q.len() && #[trigger] borne(q[i], id) ==> borne(p.last(), id) || (id == b
            && named(log, i, b))
}

/// Whether a transaction is neither aborted nor below the horizon. The system, id 0,
/// does not count, and never aborts.
pub open spec fn fresh(e: Settled, b: u64) -> bool {
    &&& b != 0
    &&& b >= e.horizon
    &&& !e.aborts.contains_key(b)
    &&& !e.aborts.contains_key(0)
}

/// One quiet stretch after another.
pub proof fn lemma_calm_trans(
    p: Seq<Seq<(RecordView, Seq<u8>)>>,
    q: Seq<Seq<(RecordView, Seq<u8>)>>,
    r: Seq<Seq<(RecordView, Seq<u8>)>>,
)
    requires
        calm(p, q),
        calm(q, r),
    ensures
        calm(p, r),
{
    assert(q.last() == q[q.len() - 1]);
    assert forall|i: int| 0 <= i < r.len() implies #[trigger] r[i] == if i < p.len() {
        p[i]
    } else {
        p.last()
    } by {
        if i < q.len() {
            assert(r[i] == q[i]);
        }
    }
}

proof fn lemma_calm_drift(
    p: Seq<Seq<(RecordView, Seq<u8>)>>,
    q: Seq<Seq<(RecordView, Seq<u8>)>>,
    log: Seq<LogEntry>,
    e: Settled,
    b: u64,
)
    requires
        calm(p, q),
    ensures
        drift(p, q, log, e, b),
{
}

proof fn lemma_drift_trans(
    p: Seq<Seq<(RecordView, Seq<u8>)>>,
    q: Seq<Seq<(RecordView, Seq<u8>)>>,
    l: Seq<LogEntry>,
    r: Seq<Seq<(RecordView, Seq<u8>)>>,
    m: Seq<LogEntry>,
    by: u64,
    e: Settled,
    b: u64,
)
    requires
        drift(p, q, l, e, b),
        drift(q, r, m, e, b),
        carries_on(l, m, by),
    ensures
        drift(p, r, m, e, b),
{
    let z = q.len() - 1;
    assert(q.last() == q[z]);
    if z >= p.len() {
        assert(told(e, b, q[z]) == told(e, b, p.last()));
    } else {
        assert(q[z] == p[z]);
    }
    assert forall|i: int| 0 <= i < p.len() implies #[trigger] r[i] == p[i] by {
        assert(r[i] == q[i]);
    }
    assert forall|i: int| p.len() <= i < r.len() implies told(e, b, #[trigger] r[i]) == told(
        e,
        b,
        p.last(),
    ) by {
        if i < q.len() {
            assert(r[i] == q[i]);
        }
    }
    assert forall|i: int, id: u64|
        p.len() <= i < r.len() && #[trigger] borne(r[i], id) implies borne(p.last(), id) || (id == b
        && named(m, i, b)) by {
        let k = if i < q.len() {
            i
        } else {
            z
        };
        if i < q.len() {
            assert(r[i] == q[i]);
        }
        if i < q.len() || borne(q.last(), id) {
            assert(borne(q[k], id));
            if k >= p.len() && !borne(p.last(), id) {
                let j = choose|j: int| 0 <= j < k && j < l.len() && (#[trigger] l[j]).txn_id == b;
                assert(m[j] == l[j]);
            }
        }
    }
}

/// One stretch after another.
pub proof fn lemma_on(
    p: Seq<Seq<(RecordView, Seq<u8>)>>,
    q: Seq<Seq<(RecordView, Seq<u8>)>>,
    l: Seq<LogEntry>,
    r: Seq<Seq<(RecordView, Seq<u8>)>>,
    m: Seq<LogEntry>,
    by: u64,
    e: Settled,
    b: u64,
)
    requires
        calm(p, q) || (fresh(e, b) ==> drift(p, q, l, e, b)),
        calm(q, r) || (fresh(e, b) ==> drift(q, r, m, e, b)),
        carries_on(l, m, by),
    ensures
        fresh(e, b) ==> drift(p, r, m, e, b),
{
    if fresh(e, b) {
        if calm(p, q) {
            lemma_calm_drift(p, q, l, e, b);
        }
        if calm(q, r) {
            lemma_calm_drift(q, r, m, e, b);
        }
        lemma_drift_trans(p, q, l, r, m, by, e, b);
    }
}

/// A record that puts a version of the transaction into an index.
pub proof fn lemma_drift_insert<K: Key>(
    before: BTreeIndex<K>,
    after: BTreeIndex<K>,
    k: int,
    r: RecordView,
)
    requires
        before.wf(),
        after.past@ == before.past@.push(after.rows()),
        0 <= k <= before.records().len(),
        after.records() == before.records().insert(k, r),
        after.store.pages().chunks == before.store.pages().chunks,
        after.chains@ == before.chains@,
        r.xmax == 0,
        before.store.log().len() < after.store.log().len(),
        after.store.log()[before.store.log().len() as int].txn_id == r.xmin,
    ensures
        forall|e: Settled| #[trigger]
            drift(before.past@, after.past@, after.store.log(), e, r.xmin),
{
    lemma_present::<K>(before);
    let rows = before.rows();
    let x = (r, after.content(r));
    assert(after.rows() =~= rows.insert(k, x));
    assert(named(after.store.log(), before.past@.len() as int, r.xmin));
    assert forall|e: Settled| #[trigger]
        drift(before.past@, after.past@, after.store.log(), e, r.xmin) by {
        lemma_told_insert(e, r.xmin, rows, k, x);
    }
}

/// A record that puts the stamp of the transaction on a version.
pub proof fn lemma_drift_mark<K: Key>(
    before: BTreeIndex<K>,
    after: BTreeIndex<K>,
    k: int,
    b: u64,
)
    requires
        before.wf(),
        after.past@ == before.past@.push(after.rows()),
        0 <= k < before.records().len(),
        after.records() == before.records().update(k, with_xmax(before.records()[k], b)),
        after.store.pages().chunks == before.store.pages().chunks,
        after.chains@ == before.chains@,
        before.store.log().len() < after.store.log().len(),
        after.store.log()[before.store.log().len() as int].txn_id == b,
    ensures
        forall|e: Settled|
            fresh(e, b) && given_up(e, b, before.records()[k].xmax) ==> #[trigger] drift(
                before.past@,
                after.past@,
                after.store.log(),
                e,
                b,
            ),
{
    lemma_present::<K>(before);
    assert(named(after.store.log(), before.past@.len() as int, b));
    assert forall|e: Settled|
        fresh(e, b) && given_up(e, b, before.records()[k].xmax) implies #[trigger] drift(
        before.past@,
        after.past@,
        after.store.log(),
        e,
        b,
    ) by {
        lemma_told_mark(e, b, before.rows(), k, after.rows());
    }
}

/// A record that takes dead versions out of an index.
pub proof fn lemma_drift_swept<K: Key>(
    before: BTreeIndex<K>,
    past: Seq<Seq<(RecordView, Seq<u8>)>>,
    log: Seq<LogEntry>,
    e: Settled,
    after: Seq<RecordView>,
    a: Seq<RecordView>,
    x: Seq<RecordView>,
    c: Seq<RecordView>,
)
    requires
        before.wf(),
        swept_part(e, before.records(), after, a, x, c),
        past == before.past@.push(rows_of(after, before.store.pages().chunks, before.chains@)),
    ensures
        forall|b: u64| fresh(e, b) ==> #[trigger] drift(before.past@, past, log, e, b),
{
    lemma_present::<K>(before);
    let chunks = before.store.pages().chunks;
    let chains = before.chains@;
    let recs = before.records();
    let rows = before.rows();
    let now = rows_of(after, chunks, chains);
    lemma_kin_swept(e, recs, after, a, x, c);
    assert forall|id: u64| #[trigger] borne(now, id) implies borne(rows, id) by {
        if id != 0 {
            let z = choose|z: int|
                0 <= z < now.len() && ((#[trigger] now[z]).0.xmin == id || now[z].0.xmax == id);
            assert(now[z].0 == after[z]);
            assert(kin(e, recs, after[z]));
            let y = choose|y: int|
                0 <= y < recs.len() && (after[z] == #[trigger] recs[y] || after[z] == cleared(
                    e,
                    recs[y],
                ));
            assert(rows[y].0 == recs[y]);
        }
    }
    assert forall|b: u64| fresh(e, b) implies #[trigger] drift(before.past@, past, log, e, b) by {
        lemma_rows_parts(a, x, c, chunks, chains, e, b);
        lemma_rows_parts(a, survivors(e, x), c, chunks, chains, e, b);
        lemma_told_swept(e, b, x, chunks, chains);
    }
}

/// Whether the stamp of a version stands in nobody's way: there is none, the
/// transaction itself set it, or the one that did aborted.
pub open spec fn given_up(e: Settled, b: u64, xmax: u64) -> bool {
    xmax == 0 || xmax == b || e.aborts.contains_key(xmax)
}

proof fn lemma_told_add(
    e: Settled,
    b: u64,
    x: Seq<(RecordView, Seq<u8>)>,
    y: Seq<(RecordView, Seq<u8>)>,
)
    ensures
        told(e, b, x + y) == told(e, b, x) + told(e, b, y),
    decreases y.len(),
{
    if y.len() == 0 {
        assert(x + y =~= x);
        assert(told(e, b, x) + told(e, b, y) =~= told(e, b, x));
    } else {
        assert((x + y).drop_last() =~= x + y.drop_last());
        assert((x + y).last() == y.last());
        lemma_told_add(e, b, x, y.drop_last());
        assert(told(e, b, x + y) =~= told(e, b, x) + told(e, b, y));
    }
}

proof fn lemma_told_one(e: Settled, b: u64, x: (RecordView, Seq<u8>))
    ensures
        told(e, b, seq![x]) == if x.0.xmin == b || dead(e, unmarked(b, x.0)) {
            Seq::<(RecordView, Seq<u8>)>::empty()
        } else {
            seq![(cleared(e, unmarked(b, x.0)), x.1)]
        },
{
    assert(seq![x].drop_last() =~= Seq::<(RecordView, Seq<u8>)>::empty());
    assert(seq![x].last() == x);
    assert(told(e, b, Seq::<(RecordView, Seq<u8>)>::empty()) =~= Seq::<
        (RecordView, Seq<u8>),
    >::empty());
    assert(Seq::<(RecordView, Seq<u8>)>::empty().push((cleared(e, unmarked(b, x.0)), x.1)) =~= seq![
        (cleared(e, unmarked(b, x.0)), x.1),
    ]);
}

/// Whether a version remains without the transaction.
pub open spec fn kept(e: Settled, b: u64, r: RecordView) -> bool {
    r.xmin != b && !dead(e, unmarked(b, r))
}

spec fn rank(e: Settled, b: u64, s: Seq<(RecordView, Seq<u8>)>, i: int) -> int {
    told(e, b, s.take(i)).len() as int
}

proof fn lemma_rank(e: Settled, b: u64, s: Seq<(RecordView, Seq<u8>)>, i: int)
    requires
        0 <= i < s.len(),
        kept(e, b, s[i].0),
    ensures
        0 <= rank(e, b, s, i) < told(e, b, s).len(),
        told(e, b, s)[rank(e, b, s, i)].0 == cleared(e, unmarked(b, s[i].0)),
{
    let x = s.take(i);
    let y = seq![s[i]];
    let z = s.skip(i + 1);
    assert(s =~= (x + y) + z);
    lemma_told_add(e, b, x + y, z);
    lemma_told_add(e, b, x, y);
    lemma_told_one(e, b, s[i]);
}

proof fn lemma_rank_grows(e: Settled, b: u64, s: Seq<(RecordView, Seq<u8>)>, i: int, j: int)
    requires
        0 <= i < j <= s.len(),
        kept(e, b, s[i].0),
    ensures
        rank(e, b, s, i) < rank(e, b, s, j),
{
    lemma_rank(e, b, s.take(j), i);
    assert(s.take(j).take(i) =~= s.take(i));
}

proof fn lemma_source(e: Settled, b: u64, s: Seq<(RecordView, Seq<u8>)>, p: int) -> (i: int)
    requires
        0 <= p < told(e, b, s).len(),
    ensures
        0 <= i < s.len(),
        kept(e, b, s[i].0),
        rank(e, b, s, i) == p,
        told(e, b, s)[p].0 == cleared(e, unmarked(b, s[i].0)),
    decreases s.len(),
{
    let t = s.drop_last();
    let n = s.len() - 1;
    assert(s.take(n) =~= t);
    if p < told(e, b, t).len() {
        let i = lemma_source(e, b, t, p);
        assert(s.take(i) =~= t.take(i));
        assert(s[i] == t[i]);
        i
    } else {
        assert(s[n] == s.last());
        n
    }
}

/// Two versions that remain come from two versions of any list of which the same
/// remains.
pub proof fn lemma_told_two(
    e: Settled,
    b: u64,
    x: Seq<(RecordView, Seq<u8>)>,
    y: Seq<(RecordView, Seq<u8>)>,
    p: int,
    q: int,
) -> (ij: (int, int))
    requires
        told(e, b, x) == told(e, b, y),
        0 <= p < x.len(),
        0 <= q < x.len(),
        p != q,
        kept(e, b, x[p].0),
        kept(e, b, x[q].0),
    ensures
        0 <= ij.0 < y.len(),
        0 <= ij.1 < y.len(),
        ij.0 != ij.1,
        cleared(e, unmarked(b, y[ij.0].0)) == cleared(e, unmarked(b, x[p].0)),
        cleared(e, unmarked(b, y[ij.1].0)) == cleared(e, unmarked(b, x[q].0)),
{
    lemma_rank(e, b, x, p);
    lemma_rank(e, b, x, q);
    if p < q {
        lemma_rank_grows(e, b, x, p, q);
    } else {
        lemma_rank_grows(e, b, x, q, p);
    }
    let i = lemma_source(e, b, y, rank(e, b, x, p));
    let j = lemma_source(e, b, y, rank(e, b, x, q));
    (i, j)
}

/// A version of the transaction enters.
pub proof fn lemma_told_insert(
    e: Settled,
    b: u64,
    rows: Seq<(RecordView, Seq<u8>)>,
    k: int,
    x: (RecordView, Seq<u8>),
)
    requires
        0 <= k <= rows.len(),
        x.0.xmin == b,
        x.0.xmax == 0,
    ensures
        told(e, b, rows.insert(k, x)) == told(e, b, rows),
        forall|id: u64| #[trigger] borne(rows.insert(k, x), id) ==> id == b || borne(rows, id),
{
    let l = rows.take(k);
    let r = rows.skip(k);
    let now = rows.insert(k, x);
    assert(rows =~= l + r);
    assert(now =~= (l + seq![x]) + r);
    lemma_told_add(e, b, l, r);
    lemma_told_add(e, b, l + seq![x], r);
    lemma_told_add(e, b, l, seq![x]);
    lemma_told_one(e, b, x);
    assert(told(e, b, l) + Seq::<(RecordView, Seq<u8>)>::empty() =~= told(e, b, l));
    assert forall|id: u64| #[trigger] borne(now, id) implies id == b || borne(rows, id) by {
        if id != 0 && id != b {
            let z = choose|z: int|
                0 <= z < now.len() && ((#[trigger] now[z]).0.xmin == id || now[z].0.xmax == id);
            let y = if z < k {
                z
            } else {
                z - 1
            };
            assert(rows[y] == now[z]);
        }
    }
}

/// A version gets the stamp of the transaction.
pub proof fn lemma_told_mark(
    e: Settled,
    b: u64,
    rows: Seq<(RecordView, Seq<u8>)>,
    m: int,
    now: Seq<(RecordView, Seq<u8>)>,
)
    requires
        0 <= m < rows.len(),
        now.len() == rows.len(),
        forall|i: int| 0 <= i < rows.len() && i != m ==> now[i] == #[trigger] rows[i],
        now[m] == (with_xmax(rows[m].0, b), rows[m].1),
        rows[m].0.xmax == 0 || rows[m].0.xmax == b || e.aborts.contains_key(rows[m].0.xmax),
        !e.aborts.contains_key(0),
    ensures
        told(e, b, now) == told(e, b, rows),
        forall|id: u64| #[trigger] borne(now, id) ==> id == b || borne(rows, id),
{
    let l = rows.take(m);
    let r = rows.skip(m + 1);
    assert(rows =~= (l + seq![rows[m]]) + r);
    assert(now =~= (l + seq![now[m]]) + r);
    lemma_told_add(e, b, l + seq![rows[m]], r);
    lemma_told_add(e, b, l + seq![now[m]], r);
    lemma_told_add(e, b, l, seq![rows[m]]);
    lemma_told_add(e, b, l, seq![now[m]]);
    lemma_told_one(e, b, rows[m]);
    lemma_told_one(e, b, now[m]);
    assert forall|id: u64| #[trigger] borne(now, id) implies id == b || borne(rows, id) by {
        if id != 0 && id != b {
            let z = choose|z: int|
                0 <= z < now.len() && ((#[trigger] now[z]).0.xmin == id || now[z].0.xmax == id);
            assert(rows[z].0.xmin == id || rows[z].0.xmax == id);
        }
    }
}

/// A sweep takes away nothing that remains anyway.
pub proof fn lemma_told_swept(
    e: Settled,
    b: u64,
    recs: Seq<RecordView>,
    chunks: Map<u64, ChunkView>,
    chains: Map<u64, Seq<u64>>,
)
    requires
        fresh(e, b),
    ensures
        told(e, b, rows_of(survivors(e, recs), chunks, chains)) == told(
            e,
            b,
            rows_of(recs, chunks, chains),
        ),
    decreases recs.len(),
{
    let now = rows_of(survivors(e, recs), chunks, chains);
    let old = rows_of(recs, chunks, chains);
    if recs.len() > 0 {
        let front = recs.drop_last();
        let r = recs.last();
        lemma_told_swept(e, b, front, chunks, chains);
        let f = rows_of(front, chunks, chains);
        let g = rows_of(survivors(e, front), chunks, chains);
        assert(old =~= f.push((r, content(chunks, chains, r))));
        assert(old.drop_last() =~= f);
        if dead(e, r) {
            assert(now =~= g);
        } else {
            let c = cleared(e, r);
            assert(now =~= g.push((c, content(chunks, chains, c))));
            assert(now.drop_last() =~= g);
            assert(content(chunks, chains, c) == content(chunks, chains, r));
        }
    } else {
        assert(now =~= old);
    }
}

/// The rows of a list in three parts.
pub proof fn lemma_rows_parts(
    a: Seq<RecordView>,
    m: Seq<RecordView>,
    c: Seq<RecordView>,
    chunks: Map<u64, ChunkView>,
    chains: Map<u64, Seq<u64>>,
    e: Settled,
    b: u64,
)
    ensures
        told(e, b, rows_of(a + m + c, chunks, chains)) == told(e, b, rows_of(a, chunks, chains))
            + told(e, b, rows_of(m, chunks, chains)) + told(e, b, rows_of(c, chunks, chains)),
{
    let x = rows_of(a, chunks, chains);
    let y = rows_of(m, chunks, chains);
    let z = rows_of(c, chunks, chains);
    assert(rows_of(a + m + c, chunks, chains) =~= x + y + z);
    lemma_told_add(e, b, x + y, z);
    lemma_told_add(e, b, x, y);
}

} // verus!
