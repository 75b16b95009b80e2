//! Sweeping a leaf: dead versions go, with their overflow chains, and stamps of
//! deleters that aborted are cleared.

use vstd::prelude::*;

use crate::change::{Change, ChunkView};
use crate::chronicle::{calm, chronicle, drift, fresh, lemma_drift_swept, lemma_on, lemma_present};
use crate::downlinks::{laced, lemma_laced_put};
use crate::index::{
    content, disjoint, first_page, lemma_page, rows_of, spilled, value_in_place, values_ok,
    BTreeIndex, SYSTEM_TXN_ID,
};
use crate::index_edit::flags;
use crate::key::Key;
use crate::leaf_lemmas::{
    lemma_leaf_count, lemma_survivor_origin, lemma_survivors_ok, lemma_survivors_wf,
};
use crate::mvcc::{
    cleared, dead, deads, is_dead, lemma_survivors_add, lemma_survivors_idempotent,
    lemma_survivors_noop, survivors, Settled,
};
use crate::node::{
    record_views, LeafPage, LeafView, Node, NodeView, Record, RecordView, REC_TYPE_OVERFLOW,
};
use crate::overflow::{chunk_linked, free_overflow_chain, lemma_chain_frame, OverflowDescriptor};
use crate::trace::{carries_on, sustained};
use crate::transaction_manager::TransactionManager;
use crate::tree_spec::{flat, lemma_put_leaf, put};
use crate::value_lemmas::{
    lemma_chain_pages, lemma_values_frame, lemma_values_partition, lemma_values_prefix,
    lemma_values_remove, value_fresh,
};
use crate::wal::WalRecordType;

verus! {

/// Whether `after` is `before` with the part `x` between `a` and `b` swept.
pub open spec fn swept_part(
    e: Settled,
    before: Seq<RecordView>,
    after: Seq<RecordView>,
    a: Seq<RecordView>,
    x: Seq<RecordView>,
    b: Seq<RecordView>,
) -> bool {
    before == a + x + b && after == a + survivors(e, x) + b
}

/// A sweep takes away at most what is there.
proof fn lemma_deads_len(e: Settled, s: Seq<RecordView>)
    ensures
        deads(e, s).len() + survivors(e, s).len() == s.len(),
    decreases s.len(),
{
    if s.len() > 0 {
        lemma_deads_len(e, s.drop_last());
    }
}

/// Where a version that goes comes from.
proof fn lemma_dead_origin(e: Settled, s: Seq<RecordView>, k: int) -> (i: int)
    requires
        0 <= k < deads(e, s).len(),
    ensures
        0 <= i < s.len(),
        deads(e, s)[k] == s[i],
    decreases s.len(),
{
    let t = deads(e, s.drop_last());
    if k < t.len() {
        let i = lemma_dead_origin(e, s.drop_last(), k);
        assert(s.drop_last()[i] == s[i]);
        i
    } else {
        s.len() - 1
    }
}

/// What uses no overflow page of the records uses none of those that stay or go.
proof fn lemma_fresh_partition(
    e: Settled,
    a: Seq<RecordView>,
    x: Seq<RecordView>,
    b: Seq<RecordView>,
    chunks: Map<u64, ChunkView>,
    chains: Map<u64, Seq<u64>>,
    r: RecordView,
)
    requires
        value_fresh(a + x + b, chunks, chains, r),
    ensures
        value_fresh(a + survivors(e, x) + b + deads(e, x), chunks, chains, r),
{
    let all = a + x + b;
    let s = survivors(e, x);
    let t = a + s + b + deads(e, x);
    assert forall|i: int| 0 <= i < t.len() && spilled(r) && spilled(#[trigger] t[i]) implies
        disjoint(chains[first_page(r)], chains[first_page(t[i])]) by {
        if i < a.len() {
            assert(all[i] == t[i]);
        } else if i < a.len() + s.len() {
            let k = lemma_survivor_origin(e, x, i - a.len());
            assert(all[a.len() + k] == x[k]);
            assert(t[i] == s[i - a.len()]);
        } else if i < a.len() + s.len() + b.len() {
            assert(all[i - s.len() + x.len()] == t[i]);
        } else {
            let j = i - (a.len() + s.len() + b.len());
            let k = lemma_dead_origin(e, x, j);
            assert(all[a.len() + k] == x[k]);
            assert(t[i] == deads(e, x)[j]);
        }
    }
}

/// Parts the versions of a leaf into those that stay and those that go; says
/// whether anything is to be done.
fn part_versions(
    l: &LeafPage,
    horizon: u64,
    tm: &TransactionManager,
) -> (r: (Vec<Record>, Vec<Record>, bool))
    requires
        tm.wf(),
    ensures
        ({
            let e = Settled { aborts: tm.aborts(), horizon };
            &&& record_views(r.0@) == survivors(e, l@.entries)
            &&& record_views(r.1@) == deads(e, l@.entries)
            &&& !r.2 ==> survivors(e, l@.entries) == l@.entries && r.1@.len() == 0
        }),
{
    let ghost e = Settled { aborts: tm.aborts(), horizon };
    let ghost s = l@.entries;
    let mut live: Vec<Record> = Vec::new();
    let mut gone: Vec<Record> = Vec::new();
    let mut changed = false;
    let mut i: usize = 0;
    assert(s.subrange(0, 0) =~= Seq::<RecordView>::empty());
    assert(record_views(live@) =~= Seq::<RecordView>::empty());
    assert(record_views(gone@) =~= Seq::<RecordView>::empty());
    while i < l.entries.len()
        invariant
            tm.wf(),
            i <= l.entries.len(),
            s == l@.entries,
            e == (Settled { aborts: tm.aborts(), horizon }),
            record_views(live@) == survivors(e, s.subrange(0, i as int)),
            record_views(gone@) == deads(e, s.subrange(0, i as int)),
            !changed ==> gone@.len() == 0 && forall|k: int|
                0 <= k < i ==> !dead(e, #[trigger] s[k]) && cleared(e, s[k]) == s[k],
        decreases l.entries.len() - i,
    {
        proof {
            assert(s.subrange(0, i + 1).drop_last() =~= s.subrange(0, i as int));
            assert(s.subrange(0, i + 1).last() == s[i as int]);
            assert(s[i as int] == l.entries@[i as int]@);
        }
        let mut r = l.entries[i].copy();
        if is_dead(&r, horizon, tm) {
            let ghost before = gone@;
            gone.push(r);
            assert(record_views(gone@) =~= record_views(before).push(s[i as int]));
            changed = true;
        } else {
            if tm.is_aborted(r.xmax) {
                r.xmax = 0;
                changed = true;
            }
            let ghost before = live@;
            let ghost rv = r@;
            assert(rv == cleared(e, s[i as int]));
            live.push(r);
            assert(record_views(live@) =~= record_views(before).push(rv));
        }
        i = i + 1;
    }
    proof {
        assert(s.subrange(0, i as int) =~= s);
        if !changed {
            lemma_survivors_noop(e, s);
        }
    }
    (live, gone, changed)
}

impl<K: Key> BTreeIndex<K> {
    /// Sweeps one leaf. Returns how many versions went.
    pub fn compact_leaf(&mut self, pid: u64, horizon: u64, tm: &TransactionManager) -> (n: usize)
        requires
            old(self).wf(),
            tm.wf(),
            old(self).levels@[0].contains(pid),
            old(self).store.budget() >= 193,
        ensures
            final(self).wf(),
            carries_on(old(self).store.log(), final(self).store.log(), 0),
            forall|b: u64|
                fresh(Settled { aborts: tm.aborts(), horizon }, b) ==> #[trigger] drift(
                    old(self).past@,
                    final(self).past@,
                    final(self).store.log(),
                    Settled { aborts: tm.aborts(), horizon },
                    b,
                ),
            final(self).levels@ == old(self).levels@,
            final(self).lows@ == old(self).lows@,
            final(self).root == old(self).root,
            final(self).chains@ == old(self).chains@,
            final(self).pending_recycle@ == old(self).pending_recycle@,
            final(self).incomplete == old(self).incomplete,
            final(self).store.budget() >= old(self).store.budget() - 193,
            flags(final(self).tree().nodes) == flags(old(self).tree().nodes),
            ({
                let e = Settled { aborts: tm.aborts(), horizon };
                let l = old(self).tree().nodes[pid]->Leaf_0;
                let l2 = final(self).tree().nodes[pid]->Leaf_0;
                &&& l2 == (LeafView { entries: survivors(e, l.entries), lsn: l2.lsn, ..l })
                &&& final(self).tree().nodes == old(self).tree().nodes.insert(
                    pid,
                    NodeView::Leaf(l2),
                )
                &&& n + survivors(e, l.entries).len() == l.entries.len()
                &&& survivors(e, final(self).records()) == survivors(e, old(self).records())
                &&& exists|a: Seq<RecordView>, b: Seq<RecordView>| #[trigger]
                    swept_part(e, old(self).records(), final(self).records(), a, l.entries, b)
            }),
            forall|k: int|
                0 <= k < final(self).records().len() ==> final(self).content(
                    #[trigger] final(self).records()[k],
                ) == old(self).content(final(self).records()[k]),
            forall|r: RecordView| #[trigger]
                value_fresh(
                    old(self).records(),
                    old(self).store.pages().chunks,
                    old(self).chains@,
                    r,
                ) ==> value_fresh(
                    final(self).records(),
                    final(self).store.pages().chunks,
                    final(self).chains@,
                    r,
                ) && final(self).content(r) == old(self).content(r),
    {
        let ghost t = self.tree();
        let ghost i = lemma_page::<K>(t, 0, pid);
        let ghost e = Settled { aborts: tm.aborts(), horizon };
        let mut l = self.load_leaf(pid);
        let ghost l0 = l@;
        let ghost c0 = self.store.pages().chunks;
        let ghost chains = self.chains@;
        let ghost ch = t.levels[0];
        let ghost a = flat(t.nodes, ch.subrange(0, i));
        let ghost b = flat(t.nodes, ch.subrange(i + 1, ch.len() as int));
        proof {
            lemma_put_leaf::<K>(t, i, l0);
            assert(t.leaf(i) == l0);
            lemma_leaf_count(l0);
            lemma_deads_len(e, l0.entries);
            lemma_present::<K>(*self);
        }
        let (live, gone, changed) = part_versions(&l, horizon, tm);
        if !changed {
            proof {
                assert(t.nodes =~= t.nodes.insert(pid, NodeView::Leaf(l0)));
                assert(swept_part(e, t.records(), self.records(), a, l0.entries, b));
            }
            return 0;
        }
        l.entries = live;
        let ghost l1 = l@;
        proof {
            assert(l1 == (LeafView { entries: survivors(e, l0.entries), ..l0 }));
            lemma_survivors_wf(e, l0, l1);
            self.store.lemma_wf();
            assert(!c0.contains_key(pid));
        }
        let ghost s0 = self.store;
        let ghost ix0 = *self;
        let lsn: u64 = self.store.write_one(
            WalRecordType::PageCompact,
            SYSTEM_TXN_ID,
            pid,
            Change::Image(Node::Leaf(l)),
        );
        let ghost l2 = LeafView { lsn, ..l1 };
        let ghost t2 = put(t, NodeView::Leaf(l2));
        let ghost recs = t2.records();
        let ghost d = record_views(gone@);
        proof {
            assert(self.tree() == t2);
            assert(self.store.pages().chunks =~= c0);
            lemma_survivors_ok::<K>(e, t.lows[pid], l0, l2);
            lemma_laced_put(t, NodeView::Leaf(l2));
            lemma_put_leaf::<K>(t, i, l2);
            let none = Seq::<RecordView>::empty();
            assert(a + l0.entries + b + none =~= t.records());
            lemma_values_partition(e, a, l0.entries, b, none, c0, chains);
            assert(deads(e, l0.entries) + none =~= d);
            assert(recs == a + survivors(e, l0.entries) + b);
            assert(d.subrange(0, d.len() as int) =~= d);
            lemma_survivors_add(e, a + l0.entries, b);
            lemma_survivors_add(e, a, l0.entries);
            lemma_survivors_add(e, a + survivors(e, l0.entries), b);
            lemma_survivors_add(e, a, survivors(e, l0.entries));
            lemma_survivors_idempotent(e, l0.entries);
            assert(flags(t2.nodes) =~= flags(t.nodes));
            assert forall|r: RecordView| #[trigger]
                value_fresh(t.records(), c0, chains, r) implies value_fresh(
                recs + d,
                c0,
                chains,
                r,
            ) by {
                lemma_fresh_partition(e, a, l0.entries, b, c0, chains, r);
            }
            lemma_values_prefix(recs, d, c0, chains);
            let was = self.past@;
            self.past@ = was.push(self.rows());
            self.lemma_logged(s0, was);
            assert(self.rows() == rows_of(recs, c0, chains));
            lemma_drift_swept::<K>(ix0, self.past@, self.store.log(), e, recs, a, l0.entries, b);
        }
        let mut m: usize = gone.len();
        while m > 0
            invariant
                m <= gone@.len() <= 192,
                d == record_views(gone@),
                self.store.wf(),
                sustained::<K>(self.store.base(), self.store.log(), self.store.since()),
                chronicle::<K>(
                    self.store.base(),
                    self.store.log(),
                    self.store.since(),
                    self.past@,
                ),
                carries_on(old(self).store.log(), self.store.log(), 0),
                forall|b: u64|
                    fresh(Settled { aborts: tm.aborts(), horizon }, b) ==> #[trigger] drift(
                        old(self).past@,
                        self.past@,
                        self.store.log(),
                        Settled { aborts: tm.aborts(), horizon },
                        b,
                    ),
                self.past@.len() >= 1,
                self.past@.last() == rows_of(recs, c0, chains),
                self.tree() == t2,
                t2.wf::<K>(),
                laced(t2),
                self.height == t2.levels.len(),
                flags(t2.nodes).len() <= self.incomplete,
                self.incomplete == old(self).incomplete,
                recs == t2.records(),
                self.chains@ == chains,
                self.root == self.store.pages().root,
                self.pending_recycle@ == old(self).pending_recycle@,
                values_ok(
                    recs + d.subrange(0, m as int),
                    self.store.pages().chunks,
                    chains,
                ),
                forall|k: int|
                    0 <= k < recs.len() ==> content(
                        self.store.pages().chunks,
                        chains,
                        #[trigger] recs[k],
                    ) == content(c0, chains, recs[k]),
                forall|r: RecordView| #[trigger]
                    value_fresh(t.records(), c0, chains, r) ==> value_fresh(
                        recs + d.subrange(0, m as int),
                        self.store.pages().chunks,
                        chains,
                        r,
                    ) && content(self.store.pages().chunks, chains, r) == content(c0, chains, r),
                self.store.budget() >= old(self).store.budget() - 1 - (gone@.len() - m),
                old(self).store.budget() >= 193,
            decreases m,
        {
            m = m - 1;
            let ghost all = recs + d.subrange(0, m + 1);
            let ghost rest = recs + d.subrange(0, m as int);
            let ghost k = recs.len() + m;
            let ghost c1 = self.store.pages().chunks;
            proof {
                assert(all.remove(k) =~= rest);
                assert(all[k] == d[m as int]);
                assert(d[m as int] == gone@[m as int]@);
                lemma_values_remove(all, c1, chains, k);
                assert forall|r: RecordView| #[trigger]
                    value_fresh(t.records(), c0, chains, r) implies value_fresh(
                    rest,
                    c1,
                    chains,
                    r,
                ) && (spilled(r) && spilled(d[m as int]) ==> disjoint(
                    chains[first_page(r)],
                    chains[first_page(d[m as int])],
                )) by {
                    assert(value_fresh(all, c1, chains, r));
                    assert forall|x: int|
                        0 <= x < rest.len() && spilled(r) && spilled(
                            #[trigger] rest[x],
                        ) implies disjoint(chains[first_page(r)], chains[first_page(rest[x])]) by {
                        assert(all[x] == rest[x]);
                    }
                }
            }
            if gone[m].rec_type == REC_TYPE_OVERFLOW {
                let ghost s1 = self.store;
                let ghost r = d[m as int];
                proof {
                    lemma_chain_pages(all, c1, chains, k);
                    reveal(values_ok);
                    assert(value_in_place(c1, chains, all[k]));
                }
                match OverflowDescriptor::from_bytes(gone[m].value.as_slice()) {
                    Some(desc) => {
                        free_overflow_chain(desc.first_page_id, &mut self.store);
                    },
                    None => { vstd::pervasive::unreached() },
                }
                proof {
                    let ids = chains[first_page(r)];
                    let c2 = self.store.pages().chunks;
                    assert(c2 == c1.remove_keys(ids.to_set()));
                    assert forall|x: int| 0 <= x < rest.len() && spilled(#[trigger] rest[x]) implies
                        chains.contains_key(first_page(rest[x])) by {
                        assert(value_in_place(c1, chains, rest[x]));
                    }
                    assert forall|x: int, id: u64|
                        0 <= x < rest.len() && spilled(rest[x]) && #[trigger] chains[first_page(
                            #[trigger] rest[x],
                        )].contains(id) implies c2.contains_key(id) && c2[id] == c1[id] by {
                        lemma_chain_pages(rest, c1, chains, x);
                        assert(disjoint(ids, chains[first_page(rest[x])]));
                        assert(!ids.contains(id));
                    }
                    lemma_values_frame(rest, c1, chains, c2, chains);
                    lemma_values_prefix(recs, d.subrange(0, m as int), c2, chains);
                    let was = self.past@;
                    self.past@ = was.push(self.rows());
                    self.lemma_logged(s1, was);
                    assert forall|x: int| 0 <= x < recs.len() implies content(
                        c2,
                        chains,
                        #[trigger] recs[x],
                    ) == content(c0, chains, recs[x]) by {
                        assert(rest[x] == recs[x]);
                    }
                    assert(self.rows() =~= rows_of(recs, c0, chains));
                    assert(calm(was, self.past@));
                    assert forall|b: u64|
                        fresh(Settled { aborts: tm.aborts(), horizon }, b) implies #[trigger] drift(
                        old(self).past@,
                        self.past@,
                        self.store.log(),
                        Settled { aborts: tm.aborts(), horizon },
                        b,
                    ) by {
                        lemma_on(
                            old(self).past@,
                            was,
                            s1.log(),
                            self.past@,
                            self.store.log(),
                            0,
                            Settled { aborts: tm.aborts(), horizon },
                            b,
                        );
                    }
                    assert forall|y: RecordView| #[trigger]
                        value_fresh(t.records(), c0, chains, y) implies value_fresh(
                        rest,
                        c2,
                        chains,
                        y,
                    ) && content(c2, chains, y) == content(c0, chains, y) by {
                        assert(value_fresh(rest, c1, chains, y));
                        if spilled(y) {
                            let ys = chains[first_page(y)];
                            assert(disjoint(ys, ids));
                            assert forall|q: int| 0 <= q < ys.len() implies c2.contains_key(
                                #[trigger] ys[q],
                            ) && c2[ys[q]] == c1[ys[q]] by {
                                assert(ys.contains(ys[q]));
                                assert(chunk_linked(c1, ys, q));
                            }
                            lemma_chain_frame(c1, c2, first_page(y), ys);
                        }
                    }
                }
            }
        }
        proof {
            assert(recs + d.subrange(0, 0) =~= recs);
            assert(swept_part(e, t.records(), self.records(), a, l0.entries, b));
        }
        gone.len()
    }
}

} // verus!
