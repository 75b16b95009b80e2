//! Edits of single leaves: new versions, deletion stamps, overflow values.

use vstd::prelude::*;

use crate::change::Change;
use crate::chronicle::{
    calm, drift, fresh, given_up, lemma_chronicle_padded, lemma_drift_insert, lemma_drift_mark,
    lemma_present,
};
use crate::constants::{MAX_KEY_SIZE, MAX_VALUE_SIZE, OVERFLOW_THRESHOLD, PAGE_SIZE};
use crate::downlinks::{downs, lemma_laced_put};
use crate::error::IndexError;
use crate::index::{
    content, disjoint, first_page, landed, lemma_left_below, lemma_none_right, lemma_page,
    lemma_place, place, spilled, value_in_place, values_ok, BTreeIndex,
};
use crate::index_open::{indexes, tree_of};
use crate::key::{key_eq, Key, KeyOrder};
use crate::leaf_lemmas::{lemma_insert_ok, lemma_leaf_count, lemma_restamp_ok, slot_for};
use crate::mvcc::{
    by_age, check_version_conflict, check_write_conflict, decide_by_age, insert_conflict, visible,
    with_xmax, write_conflict, Settled,
};
use crate::node::{
    records_sorted, LeafPage, LeafView, NodeView, RecordView, RECORD_OVERHEAD, REC_TYPE_INLINE,
    REC_TYPE_OVERFLOW,
};
use crate::overflow::{chain_written, law_descriptor_roundtrip, pages_for, write_overflow_chain};
use crate::smo::{kept_below, restamped};
use crate::trace::{carries_on, lemma_sustained_padded, padded, wrote};
use crate::transaction::Transaction;
use crate::transaction_manager::TransactionManager;
use crate::tree_spec::{
    below, bound_le, flat, lemma_flat_member, lemma_put_leaf, put, records_ok, Tree,
};
use crate::value_lemmas::{
    lemma_chain_pages, lemma_values_frame, lemma_values_insert, lemma_values_restamp, value_fresh,
};
use crate::wal::WalRecordType;

verus! {

/// Whether a page's split has a downlink missing.
pub open spec fn flagged(n: NodeView) -> bool {
    match n {
        NodeView::Leaf(l) => l.incomplete_split,
        NodeView::Internal(p) => p.incomplete_split,
    }
}

/// The pages whose split has a downlink missing.
pub open spec fn flags(m: Map<u64, NodeView>) -> Set<u64> {
    m.dom().filter(|p: u64| flagged(m[p]))
}

/// The new version that a transaction puts under a key.
pub open spec fn new_version(
    key: Seq<u8>,
    stored: Seq<u8>,
    rec_type: u8,
    txn_id: u64,
) -> RecordView {
    RecordView { key, value: stored, rec_type, xmin: txn_id, xmax: 0 }
}

/// A leaf of the tree whose range holds `key`, bounds included.
pub open spec fn covers<K: Key>(t: Tree, pid: u64, key: Seq<u8>) -> bool {
    &&& t.levels[0].contains(pid)
    &&& bound_le::<K>(t.lows[pid], Some(key))
    &&& below::<K>(key, t.nodes[pid].high_key())
}

impl<K: Key> BTreeIndex<K> {
    /// Stamps the version at `slot` of a leaf as deleted, logged before.
    pub fn stamp_xmax(&mut self, pid: u64, slot: usize, txn_id: u64) -> (k: Ghost<int>)
        requires
            old(self).wf(),
            old(self).store.budget() >= 1,
            old(self).levels@[0].contains(pid),
            slot < old(self).tree().nodes[pid]->Leaf_0.entries.len(),
        ensures
            final(self).wf(),
            carries_on(old(self).store.log(), final(self).store.log(), txn_id),
            forall|e: Settled|
                fresh(e, txn_id) && given_up(
                    e,
                    txn_id,
                    old(self).tree().nodes[pid]->Leaf_0.entries[slot as int].xmax,
                ) ==> #[trigger] drift(old(self).past@, final(self).past@, final(self).store.log(), e, txn_id),
            wrote(final(self).store.log(), txn_id),
            0 <= k@ < old(self).records().len(),
            old(self).records()[k@] == old(self).tree().nodes[pid]->Leaf_0.entries[slot as int],
            final(self).records() == old(self).records().update(
                k@,
                with_xmax(old(self).records()[k@], txn_id),
            ),
            final(self).store.pages().chunks == old(self).store.pages().chunks,
            final(self).chains@ == old(self).chains@,
            final(self).levels@ == old(self).levels@,
            final(self).lows@ == old(self).lows@,
            final(self).root == old(self).root,
            final(self).pending_recycle@ == old(self).pending_recycle@,
            final(self).store.used() == old(self).store.used(),
            final(self).store.budget() >= old(self).store.budget() - 1,
            flags(final(self).tree().nodes) == flags(old(self).tree().nodes),
            final(self).incomplete == old(self).incomplete,
            forall|p: u64|
                p != pid ==> (#[trigger] final(self).tree().nodes.contains_key(p) == old(self).tree().nodes.contains_key(p) && final(self).tree().nodes[p] == old(self).tree().nodes[p]),
            final(self).tree().nodes[pid].high_key() == old(self).tree().nodes[pid].high_key(),
    {
        let ghost t = self.tree();
        let ghost i = lemma_page::<K>(t, 0, pid);
        let ghost l = t.leaf(i);
        let ghost r = RecordView { xmax: txn_id, ..l.entries[slot as int] };
        proof {
            self.store.lemma_wf();
            lemma_leaf_count(l);
            lemma_place::<K>(t, i, slot as int);
        }
        let c = Change::SetXmax { slot: slot as u16, xmax: txn_id };
        let ghost s0 = self.store;
        let ghost ix0 = *self;
        let lsn: u64 = self.store.write_one(WalRecordType::SetXMax, txn_id, pid, c);
        assert(self.store.log()[s0.log().len() as int].txn_id == txn_id);
        let ghost k = place(t, i, slot as int);
        proof {
            let l2 = LeafView { entries: l.entries.update(slot as int, r), lsn, ..l };
            assert(self.tree() == put(t, NodeView::Leaf(l2)));
            self.store.lemma_wf();
            assert(self.store.pages().nodes.contains_key(pid));
            assert(l2.wf());
            lemma_restamp_ok::<K>(t.lows[pid], l, slot as int, r, l2);
            lemma_laced_put(t, NodeView::Leaf(l2));
            lemma_put_leaf::<K>(t, i, l2);
            let ch = t.levels[0];
            let a = flat(t.nodes, ch.subrange(0, i));
            let b = flat(t.nodes, ch.subrange(i + 1, ch.len() as int));
            assert(a + l2.entries + b =~= (a + l.entries + b).update(k, r));
            lemma_values_restamp(t.records(), self.store.pages().chunks, self.chains@, k, r);
            let was = self.past@;
            self.past@ = was.push(self.rows());
            self.lemma_logged(s0, was);
            lemma_drift_mark::<K>(ix0, *self, k, txn_id);
            assert(flags(self.tree().nodes) =~= flags(t.nodes));
        }
        Ghost(k)
    }

    /// Puts a new version on a leaf that has room for it.
    pub fn insert_version(
        &mut self,
        pid: u64,
        slot: usize,
        key: &[u8],
        stored: &Vec<u8>,
        rec_type: u8,
        txn_id: u64,
    ) -> (k: Ghost<int>)
        requires
            old(self).wf(),
            old(self).store.budget() >= 1,
            covers::<K>(old(self).tree(), pid, key@),
            slot_for::<K>(old(self).tree().nodes[pid]->Leaf_0.entries, key@, slot as int),
            key@.len() <= MAX_KEY_SIZE,
            stored@.len() <= OVERFLOW_THRESHOLD,
            old(self).tree().nodes[pid]->Leaf_0.size() + RECORD_OVERHEAD + key@.len()
                + stored@.len() <= PAGE_SIZE,
            value_fresh(
                old(self).records(),
                old(self).store.pages().chunks,
                old(self).chains@,
                new_version(key@, stored@, rec_type, txn_id),
            ),
        ensures
            final(self).wf(),
            carries_on(old(self).store.log(), final(self).store.log(), txn_id),
            forall|e: Settled|
                fresh(e, txn_id) ==> #[trigger] drift(
                    old(self).past@,
                    final(self).past@,
                    final(self).store.log(),
                    e,
                    txn_id,
                ),
            wrote(final(self).store.log(), txn_id),
            0 <= k@ <= old(self).records().len(),
            final(self).records() == old(self).records().insert(
                k@,
                new_version(key@, stored@, rec_type, txn_id),
            ),
            final(self).store.pages().chunks == old(self).store.pages().chunks,
            final(self).chains@ == old(self).chains@,
            final(self).levels@ == old(self).levels@,
            final(self).lows@ == old(self).lows@,
            final(self).root == old(self).root,
            final(self).pending_recycle@ == old(self).pending_recycle@,
            final(self).store.used() == old(self).store.used(),
            final(self).store.budget() >= old(self).store.budget() - 1,
            flags(final(self).tree().nodes) == flags(old(self).tree().nodes),
            final(self).incomplete == old(self).incomplete,
            forall|g: int, p: u64|
                0 <= g ==> #[trigger] downs(final(self).tree(), g, p) == downs(
                    old(self).tree(),
                    g,
                    p,
                ),
            final(self).tree().nodes[pid].rightlink() == old(self).tree().nodes[pid].rightlink(),
            forall|p: u64|
                p != pid ==> (#[trigger] final(self).tree().nodes.contains_key(p)) == old(
                    self,
                ).tree().nodes.contains_key(p) && final(self).tree().nodes[p]
                    == old(self).tree().nodes[p],
    {
        let ghost t = self.tree();
        let ghost i = lemma_page::<K>(t, 0, pid);
        let ghost l = t.leaf(i);
        let ghost r = new_version(key@, stored@, rec_type, txn_id);
        proof {
            self.store.lemma_wf();
            lemma_leaf_count(l);
        }
        let c = Change::Insert {
            slot: slot as u16,
            key: vstd::slice::slice_to_vec(key),
            value: crate::node::copy_bytes(stored),
            rec_type,
            xmin: txn_id,
        };
        let ghost s0 = self.store;
        let ghost ix0 = *self;
        let lsn: u64 = self.store.write_one(WalRecordType::Insert, txn_id, pid, c);
        assert(self.store.log()[s0.log().len() as int].txn_id == txn_id);
        let ghost k = place(t, i, slot as int);
        proof {
            let l2 = LeafView { entries: l.entries.insert(slot as int, r), lsn, ..l };
            assert(self.tree() == put(t, NodeView::Leaf(l2)));
            self.store.lemma_wf();
            assert(self.store.pages().nodes.contains_key(pid));
            assert(l2.wf());
            lemma_insert_ok::<K>(t.lows[pid], l, slot as int, r, l2);
            lemma_laced_put(t, NodeView::Leaf(l2));
            lemma_put_leaf::<K>(t, i, l2);
            let ch = t.levels[0];
            let a = flat(t.nodes, ch.subrange(0, i));
            let b = flat(t.nodes, ch.subrange(i + 1, ch.len() as int));
            assert(a + l2.entries + b =~= (a + l.entries + b).insert(k, r));
            lemma_values_insert(t.records(), self.store.pages().chunks, self.chains@, k, r);
            let was = self.past@;
            self.past@ = was.push(self.rows());
            self.lemma_logged(s0, was);
            lemma_drift_insert::<K>(ix0, *self, k, r);
            assert(r.xmin == txn_id);
            assert(flags(self.tree().nodes) =~= flags(t.nodes));
        }
        Ghost(k)
    }

    /// Decides how a value is stored: short ones inside their record, longer
    /// ones on a fresh overflow chain that the record points to. Returns the
    /// bytes for the record and its type.
    pub fn materialize_value(&mut self, value: &[u8], txn_id: u64) -> (r: (Vec<u8>, u8))
        requires
            old(self).wf(),
            value@.len() <= MAX_VALUE_SIZE,
            old(self).store.budget() >= 2,
        ensures
            final(self).wf(),
            carries_on(old(self).store.log(), final(self).store.log(), txn_id),
            calm(old(self).past@, final(self).past@),
            final(self).tree() == old(self).tree(),
            final(self).pending_recycle@ == old(self).pending_recycle@,
            final(self).incomplete == old(self).incomplete,
            final(self).store.budget() >= old(self).store.budget() - 2,
            r.0@.len() <= OVERFLOW_THRESHOLD,
            r.1 == (if value@.len() <= OVERFLOW_THRESHOLD {
                REC_TYPE_INLINE
            } else {
                REC_TYPE_OVERFLOW
            }),
            forall|key: Seq<u8>|
                {
                    let v = #[trigger] new_version(key, r.0@, r.1, txn_id);
                    &&& value_fresh(
                        old(self).records(),
                        final(self).store.pages().chunks,
                        final(self).chains@,
                        v,
                    )
                    &&& final(self).content(v) == value@
                },
            forall|i: int|
                0 <= i < old(self).records().len() ==> final(self).content(
                    #[trigger] old(self).records()[i],
                ) == old(self).content(old(self).records()[i]),
    {
        let ghost before = *self;
        proof {
            lemma_present::<K>(before);
        }
        if value.len() <= OVERFLOW_THRESHOLD {
            return (vstd::slice::slice_to_vec(value), REC_TYPE_INLINE);
        }
        let ghost recs = self.records();
        let ghost c1 = self.store.pages().chunks;
        let ghost n1 = self.chains@;
        assert(pages_for(value@.len()) == 1);
        let desc = write_overflow_chain(value, &mut self.store, txn_id);
        let bytes = desc.to_bytes();
        proof {
            let first = desc.first_page_id;
            let ids = choose|ids: Seq<u64>| #[trigger]
                chain_written(&before.store, &self.store, first, ids, value@);
            let c2 = self.store.pages().chunks;
            let n2 = n1.insert(first, ids);
            self.chains@ = n2;
            law_descriptor_roundtrip(desc);
            before.store.lemma_wf();
            assert(ids[0] == first);
            assert(ids.contains(first));
            assert forall|i: int| 0 <= i < recs.len() && spilled(#[trigger] recs[i]) implies {
                &&& n2.contains_key(first_page(recs[i]))
                &&& n2[first_page(recs[i])] == n1[first_page(recs[i])]
                &&& disjoint(ids, n1[first_page(recs[i])])
            } by {
                lemma_chain_pages(recs, c1, n1, i);
                reveal(values_ok);
                assert(value_in_place(c1, n1, recs[i]));
                assert(c1.contains_key(first_page(recs[i])));
                assert forall|id: u64| #[trigger] ids.contains(id) implies !n1[first_page(
                    recs[i],
                )].contains(id) by {
                    if n1[first_page(recs[i])].contains(id) {
                        assert(c1.contains_key(id));
                    }
                }
            }
            assert forall|i: int, id: u64|
                0 <= i < recs.len() && spilled(recs[i]) && #[trigger] n1[first_page(
                    #[trigger] recs[i],
                )].contains(id) implies c2.contains_key(id) && c2[id] == c1[id] by {
                lemma_chain_pages(recs, c1, n1, i);
                assert(c1.contains_key(id));
            }
            lemma_values_frame(recs, c1, n1, c2, n2);
            let p = before.store.pages();
            assert(tree_of(p, before.levels@, before.lows@) == before.tree());
            assert(indexes::<K>(p, before.levels@, before.lows@, n1));
            lemma_sustained_padded::<K>(before.store, self.store);
            let more = self.store.log().len() - before.store.log().len();
            self.past@ = before.past@ + Seq::new(more as nat, |i: int| before.rows());
            reveal(padded);
            lemma_chronicle_padded::<K>(before, *self);
            assert forall|key: Seq<u8>| {
                let v = #[trigger] new_version(key, bytes@, REC_TYPE_OVERFLOW, txn_id);
                &&& value_fresh(recs, c2, n2, v)
                &&& content(c2, n2, v) == value@
            } by {
                let v = new_version(key, bytes@, REC_TYPE_OVERFLOW, txn_id);
                assert(first_page(v) == first);
                assert(n2[first] == ids);
            }
            assert(self.tree() == before.tree());
        }
        (bytes, REC_TYPE_OVERFLOW)
    }

    /// Checks the versions of `key` on the leaf whose range holds it, and on
    /// the leaves to its left that a run of versions may reach, for one that
    /// stands in the way of inserting the key.
    pub fn check_insert_conflicts(
        &mut self,
        landing: &LeafPage,
        key: &[u8],
        txn: &Transaction,
        tm: &TransactionManager,
    ) -> (r: Result<(), IndexError>)
        requires
            old(self).wf(),
            tm.wf(),
            landed::<K>(old(self).tree(), landing@.page_id, key@),
            old(self).tree().nodes[landing@.page_id] == NodeView::Leaf(landing@),
            records_sorted::<K>(landing@.entries),
        ensures
            final(self).wf(),
            final(self).same(old(self)),
            r is Ok ==> forall|k: int|
                0 <= k < old(self).records().len() ==> unopposed::<K>(
                    txn,
                    tm,
                    key@,
                    #[trigger] old(self).records()[k],
                ),
            r matches Err(e) ==> exists|i: int, s: int| #[trigger]
                first_opposed::<K>(old(self).tree(), txn, tm, key@, i, s, e),
    {
        let ghost t = self.tree();
        let ghost mut i: int = lemma_page::<K>(t, 0, landing@.page_id);
        proof {
            K::le_laws();
            assert(t.linked(0, i));
            assert forall|j: int, s: int|
                i < j < t.levels[0].len() && 0 <= s < t.leaf(j).entries.len() implies unopposed::<
                K,
            >(txn, tm, key@, #[trigger] t.leaf(j).entries[s]) by {
                lemma_none_right::<K>(t, key@, i, j, s);
            }
        }
        let (slot, exact) = landing.position::<K>(key);
        if exact {
            if let Err(e) = landing.check_insert_conflict::<K>(slot, key, txn, tm) {
                proof {
                    let s = choose|s: int| #[trigger]
                        first_in_way::<K>(landing@.entries, txn, tm, key@, s, e);
                    assert(t.leaf(i) == landing@);
                    assert(first_opposed::<K>(t, txn, tm, key@, i, s, e));
                }
                return Err(e);
            }
        }
        assert(unopposed_from::<K>(t, txn, tm, key@, i)) by {
            assert forall|j: int, s: int|
                i <= j < t.levels[0].len() && 0 <= s < t.leaf(j).entries.len() implies unopposed::<
                K,
            >(txn, tm, key@, #[trigger] t.leaf(j).entries[s]) by {
                if j == i {
                    assert(t.leaf(j) == landing@);
                    if !exact {
                        assert(!key_eq::<K>(landing@.entries[s].key, key@));
                    }
                }
            }
        }
        if !exact && slot > 0 {
            proof {
                if i > 0 {
                    reveal(records_ok);
                    assert(t.leaf_ok::<K>(landing@));
                    assert(!K::le(key@, landing@.entries[0].key));
                    let low = t.lows[landing@.page_id];
                    assert(bound_le::<K>(low, Some(landing@.entries[0].key)));
                    assert(t.valid(0, i - 1));
                    assert(t.page_ok::<K>(0, i - 1));
                    assert(t.linked(0, i - 1));
                    self.lemma_unopposed_left(txn, tm, key@, i, low->0);
                }
                lemma_unopposed_at_all::<K>(t, txn, tm, key@);
            }
            return Ok(());
        }
        let mut prev = landing.prev_page;
        loop
            invariant
                self.wf(),
                self.same(old(self)),
                tm.wf(),
                t == old(self).tree(),
                self.tree() == t,
                t.valid(0, i),
                prev == t.leaf(i).prev_page,
                bound_le::<K>(t.lows[t.page(0, i)], Some(key@)),
                unopposed_from::<K>(t, txn, tm, key@, i),
            decreases i,
        {
            proof {
                K::le_laws();
                assert(t.page_ok::<K>(0, i));
                assert(t.linked(0, i));
            }
            if prev.is_none() {
                proof {
                    lemma_unopposed_at_all::<K>(t, txn, tm, key@);
                }
                return Ok(());
            }
            let pid: u64 = prev.unwrap();
            proof {
                assert(i > 0);
                assert(t.valid(0, i - 1));
                assert(t.page_ok::<K>(0, i - 1));
                assert(t.linked(0, i - 1));
                assert(t.levels[0][i - 1] == pid);
            }
            let l = self.load_leaf(pid);
            let on_chain = match &l.high_key {
                Some(hk) => match K::compare(hk.as_slice(), key) {
                    KeyOrder::Equal => true,
                    _ => false,
                },
                None => false,
            };
            if !on_chain {
                proof {
                    let low = t.lows[t.page(0, i)];
                    self.lemma_unopposed_left(txn, tm, key@, i, low->0);
                    lemma_unopposed_at_all::<K>(t, txn, tm, key@);
                }
                return Ok(());
            }
            let (slot, exact) = l.position::<K>(key);
            if exact {
                if let Err(e) = l.check_insert_conflict::<K>(slot, key, txn, tm) {
                    proof {
                        let s = choose|s: int| #[trigger]
                            first_in_way::<K>(l@.entries, txn, tm, key@, s, e);
                        assert(t.page(0, i - 1) == pid);
                        assert(t.leaf(i - 1) == l@);
                        assert(first_opposed::<K>(t, txn, tm, key@, i - 1, s, e));
                    }
                    return Err(e);
                }
            }
            proof {
                reveal(records_ok);
                assert(t.leaf_ok::<K>(l@));
                assert(t.leaf(i - 1) == l@);
                assert forall|j: int, s: int|
                    i - 1 <= j < t.levels[0].len() && 0 <= s < t.leaf(
                        j,
                    ).entries.len() implies unopposed::<K>(
                    txn,
                    tm,
                    key@,
                    #[trigger] t.leaf(j).entries[s],
                ) by {
                    if j == i - 1 && !exact {
                        assert(!key_eq::<K>(l@.entries[s].key, key@));
                    }
                }
                i = i - 1;
            }
            prev = l.prev_page;
        }
    }

    /// Left of a leaf that starts below the key nothing stands in its way.
    proof fn lemma_unopposed_left(
        &self,
        txn: &Transaction,
        tm: &TransactionManager,
        key: Seq<u8>,
        i: int,
        low: Seq<u8>,
    )
        requires
            self.tree().wf::<K>(),
            self.tree().valid(0, i),
            self.tree().lows[self.tree().page(0, i)] == Some(low),
            !K::le(key, low),
            unopposed_from::<K>(self.tree(), txn, tm, key, i),
        ensures
            unopposed_from::<K>(self.tree(), txn, tm, key, 0),
    {
        let t = self.tree();
        K::le_laws();
        assert forall|j: int, s: int|
            0 <= j < t.levels[0].len() && 0 <= s < t.leaf(j).entries.len() implies unopposed::<K>(
            txn,
            tm,
            key,
            #[trigger] t.leaf(j).entries[s],
        ) by {
            if j < i {
                lemma_left_below::<K>(t, i, j, s, low);
            }
        }
    }

    /// Marks the visible version of `key` as deleted by the transaction.
    pub fn delete(&mut self, key: &[u8], txn: &Transaction, tm: &TransactionManager) -> (r: Result<
        (),
        IndexError,
    >)
        requires
            old(self).wf(),
            tm.wf(),
            old(self).store.budget() >= 1,
        ensures
            final(self).wf(),
            carries_on(old(self).store.log(), final(self).store.log(), txn.txn_id),
            fresh(tm.settled(), txn.txn_id) ==> drift(
                old(self).past@,
                final(self).past@,
                final(self).store.log(),
                tm.settled(),
                txn.txn_id,
            ),
            r is Ok ==> wrote(final(self).store.log(), txn.txn_id),
            r == Err::<(), IndexError>(IndexError::KeyNotFound) <==> forall|k: int|
                0 <= k < old(self).records().len() ==> !visible::<K>(
                    txn,
                    tm.aborts(),
                    key@,
                    #[trigger] old(self).records()[k],
                ),
            r != Err::<(), IndexError>(IndexError::KeyNotFound) ==> exists|k: int|
                {
                    let v = #[trigger] old(self).records()[k];
                    &&& 0 <= k < old(self).records().len()
                    &&& visible::<K>(txn, tm.aborts(), key@, v)
                    &&& r is Ok <==> write_conflict(txn, tm, v.xmax) is None
                    &&& r matches Err(e) ==> (write_conflict(txn, tm, v.xmax) matches Some(x) && e
                        == by_age(txn.txn_id, x))
                    &&& r is Ok ==> final(self).records() == old(self).records().update(
                        k,
                        with_xmax(v, txn.txn_id),
                    )
                },
            r is Err ==> final(self).same(old(self)),
            final(self).store.pages().chunks == old(self).store.pages().chunks,
            final(self).chains@ == old(self).chains@,
            final(self).levels@ == old(self).levels@,
            final(self).lows@ == old(self).lows@,
            final(self).root == old(self).root,
            final(self).pending_recycle@ == old(self).pending_recycle@,
            flags(final(self).tree().nodes) == flags(old(self).tree().nodes),
            final(self).incomplete == old(self).incomplete,
            final(self).store.budget() >= old(self).store.budget() - 1,
    {
        let ghost t = self.tree();
        proof {
            lemma_present::<K>(*self);
        }
        let (pid, _) = self.descend(key);
        let landing = self.move_right(pid, key);
        match self.find_visible_chain(landing, key, txn, tm) {
            None => Err(IndexError::KeyNotFound),
            Some((l, slot)) => {
                proof {
                    let i = lemma_page::<K>(t, 0, l@.page_id);
                    lemma_place::<K>(t, i, slot as int);
                    assert(l@.entries[slot as int] == l.entries@[slot as int]@);
                }
                if let Err(e) = check_write_conflict(l.entries[slot].xmax, txn, tm) {
                    return Err(decide_by_age(txn.txn_id, e));
                }
                let k = self.stamp_xmax(l.page_id, slot, txn.txn_id);
                assert(old(self).records()[k@] == l@.entries[slot as int]);
                Ok(())
            },
        }
    }
}

/// Whether `r` is no version of `key` or one that does not stand in the way of
/// inserting the key.
pub open spec fn unopposed<K: Key>(
    txn: &Transaction,
    tm: &TransactionManager,
    key: Seq<u8>,
    r: RecordView,
) -> bool {
    key_eq::<K>(r.key, key) ==> insert_conflict(txn, tm, r) is None
}

/// Whether `r` is a version of `key` that stands in the way of inserting the
/// key, with error `e`.
pub open spec fn opposed<K: Key>(
    txn: &Transaction,
    tm: &TransactionManager,
    key: Seq<u8>,
    r: RecordView,
    e: IndexError,
) -> bool {
    key_eq::<K>(r.key, key) && insert_conflict(txn, tm, r) == Some(e)
}

/// Whether no version on the leaves from index `i` on stands in the way.
pub open spec fn unopposed_from<K: Key>(
    t: Tree,
    txn: &Transaction,
    tm: &TransactionManager,
    key: Seq<u8>,
    i: int,
) -> bool {
    forall|j: int, s: int|
        i <= j < t.levels[0].len() && 0 <= s < t.leaf(j).entries.len() ==> unopposed::<K>(
            txn,
            tm,
            key,
            #[trigger] t.leaf(j).entries[s],
        )
}

/// Whether the version in slot `s` of a leaf is the first one there that stands in the way
/// of inserting a key, with error `e`.
pub open spec fn first_in_way<K: Key>(
    entries: Seq<RecordView>,
    txn: &Transaction,
    tm: &TransactionManager,
    key: Seq<u8>,
    s: int,
    e: IndexError,
) -> bool {
    &&& 0 <= s < entries.len()
    &&& opposed::<K>(txn, tm, key, entries[s], e)
    &&& forall|k: int| 0 <= k < s ==> unopposed::<K>(txn, tm, key, #[trigger] entries[k])
}

/// Whether the version in slot `s` of the leaf at index `i` is the one that decides, with
/// error `e`, that a key cannot be inserted: the first one in the way on the last leaf that
/// has one.
pub open spec fn first_opposed<K: Key>(
    t: Tree,
    txn: &Transaction,
    tm: &TransactionManager,
    key: Seq<u8>,
    i: int,
    s: int,
    e: IndexError,
) -> bool {
    &&& t.valid(0, i)
    &&& first_in_way::<K>(t.leaf(i).entries, txn, tm, key, s, e)
    &&& unopposed_from::<K>(t, txn, tm, key, i + 1)
}

/// One version decides that a key cannot be inserted, and with which error.
pub proof fn law_one_version_decides<K: Key>(
    t: Tree,
    txn: &Transaction,
    tm: &TransactionManager,
    key: Seq<u8>,
    i: int,
    s: int,
    e: IndexError,
    i2: int,
    s2: int,
    e2: IndexError,
)
    requires
        first_opposed::<K>(t, txn, tm, key, i, s, e),
        first_opposed::<K>(t, txn, tm, key, i2, s2, e2),
    ensures
        i == i2,
        s == s2,
        e == e2,
{
    let a = t.leaf(i).entries[s];
    let b = t.leaf(i2).entries[s2];
    assert(!unopposed::<K>(txn, tm, key, a) && !unopposed::<K>(txn, tm, key, b));
}

/// The version that decides is one of the records.
pub proof fn lemma_first_opposed<K: Key>(
    t: Tree,
    txn: &Transaction,
    tm: &TransactionManager,
    key: Seq<u8>,
    i: int,
    s: int,
    e: IndexError,
) -> (k: int)
    requires
        t.wf::<K>(),
        first_opposed::<K>(t, txn, tm, key, i, s, e),
    ensures
        0 <= k < t.records().len(),
        opposed::<K>(txn, tm, key, t.records()[k], e),
{
    lemma_place::<K>(t, i, s);
    place(t, i, s)
}

/// Completing splits leaves the version that decides where it is.
pub proof fn lemma_first_opposed_kept<K: Key>(
    t: Tree,
    t2: Tree,
    txn: &Transaction,
    tm: &TransactionManager,
    key: Seq<u8>,
    i: int,
    s: int,
    e: IndexError,
)
    requires
        t.wf::<K>(),
        t2.wf::<K>(),
        kept_below(t, t2, 0),
        first_opposed::<K>(t2, txn, tm, key, i, s, e),
    ensures
        first_opposed::<K>(t, txn, tm, key, i, s, e),
{
    assert(t2.levels[0] == t.levels[0]);
    assert forall|j: int| t.valid(0, j) implies (#[trigger] t.leaf(j)).entries == t2.leaf(
        j,
    ).entries by {
        assert(t.levels[0].contains(t.page(0, j)));
        assert(t2.page(0, j) == t.page(0, j));
        assert(t.page_ok::<K>(0, j));
        assert(restamped(t.nodes[t.page(0, j)], t2.nodes[t.page(0, j)]));
    }
    assert(t.valid(0, i));
    assert(t.leaf(i).entries == t2.leaf(i).entries);
    assert forall|j: int, u: int|
        i + 1 <= j < t.levels[0].len() && 0 <= u < t.leaf(j).entries.len() implies unopposed::<K>(
        txn,
        tm,
        key,
        #[trigger] t.leaf(j).entries[u],
    ) by {
        assert(t.valid(0, j));
        assert(t.leaf(j).entries == t2.leaf(j).entries);
        assert(unopposed::<K>(txn, tm, key, t2.leaf(j).entries[u]));
    }
}

proof fn lemma_unopposed_at_all<K: Key>(
    t: Tree,
    txn: &Transaction,
    tm: &TransactionManager,
    key: Seq<u8>,
)
    requires
        t.wf::<K>(),
        unopposed_from::<K>(t, txn, tm, key, 0),
    ensures
        forall|k: int|
            0 <= k < t.records().len() ==> unopposed::<K>(txn, tm, key, #[trigger] t.records()[k]),
{
    assert forall|k: int| 0 <= k < t.records().len() implies unopposed::<K>(
        txn,
        tm,
        key,
        #[trigger] t.records()[k],
    ) by {
        let (j, s) = lemma_flat_member(t.nodes, t.levels[0], k);
        assert(t.valid(0, j));
        assert(t.page_ok::<K>(0, j));
        assert(t.page(0, j) == t.levels[0][j]);
        assert(t.records()[k] == t.leaf(j).entries[s]);
    }
}

impl LeafPage {
    /// Checks the versions of `key` on one leaf for one that stands in the way
    /// of inserting the key.
    pub fn check_insert_conflict<K: Key>(
        &self,
        start_slot: usize,
        key: &[u8],
        txn: &Transaction,
        tm: &TransactionManager,
    ) -> (r: Result<(), IndexError>)
        requires
            records_sorted::<K>(self@.entries),
            start_slot < self@.entries.len(),
            key_eq::<K>(self@.entries[start_slot as int].key, key@),
            tm.wf(),
        ensures
            r is Ok ==> forall|s: int|
                0 <= s < self@.entries.len() ==> unopposed::<K>(
                    txn,
                    tm,
                    key@,
                    #[trigger] self@.entries[s],
                ),
            r matches Err(e) ==> exists|s: int| #[trigger]
                first_in_way::<K>(self@.entries, txn, tm, key@, s, e),
    {
        let (first, past_end) = self.duplicate_slot_bounds::<K>(key, start_slot);
        let mut i: usize = first;
        while i < past_end
            invariant
                first <= i <= past_end <= self@.entries.len(),
                tm.wf(),
                forall|k: int|
                    0 <= k < self@.entries.len() ==> (first <= k < past_end <==> key_eq::<K>(
                        #[trigger] self@.entries[k].key,
                        key@,
                    )),
                forall|k: int|
                    first <= k < i ==> unopposed::<K>(txn, tm, key@, #[trigger] self@.entries[k]),
            decreases past_end - i,
        {
            assert(self@.entries[i as int] == self.entries@[i as int]@);
            let ghost v = self@.entries[i as int];
            assert(key_eq::<K>(v.key, key@));
            let c = check_version_conflict(self.entries[i].xmin, self.entries[i].xmax, txn, tm);
            assert(insert_conflict(txn, tm, v) is None <==> c is Ok);
            if let Err(e) = c {
                assert(opposed::<K>(txn, tm, key@, self@.entries[i as int], e));
                assert forall|k: int| 0 <= k < i implies unopposed::<K>(
                    txn,
                    tm,
                    key@,
                    #[trigger] self@.entries[k],
                ) by {
                    if k < first {
                        assert(!key_eq::<K>(self@.entries[k].key, key@));
                    }
                }
                assert(first_in_way::<K>(self@.entries, txn, tm, key@, i as int, e));
                return Err(e);
            }
            i = i + 1;
        }
        assert forall|s: int| 0 <= s < self@.entries.len() implies unopposed::<K>(
            txn,
            tm,
            key@,
            #[trigger] self@.entries[s],
        ) by {
            if !(first <= s < past_end) {
                assert(!key_eq::<K>(self@.entries[s].key, key@));
            }
        }
        Ok(())
    }
}

} // verus!
