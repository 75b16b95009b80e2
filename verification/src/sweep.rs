//! Vacuum: sweeping all leaves from left to right.

use vstd::prelude::*;

use crate::chronicle::{drift, fresh, lemma_on, lemma_present};
use crate::compact::swept_part;
use crate::index::{lemma_page, BTreeIndex};
use crate::index_edit::flags;
use crate::index_write::{kin, lemma_leaves_few, lemma_kin_self, lemma_kin_swept};
use crate::key::Key;
use crate::mvcc::{
    cleared, dead, law_dead_versions_are_invisible, lemma_survivors_add, protected, remembered,
    survivors, Settled,
};
use crate::node::{Node, NodeView, RecordView};
use crate::trace::carries_on;
use crate::transaction::Transaction;
use crate::transaction_manager::TransactionManager;
use crate::tree_spec::{child_ok, children_ok, entries_of, flat};

verus! {

/// Sweeping every page of a chain sweeps the records of the chain.
pub proof fn lemma_flat_swept(
    e: Settled,
    m1: Map<u64, NodeView>,
    m2: Map<u64, NodeView>,
    chain: Seq<u64>,
)
    requires
        forall|i: int|
            0 <= i < chain.len() ==> entries_of(m2, #[trigger] chain[i]) == survivors(
                e,
                entries_of(m1, chain[i]),
            ),
    ensures
        flat(m2, chain) == survivors(e, flat(m1, chain)),
    decreases chain.len(),
{
    if chain.len() == 0 {
        assert(flat(m2, chain) =~= survivors(e, flat(m1, chain)));
    } else {
        let c = chain.drop_last();
        assert forall|i: int| 0 <= i < c.len() implies entries_of(m2, #[trigger] c[i]) == survivors(
            e,
            entries_of(m1, c[i]),
        ) by {
            assert(c[i] == chain[i]);
        }
        lemma_flat_swept(e, m1, m2, c);
        assert(chain.last() == chain[chain.len() - 1]);
        lemma_survivors_add(e, flat(m1, c), entries_of(m1, chain.last()));
    }
}

/// Whether there are numbers enough for a sweep of all leaves, and its versions can be
/// counted.
pub open spec fn sweepable<K: Key>(index: BTreeIndex<K>) -> bool {
    &&& index.store.budget() >= 193 * index.levels@[0].len()
    &&& index.records().len() <= usize::MAX
}

impl<K: Key> BTreeIndex<K> {
    /// The first leaf of the chain.
    pub fn find_leftmost_leaf(&mut self) -> (pid: u64)
        requires
            old(self).wf(),
        ensures
            final(self).wf(),
            final(self).same(old(self)),
            old(self).levels@[0].len() >= 1,
            pid == old(self).levels@[0][0],
    {
        let ghost t = self.tree();
        let ghost mut h: int = t.levels.len() - 1;
        let mut pid: u64 = self.root;
        proof {
            self.lemma_root();
            assert(t.levels[0].len() >= 1);
        }
        loop
            invariant
                self.wf(),
                self.same(old(self)),
                self.tree() == t,
                t == old(self).tree(),
                t.valid(h, 0),
                t.page(h, 0) == pid,
            decreases h,
        {
            proof {
                assert(t.page_ok::<K>(h, 0));
            }
            match self.store.load(pid) {
                Node::Leaf(_) => {
                    return pid;
                },
                Node::Internal(p) => {
                    let child: u64 = p.children[0];
                    proof {
                        reveal(children_ok);
                        assert(t.internal_ok::<K>(h, p@));
                        let _ = p@.children[0];
                        assert(child_ok::<K>(t.levels[h - 1], t.lows, p@, 0));
                        let i = lemma_page::<K>(t, h - 1, child);
                        self.lemma_first(h - 1, i, p@, h);
                        h = h - 1;
                    }
                    pid = child;
                },
            }
        }
    }

    /// The last leaf of the chain.
    pub fn find_rightmost_leaf(&mut self) -> (pid: u64)
        requires
            old(self).wf(),
        ensures
            final(self).wf(),
            final(self).same(old(self)),
            old(self).levels@[0].len() >= 1,
            pid == old(self).levels@[0].last(),
    {
        let ghost t = self.tree();
        let ghost mut h: int = t.levels.len() - 1;
        let ghost mut i: int = 0;
        let mut pid: u64 = self.root;
        proof {
            self.lemma_root();
        }
        loop
            invariant
                self.wf(),
                self.same(old(self)),
                self.tree() == t,
                t == old(self).tree(),
                t.valid(h, i),
                t.page(h, i) == pid,
            decreases h, t.levels[h].len() - i,
        {
            proof {
                assert(t.page_ok::<K>(h, i));
                assert(t.linked(h, i));
            }
            match self.store.load(pid) {
                Node::Leaf(l) => {
                    // Splits that the level above does not know of yet.
                    match l.rightlink {
                        Some(right) => {
                            proof {
                                assert(t.valid(0, i + 1));
                                i = i + 1;
                            }
                            pid = right;
                        },
                        None => {
                            return pid;
                        },
                    }
                },
                Node::Internal(p) => {
                    let n: usize = p.keys.len();
                    let child: u64 = p.children[n];
                    proof {
                        reveal(children_ok);
                        assert(t.internal_ok::<K>(h, p@));
                        let _ = p@.children[n as int];
                        assert(child_ok::<K>(t.levels[h - 1], t.lows, p@, n as int));
                        h = h - 1;
                        i = lemma_page::<K>(t, h, child);
                    }
                    pid = child;
                },
            }
        }
    }

    /// Whether there are numbers enough for a sweep, and its versions can be counted.
    pub fn can_sweep(&mut self) -> (b: bool)
        requires
            old(self).wf(),
        ensures
            final(self).wf(),
            final(self).same(old(self)),
            b == sweepable(*old(self)),
    {
        let ghost t = self.tree();
        let ghost chain = t.levels[0];
        let mut pid: u64 = self.find_leftmost_leaf();
        let mut leaves: u64 = 0;
        let mut records: usize = 0;
        let mut fits = true;
        let ghost mut i: int = 0;
        proof {
            lemma_leaves_few::<K>(t, self.store);
            assert(chain.subrange(0, 0) =~= Seq::<u64>::empty());
        }
        loop
            invariant_except_break
                pid == chain[i],
                leaves == i,
                fits ==> flat(t.nodes, chain.subrange(0, i)).len() == records,
                !fits ==> flat(t.nodes, chain.subrange(0, i)).len() > usize::MAX,
            invariant
                self.wf(),
                self.same(old(self)),
                self.tree() == t,
                t == old(self).tree(),
                chain == t.levels[0],
                0 <= i < chain.len(),
                chain.len() <= u64::MAX,
            ensures
                leaves == chain.len(),
                fits == (t.records().len() <= usize::MAX),
            decreases chain.len() - i,
        {
            proof {
                assert(t.valid(0, i));
                assert(t.page_ok::<K>(0, i));
                assert(t.page(0, i) == pid);
                assert(t.linked(0, i));
                assert(chain.contains(pid));
                assert(chain.subrange(0, i + 1).drop_last() =~= chain.subrange(0, i));
                assert(chain.subrange(0, i + 1).last() == pid);
            }
            let l = self.load_leaf(pid);
            let n: usize = l.entries.len();
            assert(entries_of(t.nodes, pid) == l@.entries);
            if n > usize::MAX - records {
                fits = false;
            } else {
                records = records + n;
            }
            leaves = leaves + 1;
            match l.rightlink {
                Some(right) => {
                    proof {
                        i = i + 1;
                    }
                    pid = right;
                },
                None => {
                    assert(chain.subrange(0, i + 1) =~= chain);
                    break;
                },
            }
        }
        fits && self.store.room() as u128 >= 193 * leaves as u128
    }

    /// Sweeps every leaf: dead versions go, and stamps of aborted deleters are
    /// cleared. Publishes the horizon that the sweep went by and returns how
    /// many versions went.
    #[verifier::rlimit(30)]
    pub fn vacuum(&mut self, tm: &mut TransactionManager) -> (n: usize)
        requires
            old(self).wf(),
            old(tm).wf(),
            sweepable(*old(self)),
        ensures
            final(self).wf(),
            carries_on(old(self).store.log(), final(self).store.log(), 0),
            forall|b: u64|
                fresh(old(tm).settled(), b) ==> #[trigger] drift(
                    old(self).past@,
                    final(self).past@,
                    final(self).store.log(),
                    old(tm).settled(),
                    b,
                ),
            final(self).levels@ == old(self).levels@,
            final(self).lows@ == old(self).lows@,
            final(self).root == old(self).root,
            final(self).pending_recycle@ == old(self).pending_recycle@,
            flags(final(self).tree().nodes) == flags(old(self).tree().nodes),
            final(self).store.budget() >= old(self).store.budget() - 193 * old(
                self,
            ).levels@[0].len(),
            final(self).records() == survivors(old(tm).settled(), old(self).records()),
            n + final(self).records().len() == old(self).records().len(),
            forall|k: int|
                0 <= k < final(self).records().len() ==> final(self).content(
                    #[trigger] final(self).records()[k],
                ) == old(self).content(final(self).records()[k]),
            final(tm).wf(),
            final(tm).vacuum_horizon == (if old(tm).horizon() > old(tm).vacuum_horizon {
                old(tm).horizon()
            } else {
                old(tm).vacuum_horizon
            }),
            forall|id: u64| #[trigger]
                final(tm).aborts().contains_key(id) <==> old(tm).aborts().contains_key(id) && id
                    >= final(tm).vacuum_horizon,
            final(tm).next_txn_id == old(tm).next_txn_id,
            final(tm).clog == old(tm).clog,
            final(tm).dead_versions == old(tm).dead_versions,
            final(tm).active_state.active == old(tm).active_state.active,
            final(tm).waiters == old(tm).waiters,
            final(tm).same_readers(old(tm)),
            final(tm).horizon() == old(tm).horizon(),
    {
        let ghost t0 = self.tree();
        let ghost chain = t0.levels[0];
        let horizon: u64 = tm.global_xmin();
        let ghost e = tm.settled();
        let mut pid: u64 = self.find_leftmost_leaf();
        let mut total: usize = 0;
        let ghost mut i: int = 0;
        proof {
            lemma_present::<K>(*self);
            assert forall|k: int| 0 <= k < t0.records().len() implies kin(
                e,
                t0.records(),
                #[trigger] t0.records()[k],
            ) by {
                lemma_kin_self(e, t0.records(), k);
            }
        }
        loop
            invariant_except_break
                pid == chain[i],
                forall|j: int|
                    i <= j < chain.len() ==> self.tree().nodes[#[trigger] chain[j]]
                        == t0.nodes[chain[j]],
                self.store.budget() >= 193 * (chain.len() - i),
                self.store.budget() >= old(self).store.budget() - 193 * i,
            invariant
                self.wf(),
                self.lows@ == old(self).lows@,
                self.root == old(self).root,
                self.pending_recycle@ == old(self).pending_recycle@,
                flags(self.tree().nodes) == flags(old(self).tree().nodes),
                carries_on(old(self).store.log(), self.store.log(), 0),
                forall|b: u64|
                    fresh(old(tm).settled(), b) ==> #[trigger] drift(
                        old(self).past@,
                        self.past@,
                        self.store.log(),
                        old(tm).settled(),
                        b,
                    ),
                *tm == *old(tm),
                tm.wf(),
                e == tm.settled(),
                horizon == tm.horizon(),
                t0 == old(self).tree(),
                t0.wf::<K>(),
                chain == t0.levels[0],
                self.levels@ == t0.levels,
                0 <= i < chain.len(),
                forall|j: int|
                    0 <= j < i ==> entries_of(self.tree().nodes, #[trigger] chain[j]) == survivors(
                        e,
                        entries_of(t0.nodes, chain[j]),
                    ),
                total + self.records().len() == t0.records().len(),
                t0.records().len() <= usize::MAX,
                forall|k: int|
                    0 <= k < self.records().len() ==> self.content(#[trigger] self.records()[k])
                        == old(self).content(self.records()[k]),
            ensures
                flat(self.tree().nodes, chain) == survivors(e, flat(t0.nodes, chain)),
                self.store.budget() >= old(self).store.budget() - 193 * chain.len(),
            decreases chain.len() - i,
        {
            let ghost s1 = *self;
            let ghost t1 = self.tree();
            proof {
                assert(t1.valid(0, i));
                assert(t1.page_ok::<K>(0, i));
                assert(t1.page(0, i) == pid);
                assert(t1.linked(0, i));
                assert(chain.contains(pid));
            }
            let next = {
                let l = self.load_leaf(pid);
                l.rightlink
            };
            let ghost s2 = *self;
            let gone: usize = self.compact_leaf(pid, horizon, tm);
            proof {
                let x = t1.leaf(i).entries;
                let (a, b) = choose|a: Seq<RecordView>, b: Seq<RecordView>| #[trigger]
                    swept_part(e, s2.records(), self.records(), a, x, b);
                lemma_kin_swept(e, s2.records(), self.records(), a, x, b);
                assert forall|k: int| 0 <= k < self.records().len() implies self.content(
                    #[trigger] self.records()[k],
                ) == old(self).content(self.records()[k]) by {
                    let r = self.records()[k];
                    assert(kin(e, s2.records(), r));
                    let j = choose|j: int|
                        0 <= j < s2.records().len() && (r == #[trigger] s2.records()[j] || r
                            == cleared(e, s2.records()[j]));
                    assert(s2.content(r) == s2.content(s2.records()[j]));
                    assert(s1.content(s1.records()[j]) == old(self).content(s1.records()[j]));
                    assert(old(self).content(r) == old(self).content(s2.records()[j]));
                }
                assert forall|j: int| i + 1 <= j < chain.len() implies self.tree().nodes[
                    #[trigger] chain[j]] == t0.nodes[chain[j]] by {
                    assert(t0.valid(0, i) && t0.valid(0, j));
                    assert(t0.page(0, j) != t0.page(0, i));
                }
                assert forall|j: int| 0 <= j < i + 1 implies entries_of(
                    self.tree().nodes,
                    #[trigger] chain[j],
                ) == survivors(e, entries_of(t0.nodes, chain[j])) by {
                    assert(t0.valid(0, i) && t0.valid(0, j));
                    if j < i {
                        assert(t0.page(0, j) != t0.page(0, i));
                    }
                }
                assert(self.records().len() + gone == s2.records().len());
                assert forall|b: u64| fresh(old(tm).settled(), b) implies #[trigger] drift(
                    old(self).past@,
                    self.past@,
                    self.store.log(),
                    old(tm).settled(),
                    b,
                ) by {
                    lemma_on(
                        old(self).past@,
                        s2.past@,
                        s2.store.log(),
                        self.past@,
                        self.store.log(),
                        0,
                        old(tm).settled(),
                        b,
                    );
                }
            }
            total = total + gone;
            match next {
                Some(right) => {
                    proof {
                        i = i + 1;
                    }
                    pid = right;
                },
                None => {
                    proof {
                        lemma_flat_swept(e, t0.nodes, self.tree().nodes, chain);
                    }
                    break;
                },
            }
        }
        tm.publish_vacuum_horizon(horizon);
        total
    }
}

/// What a transaction sees of a list of versions: key, stored value and type of
/// each visible one, in order.
pub open spec fn seen_rows(
    txn: &Transaction,
    aborts: Map<u64, ()>,
    s: Seq<RecordView>,
) -> Seq<(Seq<u8>, Seq<u8>, u8)>
    decreases s.len(),
{
    if s.len() == 0 {
        Seq::empty()
    } else {
        let rest = seen_rows(txn, aborts, s.drop_last());
        let r = s.last();
        if txn.sees(aborts, r.xmin, r.xmax) {
            rest.push((r.key, r.value, r.rec_type))
        } else {
            rest
        }
    }
}

/// A sweep changes nothing for a transaction whose snapshot the horizon
/// protects, not even when the manager forgets aborted transactions afterwards.
pub proof fn law_vacuum_keeps_what_is_seen(
    e: Settled,
    later: Map<u64, ()>,
    txn: &Transaction,
    recs: Seq<RecordView>,
)
    requires
        protected(e, txn),
        forall|i: int| 0 <= i < recs.len() ==> remembered(e, txn, #[trigger] recs[i]),
        forall|id: u64| #[trigger] later.contains_key(id) ==> e.aborts.contains_key(id),
    ensures
        seen_rows(txn, later, survivors(e, recs)) == seen_rows(txn, e.aborts, recs),
    decreases recs.len(),
{
    if recs.len() > 0 {
        let front = recs.drop_last();
        assert forall|i: int| 0 <= i < front.len() implies remembered(
            e,
            txn,
            #[trigger] front[i],
        ) by {
            assert(front[i] == recs[i]);
        }
        law_vacuum_keeps_what_is_seen(e, later, txn, front);
        let r = recs.last();
        assert(r == recs[recs.len() - 1]);
        let rest = survivors(e, recs.drop_last());
        law_dead_versions_are_invisible(e, txn, r);
        if !dead(e, r) {
            let c = cleared(e, r);
            assert(rest.push(c).drop_last() =~= rest);
            assert(rest.push(c).last() == c);
            assert(txn.sees(later, c.xmin, c.xmax) == txn.sees(e.aborts, c.xmin, c.xmax));
        }
    }
}

} // verus!
