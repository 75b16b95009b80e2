//! Inserting and updating keys.

use vstd::prelude::*;

use crate::chronicle::{calm, drift, fresh, lemma_calm_trans, lemma_on, lemma_present};
use crate::compact::swept_part;
use crate::constants::{MAX_KEY_SIZE, MAX_VALUE_SIZE, OVERFLOW_THRESHOLD};
use crate::downlinks::lemma_root_alone;
use crate::error::IndexError;
use crate::index::{ancestor, lemma_page, lemma_place, place, stack_at, BTreeIndex};
use crate::index_edit::{
    covers, first_opposed, flagged, flags, lemma_first_opposed, lemma_first_opposed_kept,
    new_version, unopposed,
};
use crate::key::{Key, KeyOrder};
use crate::leaf_lemmas::{
    lemma_leaf_count, lemma_position_is_slot, lemma_single_has_room, lemma_survivor_origin,
    lemma_survivors_size,
};
use crate::mvcc::{
    by_age, check_write_conflict, cleared, decide_by_age, survivors, visible, with_xmax,
    write_conflict, Settled,
};
use crate::node::{Node, NodeView, RecordView, REC_TYPE_INLINE, REC_TYPE_OVERFLOW};
use crate::smo::{kept_below, leaf_cut, lemma_kept_trans, lemma_kept_weaker, lemma_spot, restamped};
use crate::store::PageStore;
use crate::trace::{carries_on, lemma_wrote_stays, wrote};
use crate::transaction::Transaction;
use crate::transaction_manager::TransactionManager;
use crate::tree_spec::{bound_le, child_ok, children_ok, Tree};
use crate::value_lemmas::value_fresh;

verus! {

/// Whether a version is one of a list, or one of them without the stamp of a
/// deleter that aborted.
pub open spec fn kin(e: Settled, recs: Seq<RecordView>, x: RecordView) -> bool {
    exists|i: int|
        0 <= i < recs.len() && (x == #[trigger] recs[i] || x == cleared(e, recs[i]))
}

/// Whether `after` is `before` with one version more: of `recs`, dead versions
/// may have gone and stamps of aborted deleters may be cleared, which leaves
/// `base`; `r` has entered that at index `k`; and every other value is as it was.
pub open spec fn entered<K: Key>(
    before: &BTreeIndex<K>,
    after: &BTreeIndex<K>,
    e: Settled,
    recs: Seq<RecordView>,
    base: Seq<RecordView>,
    k: int,
    r: RecordView,
) -> bool {
    &&& survivors(e, base) == survivors(e, recs)
    &&& 0 <= k <= base.len()
    &&& after.records() == base.insert(k, r)
    &&& forall|j: int|
        0 <= j < base.len() ==> kin(e, recs, #[trigger] base[j]) && after.content(base[j])
            == before.content(base[j])
}

pub proof fn lemma_kin_self(e: Settled, recs: Seq<RecordView>, j: int)
    requires
        0 <= j < recs.len(),
    ensures
        kin(e, recs, recs[j]),
{
}

pub proof fn lemma_kin_trans(
    e: Settled,
    a: Seq<RecordView>,
    b: Seq<RecordView>,
    x: RecordView,
)
    requires
        kin(e, b, x),
        forall|j: int| 0 <= j < b.len() ==> kin(e, a, #[trigger] b[j]),
    ensures
        kin(e, a, x),
{
    let j = choose|j: int| 0 <= j < b.len() && (x == #[trigger] b[j] || x == cleared(e, b[j]));
    let y = b[j];
    assert(kin(e, a, y));
    let i = choose|i: int| 0 <= i < a.len() && (y == #[trigger] a[i] || y == cleared(e, a[i]));
    assert(x == a[i] || x == cleared(e, a[i]));
}

/// What a sweep leaves are versions that were there.
pub proof fn lemma_kin_swept(
    e: Settled,
    before: Seq<RecordView>,
    after: Seq<RecordView>,
    a: Seq<RecordView>,
    x: Seq<RecordView>,
    b: Seq<RecordView>,
)
    requires
        swept_part(e, before, after, a, x, b),
    ensures
        forall|j: int| 0 <= j < after.len() ==> kin(e, before, #[trigger] after[j]),
{
    let s = survivors(e, x);
    assert forall|j: int| 0 <= j < after.len() implies kin(e, before, #[trigger] after[j]) by {
        if j < a.len() {
            assert(before[j] == after[j]);
            lemma_kin_self(e, before, j);
        } else if j < a.len() + s.len() {
            let i = lemma_survivor_origin(e, x, j - a.len());
            assert(after[j] == s[j - a.len()]);
            assert(before[a.len() + i] == x[i]);
            assert(after[j] == cleared(e, before[a.len() + i]));
        } else {
            let i = j - s.len() + x.len();
            assert(before[i] == after[j]);
            lemma_kin_self(e, before, i);
        }
    }
}

/// How many sequence numbers and pages an insertion into a tree with `levels`
/// levels and `incomplete` incomplete splits may take.
pub open spec fn work(levels: nat, incomplete: nat) -> nat {
    (incomplete + 200) * (3 * (levels + incomplete) + 900)
}

/// How many a split takes at a leaf of `n` records under `depth` ancestors. Each of
/// the splits that follow one another may put a root on top.
pub open spec fn split_work(n: nat, depth: nat) -> nat {
    (n + 1) * (3 * (depth + n) + 256)
}

proof fn lemma_split_work(n: nat, m: nat, depth: nat, depth2: nat)
    requires
        m < n,
        depth2 <= depth + 1,
    ensures
        split_work(m, depth2) + 3 * depth + 256 <= split_work(n, depth),
{
    let c = (3 * (depth + n) + 256) as int;
    let c2 = (3 * (depth2 + m) + 256) as int;
    assert((m + 1) * c2 + c <= (n + 1) * c) by (nonlinear_arith)
        requires
            m + 1 <= n,
            0 <= c2 <= c,
    ;
}

pub proof fn lemma_work_step(l: nat, f: nat, l2: nat, f2: nat)
    requires
        f2 + 1 <= f,
        l2 <= l + 1,
    ensures
        work(l2, f2) + 3 * l + 4 <= work(l, f),
{
    let c = (3 * (l + f) + 900) as int;
    let c2 = (3 * (l2 + f2) + 900) as int;
    assert(c2 <= c);
    assert((f2 + 200) * c2 <= (f2 + 200) * c) by (nonlinear_arith)
        requires
            c2 <= c,
    ;
    assert((f2 + 200) * c + c <= (f + 200) * c) by (nonlinear_arith)
        requires
            f2 + 1 <= f,
            c >= 0,
    ;
}

proof fn lemma_work_covers_split(l: nat, f: nat, n: nat, depth: nat)
    requires
        n <= 192,
        depth <= l,
    ensures
        split_work(n, depth) + 3 <= work(l, f),
{
    let c = (3 * (l + f) + 900) as int;
    let d = (3 * (depth + n) + 256) as int;
    assert(d <= 3 * l + 832);
    assert((n + 1) * d <= 193 * d) by (nonlinear_arith)
        requires
            n <= 192,
            d >= 0,
    ;
    assert(200 * c <= (f + 200) * c) by (nonlinear_arith)
        requires
            c >= 0,
    ;
}

/// A split flags one page more, and a downlink takes that flag away again.
proof fn lemma_flag_passes(f: Set<u64>, pid: u64, new: u64, x: u64)
    requires
        f.finite(),
        x == if f.contains(pid) {
            new
        } else {
            pid
        },
    ensures
        f.insert(x).remove(pid).len() <= f.len(),
{
    if f.contains(pid) {
        assert(f.insert(new).remove(pid).len() <= f.insert(new).len() - 1 || new == pid);
        if new == pid {
            assert(f.insert(new) =~= f);
        }
    } else {
        assert(f.insert(pid).remove(pid) =~= f);
    }
}

/// The flagged pages are finitely many.
pub proof fn lemma_flags_finite(m: Map<u64, NodeView>)
    requires
        m.dom().finite(),
    ensures
        flags(m).finite(),
{
    vstd::set_lib::lemma_len_subset(flags(m), m.dom());
}

pub proof fn lemma_below(s: Set<u64>, n: nat)
    requires
        s.finite(),
        forall|x: u64| #[trigger] s.contains(x) ==> x < n,
    ensures
        s.len() <= n,
    decreases n,
{
    if n == 0 {
        assert(s =~= Set::empty());
    } else {
        let x = (n - 1) as u64;
        let t = s.remove(x);
        assert forall|y: u64| #[trigger] t.contains(y) implies y < n - 1 by {
            assert(s.contains(y));
        }
        lemma_below(t, (n - 1) as nat);
    }
}

/// The first pages of the lowest `h` levels.
spec fn first_pages(levels: Seq<Seq<u64>>, h: nat) -> Set<u64>
    decreases h,
{
    if h == 0 {
        Set::empty()
    } else {
        first_pages(levels, (h - 1) as nat).insert(levels[h - 1][0])
    }
}

proof fn lemma_first_pages<K: Key>(t: Tree, h: nat)
    requires
        t.wf::<K>(),
        h <= t.levels.len(),
    ensures
        first_pages(t.levels, h).finite(),
        first_pages(t.levels, h).len() == h,
        forall|x: u64| #[trigger]
            first_pages(t.levels, h).contains(x) ==> t.nodes.contains_key(x) && exists|g: int|
                0 <= g < h && #[trigger] t.page(g, 0) == x,
    decreases h,
{
    if h > 0 {
        lemma_first_pages::<K>(t, (h - 1) as nat);
        let s = first_pages(t.levels, (h - 1) as nat);
        let x = t.levels[h - 1][0];
        assert(t.valid(h - 1, 0));
        assert(t.page_ok::<K>(h - 1, 0));
        assert(t.page(h - 1, 0) == x);
        if s.contains(x) {
            let g = choose|g: int| 0 <= g < h - 1 && #[trigger] t.page(g, 0) == x;
            assert(t.valid(g, 0));
        }
        assert forall|y: u64| #[trigger] first_pages(t.levels, h).contains(
            y,
        ) implies t.nodes.contains_key(y) && exists|g: int|
            0 <= g < h && #[trigger] t.page(g, 0) == y by {
            if s.contains(y) {
                let g = choose|g: int| 0 <= g < h - 1 && #[trigger] t.page(g, 0) == y;
                assert(0 <= g < h && t.page(g, 0) == y);
            }
        }
    }
}

/// There are no more levels than page ids.
pub proof fn lemma_levels_few<K: Key>(t: Tree, s: PageStore)
    requires
        s.wf(),
        t.wf::<K>(),
        t.nodes == s.pages().nodes,
    ensures
        t.levels.len() <= s.next_page(),
{
    s.lemma_wf();
    s.lemma_next_page();
    let n = t.levels.len();
    lemma_first_pages::<K>(t, n);
    let firsts = first_pages(t.levels, n);
    assert forall|x: u64| #[trigger] firsts.contains(x) implies x < s.next_page() by {
        assert(t.nodes.contains_key(x));
    }
    lemma_below(firsts, s.next_page() as nat);
}

/// There are no more leaves than page ids.
pub proof fn lemma_leaves_few<K: Key>(t: Tree, s: PageStore)
    requires
        s.wf(),
        t.wf::<K>(),
        t.nodes == s.pages().nodes,
    ensures
        t.levels[0].len() <= s.next_page(),
{
    s.lemma_wf();
    s.lemma_next_page();
    let c = t.levels[0];
    assert(c.no_duplicates()) by {
        assert forall|i: int, j: int| 0 <= i < c.len() && 0 <= j < c.len() && i != j implies c[i]
            != c[j] by {
            assert(t.valid(0, i) && t.valid(0, j));
            assert(t.page(0, i) == c[i] && t.page(0, j) == c[j]);
        }
    }
    c.unique_seq_to_set();
    vstd::seq_lib::seq_to_set_is_finite(c);
    assert forall|x: u64| #[trigger] c.to_set().contains(x) implies x < s.next_page() by {
        let i = choose|i: int| 0 <= i < c.len() && c[i] == x;
        assert(t.valid(0, i));
        assert(t.page_ok::<K>(0, i));
        assert(t.nodes.contains_key(x));
    }
    lemma_below(c.to_set(), s.next_page() as nat);
}

/// There are no more flagged pages than page ids.
pub proof fn lemma_flags_few(s: PageStore)
    requires
        s.wf(),
    ensures
        flags(s.pages().nodes).finite(),
        flags(s.pages().nodes).len() <= s.next_page(),
{
    s.lemma_wf();
    s.lemma_next_page();
    let m = s.pages().nodes;
    lemma_flags_finite(m);
    assert forall|x: u64| #[trigger] flags(m).contains(x) implies x < s.next_page() by {
        assert(m.contains_key(x));
    }
    lemma_below(flags(m), s.next_page() as nat);
}

/// Appends a list of ids.
fn extend_ids(ids: &mut Vec<u64>, more: &Vec<u64>)
    ensures
        final(ids)@ == old(ids)@ + more@,
{
    let mut i: usize = 0;
    while i < more.len()
        invariant
            i <= more@.len(),
            ids@ == old(ids)@ + more@.take(i as int),
        decreases more@.len() - i,
    {
        ids.push(more[i]);
        i = i + 1;
        assert(more@.take(i as int) =~= more@.take(i - 1).push(more@[i - 1]));
    }
    assert(more@.take(i as int) =~= more@);
}

impl<K: Key> BTreeIndex<K> {
    /// Puts a new version on a leaf that may be full: sweeps the leaf, and if
    /// that does not make room splits it, hooks the new leaf up, and goes on
    /// with the half whose range holds the key.
    #[verifier::rlimit(60)]
    #[verifier::spinoff_prover]
    pub(crate) fn split_and_insert(
        &mut self,
        pid: u64,
        key: &[u8],
        stored: &Vec<u8>,
        rec_type: u8,
        txn_id: u64,
        stack: &Vec<u64>,
        horizon: u64,
        tm: &TransactionManager,
    )
        requires
            old(self).wf(),
            tm.wf(),
            covers::<K>(old(self).tree(), pid, key@),
            stack_at(old(self).tree(), stack@, 0),
            stack@.len() + 1 == old(self).levels@.len(),
            old(self).levels@.last().len() == 1,
            key@.len() <= MAX_KEY_SIZE,
            stored@.len() <= OVERFLOW_THRESHOLD,
            value_fresh(
                old(self).records(),
                old(self).store.pages().chunks,
                old(self).chains@,
                new_version(key@, stored@, rec_type, txn_id),
            ),
            old(self).store.budget() >= split_work(
                old(self).tree().nodes[pid]->Leaf_0.entries.len(),
                stack@.len(),
            ),
        ensures
            final(self).wf(),
            carries_on(old(self).store.log(), final(self).store.log(), txn_id),
            ({
                let e = Settled { aborts: tm.aborts(), horizon };
                fresh(e, txn_id) ==> drift(old(self).past@, final(self).past@, final(self).store.log(), e, txn_id)
            }),
            wrote(final(self).store.log(), txn_id),
            final(self).chains@ == old(self).chains@,
            final(self).pending_recycle@ == old(self).pending_recycle@,
            flags(final(self).tree().nodes).finite(),
            flags(final(self).tree().nodes).len() <= flags(old(self).tree().nodes).len(),
            final(self).incomplete <= old(self).incomplete,
            final(self).levels@.len() <= old(self).levels@.len() + old(
                self,
            ).tree().nodes[pid]->Leaf_0.entries.len(),
            final(self).store.budget() >= old(self).store.budget() - split_work(
                old(self).tree().nodes[pid]->Leaf_0.entries.len(),
                stack@.len(),
            ),
            exists|base: Seq<RecordView>, k: int| #[trigger]
                entered(
                    old(self),
                    final(self),
                    Settled { aborts: tm.aborts(), horizon },
                    old(self).records(),
                    base,
                    k,
                    new_version(key@, stored@, rec_type, txn_id),
                ),
            final(self).content(new_version(key@, stored@, rec_type, txn_id)) == old(self).content(
                new_version(key@, stored@, rec_type, txn_id),
            ),
        decreases old(self).tree().nodes[pid]->Leaf_0.entries.len(),
    {
        let ghost e = Settled { aborts: tm.aborts(), horizon };
        let ghost r = new_version(key@, stored@, rec_type, txn_id);
        let ghost t0 = self.tree();
        let ghost i0 = lemma_page::<K>(t0, 0, pid);
        let ghost n0 = t0.nodes[pid]->Leaf_0.entries.len();
        let ghost depth = stack@.len();
        proof {
            K::le_laws();
            lemma_split_work_large(n0, depth);
            self.store.lemma_wf();
            lemma_flags_finite(t0.nodes);
        }
        let ghost f0 = flags(t0.nodes);
        self.compact_leaf(pid, horizon, tm);
        let ghost t1 = self.tree();
        let ghost recs1 = self.records();
        let ghost s1 = *self;
        proof {
            let x = t0.nodes[pid]->Leaf_0.entries;
            lemma_survivors_size(e, x);
            let (a, b) = choose|a: Seq<RecordView>, b: Seq<RecordView>| #[trigger]
                swept_part(e, t0.records(), recs1, a, x, b);
            lemma_kin_swept(e, t0.records(), recs1, a, x, b);
            lemma_stack_moved(t0, t1, stack@);
        }
        let l = self.load_leaf(pid);
        if l.can_fit_direct(key.len(), stored.len()) {
            let pos = l.position::<K>(key);
            proof {
                lemma_position_is_slot::<K>(l@.entries, key@, pos);
            }
            let k = self.insert_version(pid, pos.0, key, stored, rec_type, txn_id);
            proof {
                lemma_on(
                    old(self).past@,
                    s1.past@,
                    s1.store.log(),
                    self.past@,
                    self.store.log(),
                    txn_id,
                    e,
                    txn_id,
                );
                assert(entered(old(self), self, e, old(self).records(), recs1, k@, r));
            }
            return;
        }
        let ghost n1 = l@.entries.len();
        proof {
            if n1 <= 1 {
                lemma_single_has_room(l@, key@.len(), stored@.len());
            }
        }
        let root: u64 = self.root;
        let (sep, new) = self.split_leaf_ly(pid);
        let ghost t2 = self.tree();
        let ghost past2 = self.past@;
        let ghost log2 = self.store.log();
        let ghost mid = choose|mid: int| #[trigger] leaf_cut::<K>(t1, t2, pid, new, mid, sep@);
        proof {
            lemma_on(
                old(self).past@,
                s1.past@,
                s1.store.log(),
                past2,
                log2,
                0,
                e,
                txn_id,
            );
            lemma_stack_moved(t1, t2, stack@);
            assert(stack@.take(depth as int) =~= stack@);
            let kp = lemma_page::<K>(t1, 0, pid);
            assert(t2.nodes[pid].rightlink() == Some(new));
            lemma_spot::<K>(t1, 0, kp);
            assert(t2.levels[0][kp] == pid && t2.levels[0][kp + 1] == new);
            if depth == 0 {
                assert(t1.valid(0, 0) && t1.levels[0][0] == t1.root);
                assert(kp == 0);
            } else {
                assert(t2.levels[depth as int] == t1.levels[depth as int]);
            }
            let x = if flagged(t1.nodes[pid]) {
                new
            } else {
                pid
            };
            assert(flags(t2.nodes) == f0.insert(x));
            assert(f0.contains(pid) == flagged(t1.nodes[pid]));
            lemma_flag_passes(f0, pid, new, x);
        }
        let go_left = match K::compare(key, sep.as_slice()) {
            KeyOrder::Less => true,
            _ => false,
        };
        if go_left {
            let l = self.load_leaf(pid);
            if l.can_fit_direct(key.len(), stored.len()) {
                let pos = l.position::<K>(key);
                proof {
                    lemma_position_is_slot::<K>(l@.entries, key@, pos);
                    assert(covers::<K>(t2, pid, key@));
                }
                let k = self.insert_version(pid, pos.0, key, stored, rec_type, txn_id);
                let ghost t3 = self.tree();
                let ghost recs3 = self.records();
                let ghost log3 = self.store.log();
                let ghost past3 = self.past@;
                proof {
                    lemma_on(
                        old(self).past@,
                        past2,
                        log2,
                        past3,
                        log3,
                        txn_id,
                        e,
                        txn_id,
                    );
                    lemma_stack_moved(t2, t3, stack@);
                }
                proof {
                    assert(t3.levels[0].contains(pid));
                }
                self.post_downlink(Ghost(0), stack, stack.len(), sep, new, pid);
                proof {
                    lemma_on(
                        old(self).past@,
                        past3,
                        log3,
                        self.past@,
                        self.store.log(),
                        txn_id,
                        e,
                        txn_id,
                    );
                    lemma_wrote_stays(log3, self.store.log(), 0, txn_id);
                    assert(self.records() == recs1.insert(k@, r));
                    assert(entered(old(self), self, e, old(self).records(), recs1, k@, r));
                }
                return;
            }
        }
        self.post_downlink(Ghost(0), stack, stack.len(), sep, new, pid);
        let ghost t3 = self.tree();
        let ghost past3 = self.past@;
        let ghost log3 = self.store.log();
        proof {
            lemma_on(
                old(self).past@,
                past2,
                log2,
                past3,
                log3,
                0,
                e,
                txn_id,
            );
            lemma_stack_kept(t2, t3, stack@);
        }
        let target: u64 = if go_left {
            pid
        } else {
            new
        };
        proof {
            let kn = lemma_page::<K>(t2, 0, target);
            assert(t2.levels[0].contains(target));
            assert(restamped(t2.nodes[target], t3.nodes[target]));
            assert(covers::<K>(t3, target, key@));
            let nt = t3.nodes[target]->Leaf_0.entries.len();
            assert(nt < n1);
            lemma_split_work(n0, nt, depth, depth + 1);
            lemma_split_work(n0, nt, depth, depth);
            assert(value_fresh(
                self.records(),
                self.store.pages().chunks,
                self.chains@,
                r,
            ));
        }
        let l = self.load_leaf(target);
        if l.can_fit_direct(key.len(), stored.len()) {
            let pos = l.position::<K>(key);
            proof {
                lemma_position_is_slot::<K>(l@.entries, key@, pos);
            }
            let k = self.insert_version(target, pos.0, key, stored, rec_type, txn_id);
            proof {
                lemma_on(
                    old(self).past@,
                    past3,
                    log3,
                    self.past@,
                    self.store.log(),
                    txn_id,
                    e,
                    txn_id,
                );
                assert(entered(old(self), self, e, old(self).records(), recs1, k@, r));
            }
            return;
        }
        let ghost s3 = *self;
        let mut way: Vec<u64> = Vec::new();
        if self.root != root {
            way.push(self.root);
        }
        let ghost lead = way@.len();
        extend_ids(&mut way, stack);
        proof {
            self.lemma_root();
            assert forall|k: int| 0 <= k < way@.len() implies #[trigger] ancestor(
                t3,
                way@,
                0,
                k,
            ) by {
                if k >= lead {
                    assert(way@[k] == stack@[k - lead]);
                    assert(ancestor(t3, stack@, 0, k - lead));
                } else {
                    assert(t3.page(t3.levels.len() - 1, 0) == t3.root);
                    assert(way@[k] == t3.root);
                }
            }
        }
        self.split_and_insert(target, key, stored, rec_type, txn_id, &way, horizon, tm);
        proof {
            lemma_on(
                old(self).past@,
                past3,
                log3,
                self.past@,
                self.store.log(),
                txn_id,
                e,
                txn_id,
            );
            let (base, k) = choose|base: Seq<RecordView>, k: int| #[trigger]
                entered(&s3, self, e, s3.records(), base, k, r);
            assert(s3.records() == recs1);
            assert forall|j: int| 0 <= j < base.len() implies kin(
                e,
                old(self).records(),
                #[trigger] base[j],
            ) && self.content(base[j]) == old(self).content(base[j]) by {
                assert(kin(e, recs1, base[j]));
                lemma_kin_trans(e, old(self).records(), recs1, base[j]);
                let i = choose|i: int|
                    0 <= i < recs1.len() && (base[j] == #[trigger] recs1[i] || base[j] == cleared(
                        e,
                        recs1[i],
                    ));
                assert(s1.content(recs1[i]) == old(self).content(recs1[i]));
                assert(s3.content(base[j]) == s1.content(recs1[i]));
            }
            assert(entered(old(self), self, e, old(self).records(), base, k, r));
        }
    }
}

impl<K: Key> BTreeIndex<K> {
    /// How many sequence numbers and pages an insertion may take.
    pub open spec fn work(&self) -> nat {
        work(self.levels@.len(), flags(self.tree().nodes).len())
    }

    /// Walks down to a leaf that is not right of `key`, remembering the
    /// ancestors, and completes the splits that it meets on the way.
    #[verifier::rlimit(30)]
    pub(crate) fn descend_finishing(&mut self, key: &[u8]) -> (r: (u64, Vec<u64>))
        requires
            old(self).wf(),
            old(self).store.budget() >= old(self).work(),
        ensures
            final(self).wf(),
            carries_on(old(self).store.log(), final(self).store.log(), 0),
            calm(old(self).past@, final(self).past@),
            final(self).store.budget() - final(self).work() >= old(self).store.budget() - old(
                self,
            ).work(),
            final(self).records() == old(self).records(),
            final(self).store.pages().chunks == old(self).store.pages().chunks,
            final(self).chains@ == old(self).chains@,
            final(self).pending_recycle@ == old(self).pending_recycle@,
            final(self).levels@[0].contains(r.0),
            bound_le::<K>(final(self).lows@[r.0], Some(key@)),
            stack_at(final(self).tree(), r.1@, 0),
            r.1@.len() + 1 == final(self).levels@.len(),
            !flagged(final(self).tree().nodes[r.0]),
            forall|k: int|
                0 <= k < r.1@.len() ==> !flagged(final(self).tree().nodes[#[trigger] r.1@[k]]),
            flags(old(self).tree().nodes) == Set::<u64>::empty() ==> final(self).same(old(self)),
            final(self).levels@.last().len() == 1,
            kept_below(old(self).tree(), final(self).tree(), 0),
            flags(final(self).tree().nodes).finite(),
            final(self).levels@.len() + flags(final(self).tree().nodes).len() <= old(
                self,
            ).levels@.len() + flags(old(self).tree().nodes).len(),
            flags(final(self).tree().nodes).len() <= flags(old(self).tree().nodes).len(),
            final(self).incomplete <= old(self).incomplete,
    {
        let ghost f0 = flags(self.tree().nodes);
        let mut stack: Vec<u64> = Vec::new();
        let mut pid: u64 = self.root;
        let ghost mut h: int = self.levels@.len() - 1;
        let ghost mut i: int = 0;
        proof {
            self.store.lemma_wf();
            lemma_present::<K>(*self);
            lemma_flags_finite(self.tree().nodes);
            self.lemma_root();
        }
        loop
            invariant
                self.wf(),
                carries_on(old(self).store.log(), self.store.log(), 0),
                calm(old(self).past@, self.past@),
                old(self).store.budget() >= old(self).work(),
                self.store.budget() - self.work() >= old(self).store.budget() - old(self).work(),
                self.records() == old(self).records(),
                self.store.pages().chunks == old(self).store.pages().chunks,
                self.chains@ == old(self).chains@,
                self.pending_recycle@ == old(self).pending_recycle@,
                self.tree().valid(h, i),
                self.tree().page(h, i) == pid,
                bound_le::<K>(self.lows@[pid], Some(key@)),
                stack@.len() == self.levels@.len() - 1 - h,
                stack_at(self.tree(), stack@, h),
                flags(self.tree().nodes).finite(),
                f0 == flags(old(self).tree().nodes),
                flags(self.tree().nodes).len() <= f0.len(),
                self.incomplete <= old(self).incomplete,
                self.levels@.len() + flags(self.tree().nodes).len() <= old(self).levels@.len()
                    + f0.len(),
                kept_below(old(self).tree(), self.tree(), 0),
                pid == self.root || self.levels@.last().len() == 1,
                forall|k: int|
                    0 <= k < stack@.len() ==> !flagged(self.tree().nodes[#[trigger] stack@[k]]),
                f0 == Set::<u64>::empty() ==> self.same(old(self)),
            decreases flags(self.tree().nodes).len(), h, self.levels@[h].len() - i,
        {
            let ghost t = self.tree();
            proof {
                K::le_laws();
                assert(t.page_ok::<K>(h, i));
                assert(t.levels[h][i] == pid);
            }
            let node = self.store.load(pid);
            assert(self.tree() == t);
            let flag = match &node {
                Node::Leaf(l) => l.incomplete_split,
                Node::Internal(p) => p.incomplete_split,
            };
            if flag {
                let ghost f = flags(t.nodes);
                let ghost past0 = self.past@;
                assert(f.contains(pid));
                proof {
                    lemma_work_large(t.levels.len(), f.len());
                }
                self.finish_split(Ghost(h), pid, &stack);
                proof {
                    lemma_kept_weaker(t, self.tree(), h, 0);
                    lemma_calm_trans(old(self).past@, past0, self.past@);
                    let f2 = flags(self.tree().nodes);
                    assert(f2.len() + 1 <= f.len());
                    lemma_kept_trans(old(self).tree(), t, self.tree(), 0);
                    lemma_work_step(t.levels.len(), f.len(), self.levels@.len(), f2.len());
                    h = self.levels@.len() - 1;
                    i = 0;
                    self.lemma_root();
                }
                stack = Vec::new();
                pid = self.root;
                continue;
            }
            proof {
                if pid == t.root {
                    lemma_root_alone::<K>(t);
                }
            }
            match node {
                Node::Internal(p) => {
                    let mut right: Option<u64> = None;
                    if let Some(hk) = &p.high_key {
                        match K::compare(key, hk.as_slice()) {
                            KeyOrder::Less => {},
                            _ => {
                                right = p.rightlink;
                            },
                        }
                    }
                    if let Some(next) = right {
                        proof {
                            assert(t.valid(h, i + 1));
                            assert(t.page_ok::<K>(h, i + 1));
                            assert(t.linked(h, i + 1) && t.linked(h, i));
                            i = i + 1;
                        }
                        pid = next;
                        continue;
                    }
                    proof {
                        reveal(children_ok);
                        assert(t.internal_ok::<K>(h, p@));
                    }
                    let (idx, child) = p.find_child::<K>(key);
                    let ghost above = stack@;
                    stack.push(pid);
                    proof {
                        assert forall|k: int| 0 <= k < stack@.len() implies #[trigger] ancestor(
                            t,
                            stack@,
                            h - 1,
                            k,
                        ) by {
                            if k < above.len() {
                                assert(ancestor(t, above, h, k));
                                assert(stack@[k] == above[k]);
                            }
                        }
                        assert(child_ok::<K>(t.levels[h - 1], t.lows, p@, idx as int));
                        if idx > 0 {
                            assert(K::le(p@.keys[idx - 1], key@));
                        }
                        h = h - 1;
                        i = lemma_page::<K>(t, h, child);
                    }
                    pid = child;
                },
                Node::Leaf(_) => {
                    return (pid, stack);
                },
            }
        }
    }

    /// The root is the first page of the top level and has no lower bound.
    pub proof fn lemma_root(&self)
        requires
            self.tree().wf::<K>(),
        ensures
            self.levels@.len() >= 1,
            self.tree().valid(self.levels@.len() - 1, 0),
            self.tree().page(self.levels@.len() - 1, 0) == self.root,
            self.lows@[self.root] is None,
    {
        let t = self.tree();
        let top = t.levels.len() - 1;
        assert(t.levels[top].len() >= 1);
        assert(t.valid(top, 0));
        assert(t.page_ok::<K>(top, 0));
        assert(t.linked(top, 0));
    }

    /// Inserts a key with a value. Fails if a visible version of the key exists, or
    /// one that was committed after the transaction began. Where a running transaction
    /// inserted or deleted one, an older transaction has to wait for it and a younger
    /// one fails.
    #[verifier::rlimit(30)]
    pub fn insert(
        &mut self,
        key: &[u8],
        value: &[u8],
        txn: &Transaction,
        tm: &TransactionManager,
    ) -> (r: Result<(), IndexError>)
        requires
            old(self).wf(),
            tm.wf(),
            old(self).store.budget() >= old(self).work(),
        ensures
            final(self).wf(),
            carries_on(old(self).store.log(), final(self).store.log(), txn.txn_id),
            fresh(tm.settled(), txn.txn_id) ==> drift(
                old(self).past@,
                final(self).past@,
                final(self).store.log(),
                tm.settled(),
                txn.txn_id,
            ),
            r is Ok ==> wrote(final(self).store.log(), txn.txn_id),
            final(self).pending_recycle@ == old(self).pending_recycle@,
            flags(final(self).tree().nodes).len() <= flags(old(self).tree().nodes).len(),
            final(self).incomplete <= old(self).incomplete,
            final(self).levels@.len() + flags(final(self).tree().nodes).len() <= old(
                self,
            ).levels@.len() + flags(old(self).tree().nodes).len() + 192,
            final(self).store.budget() >= old(self).store.budget() - old(self).work(),
            final(self).work() <= old(self).work() + 576 * (flags(old(self).tree().nodes).len()
                + 200),
            key@.len() > MAX_KEY_SIZE ==> r == Err::<(), IndexError>(
                IndexError::KeyTooLarge { size: key@.len() as usize, max: MAX_KEY_SIZE },
            ),
            key@.len() <= MAX_KEY_SIZE && value@.len() > MAX_VALUE_SIZE ==> r == Err::<
                (),
                IndexError,
            >(IndexError::ValueTooLarge { size: value@.len() as usize, max: MAX_VALUE_SIZE }),
            key@.len() <= MAX_KEY_SIZE && value@.len() <= MAX_VALUE_SIZE ==> {
                &&& r is Ok <==> forall|k: int|
                    0 <= k < old(self).records().len() ==> unopposed::<K>(
                        txn,
                        tm,
                        key@,
                        #[trigger] old(self).records()[k],
                    )
                &&& r matches Err(e) ==> exists|i: int, s: int, x: IndexError| #[trigger]
                    first_opposed::<K>(old(self).tree(), txn, tm, key@, i, s, x) && e == by_age(
                        txn.txn_id,
                        x,
                    )
            },
            key@.len() > MAX_KEY_SIZE || value@.len() > MAX_VALUE_SIZE ==> final(self).same(
                old(self),
            ),
            r is Err && flags(old(self).tree().nodes) == Set::<u64>::empty() ==> final(self).same(
                old(self),
            ),
            r is Err ==> {
                &&& final(self).records() == old(self).records()
                &&& final(self).store.pages().chunks == old(self).store.pages().chunks
                &&& final(self).chains@ == old(self).chains@
            },
            r is Ok ==> exists|base: Seq<RecordView>, k: int, v: RecordView| #[trigger]
                entered(old(self), final(self), tm.settled(), old(self).records(), base, k, v)
                    && stored_as(final(self), v, key@, value@, txn.txn_id),
    {
        proof {
            lemma_present::<K>(*self);
        }
        if key.len() > MAX_KEY_SIZE {
            return Err(IndexError::KeyTooLarge { size: key.len(), max: MAX_KEY_SIZE });
        }
        if value.len() > MAX_VALUE_SIZE {
            return Err(IndexError::ValueTooLarge { size: value.len(), max: MAX_VALUE_SIZE });
        }
        let (leaf_pid, stack) = self.descend_finishing(key);
        let landing = self.move_right(leaf_pid, key);
        let pid: u64 = landing.page_id;
        let ghost past1 = self.past@;
        let ghost log1 = self.store.log();
        proof {
            lemma_on(
                old(self).past@,
                old(self).past@,
                old(self).store.log(),
                past1,
                log1,
                0,
                tm.settled(),
                txn.txn_id,
            );
        }
        if let Err(e) = self.check_insert_conflicts(&landing, key, txn, tm) {
            proof {
                let t0 = old(self).tree();
                let (i, s) = choose|i: int, s: int| #[trigger]
                    first_opposed::<K>(self.tree(), txn, tm, key@, i, s, e);
                lemma_first_opposed_kept::<K>(t0, self.tree(), txn, tm, key@, i, s, e);
                let k = lemma_first_opposed::<K>(t0, txn, tm, key@, i, s, e);
                assert(!unopposed::<K>(txn, tm, key@, old(self).records()[k]));
            }
            proof {
                lemma_work_grows(
                    old(self).levels@.len(),
                    flags(old(self).tree().nodes).len(),
                    self.levels@.len(),
                    flags(self.tree().nodes).len(),
                );
            }
            return Err(decide_by_age(txn.txn_id, e));
        }
        let ghost s0 = *self;
        proof {
            K::le_laws();
            let i = lemma_page::<K>(self.tree(), 0, pid);
            lemma_leaf_count(landing@);
            lemma_work_covers_split(
                self.levels@.len(),
                flags(self.tree().nodes).len(),
                192,
                stack@.len(),
            );
        }
        self.put_version(pid, key, value, txn.txn_id, &stack, tm);
        proof {
            lemma_on(
                old(self).past@,
                past1,
                log1,
                self.past@,
                self.store.log(),
                txn.txn_id,
                tm.settled(),
                txn.txn_id,
            );
            let (base, k, v) = choose|base: Seq<RecordView>, k: int, v: RecordView| #[trigger]
                entered(&s0, self, tm.settled(), s0.records(), base, k, v) && stored_as(
                    self,
                    v,
                    key@,
                    value@,
                    txn.txn_id,
                );
            assert(entered(old(self), self, tm.settled(), old(self).records(), base, k, v));
            lemma_work_grows(
                old(self).levels@.len(),
                flags(old(self).tree().nodes).len(),
                self.levels@.len(),
                flags(self.tree().nodes).len(),
            );
        }
        Ok(())
    }

    /// Puts a new version of `key` on the leaf whose range holds it, splitting
    /// the leaf if it is full.
    fn put_version(
        &mut self,
        pid: u64,
        key: &[u8],
        value: &[u8],
        txn_id: u64,
        stack: &Vec<u64>,
        tm: &TransactionManager,
    )
        requires
            old(self).wf(),
            tm.wf(),
            covers::<K>(old(self).tree(), pid, key@),
            stack_at(old(self).tree(), stack@, 0),
            stack@.len() + 1 == old(self).levels@.len(),
            old(self).levels@.last().len() == 1,
            key@.len() <= MAX_KEY_SIZE,
            value@.len() <= MAX_VALUE_SIZE,
            old(self).store.budget() >= split_work(192, stack@.len()) + 2,
        ensures
            final(self).wf(),
            carries_on(old(self).store.log(), final(self).store.log(), txn_id),
            fresh(tm.settled(), txn_id) ==> drift(
                old(self).past@,
                final(self).past@,
                final(self).store.log(),
                tm.settled(),
                txn_id,
            ),
            wrote(final(self).store.log(), txn_id),
            final(self).pending_recycle@ == old(self).pending_recycle@,
            flags(final(self).tree().nodes).finite(),
            flags(final(self).tree().nodes).len() <= flags(old(self).tree().nodes).len(),
            final(self).incomplete <= old(self).incomplete,
            final(self).levels@.len() <= old(self).levels@.len() + 192,
            final(self).store.budget() >= old(self).store.budget() - split_work(192, stack@.len())
                - 2,
            exists|base: Seq<RecordView>, k: int, v: RecordView| #[trigger]
                entered(old(self), final(self), tm.settled(), old(self).records(), base, k, v)
                    && stored_as(final(self), v, key@, value@, txn_id),
    {
        let ghost t = self.tree();
        let ghost recs = self.records();
        let ghost e = tm.settled();
        let (stored, rec_type) = self.materialize_value(value, txn_id);
        let ghost v = new_version(key@, stored@, rec_type, txn_id);
        let ghost s1 = *self;
        proof {
            let i = lemma_page::<K>(t, 0, pid);
            lemma_leaf_count(t.leaf(i));
            self.store.lemma_wf();
            lemma_flags_finite(t.nodes);
            lemma_split_work_large(192, stack@.len());
            lemma_split_work_monotone(t.leaf(i).entries.len(), 192, stack@.len());
        }
        let l = self.load_leaf(pid);
        let pos = l.position::<K>(key);
        if l.can_fit_direct(key.len(), stored.len()) {
            proof {
                lemma_position_is_slot::<K>(l@.entries, key@, pos);
            }
            let k = self.insert_version(pid, pos.0, key, &stored, rec_type, txn_id);
            proof {
                lemma_on(
                    old(self).past@,
                    s1.past@,
                    s1.store.log(),
                    self.past@,
                    self.store.log(),
                    txn_id,
                    e,
                    txn_id,
                );
                assert forall|j: int| 0 <= j < recs.len() implies kin(e, recs, #[trigger] recs[j])
                    && self.content(recs[j]) == old(self).content(recs[j]) by {
                    lemma_kin_self(e, recs, j);
                    assert(s1.content(recs[j]) == old(self).content(recs[j]));
                }
                assert(entered(old(self), self, e, recs, recs, k@, v));
                assert(stored_as(self, v, key@, value@, txn_id));
            }
            return;
        }
        let horizon: u64 = tm.global_xmin();
        let ghost s2 = *self;
        self.split_and_insert(pid, key, &stored, rec_type, txn_id, stack, horizon, tm);
        proof {
            lemma_on(
                old(self).past@,
                s1.past@,
                s1.store.log(),
                self.past@,
                self.store.log(),
                txn_id,
                e,
                txn_id,
            );
            let (base, k) = choose|base: Seq<RecordView>, k: int| #[trigger]
                entered(&s2, self, e, recs, base, k, v);
            assert forall|j: int| 0 <= j < base.len() implies self.content(#[trigger] base[j])
                == old(self).content(base[j]) by {
                let x = base[j];
                assert(kin(e, recs, x));
                let i = choose|i: int|
                    0 <= i < recs.len() && (x == #[trigger] recs[i] || x == cleared(e, recs[i]));
                assert(s1.content(recs[i]) == old(self).content(recs[i]));
                assert(s1.content(x) == s1.content(recs[i]));
                assert(old(self).content(x) == old(self).content(recs[i]));
                assert(self.content(base[j]) == s2.content(base[j]));
            }
            assert(entered(old(self), self, e, recs, base, k, v));
            assert(stored_as(self, v, key@, value@, txn_id));
        }
    }

    /// Gives `key` a new value: the visible version is marked deleted and a new
    /// one takes its place.
    #[verifier::rlimit(30)]
    pub fn update(
        &mut self,
        key: &[u8],
        value: &[u8],
        txn: &Transaction,
        tm: &TransactionManager,
    ) -> (r: Result<(), IndexError>)
        requires
            old(self).wf(),
            tm.wf(),
            old(self).store.budget() >= old(self).work(),
        ensures
            final(self).wf(),
            carries_on(old(self).store.log(), final(self).store.log(), txn.txn_id),
            fresh(tm.settled(), txn.txn_id) ==> drift(
                old(self).past@,
                final(self).past@,
                final(self).store.log(),
                tm.settled(),
                txn.txn_id,
            ),
            r is Ok ==> wrote(final(self).store.log(), txn.txn_id),
            final(self).pending_recycle@ == old(self).pending_recycle@,
            flags(final(self).tree().nodes).len() <= flags(old(self).tree().nodes).len(),
            final(self).incomplete <= old(self).incomplete,
            final(self).levels@.len() + flags(final(self).tree().nodes).len() <= old(
                self,
            ).levels@.len() + flags(old(self).tree().nodes).len() + 192,
            final(self).store.budget() >= old(self).store.budget() - old(self).work(),
            final(self).work() <= old(self).work() + 576 * (flags(old(self).tree().nodes).len()
                + 200),
            key@.len() > MAX_KEY_SIZE ==> r == Err::<(), IndexError>(
                IndexError::KeyTooLarge { size: key@.len() as usize, max: MAX_KEY_SIZE },
            ),
            key@.len() <= MAX_KEY_SIZE && value@.len() > MAX_VALUE_SIZE ==> r == Err::<
                (),
                IndexError,
            >(IndexError::ValueTooLarge { size: value@.len() as usize, max: MAX_VALUE_SIZE }),
            key@.len() <= MAX_KEY_SIZE && value@.len() <= MAX_VALUE_SIZE ==> {
                &&& r == Err::<(), IndexError>(IndexError::KeyNotFound) <==> forall|k: int|
                    0 <= k < old(self).records().len() ==> !visible::<K>(
                        txn,
                        tm.aborts(),
                        key@,
                        #[trigger] old(self).records()[k],
                    )
                &&& r != Err::<(), IndexError>(IndexError::KeyNotFound) ==> exists|k: int|
                    0 <= k < old(self).records().len() && #[trigger] superseded(
                        old(self),
                        final(self),
                        key@,
                        value@,
                        txn,
                        tm,
                        k,
                        r,
                    )
            },
            r is Err ==> final(self).same(old(self)),
    {
        proof {
            lemma_present::<K>(*self);
        }
        if key.len() > MAX_KEY_SIZE {
            return Err(IndexError::KeyTooLarge { size: key.len(), max: MAX_KEY_SIZE });
        }
        if value.len() > MAX_VALUE_SIZE {
            return Err(IndexError::ValueTooLarge { size: value.len(), max: MAX_VALUE_SIZE });
        }
        let ghost t = self.tree();
        let (leaf_pid, _) = self.descend(key);
        let landing = self.move_right(leaf_pid, key);
        let pid: u64 = landing.page_id;
        match self.find_visible_chain(landing, key, txn, tm) {
            None => Err(IndexError::KeyNotFound),
            Some((l, slot)) => {
                let ghost i = lemma_page::<K>(t, 0, l@.page_id);
                let ghost k = place(t, i, slot as int);
                proof {
                    lemma_place::<K>(t, i, slot as int);
                    assert(l@.entries[slot as int] == l.entries@[slot as int]@);
                }
                if let Err(e) = check_write_conflict(l.entries[slot].xmax, txn, tm) {
                    let e = decide_by_age(txn.txn_id, e);
                    assert(superseded(
                        old(self),
                        self,
                        key@,
                        value@,
                        txn,
                        tm,
                        k,
                        Err::<(), IndexError>(e),
                    ));
                    return Err(e);
                }
                proof {
                    let ip = lemma_page::<K>(t, 0, pid);
                    assert(covers::<K>(t, pid, key@)) by {
                        K::le_laws();
                    }
                }
                let (_, stack) = self.descend_finishing(key);
                let ghost t1 = self.tree();
                let ghost past1 = self.past@;
                let ghost log1 = self.store.log();
                proof {
                    lemma_on(
                        old(self).past@,
                        old(self).past@,
                        old(self).store.log(),
                        past1,
                        log1,
                        0,
                        tm.settled(),
                        txn.txn_id,
                    );
                    assert(t.levels[0].contains(pid) && t.levels[0].contains(l@.page_id));
                    assert(t1.levels[0] == t.levels[0]);
                    assert(restamped(t.nodes[l@.page_id], t1.nodes[l@.page_id]));
                    assert(restamped(t.nodes[pid], t1.nodes[pid]));
                    assert(covers::<K>(t1, pid, key@));
                    lemma_work_covers_split(
                        self.levels@.len(),
                        flags(self.tree().nodes).len(),
                        192,
                        stack@.len(),
                    );
                }
                let at = self.stamp_xmax(l.page_id, slot, txn.txn_id);
                let ghost s0 = *self;
                proof {
                    lemma_on(
                        old(self).past@,
                        past1,
                        log1,
                        self.past@,
                        self.store.log(),
                        txn.txn_id,
                        tm.settled(),
                        txn.txn_id,
                    );
                    lemma_stack_moved(t1, self.tree(), stack@);
                    if pid != l@.page_id {
                        assert(self.tree().nodes.contains_key(pid));
                    }
                    assert(covers::<K>(self.tree(), pid, key@));
                }
                self.put_version(pid, key, value, txn.txn_id, &stack, tm);
                proof {
                    lemma_on(
                        old(self).past@,
                        s0.past@,
                        s0.store.log(),
                        self.past@,
                        self.store.log(),
                        txn.txn_id,
                        tm.settled(),
                        txn.txn_id,
                    );
                    let recs = old(self).records();
                    let (base, q, v) = choose|base: Seq<RecordView>, q: int, v: RecordView|
                        #[trigger]
                        entered(&s0, self, tm.settled(), s0.records(), base, q, v) && stored_as(
                            self,
                            v,
                            key@,
                            value@,
                            txn.txn_id,
                        );
                    assert(entered(
                        old(self),
                        self,
                        tm.settled(),
                        recs.update(at@, with_xmax(recs[at@], txn.txn_id)),
                        base,
                        q,
                        v,
                    ));
                    assert(superseded(
                        old(self),
                        self,
                        key@,
                        value@,
                        txn,
                        tm,
                        at@,
                        Ok::<(), IndexError>(()),
                    ));
                    lemma_work_grows(
                        old(self).levels@.len(),
                        flags(old(self).tree().nodes).len(),
                        self.levels@.len(),
                        flags(self.tree().nodes).len(),
                    );
                }
                Ok(())
            },
        }
    }
}

/// What an update does with the visible version at index `k`: it gives way to
/// the new one, or the update fails because somebody else deleted it.
pub open spec fn superseded<K: Key>(
    before: &BTreeIndex<K>,
    after: &BTreeIndex<K>,
    key: Seq<u8>,
    value: Seq<u8>,
    txn: &Transaction,
    tm: &TransactionManager,
    k: int,
    r: Result<(), IndexError>,
) -> bool {
    let recs = before.records();
    &&& visible::<K>(txn, tm.aborts(), key, recs[k])
    &&& r is Ok <==> write_conflict(txn, tm, recs[k].xmax) is None
    &&& r matches Err(e) ==> (write_conflict(txn, tm, recs[k].xmax) matches Some(x) && e == by_age(
        txn.txn_id,
        x,
    ))
    &&& r is Ok ==> exists|base: Seq<RecordView>, q: int, v: RecordView| #[trigger]
        entered(
            before,
            after,
            tm.settled(),
            recs.update(k, with_xmax(recs[k], txn.txn_id)),
            base,
            q,
            v,
        ) && stored_as(after, v, key, value, txn.txn_id)
}

/// Whether `v` is the version that a transaction stores a value under a key as.
pub open spec fn stored_as<K: Key>(
    index: &BTreeIndex<K>,
    v: RecordView,
    key: Seq<u8>,
    value: Seq<u8>,
    txn_id: u64,
) -> bool {
    &&& v.key == key
    &&& v.xmin == txn_id
    &&& v.xmax == 0
    &&& v.rec_type == (if value.len() <= OVERFLOW_THRESHOLD {
        REC_TYPE_INLINE
    } else {
        REC_TYPE_OVERFLOW
    })
    &&& index.content(v) == value
}

proof fn lemma_split_work_monotone(m: nat, n: nat, depth: nat)
    requires
        m <= n,
    ensures
        split_work(m, depth) <= split_work(n, depth),
{
    let c = (3 * (depth + n) + 256) as int;
    let d = (3 * (depth + m) + 256) as int;
    assert((m + 1) * d <= (n + 1) * c) by (nonlinear_arith)
        requires
            m <= n,
            0 <= d <= c,
    ;
}

/// A tree with fewer incomplete splits needs no more, even if each has put a root on
/// top.
pub proof fn lemma_work_shrinks(l: nat, f: nat, l2: nat, f2: nat)
    requires
        f2 <= f,
        l2 + f2 <= l + f,
    ensures
        work(l2, f2) <= work(l, f),
{
    let c = (3 * (l + f) + 900) as int;
    let d = (3 * (l2 + f2) + 900) as int;
    assert((f2 + 200) * d <= (f + 200) * c) by (nonlinear_arith)
        requires
            f2 <= f,
            0 <= d <= c,
    ;
}

/// How much more the next insertion may take.
proof fn lemma_work_grows(l: nat, f: nat, l2: nat, f2: nat)
    requires
        f2 <= f,
        l2 + f2 <= l + f + 192,
    ensures
        work(l2, f2) <= work(l, f) + 576 * (f + 200),
{
    let c = (3 * (l + f) + 900) as int;
    let d = (3 * (l2 + f2) + 900) as int;
    assert((f2 + 200) * d <= (f + 200) * (c + 576)) by (nonlinear_arith)
        requires
            f2 <= f,
            0 <= d <= c + 576,
    ;
    assert((f + 200) * (c + 576) == (f + 200) * c + 576 * (f + 200)) by (nonlinear_arith);
}

pub proof fn lemma_work_large(l: nat, f: nat)
    ensures
        work(l, f) >= 3 * l + 900,
{
    let c = (3 * (l + f) + 900) as int;
    assert((f + 200) * c >= c) by (nonlinear_arith)
        requires
            c >= 0,
            f >= 0,
    ;
}

proof fn lemma_split_work_large(n: nat, depth: nat)
    ensures
        split_work(n, depth) >= 3 * depth + 256,
{
    let c = (3 * (depth + n) + 256) as int;
    assert((n + 1) * c >= c) by (nonlinear_arith)
        requires
            n >= 0,
            c >= 0,
    ;
}

/// Changes to leaves leave the ancestors where they are.
proof fn lemma_stack_moved(t: Tree, t2: Tree, stack: Seq<u64>)
    requires
        stack_at(t, stack, 0),
        t2.levels.len() == t.levels.len(),
        forall|h: int| 1 <= h < t.levels.len() ==> #[trigger] t2.levels[h] == t.levels[h],
    ensures
        stack_at(t2, stack, 0),
{
    assert forall|k: int| 0 <= k < stack.len() implies #[trigger] ancestor(t2, stack, 0, k) by {
        assert(ancestor(t, stack, 0, k));
        assert(t2.levels[0 + stack.len() - k] == t.levels[0 + stack.len() - k]);
    }
}

/// Downlinks leave the ancestors where they are.
proof fn lemma_stack_kept(t: Tree, t2: Tree, stack: Seq<u64>)
    requires
        kept_below(t, t2, 0),
        stack_at(t, stack, 0),
    ensures
        stack_at(t2, stack, 0),
{
    assert forall|k: int| 0 <= k < stack.len() implies #[trigger] ancestor(t2, stack, 0, k) by {
        assert(ancestor(t, stack, 0, k));
        assert(t.levels[0 + stack.len() - k].contains(stack[k]));
    }
}

} // verus!
