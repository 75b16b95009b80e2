//! Structure modifications: splits of leaves and internal pages, downlinks, and
//! the completion of splits that were left incomplete.

use vstd::prelude::*;

use crate::change::{change_views, with_lsn, without_flag, Change, ChangeView, PageChange};
use crate::chronicle::{calm, lemma_calm_trans, lemma_present};
use crate::constants::{MAX_KEY_SIZE, OVERFLOW_THRESHOLD, PAGE_SIZE};
use crate::downlinks::{
    downs, kids_of, laced, lemma_down_at, lemma_down_from, lemma_downs_frame, lemma_laced_clear,
    lemma_roster_entered, lemma_roster_frame, lemma_roster_one, links_of, listing, roster,
    lemma_laced_grow, lemma_laced_internal_split, lemma_laced_leaf_split, lemma_laced_link, tied,
};
use crate::index::{ancestor, lemma_page, stack_at, BTreeIndex, SYSTEM_TXN_ID};
use crate::index_edit::{flagged, flags};
use crate::index_write::{lemma_flags_few, lemma_flags_finite, lemma_levels_few};
use crate::key::{key_eq, Key, KeyOrder};
use crate::node::{
    copy_bytes, copy_children, copy_keys, copy_opt_key, copy_records, high_key_size, key_views,
    keys_sorted, lemma_records_size_add, lemma_separators_size_add, lemma_separators_size_insert,
    lemma_separators_size_one, records_size, records_sorted, separators_size, InternalPage,
    InternalView, LeafPage, LeafView, Node, NodeView, RecordView, NODE_HEADER_SIZE,
    SEPARATOR_OVERHEAD,
};
use crate::store::{lemma_more_changes, lemma_one_change};
use crate::trace::carries_on;
use crate::tree_spec::{
    below, bound_le, child_ok, children_ok, grow, lemma_grow, lemma_internal_frame,
    lemma_put_internal, lemma_put_leaf, lemma_split, lemma_split_records, next_ok, put, records_ok,
    separator, split, Tree,
};
use crate::wal::WalRecordType;

verus! {

/// Whether the key changes at index `m` of a list of versions.
pub open spec fn key_changes<K: Key>(s: Seq<RecordView>, m: int) -> bool {
    0 < m < s.len() && !key_eq::<K>(s[m - 1].key, s[m].key)
}

/// Where a leaf is cut: where the key first changes behind the middle; if it does not
/// change there, where it last changes; and in the middle if all versions are of one
/// key.
pub open spec fn cut_at<K: Key>(s: Seq<RecordView>, mid: int) -> bool {
    let half = s.len() / 2;
    ||| {
        &&& half < mid
        &&& key_changes::<K>(s, mid)
        &&& forall|m: int| half < m < mid ==> !(#[trigger] key_changes::<K>(s, m))
    }
    ||| {
        &&& mid <= half
        &&& key_changes::<K>(s, mid)
        &&& forall|m: int| mid < m ==> !(#[trigger] key_changes::<K>(s, m))
    }
    ||| {
        &&& mid == half
        &&& forall|m: int| !(#[trigger] key_changes::<K>(s, m))
    }
}

impl LeafPage {
    /// Where to cut a full leaf: near the middle, where the key changes, so that the
    /// versions of a key stay together; in the middle if they are all of one key.
    pub fn split_point<K: Key>(&self) -> (mid: usize)
        requires
            records_sorted::<K>(self@.entries),
            self@.entries.len() >= 2,
        ensures
            1 <= mid < self@.entries.len(),
            cut_at::<K>(self@.entries, mid as int),
    {
        let n: usize = self.entries.len();
        let target: usize = n / 2;
        let ghost e = self@.entries;
        let ghost tk = e[target as int].key;
        proof {
            K::le_laws();
            assert(e[target as int].key == self.entries@[target as int].key@);
        }
        let target_key = copy_bytes(&self.entries[target].key);
        let mut split_at: usize = target;
        let mut go = true;
        while split_at < n && go
            invariant
                1 <= target <= split_at <= n,
                n == e.len(),
                e == self@.entries,
                tk == target_key@,
                tk == e[target as int].key,
                forall|i: int| target <= i < split_at ==> key_eq::<K>(#[trigger] e[i].key, tk),
                !go ==> target < split_at < n && !key_eq::<K>(e[split_at as int].key, tk),
            decreases n - split_at, (if go { 1int } else { 0int }),
        {
            proof {
                K::le_laws();
                assert(e[split_at as int].key == self.entries@[split_at as int].key@);
            }
            match K::compare(self.entries[split_at].key.as_slice(), target_key.as_slice()) {
                KeyOrder::Equal => {
                    split_at = split_at + 1;
                },
                _ => {
                    go = false;
                },
            }
        }
        if split_at < n {
            proof {
                K::le_laws();
                assert(key_eq::<K>(e[split_at - 1].key, tk));
                if key_eq::<K>(e[split_at - 1].key, e[split_at as int].key) {
                    assert(key_eq::<K>(e[split_at as int].key, tk));
                }
                assert forall|m: int| target < m < split_at implies !(#[trigger] key_changes::<K>(
                    e,
                    m,
                )) by {
                    assert(key_eq::<K>(e[m - 1].key, tk) && key_eq::<K>(e[m].key, tk));
                }
                assert(key_changes::<K>(e, split_at as int));
            }
            return split_at;
        }
        split_at = target;
        let mut back = true;
        while split_at > 0 && back
            invariant
                split_at <= target < n,
                n == e.len(),
                e == self@.entries,
                tk == target_key@,
                tk == e[target as int].key,
                forall|i: int| split_at <= i < n ==> key_eq::<K>(#[trigger] e[i].key, tk),
                !back ==> split_at > 0 && !key_eq::<K>(e[split_at - 1].key, tk),
            decreases split_at, (if back { 1int } else { 0int }),
        {
            proof {
                K::le_laws();
                assert(e[split_at - 1].key == self.entries@[split_at - 1].key@);
            }
            match K::compare(self.entries[split_at - 1].key.as_slice(), target_key.as_slice()) {
                KeyOrder::Equal => {
                    split_at = split_at - 1;
                },
                _ => {
                    back = false;
                },
            }
        }
        proof {
            K::le_laws();
            assert forall|m: int| split_at < m implies !(#[trigger] key_changes::<K>(e, m)) by {
                if m < n {
                    assert(key_eq::<K>(e[m - 1].key, tk) && key_eq::<K>(e[m].key, tk));
                }
            }
            if split_at > 0 {
                assert(key_eq::<K>(e[split_at as int].key, tk));
                if key_eq::<K>(e[split_at - 1].key, e[split_at as int].key) {
                    assert(key_eq::<K>(e[split_at - 1].key, tk));
                }
                assert(key_changes::<K>(e, split_at as int));
            }
        }
        if split_at == 0 {
            target
        } else {
            split_at
        }
    }
}

/// The index of a page in its level.
pub open spec fn spot(t: Tree, h: int, pid: u64) -> int {
    t.levels[h].index_of(pid)
}

pub proof fn lemma_spot<K: Key>(t: Tree, h: int, i: int)
    requires
        t.wf::<K>(),
        t.valid(h, i),
    ensures
        spot(t, h, t.page(h, i)) == i,
{
    let c = t.levels[h];
    assert(c[i] == t.page(h, i));
    let k = c.index_of(t.page(h, i));
    assert(0 <= k < c.len() && c[k] == c[i]);
    assert(t.valid(h, k));
    assert(t.page(h, k) == t.page(h, i));
}

/// What a leaf split at record `mid` does to the tree: the page keeps the records
/// before, flagged as one whose split is incomplete; the new page, next to it, has
/// the others, and is flagged if the page was before; links, back-links and bounds
/// follow; nothing else changes.
pub open spec fn leaf_cut<K: Key>(
    t: Tree,
    t2: Tree,
    pid: u64,
    new: u64,
    mid: int,
    sep: Seq<u8>,
) -> bool {
    let l = t.nodes[pid]->Leaf_0;
    let a = t2.nodes[pid]->Leaf_0;
    let b = t2.nodes[new]->Leaf_0;
    &&& 1 <= mid < l.entries.len()
    &&& sep == l.entries[mid].key
    &&& cut_at::<K>(l.entries, mid)
    &&& !t.nodes.contains_key(new)
    &&& t2.nodes[pid] == NodeView::Leaf(
        LeafView {
            incomplete_split: true,
            half_dead: false,
            rightlink: Some(new),
            high_key: Some(sep),
            entries: l.entries.subrange(0, mid),
            lsn: a.lsn,
            ..l
        },
    )
    &&& t2.nodes[new] == NodeView::Leaf(
        LeafView {
            page_id: new,
            half_dead: false,
            prev_page: Some(pid),
            entries: l.entries.subrange(mid, l.entries.len() as int),
            lsn: b.lsn,
            ..l
        },
    )
    &&& l.rightlink matches Some(r) ==> r != pid && r != new && t2.nodes[r] == NodeView::Leaf(
        LeafView {
            prev_page: Some(new),
            lsn: t2.nodes[r]->Leaf_0.lsn,
            ..t.nodes[r]->Leaf_0
        },
    )
    &&& forall|p: u64|
        p != pid && p != new && l.rightlink != Some(p) ==> (#[trigger] t2.nodes.contains_key(p))
            == t.nodes.contains_key(p) && t2.nodes[p] == t.nodes[p]
    &&& t2.levels == t.levels.update(0, t.levels[0].insert(spot(t, 0, pid) + 1, new))
    &&& t2.lows == t.lows.insert(new, Some(sep))
    &&& t2.root == t.root
}

/// The halves of a leaf fit their pages.
proof fn lemma_halves_fit(l: LeafView, mid: int)
    requires
        l.wf(),
        1 <= mid < l.entries.len(),
    ensures
        NODE_HEADER_SIZE + l.entries[mid].key.len() + records_size(l.entries.subrange(0, mid))
            <= PAGE_SIZE,
        NODE_HEADER_SIZE + high_key_size(l.high_key) + records_size(
            l.entries.subrange(mid, l.entries.len() as int),
        ) <= PAGE_SIZE,
{
    let e = l.entries;
    let n = e.len() as int;
    let a = e.subrange(0, mid);
    let x = e.subrange(mid, mid + 1);
    let b = e.subrange(mid + 1, n);
    assert(e =~= a + e.subrange(mid, n));
    assert(e.subrange(mid, n) =~= x + b);
    lemma_records_size_add(a, e.subrange(mid, n));
    lemma_records_size_add(x, b);
    assert(x.drop_last() =~= Seq::<RecordView>::empty());
    assert(records_size(Seq::<RecordView>::empty()) == 0);
    assert(x.last() == e[mid]);
}

/// The halves of a leaf are in order and between their bounds.
proof fn lemma_halves_ok<K: Key>(
    low: Option<Seq<u8>>,
    l: LeafView,
    mid: int,
    a: LeafView,
    b: LeafView,
)
    requires
        records_ok::<K>(low, l),
        1 <= mid < l.entries.len(),
        a.entries == l.entries.subrange(0, mid),
        a.high_key == Some(l.entries[mid].key),
        b.entries == l.entries.subrange(mid, l.entries.len() as int),
        b.high_key == l.high_key,
    ensures
        records_ok::<K>(low, a),
        records_ok::<K>(Some(l.entries[mid].key), b),
{
    reveal(records_ok);
    K::le_laws();
    let e = l.entries;
    assert forall|s: int| 0 <= s < a.entries.len() implies bound_le::<K>(
        low,
        Some((#[trigger] a.entries[s]).key),
    ) && below::<K>(a.entries[s].key, a.high_key) by {
        assert(a.entries[s] == e[s]);
        assert(K::le(e[s].key, e[mid].key));
    }
    assert forall|s: int| 0 <= s < b.entries.len() implies bound_le::<K>(
        Some(e[mid].key),
        Some((#[trigger] b.entries[s]).key),
    ) && below::<K>(b.entries[s].key, b.high_key) by {
        assert(b.entries[s] == e[mid + s]);
        assert(K::le(e[mid].key, e[mid + s].key));
    }
    assert forall|i: int, j: int| 0 <= i <= j < a.entries.len() implies K::le(
        #[trigger] a.entries[i].key,
        #[trigger] a.entries[j].key,
    ) by {
        assert(K::le(e[i].key, e[j].key));
    }
    assert forall|i: int, j: int| 0 <= i <= j < b.entries.len() implies K::le(
        #[trigger] b.entries[i].key,
        #[trigger] b.entries[j].key,
    ) by {
        assert(K::le(e[mid + i].key, e[mid + j].key));
    }
    assert(bound_le::<K>(low, Some(e[mid].key)));
    assert(below::<K>(e[mid].key, l.high_key));
}

impl<K: Key> BTreeIndex<K> {
    /// Splits a full leaf. Its left half keeps the page and is flagged until
    /// the right half, on a fresh page, has a downlink.
    #[verifier::rlimit(50)]
    #[verifier::spinoff_prover]
    pub(crate) fn split_leaf_ly(&mut self, pid: u64) -> (r: (Vec<u8>, u64))
        requires
            old(self).wf(),
            old(self).levels@[0].contains(pid),
            old(self).tree().nodes[pid]->Leaf_0.entries.len() >= 2,
            old(self).store.budget() >= 2,
        ensures
            final(self).wf(),
            carries_on(old(self).store.log(), final(self).store.log(), 0),
            calm(old(self).past@, final(self).past@),
            final(self).records() == old(self).records(),
            final(self).store.pages().chunks == old(self).store.pages().chunks,
            final(self).chains@ == old(self).chains@,
            final(self).pending_recycle@ == old(self).pending_recycle@,
            final(self).store.budget() >= old(self).store.budget() - 2,
            exists|mid: int| #[trigger]
                leaf_cut::<K>(old(self).tree(), final(self).tree(), pid, r.1, mid, r.0@),
            flags(final(self).tree().nodes) == flags(old(self).tree().nodes).insert(
                if flagged(old(self).tree().nodes[pid]) {
                    r.1
                } else {
                    pid
                },
            ),
            final(self).incomplete <= old(self).incomplete + 1,
            forall|g: int, p: u64|
                0 <= g ==> #[trigger] downs(final(self).tree(), g, p) == downs(
                    old(self).tree(),
                    g,
                    p,
                ),
            downs(final(self).tree(), 0, r.1) == 0,
            r.0@.len() <= MAX_KEY_SIZE,
            !old(self).store.used().contains(r.1),
    {
        let ghost t = self.tree();
        let ghost i = lemma_page::<K>(t, 0, pid);
        let ghost p0 = self.store.pages();
        let l = self.load_leaf(pid);
        let ghost l0 = l@;
        let n: usize = l.entries.len();
        let mid: usize = l.split_point::<K>();
        assert(l0.entries[mid as int].key == l.entries@[mid as int].key@);
        let sep = copy_bytes(&l.entries[mid].key);
        proof {
            self.store.lemma_wf();
        }
        let new: u64 = self.store.allocate();
        let right = LeafPage {
            page_id: new,
            lsn: 0,
            incomplete_split: l.incomplete_split,
            half_dead: false,
            rightlink: l.rightlink,
            prev_page: Some(pid),
            high_key: copy_opt_key(&l.high_key),
            entries: copy_records(&l.entries, mid, n),
        };
        let left = LeafPage {
            page_id: pid,
            lsn: 0,
            incomplete_split: true,
            half_dead: false,
            rightlink: Some(new),
            prev_page: l.prev_page,
            high_key: Some(copy_bytes(&sep)),
            entries: copy_records(&l.entries, 0, mid),
        };
        let ghost lv = left@;
        let ghost rv = right@;
        proof {
            lemma_halves_fit(l0, mid as int);
            lemma_halves_ok::<K>(t.lows[pid], l0, mid as int, lv, rv);
            assert(lv.wf()) by {
                assert forall|k: int| 0 <= k < lv.entries.len() implies (
                #[trigger] lv.entries[k]).key.len() <= MAX_KEY_SIZE && lv.entries[k].value.len()
                    <= OVERFLOW_THRESHOLD by {
                    assert(lv.entries[k] == l0.entries[k]);
                }
                assert(l0.entries[mid as int].key.len() <= MAX_KEY_SIZE);
            }
            assert(rv.wf()) by {
                assert forall|k: int| 0 <= k < rv.entries.len() implies (
                #[trigger] rv.entries[k]).key.len() <= MAX_KEY_SIZE && rv.entries[k].value.len()
                    <= OVERFLOW_THRESHOLD by {
                    assert(rv.entries[k] == l0.entries[mid + k]);
                }
            }
        }
        let mut cs: Vec<PageChange> = Vec::new();
        cs.push(PageChange { page_id: pid, change: Change::Image(Node::Leaf(left)) });
        cs.push(PageChange { page_id: new, change: Change::Image(Node::Leaf(right)) });
        let ghost c1 = ChangeView::Image(NodeView::Leaf(lv));
        let ghost c2 = ChangeView::Image(NodeView::Leaf(rv));
        let ghost s1 = seq![(pid, c1)];
        let ghost s2 = s1.push((new, c2));
        let ghost lsn0 = self.store.next_lsn();
        let ghost used = self.store.used();
        let ghost mut next: Option<LeafView> = None;
        let ghost mut s3 = s2;
        proof {
            self.store.lemma_wf();
            lemma_one_change(p0, used, pid, c1, lsn0);
            lemma_more_changes(p0, used, s1, new, c2, lsn0);
            assert(change_views(cs@) =~= s2);
            assert(t.linked(0, i));
            assert(!p0.nodes.contains_key(new));
            assert(!p0.chunks.contains_key(new));
        }
        if let Some(old_right) = l.rightlink {
            proof {
                assert(t.valid(0, i + 1));
                assert(t.page_ok::<K>(0, i + 1));
                assert(t.levels[0][i + 1] == old_right);
                assert(t.page(0, i + 1) != t.page(0, i));
            }
            let mut g = self.load_leaf(old_right);
            g.prev_page = Some(new);
            let ghost gv = g@;
            proof {
                let c3 = ChangeView::Image(NodeView::Leaf(gv));
                s3 = s2.push((old_right, c3));
                next = Some(LeafView { lsn: lsn0, ..gv });
                assert(gv.entries == t.leaf(i + 1).entries);
                assert(gv.wf());
                lemma_more_changes(p0, used, s2, old_right, c3, lsn0);
            }
            cs.push(PageChange { page_id: old_right, change: Change::Image(Node::Leaf(g)) });
            assert(change_views(cs@) =~= s3);
        }
        let ghost s0 = self.store;
        let ghost ix0 = *self;
        let lsn: u64 = self.store.write(WalRecordType::LeafSplit, SYSTEM_TXN_ID, &cs);
        self.incomplete = one_more(self.incomplete);
        proof {
            let lv2 = NodeView::Leaf(LeafView { lsn, ..lv });
            let rv2 = NodeView::Leaf(LeafView { lsn, ..rv });
            let t2 = split(t, 0, i, lv2, rv2, next, sep@);
            self.levels@ = t2.levels;
            self.lows@ = t2.lows;
            assert(self.store.pages().nodes =~= t2.nodes);
            assert(self.store.pages().chunks =~= p0.chunks);
            assert(self.tree() == t2);
            assert(next_ok(t, 0, i, new, next));
            lemma_halves_ok::<K>(t.lows[pid], l0, mid as int, lv2->Leaf_0, rv2->Leaf_0);
            assert(t2.lows[pid] == t.lows[pid]);
            assert(t2.leaf_ok::<K>(lv2->Leaf_0));
            assert(t2.leaf_ok::<K>(rv2->Leaf_0));
            lemma_split::<K>(t, 0, i, lv2, rv2, next, sep@);
            assert(lv.entries + rv.entries =~= l0.entries);
            lemma_split_records::<K>(t, 0, i, lv2, rv2, next, sep@);
            lemma_leaf_split_ties::<K>(t, i, lv2, rv2, next, sep@);
            let was = self.past@;
            self.past@ = was.push(self.rows());
            self.lemma_logged(s0, was);
            lemma_present::<K>(ix0);
            lemma_spot::<K>(t, 0, i);
            if let Some(nx) = next {
                assert(nx.page_id != pid && nx.page_id != new);
            }
            assert(leaf_cut::<K>(old(self).tree(), self.tree(), pid, new, mid as int, sep@));
            lemma_flags_finite(t.nodes);
            lemma_flags_few(self.store);
        }
        let r = (sep, new);
        assert(leaf_cut::<K>(old(self).tree(), self.tree(), pid, r.1, mid as int, r.0@));
        r
    }
}

/// The ties between the levels, and the flags, after a leaf split.
proof fn lemma_leaf_split_ties<K: Key>(
    t: Tree,
    i: int,
    left: NodeView,
    right: NodeView,
    next: Option<LeafView>,
    sep: Seq<u8>,
)
    requires
        t.wf::<K>(),
        laced(t),
        t.valid(0, i),
        left is Leaf,
        right is Leaf,
        left.page_id() == t.page(0, i),
        !t.nodes.contains_key(right.page_id()),
        next_ok(t, 0, i, right.page_id(), next),
        flagged(left),
        flagged(right) == flagged(t.nodes[t.page(0, i)]),
    ensures
        ({
            let t2 = split(t, 0, i, left, right, next, sep);
            let pid = left.page_id();
            let new = right.page_id();
            &&& laced(t2)
            &&& forall|g: int, p: u64| 0 <= g ==> #[trigger] downs(t2, g, p) == downs(t, g, p)
            &&& downs(t2, 0, new) == 0
            &&& flags(t2.nodes) == flags(t.nodes).insert(
                if flagged(t.nodes[pid]) {
                    new
                } else {
                    pid
                },
            )
        }),
{
    let t2 = split(t, 0, i, left, right, next, sep);
    let pid = left.page_id();
    let new = right.page_id();
    assert(t.page_ok::<K>(0, i));
    if next is Some {
        assert(t.valid(0, i + 1));
        assert(t.page_ok::<K>(0, i + 1));
        assert(next->0.page_id == t.page(0, i + 1));
        assert(t.page(0, i + 1) != t.page(0, i));
    }
    assert forall|g: int, j: int| t.valid(g, j) implies {
        let p = #[trigger] t.page(g, j);
        &&& kids_of(t2.nodes[p]) == kids_of(t.nodes[p])
        &&& flagged(t.nodes[p]) ==> flagged(t2.nodes[p])
    } by {
        assert(t.page_ok::<K>(g, j));
    }
    lemma_laced_leaf_split::<K>(t, t2, i, new);
    assert(flags(t2.nodes) =~= flags(t.nodes).insert(
        if flagged(t.nodes[pid]) {
            new
        } else {
            pid
        },
    ));
}

/// Two contents of a page that differ in stamp and split flag at most.
pub open spec fn restamped(n: NodeView, m: NodeView) -> bool {
    match (n, m) {
        (NodeView::Leaf(a), NodeView::Leaf(b)) => b == (LeafView {
            lsn: b.lsn,
            incomplete_split: b.incomplete_split,
            ..a
        }),
        (NodeView::Internal(a), NodeView::Internal(b)) => b == (InternalView {
            lsn: b.lsn,
            incomplete_split: b.incomplete_split,
            ..a
        }),
        _ => false,
    }
}

/// Stamps and flags matter neither to the shape of the tree nor to its records.
pub proof fn lemma_restamp<K: Key>(t: Tree, h: int, pid: u64, m: NodeView)
    requires
        t.wf::<K>(),
        0 <= h < t.levels.len(),
        t.levels[h].contains(pid),
        restamped(t.nodes[pid], m),
    ensures
        put(t, m).wf::<K>(),
        put(t, m).records() == t.records(),
        m.page_id() == pid,
        m.wf(),
{
    let i = lemma_page::<K>(t, h, pid);
    match m {
        NodeView::Leaf(b) => {
            reveal(records_ok);
            assert(t.leaf_ok::<K>(t.leaf(i)));
            assert(t.leaf_ok::<K>(b));
            lemma_put_leaf::<K>(t, i, b);
        },
        NodeView::Internal(b) => {
            reveal(children_ok);
            let a = t.nodes[pid]->Internal_0;
            assert(t.internal_ok::<K>(h, a));
            assert forall|j: int| 0 <= j < b.children.len() implies {
                let _ = #[trigger] b.children[j];
                child_ok::<K>(t.levels[h - 1], t.lows, b, j)
            } by {
                let _ = a.children[j];
                assert(child_ok::<K>(t.levels[h - 1], t.lows, a, j));
            }
            assert(t.internal_ok::<K>(h, b));
            lemma_put_internal::<K>(t, h, i, b);
        },
    }
}

/// An internal page with one more separator and child.
pub open spec fn widened(v: InternalView, idx: int, sep: Seq<u8>, right: u64) -> InternalView {
    InternalView {
        keys: v.keys.insert(idx, sep),
        children: v.children.insert(idx + 1, right),
        ..v
    }
}

/// A separator that enters in order, with a child that starts no higher, keeps
/// all children in place.
proof fn lemma_widened_ok<K: Key>(
    lower: Seq<u64>,
    lows: Map<u64, Option<Seq<u8>>>,
    v: InternalView,
    idx: int,
    sep: Seq<u8>,
    right: u64,
)
    requires
        children_ok::<K>(lower, lows, v),
        v.children.len() == v.keys.len() + 1,
        0 <= idx <= v.keys.len(),
        forall|i: int| 0 <= i < idx ==> K::le(#[trigger] v.keys[i], sep),
        forall|i: int| idx <= i < v.keys.len() ==> !K::le(#[trigger] v.keys[i], sep),
        lower.contains(right),
        bound_le::<K>(lows[right], Some(sep)),
    ensures
        children_ok::<K>(lower, lows, widened(v, idx, sep, right)),
{
    reveal(children_ok);
    K::le_laws();
    let w = widened(v, idx, sep, right);
    assert forall|i: int, j: int| 0 <= i <= j < w.keys.len() implies K::le(
        #[trigger] w.keys[i],
        #[trigger] w.keys[j],
    ) by {
        if i < idx {
            assert(w.keys[i] == v.keys[i]);
            assert(K::le(v.keys[i], sep));
        } else if i > idx {
            assert(w.keys[i] == v.keys[i - 1]);
        }
        if j < idx {
            assert(w.keys[j] == v.keys[j]);
        } else if j > idx {
            assert(w.keys[j] == v.keys[j - 1]);
            assert(K::le(sep, v.keys[j - 1]));
        }
    }
    assert forall|j: int| 0 <= j < w.children.len() implies {
        let _ = #[trigger] w.children[j];
        child_ok::<K>(lower, lows, w, j)
    } by {
        if j <= idx {
            let _ = v.children[j];
            assert(child_ok::<K>(lower, lows, v, j));
            assert(w.children[j] == v.children[j]);
            if j > 0 {
                assert(w.keys[j - 1] == v.keys[j - 1]);
            }
        } else if j == idx + 1 {
            assert(w.children[j] == right);
            assert(w.keys[j - 1] == sep);
        } else {
            let _ = v.children[j - 1];
            assert(child_ok::<K>(lower, lows, v, j - 1));
            assert(w.children[j] == v.children[j - 1]);
            assert(w.keys[j - 1] == v.keys[j - 2]);
        }
    }
}

/// The halves of an internal page have their children in place.
proof fn lemma_internal_halves_ok<K: Key>(
    lower: Seq<u64>,
    lows: Map<u64, Option<Seq<u8>>>,
    w: InternalView,
    mid: int,
    a: InternalView,
    b: InternalView,
)
    requires
        children_ok::<K>(lower, lows, w),
        w.children.len() == w.keys.len() + 1,
        0 <= mid < w.keys.len(),
        a.page_id == w.page_id,
        a.keys == w.keys.subrange(0, mid),
        a.children == w.children.subrange(0, mid + 1),
        b.keys == w.keys.subrange(mid + 1, w.keys.len() as int),
        b.children == w.children.subrange(mid + 1, w.children.len() as int),
        lows[b.page_id] == Some(w.keys[mid]),
    ensures
        children_ok::<K>(lower, lows, a),
        children_ok::<K>(lower, lows, b),
{
    reveal(children_ok);
    assert forall|i: int, j: int| 0 <= i <= j < a.keys.len() implies K::le(
        #[trigger] a.keys[i],
        #[trigger] a.keys[j],
    ) by {
        assert(K::le(w.keys[i], w.keys[j]));
    }
    assert forall|i: int, j: int| 0 <= i <= j < b.keys.len() implies K::le(
        #[trigger] b.keys[i],
        #[trigger] b.keys[j],
    ) by {
        assert(K::le(w.keys[mid + 1 + i], w.keys[mid + 1 + j]));
    }
    assert forall|j: int| 0 <= j < a.children.len() implies {
        let _ = #[trigger] a.children[j];
        child_ok::<K>(lower, lows, a, j)
    } by {
        let _ = w.children[j];
        assert(child_ok::<K>(lower, lows, w, j));
        if j > 0 {
            assert(a.keys[j - 1] == w.keys[j - 1]);
        }
    }
    assert forall|j: int| 0 <= j < b.children.len() implies {
        let _ = #[trigger] b.children[j];
        child_ok::<K>(lower, lows, b, j)
    } by {
        let _ = w.children[mid + 1 + j];
        assert(child_ok::<K>(lower, lows, w, mid + 1 + j));
        assert(b.children[j] == w.children[mid + 1 + j]);
        if j > 0 {
            assert(b.keys[j - 1] == w.keys[mid + j]);
        }
    }
}

/// Bytes that the separators before index `m` take.
pub open spec fn before(keys: Seq<Seq<u8>>, m: int) -> nat {
    separators_size(keys.subrange(0, m))
}

proof fn lemma_before_step(keys: Seq<Seq<u8>>, m: int)
    requires
        0 <= m < keys.len(),
    ensures
        before(keys, m + 1) == before(keys, m) + SEPARATOR_OVERHEAD + keys[m].len(),
        before(keys, m + 1) + separators_size(keys.subrange(m + 1, keys.len() as int))
            == separators_size(keys),
{
    let a = keys.subrange(0, m);
    let x = keys.subrange(0, m + 1);
    assert(x.drop_last() =~= a);
    assert(x.last() == keys[m]);
    assert(keys =~= x + keys.subrange(m + 1, keys.len() as int));
    lemma_separators_size_add(x, keys.subrange(m + 1, keys.len() as int));
}

/// Whether the two halves of separators cut at `m` fit their pages.
pub open spec fn cut_fits(keys: Seq<Seq<u8>>, high: nat, m: int) -> bool {
    &&& 0 <= m < keys.len()
    &&& NODE_HEADER_SIZE + keys[m].len() + before(keys, m) <= PAGE_SIZE
    &&& NODE_HEADER_SIZE + high + separators_size(keys.subrange(m + 1, keys.len() as int))
        <= PAGE_SIZE
}

/// Bytes that the separators before index `m` take.
fn size_before(keys: &Vec<Vec<u8>>, m: usize) -> (n: usize)
    requires
        m <= keys@.len(),
        separators_size(key_views(keys@)) <= PAGE_SIZE + 522,
    ensures
        n == before(key_views(keys@), m as int),
{
    let ghost ks = key_views(keys@);
    let mut i: usize = 0;
    let mut n: usize = 0;
    assert(ks.subrange(0, 0) =~= Seq::<Seq<u8>>::empty());
    while i < m
        invariant
            i <= m <= keys@.len(),
            ks == key_views(keys@),
            n == before(ks, i as int),
            separators_size(ks) <= PAGE_SIZE + 522,
        decreases m - i,
    {
        proof {
            lemma_before_step(ks, i as int);
            assert(ks[i as int] == keys@[i as int]@);
        }
        n = n + SEPARATOR_OVERHEAD + keys[i].len();
        i = i + 1;
    }
    n
}

/// Whether separators are cut where an internal page is to be cut: in the middle, if
/// both halves fit then, and else where they do.
pub open spec fn halved(v: InternalView, keys: Seq<Seq<u8>>, mid: int) -> bool {
    let high = match v.high_key {
        Some(k) => k.len(),
        None => 0,
    };
    &&& cut_fits(keys, high, mid)
    &&& cut_fits(keys, high, keys.len() as int / 2) ==> mid == keys.len() / 2
}

/// Where to cut the separators of an internal page that has one too many: in
/// the middle, or where both halves fit if separators differ much in size.
fn internal_split_point(keys: &Vec<Vec<u8>>, high: usize) -> (mid: usize)
    requires
        high <= MAX_KEY_SIZE,
        keys@.len() >= 1,
        forall|i: int| 0 <= i < keys@.len() ==> (#[trigger] keys@[i])@.len() <= MAX_KEY_SIZE,
        NODE_HEADER_SIZE + high + separators_size(key_views(keys@)) > PAGE_SIZE,
        NODE_HEADER_SIZE + high + separators_size(key_views(keys@)) <= PAGE_SIZE + 522,
    ensures
        cut_fits(key_views(keys@), high as nat, mid as int),
        cut_fits(key_views(keys@), high as nat, keys@.len() as int / 2) ==> mid == keys@.len() / 2,
{
    let ghost ks = key_views(keys@);
    let n: usize = keys.len();
    let half: usize = n / 2;
    assert(ks.subrange(0, n as int) =~= ks);
    let total: usize = size_before(keys, n);
    let left: usize = size_before(keys, half);
    proof {
        lemma_before_step(ks, half as int);
        assert(ks[half as int] == keys@[half as int]@);
    }
    let key_len: usize = keys[half].len();
    if NODE_HEADER_SIZE + key_len + left <= PAGE_SIZE && NODE_HEADER_SIZE + high + (total - left
        - SEPARATOR_OVERHEAD - key_len) <= PAGE_SIZE {
        return half;
    }
    let mut m: usize = 0;
    let mut size: usize = 0;
    assert(ks.subrange(0, 0) =~= Seq::<Seq<u8>>::empty());
    loop
        invariant
            m <= n == keys@.len(),
            ks == key_views(keys@),
            high <= MAX_KEY_SIZE,
            forall|i: int| 0 <= i < keys@.len() ==> (#[trigger] keys@[i])@.len() <= MAX_KEY_SIZE,
            total == separators_size(ks),
            total == before(ks, n as int),
            NODE_HEADER_SIZE + high + total > PAGE_SIZE,
            NODE_HEADER_SIZE + high + total <= PAGE_SIZE + 522,
            size == before(ks, m as int),
            size <= PAGE_SIZE - NODE_HEADER_SIZE - MAX_KEY_SIZE,
            !cut_fits(ks, high as nat, n as int / 2),
        decreases n - m,
    {
        proof {
            lemma_before_step(ks, m as int);
            assert(ks[m as int] == keys@[m as int]@);
        }
        let next: usize = size + SEPARATOR_OVERHEAD + keys[m].len();
        if next > PAGE_SIZE - NODE_HEADER_SIZE - MAX_KEY_SIZE {
            return m;
        }
        size = next;
        m = m + 1;
    }
}

impl<K: Key> BTreeIndex<K> {
    /// Splits a full internal page while a separator and the child to its right
    /// enter it. Returns the separator that goes up and the new page.
    #[verifier::rlimit(60)]
    #[verifier::spinoff_prover]
    fn split_internal_ly(
        &mut self,
        Ghost(h): Ghost<int>,
        pid: u64,
        sep: &Vec<u8>,
        right_child: u64,
    ) -> (r: (Vec<u8>, u64))
        requires
            old(self).wf(),
            1 <= h < old(self).levels@.len(),
            old(self).levels@[h].contains(pid),
            old(self).levels@[h - 1].contains(right_child),
            bound_le::<K>(old(self).lows@[right_child], Some(sep@)),
            sep@.len() <= MAX_KEY_SIZE,
            old(self).tree().nodes[pid]->Internal_0.size() + SEPARATOR_OVERHEAD + sep@.len()
                > PAGE_SIZE,
            downs(old(self).tree(), h - 1, right_child) == 0,
            old(self).store.budget() >= 2,
        ensures
            final(self).wf(),
            carries_on(old(self).store.log(), final(self).store.log(), 0),
            calm(old(self).past@, final(self).past@),
            final(self).records() == old(self).records(),
            final(self).store.pages().chunks == old(self).store.pages().chunks,
            final(self).chains@ == old(self).chains@,
            final(self).pending_recycle@ == old(self).pending_recycle@,
            final(self).root == old(self).root,
            final(self).store.budget() >= old(self).store.budget() - 2,
            exists|x: int| #[trigger]
                internal_cut::<K>(
                    old(self).tree(),
                    final(self).tree(),
                    h,
                    pid,
                    r.1,
                    x,
                    sep@,
                    right_child,
                    r.0@,
                ),
            r.0@.len() <= MAX_KEY_SIZE,
            flags(final(self).tree().nodes) == flags(old(self).tree().nodes).insert(
                if flagged(old(self).tree().nodes[pid]) {
                    r.1
                } else {
                    pid
                },
            ),
            final(self).incomplete <= old(self).incomplete + 1,
            downs(final(self).tree(), h - 1, right_child) == 1,
            forall|p: u64|
                p != right_child ==> #[trigger] downs(final(self).tree(), h - 1, p) == downs(
                    old(self).tree(),
                    h - 1,
                    p,
                ),
            forall|g: int, p: u64|
                0 <= g && g != h - 1 ==> #[trigger] downs(final(self).tree(), g, p) == downs(
                    old(self).tree(),
                    g,
                    p,
                ),
            downs(final(self).tree(), h, r.1) == 0,
    {
        let ghost t = self.tree();
        let ghost i = lemma_page::<K>(t, h, pid);
        let ghost p0 = self.store.pages();
        let p = match self.store.load(pid) {
            Node::Internal(p) => p,
            Node::Leaf(_) => vstd::pervasive::unreached(),
        };
        let ghost v = p@;
        proof {
            K::le_laws();
            self.store.lemma_wf();
            assert(t.internal_ok::<K>(h, v));
            reveal(children_ok);
        }
        let (idx, _) = p.find_child::<K>(sep.as_slice());
        let mut keys = copy_keys(&p.keys, 0, p.keys.len());
        let mut children = copy_children(&p.children, 0, p.children.len());
        proof {
            assert(key_views(keys@) =~= v.keys);
            assert(children@ =~= v.children);
        }
        let right_slot: usize = children.len() - (keys.len() - idx);
        keys.insert(idx, copy_bytes(sep));
        children.insert(right_slot, right_child);
        let ghost w = widened(v, idx as int, sep@, right_child);
        let high: usize = match &p.high_key {
            Some(k) => k.len(),
            None => 0,
        };
        proof {
            assert(key_views(keys@) =~= w.keys);
            assert(children@ =~= w.children);
            lemma_widened_ok::<K>(t.levels[h - 1], t.lows, v, idx as int, sep@, right_child);
            lemma_separators_size_insert(v.keys, idx as int, sep@);
            assert forall|k: int| 0 <= k < keys@.len() implies (#[trigger] keys@[k])@.len()
                <= MAX_KEY_SIZE by {
                assert(keys@[k]@ == w.keys[k]);
                if k < idx {
                    assert(w.keys[k] == v.keys[k]);
                } else if k > idx {
                    assert(w.keys[k] == v.keys[k - 1]);
                }
            }
        }
        let total: usize = keys.len();
        let mid: usize = internal_split_point(&keys, high);
        assert(w.keys[mid as int] == keys@[mid as int]@);
        let push_up = copy_bytes(&keys[mid]);
        let new: u64 = self.store.allocate();
        let right = InternalPage {
            page_id: new,
            lsn: 0,
            incomplete_split: p.incomplete_split,
            rightlink: p.rightlink,
            high_key: copy_opt_key(&p.high_key),
            keys: copy_keys(&keys, mid + 1, total),
            children: copy_children(&children, mid + 1, children.len()),
        };
        let left = InternalPage {
            page_id: pid,
            lsn: 0,
            incomplete_split: true,
            rightlink: Some(new),
            high_key: Some(copy_bytes(&push_up)),
            keys: copy_keys(&keys, 0, mid),
            children: copy_children(&children, 0, mid + 1),
        };
        let ghost lv = left@;
        let ghost rv = right@;
        proof {
            assert(lv.wf()) by {
                assert forall|k: int| 0 <= k < lv.keys.len() implies (#[trigger] lv.keys[k]).len()
                    <= MAX_KEY_SIZE by {
                    assert(lv.keys[k] == keys@[k]@);
                }
            }
            assert(rv.wf()) by {
                assert forall|k: int| 0 <= k < rv.keys.len() implies (#[trigger] rv.keys[k]).len()
                    <= MAX_KEY_SIZE by {
                    assert(rv.keys[k] == keys@[mid + 1 + k]@);
                }
            }
        }
        let mut cs: Vec<PageChange> = Vec::new();
        cs.push(PageChange { page_id: pid, change: Change::Image(Node::Internal(left)) });
        cs.push(PageChange { page_id: new, change: Change::Image(Node::Internal(right)) });
        let ghost c1 = ChangeView::Image(NodeView::Internal(lv));
        let ghost c2 = ChangeView::Image(NodeView::Internal(rv));
        let ghost s1 = seq![(pid, c1)];
        let ghost s2 = s1.push((new, c2));
        proof {
            let lsn0 = self.store.next_lsn();
            let used = self.store.used();
            lemma_one_change(p0, used, pid, c1, lsn0);
            lemma_more_changes(p0, used, s1, new, c2, lsn0);
            assert(change_views(cs@) =~= s2);
            assert(!p0.nodes.contains_key(new));
            assert(!p0.chunks.contains_key(new));
        }
        let ghost s0 = self.store;
        let ghost ix0 = *self;
        let lsn: u64 = self.store.write(WalRecordType::InternalSPlit, SYSTEM_TXN_ID, &cs);
        self.incomplete = one_more(self.incomplete);
        proof {
            let lv2 = InternalView { lsn, ..lv };
            let rv2 = InternalView { lsn, ..rv };
            let ln = NodeView::Internal(lv2);
            let rn = NodeView::Internal(rv2);
            let t2 = split(t, h, i, ln, rn, None, push_up@);
            self.levels@ = t2.levels;
            self.lows@ = t2.lows;
            assert(self.store.pages().nodes =~= t2.nodes);
            assert(self.store.pages().chunks =~= p0.chunks);
            assert(self.tree() == t2);
            let lower = t.levels[h - 1];
            assert(t2.levels[h - 1] == lower);
            assert forall|c: u64| #[trigger] lower.contains(c) implies t2.lows[c] == t.lows[c] by {
                let k = lemma_page::<K>(t, h - 1, c);
                assert(c != new);
            }
            assert(t2.lows[pid] == t.lows[pid]);
            assert(w.page_id == pid);
            lemma_internal_frame::<K>(t, t2, h, w);
            lemma_internal_halves_ok::<K>(lower, t2.lows, w, mid as int, lv2, rv2);
            lemma_split::<K>(t, h, i, ln, rn, None, push_up@);
            lemma_split_records::<K>(t, h, i, ln, rn, None, push_up@);
            assert(lv.children + rv.children =~= w.children);
            assert(lv.keys.push(push_up@) + rv.keys =~= w.keys);
            lemma_internal_split_ties::<K>(
                t,
                h,
                i,
                lv2,
                rv2,
                push_up@,
                idx as int + 1,
                right_child,
            );
            let was = self.past@;
            self.past@ = was.push(self.rows());
            self.lemma_logged(s0, was);
            lemma_present::<K>(ix0);
            lemma_spot::<K>(t, h, i);
            assert(self.tree() == t2);
            let x = idx as int;
            assert(internal_cut::<K>(t, t2, h, pid, new, x, sep@, right_child, push_up@));
            lemma_flags_finite(t.nodes);
            lemma_flags_few(self.store);
        }
        let r = (push_up, new);
        assert(r.1 == new);
        assert(r.0@ == push_up@);
        r
    }
}

/// The ties between the levels, and the flags, after a split of an internal page.
proof fn lemma_internal_split_ties<K: Key>(
    t: Tree,
    h: int,
    i: int,
    left: InternalView,
    right: InternalView,
    sep: Seq<u8>,
    x: int,
    fresh: u64,
)
    requires
        t.wf::<K>(),
        laced(t),
        h >= 1,
        t.valid(h, i),
        left.page_id == t.page(h, i),
        !t.nodes.contains_key(right.page_id),
        left.incomplete_split,
        right.incomplete_split == flagged(t.nodes[t.page(h, i)]),
        0 <= x <= kids_of(t.nodes[t.page(h, i)]).len(),
        left.children + right.children == kids_of(t.nodes[t.page(h, i)]).insert(x, fresh),
        downs(t, h - 1, fresh) == 0,
    ensures
        ({
            let t2 = split(
                t,
                h,
                i,
                NodeView::Internal(left),
                NodeView::Internal(right),
                None,
                sep,
            );
            let pid = left.page_id;
            let new = right.page_id;
            &&& laced(t2)
            &&& downs(t2, h - 1, fresh) == 1
            &&& forall|p: u64|
                p != fresh ==> #[trigger] downs(t2, h - 1, p) == downs(t, h - 1, p)
            &&& forall|g: int, p: u64|
                0 <= g && g != h - 1 ==> #[trigger] downs(t2, g, p) == downs(t, g, p)
            &&& downs(t2, h, new) == 0
            &&& flags(t2.nodes) == flags(t.nodes).insert(
                if flagged(t.nodes[pid]) {
                    new
                } else {
                    pid
                },
            )
        }),
{
    let t2 = split(t, h, i, NodeView::Internal(left), NodeView::Internal(right), None, sep);
    let pid = left.page_id;
    let new = right.page_id;
    assert(t.page_ok::<K>(h, i));
    assert forall|g: int, j: int| t.valid(g, j) implies {
        let p = #[trigger] t.page(g, j);
        &&& p != t.page(h, i) ==> kids_of(t2.nodes[p]) == kids_of(t.nodes[p])
        &&& flagged(t.nodes[p]) ==> flagged(t2.nodes[p])
    } by {
        assert(t.page_ok::<K>(g, j));
    }
    lemma_laced_internal_split::<K>(t, t2, h, i, new, x, fresh);
    assert(flags(t2.nodes) =~= flags(t.nodes).insert(
        if flagged(t.nodes[pid]) {
            new
        } else {
            pid
        },
    ));
}

/// What a split of the internal page `pid` of level `h` does to the tree, while the
/// separator `sep` enters at index `x`, with `fresh` to its right: the separator
/// `up` goes up, the page keeps what lies left of it, flagged as one whose split is
/// incomplete; the new page, next to it, has what lies right of it, and is flagged
/// if the page was before; links and bounds follow; nothing else changes.
pub open spec fn internal_cut<K: Key>(
    t: Tree,
    t2: Tree,
    h: int,
    pid: u64,
    new: u64,
    x: int,
    sep: Seq<u8>,
    fresh: u64,
    up: Seq<u8>,
) -> bool {
    let v = t.nodes[pid]->Internal_0;
    let a = t2.nodes[pid]->Internal_0;
    let b = t2.nodes[new]->Internal_0;
    &&& 0 <= x <= v.keys.len()
    &&& forall|i: int| 0 <= i < x ==> K::le(#[trigger] v.keys[i], sep)
    &&& forall|i: int| x <= i < v.keys.len() ==> !K::le(#[trigger] v.keys[i], sep)
    &&& !t.nodes.contains_key(new)
    &&& a.keys.push(up) + b.keys == v.keys.insert(x, sep)
    &&& a.children + b.children == v.children.insert(x + 1, fresh)
    &&& a.children.len() == a.keys.len() + 1
    &&& halved(v, v.keys.insert(x, sep), a.keys.len() as int)
    &&& t2.nodes[pid] == NodeView::Internal(
        InternalView {
            incomplete_split: true,
            rightlink: Some(new),
            high_key: Some(up),
            keys: a.keys,
            children: a.children,
            lsn: a.lsn,
            ..v
        },
    )
    &&& t2.nodes[new] == NodeView::Internal(
        InternalView { page_id: new, keys: b.keys, children: b.children, lsn: b.lsn, ..v },
    )
    &&& forall|p: u64|
        p != pid && p != new ==> (#[trigger] t2.nodes.contains_key(p)) == t.nodes.contains_key(p)
            && t2.nodes[p] == t.nodes[p]
    &&& t2.levels == t.levels.update(h, t.levels[h].insert(spot(t, h, pid) + 1, new))
    &&& t2.lows == t.lows.insert(new, Some(up))
    &&& t2.root == t.root
}

/// What the tree keeps while downlinks enter above level `h`: the pages up to that
/// level, give or take stamps and flags, the bounds, and every page in its level.
pub open spec fn kept_below(t: Tree, t2: Tree, h: int) -> bool {
    &&& t2.levels.len() >= t.levels.len()
    &&& forall|g: int| 0 <= g <= h ==> #[trigger] t2.levels[g] == t.levels[g]
    &&& forall|g: int, p: u64|
        0 <= g < t.levels.len() && #[trigger] t.levels[g].contains(p) ==> t2.levels[g].contains(p)
    &&& forall|p: u64| #[trigger]
        t.nodes.contains_key(p) ==> t2.nodes.contains_key(p) && t2.lows[p] == t.lows[p]
    &&& forall|g: int, p: u64|
        0 <= g <= h && #[trigger] t.levels[g].contains(p) ==> restamped(t.nodes[p], t2.nodes[p])
}

/// One step after another.
pub proof fn lemma_kept_trans(t: Tree, t2: Tree, t3: Tree, h: int)
    requires
        kept_below(t, t2, h),
        kept_below(t2, t3, h),
    ensures
        kept_below(t, t3, h),
{
    assert forall|g: int| 0 <= g <= h implies #[trigger] t3.levels[g] == t.levels[g] by {
        assert(t2.levels[g] == t.levels[g]);
    }
    assert forall|g: int, p: u64|
        0 <= g < t.levels.len() && #[trigger] t.levels[g].contains(p) implies t3.levels[g].contains(
        p,
    ) by {
        assert(t2.levels[g].contains(p));
    }
    assert forall|p: u64| #[trigger] t.nodes.contains_key(p) implies t3.nodes.contains_key(p)
        && t3.lows[p] == t.lows[p] by {
        assert(t2.nodes.contains_key(p));
    }
    assert forall|g: int, p: u64|
        0 <= g <= h && #[trigger] t.levels[g].contains(p) implies restamped(
        t.nodes[p],
        t3.nodes[p],
    ) by {
        assert(t2.levels[g].contains(p));
    }
}

pub proof fn lemma_kept_weaker(t: Tree, t2: Tree, h: int, g: int)
    requires
        kept_below(t, t2, h),
        g <= h,
    ensures
        kept_below(t, t2, g),
{
}

/// Whether the downlink of `right`, a page of level `h`, has entered the level above
/// with the separator `sep` to its left: that level lists the same downlinks with the
/// same separators in the same order, and this one once more; or a new root lists the
/// old one and this.
pub open spec fn posted(t: Tree, t2: Tree, h: int, right: u64, sep: Seq<u8>) -> bool {
    &&& downs(t2, h, right) == 1
    &&& if h + 1 < t.levels.len() {
        exists|q: int|
            0 <= q <= listing(t, h).len() && listing(t2, h) == #[trigger] listing(t, h).insert(
                q,
                (Some(sep), right),
            )
    } else {
        listing(t2, h) == seq![(None, t.root), (Some(sep), right)]
    }
}

/// What happens further up does not matter to a downlink.
proof fn lemma_posted_kept<K: Key>(
    t: Tree,
    t1: Tree,
    t2: Tree,
    h: int,
    right: u64,
    sep: Seq<u8>,
)
    requires
        t1.wf::<K>(),
        0 <= h,
        h + 1 < t1.levels.len(),
        posted(t, t1, h, right, sep),
        kept_below(t1, t2, h + 1),
    ensures
        posted(t, t2, h, right, sep),
{
    assert(t2.levels[h + 1] == t1.levels[h + 1]);
    assert forall|i: int| t1.valid(h + 1, i) implies kids_of(
        t2.nodes[#[trigger] t1.page(h + 1, i)],
    ) == kids_of(t1.nodes[t1.page(h + 1, i)]) by {
        assert(t1.levels[h + 1].contains(t1.page(h + 1, i)));
    }
    lemma_downs_frame(t1, t2, h);
    let c = t1.levels[h + 1];
    assert forall|i: int| 0 <= i < c.len() implies links_of(t2, #[trigger] c[i]) == links_of(
        t1,
        c[i],
    ) by {
        assert(t1.valid(h + 1, i));
        assert(t1.page_ok::<K>(h + 1, i));
        assert(c.contains(c[i]));
        assert(restamped(t1.nodes[c[i]], t2.nodes[c[i]]));
        assert(t2.lows[c[i]] == t1.lows[c[i]]);
        assert(links_of(t2, c[i]) =~= links_of(t1, c[i]));
    }
    lemma_roster_frame(t1, t2, c);
}

/// Whether trees differ at most in stamp and split flag of one page, which is clear.
pub open spec fn cleared_at(t: Tree, t2: Tree, pid: u64) -> bool {
    &&& t2 == put(t, t2.nodes[pid])
    &&& t2.nodes[pid].page_id() == pid
    &&& restamped(t.nodes[pid], t2.nodes[pid])
    &&& !flagged(t2.nodes[pid])
}

/// Whether a stack can guide the downlink of `right`, a page of level `h`: it holds the
/// ancestors from the root down. If the downlink is there already, the uppermost ones may
/// be missing.
pub open spec fn stack_suits(t: Tree, stack: Seq<u64>, h: int, right: u64) -> bool {
    &&& stack_at(t, stack, h)
    &&& h + stack.len() + 1 <= t.levels.len()
    &&& h + stack.len() + 1 < t.levels.len() ==> downs(t, h, right) >= 1
}

/// What happens when the separator between `left`, a page of level `h` that has split,
/// and `right` enters the level above: `right` has one downlink then, nothing but the
/// flag of `left` changes if it had one before, and `left` is not flagged any more.
pub open spec fn separated(
    t: Tree,
    t2: Tree,
    h: int,
    right: u64,
    left: u64,
    sep: Seq<u8>,
) -> bool {
    &&& downs(t2, h, right) == 1
    &&& if downs(t, h, right) >= 1 {
        cleared_at(t, t2, left)
    } else {
        posted(t, t2, h, right, sep)
    }
    &&& kept_below(t, t2, h)
    &&& !flagged(t2.nodes[left])
}

/// A separator enters once: when it has entered, the same stack still suits, and putting
/// it in again leaves the list of downlinks and every page but for the stamp of `left` as
/// they are.
pub proof fn law_separators_enter_once<K: Key>(
    t: Tree,
    t1: Tree,
    t2: Tree,
    stack: Seq<u64>,
    h: int,
    right: u64,
    left: u64,
    sep: Seq<u8>,
)
    requires
        t1.wf::<K>(),
        0 <= h < t.levels.len(),
        t.levels[h].contains(left),
        stack_suits(t, stack, h, right),
        separated(t, t1, h, right, left, sep),
    ensures
        stack_suits(t1, stack, h, right),
        separated(t1, t2, h, right, left, sep) ==> {
            &&& downs(t2, h, right) == 1
            &&& listing(t2, h) == listing(t1, h)
            &&& cleared_at(t1, t2, left)
            &&& t2.levels == t1.levels
            &&& t2.root == t1.root
            &&& forall|p: u64| p != left ==> t2.nodes[p] == #[trigger] t1.nodes[p]
        },
{
    assert forall|k: int| 0 <= k < stack.len() implies #[trigger] ancestor(t1, stack, h, k) by {
        assert(ancestor(t, stack, h, k));
        assert(t.levels[h + stack.len() - k].contains(stack[k]));
    }
    if separated(t1, t2, h, right, left, sep) {
        assert(t1.levels[h].contains(left));
        let i = lemma_page::<K>(t1, h, left);
        if h + 1 < t1.levels.len() {
            let c = t1.levels[h + 1];
            assert forall|k: int| 0 <= k < c.len() implies links_of(t2, #[trigger] c[k])
                == links_of(t1, c[k]) by {
                assert(t1.valid(h + 1, k));
                assert(t1.page(h + 1, k) != t1.page(h, i));
                assert(links_of(t2, c[k]) =~= links_of(t1, c[k]));
            }
            lemma_roster_frame(t1, t2, c);
        }
    }
}

/// Whether the split flag of a page is set.
pub(crate) fn is_flagged(n: &Node) -> (b: bool)
    ensures
        b == flagged(n@),
{
    match n {
        Node::Leaf(l) => l.incomplete_split,
        Node::Internal(p) => p.incomplete_split,
    }
}

/// One more than a count, as far as it goes.
fn one_more(n: u64) -> (r: u64)
    ensures
        r == (if n < u64::MAX {
            n + 1
        } else {
            n as int
        }),
{
    if n < u64::MAX {
        n + 1
    } else {
        n
    }
}

impl<K: Key> BTreeIndex<K> {
    /// Clears the split flag of a page whose right neighbour has its downlink.
    #[verifier::rlimit(30)]
    fn clear_flag(&mut self, Ghost(h): Ghost<int>, pid: u64)
        requires
            old(self).wf(),
            0 <= h < old(self).levels@.len(),
            old(self).levels@[h].contains(pid),
            old(self).tree().nodes[pid].rightlink() matches Some(r) ==> downs(
                old(self).tree(),
                h,
                r,
            ) == 1,
            old(self).store.budget() >= 1,
        ensures
            final(self).wf(),
            carries_on(old(self).store.log(), final(self).store.log(), 0),
            calm(old(self).past@, final(self).past@),
            final(self).records() == old(self).records(),
            final(self).store.pages().chunks == old(self).store.pages().chunks,
            final(self).chains@ == old(self).chains@,
            final(self).pending_recycle@ == old(self).pending_recycle@,
            final(self).store.budget() >= old(self).store.budget() - 1,
            cleared_at(old(self).tree(), final(self).tree(), pid),
            kept_below(old(self).tree(), final(self).tree(), old(self).levels@.len() - 1),
            flags(final(self).tree().nodes) == flags(old(self).tree().nodes).remove(pid),
            final(self).incomplete == old(self).incomplete - if flagged(
                old(self).tree().nodes[pid],
            ) {
                1int
            } else {
                0int
            },
            forall|g: int, p: u64|
                0 <= g ==> #[trigger] downs(final(self).tree(), g, p) == downs(
                    old(self).tree(),
                    g,
                    p,
                ),
    {
        let ghost t = self.tree();
        let ghost m = without_flag(t.nodes[pid]);
        let ghost c0 = self.store.pages().chunks;
        let ghost ix0 = *self;
        let ghost i = lemma_page::<K>(t, h, pid);
        proof {
            lemma_restamp::<K>(t, h, pid, m);
            lemma_present::<K>(ix0);
            self.store.lemma_wf();
            assert(t.linked(h, i));
        }
        let mut n = self.store.load(pid);
        let flag = is_flagged(&n);
        match n {
            Node::Leaf(ref mut l) => {
                l.incomplete_split = false;
            },
            Node::Internal(ref mut p) => {
                p.incomplete_split = false;
            },
        }
        assert(n@ == m);
        let ghost s0 = self.store;
        let lsn: u64 = self.store.write_one(
            WalRecordType::PageCompact,
            SYSTEM_TXN_ID,
            pid,
            Change::Image(n),
        );
        proof {
            lemma_flags_finite(t.nodes);
            if flagged(t.nodes[pid]) {
                assert(flags(t.nodes).contains(pid));
            }
        }
        if flag {
            self.incomplete = self.incomplete - 1;
        }
        proof {
            let m2 = with_lsn(m, lsn);
            lemma_restamp::<K>(t, h, pid, m2);
            let t2 = put(t, m2);
            assert(self.tree() == t2);
            assert(self.store.pages().chunks =~= c0);
            lemma_laced_clear(t, t2, h, i);
            let was = self.past@;
            self.past@ = was.push(self.rows());
            self.lemma_logged(s0, was);
            assert(flags(self.tree().nodes) =~= flags(t.nodes).remove(pid));
            assert forall|g: int, p: u64|
                0 <= g <= t.levels.len() - 1 && #[trigger] t.levels[g].contains(p) implies restamped(
                t.nodes[p],
                t2.nodes[p],
            ) by {}
        }
    }

    /// Puts a new root above the old one, which split into `left` and `right`.
    #[verifier::rlimit(40)]
    fn grow_root(&mut self, sep: &Vec<u8>, left: u64, right: u64)
        requires
            old(self).wf(),
            old(self).root == left,
            old(self).tree().nodes[left].rightlink() == Some(right),
            bound_le::<K>(old(self).lows@[right], Some(sep@)),
            sep@.len() <= MAX_KEY_SIZE,
            old(self).store.budget() >= 2,
        ensures
            final(self).wf(),
            carries_on(old(self).store.log(), final(self).store.log(), 0),
            calm(old(self).past@, final(self).past@),
            final(self).records() == old(self).records(),
            final(self).store.pages().chunks == old(self).store.pages().chunks,
            final(self).chains@ == old(self).chains@,
            final(self).pending_recycle@ == old(self).pending_recycle@,
            final(self).store.budget() >= old(self).store.budget() - 2,
            kept_below(old(self).tree(), final(self).tree(), old(self).levels@.len() - 1),
            flags(final(self).tree().nodes) == flags(old(self).tree().nodes).remove(left),
            final(self).incomplete == old(self).incomplete - if flagged(
                old(self).tree().nodes[left],
            ) {
                1int
            } else {
                0int
            },
            final(self).levels@ == old(self).levels@.push(seq![final(self).root]),
            !old(self).tree().nodes.contains_key(final(self).root),
            forall|p: u64| #[trigger]
                old(self).tree().nodes.contains_key(p) && p != left ==> final(self).tree().nodes[p]
                    == old(self).tree().nodes[p],
            ({
                let v = final(self).tree().nodes[final(self).root]->Internal_0;
                &&& final(self).tree().nodes[final(self).root] == NodeView::Internal(v)
                &&& v.keys == seq![sep@]
                &&& v.children == seq![left, right]
            }),
            posted(
                old(self).tree(),
                final(self).tree(),
                old(self).levels@.len() - 1,
                right,
                sep@,
            ),
    {
        let ghost t = self.tree();
        let ghost p0 = self.store.pages();
        let ghost top = t.levels.len() - 1;
        proof {
            self.store.lemma_wf();
            assert(t.levels[top].len() >= 1);
            assert(t.valid(top, 0));
            assert(t.page_ok::<K>(top, 0));
            assert(t.levels[top][0] == left);
            assert(t.linked(top, 0));
            assert(t.valid(top, 1));
            assert(t.levels[top][1] == right);
        }
        let node = self.store.load(left);
        let flag = is_flagged(&node);
        let new: u64 = self.store.allocate();
        let mut keys: Vec<Vec<u8>> = Vec::new();
        keys.push(copy_bytes(sep));
        let mut children: Vec<u64> = Vec::new();
        children.push(left);
        children.push(right);
        let page = InternalPage {
            page_id: new,
            lsn: 0,
            incomplete_split: false,
            rightlink: None,
            high_key: None,
            keys,
            children,
        };
        let ghost v = page@;
        proof {
            assert(v.keys =~= seq![sep@]);
            lemma_separators_size_one(sep@);
            assert(v.wf());
        }
        let mut cs: Vec<PageChange> = Vec::new();
        cs.push(PageChange { page_id: new, change: Change::Image(Node::Internal(page)) });
        cs.push(PageChange { page_id: 0, change: Change::SetRoot(new) });
        cs.push(PageChange { page_id: left, change: Change::ClearIncompleteSplit });
        proof {
            let lsn0 = self.store.next_lsn();
            let used = self.store.used();
            let c1 = ChangeView::Image(NodeView::Internal(v));
            let c2 = ChangeView::SetRoot(new);
            let c3 = ChangeView::ClearIncompleteSplit;
            let s1 = seq![(new, c1)];
            let s2 = s1.push((0u64, c2));
            let s3 = s2.push((left, c3));
            lemma_one_change(p0, used, new, c1, lsn0);
            lemma_more_changes(p0, used, s1, 0, c2, lsn0);
            lemma_more_changes(p0, used, s2, left, c3, lsn0);
            assert(change_views(cs@) =~= s3);
            assert(!p0.nodes.contains_key(new));
        }
        let ghost s0 = self.store;
        let ghost ix0 = *self;
        let lsn: u64 = self.store.write(WalRecordType::NewRoot, SYSTEM_TXN_ID, &cs);
        self.root = new;
        proof {
            lemma_flags_finite(t.nodes);
            if flagged(t.nodes[left]) {
                assert(flags(t.nodes).contains(left));
            }
        }
        if flag {
            self.incomplete = self.incomplete - 1;
        }
        proof {
            let v2 = InternalView { lsn, ..v };
            let t2 = grow(t, v2);
            let m = with_lsn(without_flag(t.nodes[left]), lsn);
            assert(t2.lows[new] == None::<Seq<u8>>);
            assert(children_ok::<K>(t.levels.last(), t.lows.insert(new, None), v2)) by {
                reveal(children_ok);
                let lows = t.lows.insert(new, None);
                assert(right != new) by {
                    let k = lemma_page::<K>(t, top, right);
                }
                assert forall|j: int| 0 <= j < v2.children.len() implies {
                    let _ = #[trigger] v2.children[j];
                    child_ok::<K>(t.levels.last(), lows, v2, j)
                } by {
                    if j == 0 {
                        assert(v2.children[0] == left);
                    } else {
                        assert(v2.children[1] == right);
                        assert(v2.keys[0] == sep@);
                    }
                }
                K::le_laws();
            }
            lemma_grow::<K>(t, v2);
            assert(t2.levels[top] == t.levels[top]);
            lemma_restamp::<K>(t2, top, left, m);
            self.levels@ = t2.levels;
            self.lows@ = t2.lows;
            assert(self.store.pages().nodes =~= put(t2, m).nodes);
            assert(self.store.pages().chunks =~= p0.chunks);
            assert(self.tree() == put(t2, m));
            let t3 = self.tree();
            assert(v2.children =~= seq![left, right]);
            assert forall|g: int, x: int| t.valid(g, x) implies {
                let p = #[trigger] t.page(g, x);
                &&& kids_of(t3.nodes[p]) == kids_of(t.nodes[p])
                &&& flagged(t.nodes[p]) && p != t.root ==> flagged(t3.nodes[p])
            } by {
                assert(t.page_ok::<K>(g, x));
            }
            lemma_laced_grow::<K>(t, t3, new);
            let was = self.past@;
            self.past@ = was.push(self.rows());
            self.lemma_logged(s0, was);
            lemma_present::<K>(ix0);
            assert forall|g: int, p: u64|
                0 <= g <= top && #[trigger] t.levels[g].contains(p) implies restamped(
                t.nodes[p],
                t3.nodes[p],
            ) by {
                let k = lemma_page::<K>(t, g, p);
                assert(p != new);
            }
            assert forall|p: u64| #[trigger] t.nodes.contains_key(p) implies t3.nodes.contains_key(
                p,
            ) && t3.lows[p] == t.lows[p] by {
                assert(p != new);
            }
            assert(flags(t3.nodes) =~= flags(t.nodes).remove(left));
            assert(t3.levels[top + 1] == seq![new]);
            assert(t3.page(top + 1, 0) == new);
            lemma_roster_one(t3, new);
            assert(listing(t3, top) =~= seq![(None, t.root), (Some(sep@), right)]);
            lemma_levels_few::<K>(t3, self.store);
        }
        self.height = self.height + 1;
    }

    /// Puts a downlink into an internal page that has room for it and clears
    /// the flag of the page whose split it completes.
    #[verifier::rlimit(30)]
    fn add_downlink(
        &mut self,
        Ghost(h): Ghost<int>,
        parent: u64,
        idx: usize,
        sep: &Vec<u8>,
        right: u64,
        left: u64,
    )
        requires
            old(self).wf(),
            1 <= h < old(self).levels@.len(),
            old(self).levels@[h].contains(parent),
            old(self).levels@[h - 1].contains(left),
            old(self).tree().nodes[left].rightlink() == Some(right),
            downs(old(self).tree(), h - 1, right) == 0,
            bound_le::<K>(old(self).lows@[right], Some(sep@)),
            sep@.len() <= MAX_KEY_SIZE,
            old(self).tree().nodes[parent]->Internal_0.size() + SEPARATOR_OVERHEAD + sep@.len()
                <= PAGE_SIZE,
            idx <= old(self).tree().nodes[parent]->Internal_0.keys.len(),
            forall|i: int|
                0 <= i < idx ==> K::le(
                    #[trigger] old(self).tree().nodes[parent]->Internal_0.keys[i],
                    sep@,
                ),
            forall|i: int|
                idx <= i < old(self).tree().nodes[parent]->Internal_0.keys.len() ==> !K::le(
                    #[trigger] old(self).tree().nodes[parent]->Internal_0.keys[i],
                    sep@,
                ),
            old(self).store.budget() >= 1,
        ensures
            final(self).wf(),
            carries_on(old(self).store.log(), final(self).store.log(), 0),
            calm(old(self).past@, final(self).past@),
            final(self).records() == old(self).records(),
            final(self).store.pages().chunks == old(self).store.pages().chunks,
            final(self).chains@ == old(self).chains@,
            final(self).pending_recycle@ == old(self).pending_recycle@,
            final(self).store.budget() >= old(self).store.budget() - 1,
            kept_below(old(self).tree(), final(self).tree(), h - 1),
            flags(final(self).tree().nodes) == flags(old(self).tree().nodes).remove(left),
            final(self).incomplete == old(self).incomplete - if flagged(
                old(self).tree().nodes[left],
            ) {
                1int
            } else {
                0int
            },
            final(self).levels@ == old(self).levels@,
            final(self).lows@ == old(self).lows@,
            final(self).root == old(self).root,
            final(self).tree().nodes[parent] == NodeView::Internal(
                InternalView {
                    lsn: final(self).tree().nodes[parent]->Internal_0.lsn,
                    ..widened(
                        old(self).tree().nodes[parent]->Internal_0,
                        idx as int,
                        sep@,
                        right,
                    )
                },
            ),
            forall|p: u64|
                p != parent && p != left ==> (#[trigger] final(self).tree().nodes.contains_key(p))
                    == old(self).tree().nodes.contains_key(p) && final(self).tree().nodes[p]
                    == old(self).tree().nodes[p],
            posted(old(self).tree(), final(self).tree(), h - 1, right, sep@),
    {
        let ghost t = self.tree();
        let ghost p0 = self.store.pages();
        let ghost i = lemma_page::<K>(t, h, parent);
        let ghost j = lemma_page::<K>(t, h - 1, left);
        let ghost v = t.nodes[parent]->Internal_0;
        proof {
            self.store.lemma_wf();
            lemma_internal_count(v);
            assert(t.page(h, i) != t.page(h - 1, j));
            assert(t.linked(h - 1, j));
            assert(t.valid(h - 1, j + 1));
            assert(t.page(h - 1, j + 1) == right);
            assert(t.levels[h - 1].contains(right));
        }
        let node = self.store.load(left);
        let flag = is_flagged(&node);
        let mut cs: Vec<PageChange> = Vec::new();
        cs.push(
            PageChange {
                page_id: parent,
                change: Change::InsertDownlink { at: idx as u16, key: copy_bytes(sep), right },
            },
        );
        cs.push(PageChange { page_id: left, change: Change::ClearIncompleteSplit });
        proof {
            let lsn0 = self.store.next_lsn();
            let used = self.store.used();
            let c1 = ChangeView::InsertDownlink { at: idx as u16, key: sep@, right };
            let c2 = ChangeView::ClearIncompleteSplit;
            let s1 = seq![(parent, c1)];
            let s2 = s1.push((left, c2));
            lemma_one_change(p0, used, parent, c1, lsn0);
            lemma_more_changes(p0, used, s1, left, c2, lsn0);
            assert(change_views(cs@) =~= s2);
        }
        let ghost s0 = self.store;
        let ghost ix0 = *self;
        let lsn: u64 = self.store.write(WalRecordType::InsertDownLink, SYSTEM_TXN_ID, &cs);
        proof {
            lemma_flags_finite(t.nodes);
            if flagged(t.nodes[left]) {
                assert(flags(t.nodes).contains(left));
            }
        }
        if flag {
            self.incomplete = self.incomplete - 1;
        }
        proof {
            let w = InternalView { lsn, ..widened(v, idx as int, sep@, right) };
            let m = with_lsn(without_flag(t.nodes[left]), lsn);
            let t2 = put(t, NodeView::Internal(w));
            let t3 = put(t2, m);
            assert(t.internal_ok::<K>(h, v));
            lemma_widened_ok::<K>(t.levels[h - 1], t.lows, v, idx as int, sep@, right);
            assert(t.internal_ok::<K>(h, w)) by {
                reveal(children_ok);
                let u = widened(v, idx as int, sep@, right);
                assert forall|c: int| 0 <= c < w.children.len() implies {
                    let _ = #[trigger] w.children[c];
                    child_ok::<K>(t.levels[h - 1], t.lows, w, c)
                } by {
                    let _ = u.children[c];
                    assert(child_ok::<K>(t.levels[h - 1], t.lows, u, c));
                }
            }
            self.store.lemma_wf();
            assert(self.store.pages().nodes.contains_key(parent));
            assert(w.wf());
            lemma_put_internal::<K>(t, h, i, w);
            lemma_restamp::<K>(t2, h - 1, left, m);
            assert(self.tree() == t3);
            assert forall|g: int, x: int| t.valid(g, x) implies {
                let p = #[trigger] t.page(g, x);
                &&& p != t.page(h, i) ==> kids_of(t3.nodes[p]) == kids_of(t.nodes[p])
                &&& flagged(t.nodes[p]) && p != t.page(h - 1, j) ==> flagged(t3.nodes[p])
            } by {
                assert(t.page_ok::<K>(g, x));
            }
            lemma_laced_link::<K>(t, t3, h, i, idx + 1, j, right);
            let was = self.past@;
            self.past@ = was.push(self.rows());
            self.lemma_logged(s0, was);
            lemma_present::<K>(ix0);
            assert forall|g: int, p: u64|
                0 <= g <= h - 1 && #[trigger] t.levels[g].contains(p) implies restamped(
                t.nodes[p],
                t3.nodes[p],
            ) by {
                let k = lemma_page::<K>(t, g, p);
                assert(t.page(g, k) != t.page(h, i));
            }
            assert(flags(t3.nodes) =~= flags(t.nodes).remove(left));
            let c = t.levels[h];
            let e = (Some(sep@), right);
            assert(c[i] == parent);
            lemma_roster_one(t3, parent);
            assert(links_of(t3, parent) =~= links_of(t, parent).insert(idx + 1, e));
            assert forall|x: int| 0 <= x < c.len() && x != i implies links_of(
                t3,
                #[trigger] c[x],
            ) == links_of(t, c[x]) by {
                assert(t.valid(h, x));
                assert(t.page(h, x) != t.page(h, i));
                assert(t.page(h, x) != t.page(h - 1, j));
            }
            let q = lemma_roster_entered(t, t3, c, seq![parent], i, idx + 1, e);
            assert(c.take(i) + seq![parent] + c.skip(i + 1) =~= c);
            assert(listing(t3, h - 1) == listing(t, h - 1).insert(q, e));
        }
    }
}

/// A split of an internal page keeps what lies below, and posts the child that
/// enters.
proof fn lemma_cut_kept<K: Key>(
    t: Tree,
    t2: Tree,
    h: int,
    pid: u64,
    new: u64,
    x: int,
    sep: Seq<u8>,
    fresh: u64,
    up: Seq<u8>,
)
    requires
        t.wf::<K>(),
        t2.wf::<K>(),
        1 <= h < t.levels.len(),
        t.levels[h].contains(pid),
        internal_cut::<K>(t, t2, h, pid, new, x, sep, fresh, up),
        downs(t2, h - 1, fresh) == 1,
        forall|p: u64| p != fresh ==> #[trigger] downs(t2, h - 1, p) == downs(t, h - 1, p),
    ensures
        kept_below(t, t2, h - 1),
        posted(t, t2, h - 1, fresh, sep),
        t2.levels[h].contains(pid),
        t2.levels[h].contains(new),
        t2.nodes[pid].rightlink() == Some(new),
{
    let i = lemma_page::<K>(t, h, pid);
    lemma_spot::<K>(t, h, i);
    let c = t.levels[h];
    let c2 = t2.levels[h];
    assert(c2[i] == pid && c2[i + 1] == new);
    assert forall|g: int, p: u64|
        0 <= g < t.levels.len() && #[trigger] t.levels[g].contains(p) implies t2.levels[g].contains(
        p,
    ) by {
        if g == h {
            let k = choose|k: int| 0 <= k < c.len() && c[k] == p;
            assert(c2[if k > i { k + 1 } else { k }] == p);
        }
    }
    assert forall|g: int, p: u64|
        0 <= g <= h - 1 && #[trigger] t.levels[g].contains(p) implies restamped(
        t.nodes[p],
        t2.nodes[p],
    ) by {
        let k = lemma_page::<K>(t, g, p);
        assert(t.page(g, k) != t.page(h, i));
        assert(t2.nodes.contains_key(p));
    }
    assert forall|p: u64| #[trigger] t.nodes.contains_key(p) implies t2.nodes.contains_key(p)
        && t2.lows[p] == t.lows[p] by {
        if p == pid {
            let k = lemma_page::<K>(t2, h, pid);
        }
    }
    lemma_cut_links::<K>(t, t2, h, pid, new, x, sep, fresh, up);
    let e = (Some(sep), fresh);
    assert(c[i] == pid);
    assert(roster(t2, seq![pid, new]) =~= links_of(t2, pid) + links_of(t2, new)) by {
        let two = seq![pid, new];
        assert(two.drop_last() =~= seq![pid]);
        assert(two.last() == new);
        lemma_roster_one(t2, pid);
    }
    assert forall|y: int| 0 <= y < c.len() && y != i implies links_of(t2, #[trigger] c[y])
        == links_of(t, c[y]) by {
        assert(t.valid(h, y));
        assert(t.page_ok::<K>(h, y));
        assert(t.page(h, y) != t.page(h, i));
        assert(t2.nodes.contains_key(c[y]));
        assert(links_of(t2, c[y]) =~= links_of(t, c[y]));
    }
    let q = lemma_roster_entered(t, t2, c, seq![pid, new], i, x + 1, e);
    assert(c.take(i) + seq![pid, new] + c.skip(i + 1) =~= c2);
    assert(listing(t2, h - 1) == listing(t, h - 1).insert(q, e));
}

/// The halves of a page list what the page listed, and the downlink that enters.
proof fn lemma_cut_links<K: Key>(
    t: Tree,
    t2: Tree,
    h: int,
    pid: u64,
    new: u64,
    x: int,
    sep: Seq<u8>,
    fresh: u64,
    up: Seq<u8>,
)
    requires
        t.wf::<K>(),
        1 <= h < t.levels.len(),
        t.levels[h].contains(pid),
        internal_cut::<K>(t, t2, h, pid, new, x, sep, fresh, up),
    ensures
        0 <= x + 1 <= links_of(t, pid).len(),
        links_of(t2, pid) + links_of(t2, new) == links_of(t, pid).insert(
            x + 1,
            (Some(sep), fresh),
        ),
{
    let i = lemma_page::<K>(t, h, pid);
    assert(t.page_ok::<K>(h, i));
    let v = t.nodes[pid]->Internal_0;
    let a = t2.nodes[pid]->Internal_0;
    let b = t2.nodes[new]->Internal_0;
    assert(t.internal_ok::<K>(h, v));
    let w = v.children.insert(x + 1, fresh);
    let ks = v.keys.insert(x, sep);
    let l = links_of(t, pid);
    let l2 = l.insert(x + 1, (Some(sep), fresh));
    let m = links_of(t2, pid) + links_of(t2, new);
    let n = a.children.len();
    assert(a.children + b.children == w);
    assert(a.keys.push(up) + b.keys == ks);
    assert(m.len() == w.len());
    assert(l2.len() == w.len());
    assert(v.wf());
    assert(v.children.len() == v.keys.len() + 1);
    assert((a.keys.push(up) + b.keys).len() == v.keys.len() + 1);
    assert(t2.lows[pid] == t.lows[pid] && t2.lows[new] == Some(up));
    assert(a.page_id == pid && b.page_id == new && v.page_id == pid);
    assert forall|y: int| 0 <= y < w.len() implies m[y] == l2[y] by {
        let low = if y == 0 {
            t.lows[pid]
        } else {
            Some(ks[y - 1])
        };
        assert(w[y] == (a.children + b.children)[y]);
        assert(y > 0 ==> ks[y - 1] == (a.keys.push(up) + b.keys)[y - 1]);
        if y < n {
            assert(m[y] == links_of(t2, pid)[y]);
            assert(links_of(t2, pid)[y] == (separator(t2.lows, a, y), a.children[y]));
            assert(m[y] == (low, w[y]));
        } else {
            assert(m[y] == links_of(t2, new)[y - n]);
            assert(links_of(t2, new)[y - n] == (separator(t2.lows, b, y - n), b.children[y - n]));
            assert((a.children + b.children)[y] == b.children[y - n]);
            if y == n {
                assert((a.keys.push(up) + b.keys)[y - 1] == a.keys.push(up)[n - 1]);
                assert(a.keys.push(up)[n - 1] == up);
            } else {
                assert((a.keys.push(up) + b.keys)[y - 1] == b.keys[y - n - 1]);
            }
            assert(separator(t2.lows, b, y - n) == low);
        }
        if y <= x {
            assert(l2[y] == l[y]);
            assert(l[y] == (separator(t.lows, v, y), v.children[y]));
        } else if y > x + 1 {
            assert(l2[y] == l[y - 1]);
            assert(l[y - 1] == (separator(t.lows, v, y - 1), v.children[y - 1]));
        }
        assert(l2[y] == (low, w[y]));
    }
    assert(m =~= l2);
}

/// Sets of flags along a split of a parent.
proof fn lemma_flags_moved(f0: Set<u64>, left: u64, parent: u64, new: u64, flag: bool)
    requires
        f0.finite(),
        parent != left,
        new != left,
        new != parent,
        !f0.contains(new),
        flag == f0.contains(parent),
    ensures
        ({
            let f1 = f0.insert(
                if flag {
                    new
                } else {
                    parent
                },
            );
            let f2 = f1.remove(left);
            &&& f2.finite()
            &&& f2.remove(parent).len() == f0.remove(left).len()
        }),
{
    let a = f0.remove(left);
    if flag {
        let f2 = f0.insert(new).remove(left);
        assert(f2.remove(parent) =~= a.remove(parent).insert(new));
    } else {
        let f2 = f0.insert(parent).remove(left);
        assert(f2.remove(parent) =~= a);
    }
}

impl<K: Key> BTreeIndex<K> {
    /// Follows right links at level `h` to the internal page whose range holds
    /// `key`, from one that is not right of it.
    fn move_right_internal(&mut self, Ghost(h): Ghost<int>, pid: u64, key: &Vec<u8>) -> (p:
        InternalPage)
        requires
            old(self).wf(),
            1 <= h < old(self).levels@.len(),
            old(self).levels@[h].contains(pid),
        ensures
            final(self).wf(),
            final(self).same(old(self)),
            old(self).levels@[h].contains(p@.page_id),
            old(self).tree().nodes[p@.page_id] == NodeView::Internal(p@),
            p@.wf(),
            keys_sorted::<K>(p@.keys),
            p@.high_key matches Some(hk) ==> !K::le(hk, key@),
    {
        let ghost t = self.tree();
        let ghost mut i: int = lemma_page::<K>(t, h, pid);
        let mut cur: u64 = pid;
        loop
            invariant
                self.wf(),
                self.same(old(self)),
                t == old(self).tree(),
                self.tree() == t,
                1 <= h < t.levels.len(),
                t.valid(h, i),
                t.page(h, i) == cur,
            decreases t.levels[h].len() - i,
        {
            proof {
                assert(t.page_ok::<K>(h, i));
                assert(t.linked(h, i));
                assert(t.levels[h][i] == cur);
            }
            let p = match self.store.load(cur) {
                Node::Internal(p) => p,
                Node::Leaf(_) => vstd::pervasive::unreached(),
            };
            let mut right: Option<u64> = None;
            if let Some(hk) = &p.high_key {
                match K::compare(key.as_slice(), hk.as_slice()) {
                    KeyOrder::Less => {},
                    _ => {
                        right = p.rightlink;
                    },
                }
            }
            match right {
                Some(next) => {
                    proof {
                        assert(t.valid(h, i + 1));
                        assert(t.page_ok::<K>(h, i + 1));
                        i = i + 1;
                    }
                    cur = next;
                },
                None => {
                    proof {
                        reveal(children_ok);
                        assert(t.internal_ok::<K>(h, p@));
                    }
                    return p;
                },
            }
        }
    }

    /// Whether some page above level `h` names `p` as a child. With equal separators
    /// that may be a page left of the one whose range holds the separator, so the
    /// whole level counts.
    fn has_downlink(&mut self, Ghost(h): Ghost<int>, depth: usize, p: u64) -> (r: bool)
        requires
            old(self).wf(),
            0 <= h,
            depth >= 1,
            h + depth + 1 == old(self).levels@.len(),
        ensures
            final(self).wf(),
            final(self).same(old(self)),
            r == (downs(old(self).tree(), h, p) >= 1),
    {
        let ghost t = self.tree();
        let ghost mut g: int = t.levels.len() - 1;
        let mut pid: u64 = self.root;
        let mut down: usize = depth - 1;
        proof {
            assert(t.levels[g].len() >= 1);
            assert(t.valid(g, 0));
        }
        while down > 0
            invariant
                self.wf(),
                self.same(old(self)),
                self.tree() == t,
                t == old(self).tree(),
                0 <= h,
                g == h + 1 + down,
                t.valid(g, 0),
                t.page(g, 0) == pid,
            decreases down,
        {
            proof {
                assert(t.page_ok::<K>(g, 0));
            }
            let n = match self.store.load(pid) {
                Node::Internal(n) => n,
                Node::Leaf(_) => vstd::pervasive::unreached(),
            };
            let child: u64 = n.children[0];
            proof {
                reveal(children_ok);
                assert(t.internal_ok::<K>(g, n@));
                let _ = n@.children[0];
                assert(child_ok::<K>(t.levels[g - 1], t.lows, n@, 0));
                let i = lemma_page::<K>(t, g - 1, child);
                self.lemma_first(g - 1, i, n@, g);
                g = g - 1;
            }
            pid = child;
            down = down - 1;
        }
        let ghost mut m: int = 0;
        loop
            invariant
                self.wf(),
                self.same(old(self)),
                self.tree() == t,
                t == old(self).tree(),
                0 <= h,
                t.valid(h + 1, m),
                t.page(h + 1, m) == pid,
                forall|k: int|
                    0 <= k < m ==> !kids_of(t.nodes[#[trigger] t.page(h + 1, k)]).contains(p),
            decreases t.levels[h + 1].len() - m,
        {
            proof {
                assert(t.page_ok::<K>(h + 1, m));
                assert(t.linked(h + 1, m));
            }
            let n = match self.store.load(pid) {
                Node::Internal(n) => n,
                Node::Leaf(_) => vstd::pervasive::unreached(),
            };
            if crate::transaction::contains_id(&n.children, p) {
                proof {
                    lemma_down_at(t, h, m, p);
                }
                return true;
            }
            match n.rightlink {
                Some(right) => {
                    proof {
                        assert(t.valid(h + 1, m + 1));
                        m = m + 1;
                    }
                    pid = right;
                },
                None => {
                    proof {
                        assert(t.levels[h + 1].len() == m + 1);
                        if downs(t, h, p) >= 1 {
                            let k = lemma_down_from(t, h, p);
                            assert(k <= m);
                        }
                    }
                    return false;
                },
            }
        }
    }

    /// Puts the downlink of `right`, which has none, into the parent of `left`, the
    /// page that split, and clears the flag of `left`. The first `depth` pages of the
    /// stack are the ancestors. A parent that is full splits, and its own downlink
    /// is next; above the root a new root grows.
    #[verifier::rlimit(60)]
    #[verifier::spinoff_prover]
    pub(crate) fn post_downlink(
        &mut self,
        Ghost(h): Ghost<int>,
        stack: &Vec<u64>,
        depth: usize,
        sep: Vec<u8>,
        right: u64,
        left: u64,
    )
        requires
            old(self).wf(),
            0 <= h < old(self).levels@.len(),
            depth <= stack@.len(),
            stack_at(old(self).tree(), stack@.take(depth as int), h),
            h + depth + 1 == old(self).levels@.len(),
            old(self).levels@[h].contains(left),
            left == old(self).root || old(self).levels@.last().len() == 1,
            old(self).tree().nodes[left].rightlink() == Some(right),
            downs(old(self).tree(), h, right) == 0,
            bound_le::<K>(old(self).lows@[right], Some(sep@)),
            sep@.len() <= MAX_KEY_SIZE,
            old(self).store.budget() >= 3 * depth + 4,
        ensures
            final(self).wf(),
            carries_on(old(self).store.log(), final(self).store.log(), 0),
            calm(old(self).past@, final(self).past@),
            final(self).records() == old(self).records(),
            final(self).store.pages().chunks == old(self).store.pages().chunks,
            final(self).chains@ == old(self).chains@,
            final(self).pending_recycle@ == old(self).pending_recycle@,
            final(self).store.budget() >= old(self).store.budget() - 3 * depth - 4,
            posted(old(self).tree(), final(self).tree(), h, right, sep@),
            kept_below(old(self).tree(), final(self).tree(), h),
            forall|g: int, p: u64|
                0 <= g <= h && #[trigger] old(self).levels@[g].contains(p) && p != left
                    ==> final(self).tree().nodes[p] == old(self).tree().nodes[p],
            !flagged(final(self).tree().nodes[left]),
            flags(final(self).tree().nodes).finite(),
            flags(final(self).tree().nodes).len() <= flags(old(self).tree().nodes).remove(
                left,
            ).len(),
            final(self).incomplete <= old(self).incomplete - if flagged(
                old(self).tree().nodes[left],
            ) {
                1int
            } else {
                0int
            },
            final(self).levels@.last().len() == 1,
            final(self).root == old(self).root ==> final(self).levels@.len()
                == old(self).levels@.len(),
            final(self).root != old(self).root ==> final(self).levels@.len()
                == old(self).levels@.len() + 1,
        decreases depth,
    {
        let ghost t0 = self.tree();
        let ghost f0 = flags(t0.nodes);
        let ghost i0 = lemma_page::<K>(t0, h, left);
        let ghost top = t0.levels.len() - 1;
        proof {
            self.store.lemma_wf();
            lemma_flags_finite(t0.nodes);
            lemma_present::<K>(*self);
            assert(t0.linked(h, i0));
            assert(t0.valid(h, i0 + 1));
            assert(t0.levels[h][i0 + 1] == right);
            assert(t0.levels[top].len() >= 1);
            assert(t0.valid(top, 0));
        }
        if depth == 0 {
            proof {
                assert(h == top);
                if self.root != left {
                    assert(t0.levels[top].len() == 1);
                }
            }
            self.grow_root(&sep, left, right);
            proof {
                assert(t0.levels[top].contains(left));
                let t1 = self.tree();
                assert(flags(t1.nodes) == f0.remove(left));
                if flagged(t1.nodes[left]) {
                    assert(t1.nodes.contains_key(left));
                    assert(flags(t1.nodes).contains(left));
                }
                assert(self.levels@.last() == seq![self.root]);
                assert(self.root != t0.root);
                assert forall|g: int, q: u64|
                    0 <= g <= h && #[trigger] t0.levels[g].contains(q) && q
                        != left implies t1.nodes[q] == t0.nodes[q] by {
                    let k = lemma_page::<K>(t0, g, q);
                    assert(t0.page_ok::<K>(g, k));
                    assert(t0.nodes.contains_key(q));
                }
            }
            return;
        }
        let ghost above = stack@.take(depth as int);
        proof {
            assert(ancestor(t0, above, h, depth - 1));
            assert(above[depth - 1] == stack@[depth - 1]);
        }
        let p = self.move_right_internal(Ghost(h + 1), stack[depth - 1], &sep);
        let parent: u64 = p.page_id;
        let ghost ip = lemma_page::<K>(t0, h + 1, parent);
        proof {
            assert(t0.page(h + 1, ip) != t0.page(h, i0));
            if left == t0.root {
                assert(t0.page(h, i0) == t0.page(top, 0));
                assert(h == top);
            }
        }
        let (idx, _) = p.find_child::<K>(sep.as_slice());
        if p.can_fit(sep.len()) {
            self.add_downlink(Ghost(h + 1), parent, idx, &sep, right, left);
            proof {
                let t1 = self.tree();
                assert(t0.levels[h].contains(left));
                assert(flags(t1.nodes) == f0.remove(left));
                if flagged(t1.nodes[left]) {
                    assert(t1.nodes.contains_key(left));
                    assert(flags(t1.nodes).contains(left));
                }
                assert forall|g: int, q: u64|
                    0 <= g <= h && #[trigger] t0.levels[g].contains(q) && q
                        != left implies t1.nodes[q] == t0.nodes[q] by {
                    let k = lemma_page::<K>(t0, g, q);
                    assert(t0.page(g, k) != t0.page(h + 1, ip));
                    assert(t1.nodes.contains_key(q) == t0.nodes.contains_key(q));
                }
            }
            return;
        }
        proof {
            assert(t0.page(h, i0 + 1) == right);
            assert(t0.levels[h].contains(right));
        }
        let (up, new) = self.split_internal_ly(Ghost(h + 1), parent, &sep, right);
        let ghost t1 = self.tree();
        let ghost log1 = self.store.log();
        let ghost past1 = self.past@;
        let ghost x = choose|x: int| #[trigger]
            internal_cut::<K>(t0, t1, h + 1, parent, new, x, sep@, right, up@);
        proof {
            lemma_cut_kept::<K>(t0, t1, h + 1, parent, new, x, sep@, right, up@);
            assert(t1.nodes[left] == t0.nodes[left]) by {
                assert(t1.nodes.contains_key(left));
            }
            assert(t1.levels[h] == t0.levels[h]);
        }
        self.clear_flag(Ghost(h), left);
        let ghost t2 = self.tree();
        let ghost past2 = self.past@;
        proof {
            lemma_calm_trans(old(self).past@, past1, past2);
            lemma_kept_weaker(t1, t2, t1.levels.len() - 1, h + 1);
            lemma_kept_weaker(t1, t2, t1.levels.len() - 1, h);
            lemma_posted_kept::<K>(t0, t1, t2, h, right, sep@);
            lemma_kept_trans(t0, t1, t2, h);
            lemma_flags_moved(f0, left, parent, new, flagged(t0.nodes[parent]));
            let rest = stack@.take(depth - 1);
            assert forall|k: int| 0 <= k < rest.len() implies #[trigger] ancestor(
                t2,
                rest,
                h + 1,
                k,
            ) by {
                assert(ancestor(t0, above, h, k));
                assert(above[k] == rest[k]);
                assert(t0.levels[h + above.len() - k].contains(above[k]));
            }
            assert(stack_at(t2, rest, h + 1));
            assert(t2.levels[h + 1].contains(parent));
            assert(t2.nodes[parent] == t1.nodes[parent]) by {
                assert(parent != left);
            }
            if h + 1 == top {
                assert(t0.levels[top].len() == 1);
                assert(t0.page(top, ip) == t0.page(top, 0));
                assert(parent == t0.root);
            } else {
                assert(t1.levels[top] == t0.levels[top]);
            }
            K::le_laws();
        }
        self.post_downlink(Ghost(h + 1), stack, depth - 1, up, new, parent);
        proof {
            let t3 = self.tree();
            lemma_calm_trans(old(self).past@, past2, self.past@);
            lemma_posted_kept::<K>(t0, t2, t3, h, right, sep@);
            lemma_kept_weaker(t2, t3, h + 1, h);
            lemma_kept_trans(t0, t2, t3, h);
            assert(t2.levels[h].contains(left));
            assert forall|g: int, q: u64|
                0 <= g <= h && #[trigger] t0.levels[g].contains(q) && q != left implies t3.nodes[q]
                == t0.nodes[q] by {
                let k = lemma_page::<K>(t0, g, q);
                assert(t0.page(g, k) != t0.page(h + 1, ip));
                assert(t0.nodes.contains_key(q));
                assert(t1.nodes.contains_key(q) == t0.nodes.contains_key(q));
                assert(t1.levels[g].contains(q));
                assert(t2.levels[g].contains(q));
            }
        }
    }

    /// The level of a page: how many pages there are on the way down to a leaf.
    fn level_of(&mut self, Ghost(h): Ghost<int>, pid: u64) -> (r: usize)
        requires
            old(self).wf(),
            0 <= h < old(self).levels@.len(),
            old(self).levels@[h].contains(pid),
        ensures
            final(self).wf(),
            final(self).same(old(self)),
            r == h,
    {
        let ghost t = self.tree();
        let ghost mut g: int = h;
        let mut at: u64 = pid;
        let mut passed: Vec<u64> = Vec::new();
        loop
            invariant
                self.wf(),
                self.same(old(self)),
                self.tree() == t,
                t == old(self).tree(),
                0 <= g < t.levels.len(),
                t.levels[g].contains(at),
                passed@.len() == h - g,
            decreases g,
        {
            proof {
                let i = lemma_page::<K>(t, g, at);
            }
            match self.store.load(at) {
                Node::Leaf(_) => {
                    return passed.len();
                },
                Node::Internal(p) => {
                    let child: u64 = p.children[0];
                    proof {
                        reveal(children_ok);
                        assert(t.internal_ok::<K>(g, p@));
                        let _ = p@.children[0];
                        assert(child_ok::<K>(t.levels[g - 1], t.lows, p@, 0));
                        g = g - 1;
                    }
                    passed.push(at);
                    at = child;
                },
            }
        }
    }

    /// Puts the downlink of `right` into the parent of `left`, the page that
    /// split, and clears the flag of `left`. A downlink that is there already stays
    /// as it is, even where a root has grown above the ancestors of the stack since.
    pub(crate) fn insert_separator_via_stack(
        &mut self,
        Ghost(h): Ghost<int>,
        stack: &Vec<u64>,
        sep: Vec<u8>,
        right: u64,
        left: u64,
    )
        requires
            old(self).wf(),
            0 <= h < old(self).levels@.len(),
            stack_suits(old(self).tree(), stack@, h, right),
            old(self).levels@[h].contains(left),
            left == old(self).root || old(self).levels@.last().len() == 1,
            old(self).tree().nodes[left].rightlink() == Some(right),
            bound_le::<K>(old(self).lows@[right], Some(sep@)),
            sep@.len() <= MAX_KEY_SIZE,
            old(self).store.budget() >= 3 * stack@.len() + 4,
        ensures
            final(self).wf(),
            carries_on(old(self).store.log(), final(self).store.log(), 0),
            calm(old(self).past@, final(self).past@),
            final(self).records() == old(self).records(),
            final(self).store.pages().chunks == old(self).store.pages().chunks,
            final(self).chains@ == old(self).chains@,
            final(self).pending_recycle@ == old(self).pending_recycle@,
            final(self).store.budget() >= old(self).store.budget() - 3 * stack@.len() - 4,
            separated(old(self).tree(), final(self).tree(), h, right, left, sep@),
            flags(final(self).tree().nodes).finite(),
            flags(final(self).tree().nodes).len() <= flags(old(self).tree().nodes).remove(
                left,
            ).len(),
            final(self).incomplete <= old(self).incomplete - if flagged(
                old(self).tree().nodes[left],
            ) {
                1int
            } else {
                0int
            },
            final(self).root == old(self).root ==> final(self).levels@.len()
                == old(self).levels@.len(),
            final(self).root != old(self).root ==> final(self).levels@.len()
                == old(self).levels@.len() + 1,
    {
        let ghost t = self.tree();
        let ghost i = lemma_page::<K>(t, h, left);
        proof {
            self.store.lemma_wf();
            lemma_flags_finite(t.nodes);
            assert(stack@.take(stack@.len() as int) =~= stack@);
            assert(t.linked(h, i));
            assert(t.valid(h, i + 1));
            assert(t.page(h, i + 1) == right);
            reveal(laced);
            assert(tied(t, h, i + 1));
        }
        proof {
            assert(t.levels[t.levels.len() - 1].len() >= 1);
            assert(t.valid(t.levels.len() - 1, 0));
            assert(t.page_ok::<K>(t.levels.len() - 1, 0));
            assert(t.levels[t.levels.len() - 1].contains(t.page(t.levels.len() - 1, 0)));
        }
        let root: u64 = self.root;
        let top: usize = self.level_of(Ghost(t.levels.len() - 1), root);
        let at: usize = self.level_of(Ghost(h), left);
        let linked = if top == at {
            false
        } else {
            self.has_downlink(Ghost(h), top - at, right)
        };
        if linked {
            self.clear_flag(Ghost(h), left);
            proof {
                lemma_kept_weaker(t, self.tree(), t.levels.len() - 1, h);
            }
        } else {
            self.post_downlink(Ghost(h), stack, stack.len(), sep, right, left);
        }
    }

    /// Completes a split whose downlink may be missing: puts the downlink in,
    /// if it is not there, and clears the flag.
    pub(crate) fn finish_split(&mut self, Ghost(h): Ghost<int>, pid: u64, stack: &Vec<u64>)
        requires
            old(self).wf(),
            0 <= h < old(self).levels@.len(),
            old(self).levels@[h].contains(pid),
            pid == old(self).root || old(self).levels@.last().len() == 1,
            stack_at(old(self).tree(), stack@, h),
            h + stack@.len() + 1 == old(self).levels@.len(),
            old(self).store.budget() >= 3 * stack@.len() + 4,
        ensures
            final(self).wf(),
            carries_on(old(self).store.log(), final(self).store.log(), 0),
            calm(old(self).past@, final(self).past@),
            final(self).records() == old(self).records(),
            final(self).store.pages().chunks == old(self).store.pages().chunks,
            final(self).chains@ == old(self).chains@,
            final(self).pending_recycle@ == old(self).pending_recycle@,
            final(self).store.budget() >= old(self).store.budget() - 3 * stack@.len() - 4,
            final(self).levels@.len() <= old(self).levels@.len() + 1,
            kept_below(old(self).tree(), final(self).tree(), h),
            !flagged(final(self).tree().nodes[pid]),
            !flagged(old(self).tree().nodes[pid]) ==> final(self).same(old(self)),
            flagged(old(self).tree().nodes[pid]) ==> match old(self).tree().nodes[pid].rightlink() {
                None => cleared_at(old(self).tree(), final(self).tree(), pid),
                Some(right) => {
                    &&& downs(final(self).tree(), h, right) == 1
                    &&& if downs(old(self).tree(), h, right) >= 1 {
                        cleared_at(old(self).tree(), final(self).tree(), pid)
                    } else {
                        posted(
                            old(self).tree(),
                            final(self).tree(),
                            h,
                            right,
                            old(self).tree().nodes[pid].high_key()->0,
                        )
                    }
                },
            },
            flags(final(self).tree().nodes).finite(),
            flags(final(self).tree().nodes).len() <= flags(old(self).tree().nodes).remove(pid).len(),
            final(self).incomplete <= old(self).incomplete - if flagged(
                old(self).tree().nodes[pid],
            ) {
                1int
            } else {
                0int
            },
    {
        let ghost t = self.tree();
        let ghost i = lemma_page::<K>(t, h, pid);
        proof {
            assert(t.linked(h, i));
            self.store.lemma_wf();
            lemma_flags_finite(t.nodes);
            lemma_present::<K>(*self);
        }
        let node = self.store.load(pid);
        let (flag, high, right) = match node {
            Node::Leaf(l) => (l.incomplete_split, l.high_key, l.rightlink),
            Node::Internal(p) => (p.incomplete_split, p.high_key, p.rightlink),
        };
        if !flag {
            proof {
                assert(flags(t.nodes) =~= flags(t.nodes).remove(pid));
            }
            return;
        }
        if high.is_some() && right.is_some() {
            let sep = high.unwrap();
            let right_pid: u64 = right.unwrap();
            proof {
                K::le_laws();
                assert(t.valid(h, i + 1));
                assert(t.page_ok::<K>(h, i + 1));
                assert(t.linked(h, i + 1));
                assert(t.levels[h][i + 1] == right_pid);
            }
            self.insert_separator_via_stack(Ghost(h), stack, sep, right_pid, pid);
        } else {
            self.clear_flag(Ghost(h), pid);
            proof {
                lemma_kept_weaker(t, self.tree(), t.levels.len() - 1, h);
            }
        }
    }
}

/// An internal page holds at most 404 separators.
pub proof fn lemma_internal_count(v: InternalView)
    requires
        v.wf(),
    ensures
        v.keys.len() <= 404,
{
    lemma_separators_bounded(v.keys);
}

proof fn lemma_separators_bounded(s: Seq<Seq<u8>>)
    ensures
        s.len() * SEPARATOR_OVERHEAD <= separators_size(s),
    decreases s.len(),
{
    if s.len() > 0 {
        lemma_separators_bounded(s.drop_last());
        assert(s.len() * 10 == (s.len() - 1) * 10 + 10) by (nonlinear_arith)
            requires
                s.len() > 0,
        ;
    }
}

/// Where the key does not change, all versions are of one key.
proof fn lemma_one_key<K: Key>(s: Seq<RecordView>, a: int, b: int)
    requires
        0 <= a <= b < s.len(),
        forall|m: int| a < m <= b ==> !(#[trigger] key_changes::<K>(s, m)),
    ensures
        key_eq::<K>(s[a].key, s[b].key),
    decreases b - a,
{
    K::le_laws();
    if a < b {
        lemma_one_key::<K>(s, a, b - 1);
        assert(!key_changes::<K>(s, b));
    }
}

/// Where a leaf is cut, told by the key in its middle. If larger keys follow, that key and
/// what lies before it stay on the left, and all else goes. If none follows, but smaller
/// ones come before, the smaller ones stay and that key goes. So the versions of a key are
/// never parted, unless all are of one key; then the leaf is halved. Neither side is empty.
pub proof fn law_versions_of_a_key_stay_together<K: Key>(
    s: Seq<RecordView>,
    mid: int,
    i: int,
    j: int,
)
    requires
        records_sorted::<K>(s),
        s.len() >= 2,
        cut_at::<K>(s, mid),
        0 <= i < mid <= j < s.len(),
    ensures
        1 <= mid < s.len(),
        ({
            let k = s[s.len() as int / 2].key;
            let last = s[s.len() - 1].key;
            if !K::le(last, k) {
                K::le(s[i].key, k) && !K::le(s[j].key, k)
            } else if !K::le(k, s[0].key) {
                !K::le(k, s[i].key) && K::le(k, s[j].key)
            } else {
                mid == s.len() / 2
            }
        }),
{
    K::le_laws();
    let half = s.len() as int / 2;
    let k = s[half].key;
    let n = s.len() as int;
    assert(K::le(s[half].key, s[n - 1].key));
    assert(K::le(s[0].key, s[half].key));
    if half < mid {
        assert(key_changes::<K>(s, mid));
        lemma_one_key::<K>(s, half, mid - 1);
        assert(K::le(s[i].key, s[mid - 1].key));
        assert(K::le(s[mid - 1].key, s[mid].key));
        assert(K::le(s[mid].key, s[j].key));
        assert(K::le(s[mid].key, s[n - 1].key));
        if K::le(s[j].key, k) {
            assert(K::le(s[mid].key, s[mid - 1].key));
        }
        if K::le(s[n - 1].key, k) {
            assert(K::le(s[mid].key, s[mid - 1].key));
        }
    } else if key_changes::<K>(s, mid) {
        lemma_one_key::<K>(s, mid, n - 1);
        assert(K::le(s[mid].key, s[half].key));
        assert(K::le(s[half].key, s[n - 1].key));
        assert(K::le(s[n - 1].key, k));
        assert(K::le(s[mid - 1].key, s[mid].key));
        assert(K::le(s[i].key, s[mid - 1].key));
        assert(K::le(s[mid].key, s[j].key));
        assert(K::le(s[0].key, s[mid - 1].key));
        assert(K::le(k, s[mid].key));
        if K::le(k, s[i].key) {
            assert(K::le(s[mid].key, s[mid - 1].key));
        }
        if K::le(k, s[0].key) {
            assert(K::le(s[mid].key, s[mid - 1].key));
        }
    } else {
        lemma_one_key::<K>(s, 0, n - 1);
    }
}

/// A leaf split loses nothing and puts nothing out of order: the records of the two pages
/// are those of the one, neither page is without any, the keys on the left are at most the
/// separator and those on the right at least, and the new page stands between the page and
/// its right neighbour, with the bounds that follow.
pub proof fn law_leaf_splits_lose_nothing<K: Key>(
    t: Tree,
    t2: Tree,
    pid: u64,
    new: u64,
    mid: int,
    sep: Seq<u8>,
)
    requires
        leaf_cut::<K>(t, t2, pid, new, mid, sep),
        records_sorted::<K>(t.nodes[pid]->Leaf_0.entries),
    ensures
        ({
            let l = t.nodes[pid]->Leaf_0;
            let a = t2.nodes[pid]->Leaf_0;
            let b = t2.nodes[new]->Leaf_0;
            &&& t2.nodes[pid] is Leaf && t2.nodes[new] is Leaf
            &&& a.entries + b.entries == l.entries
            &&& a.entries.len() > 0 && b.entries.len() > 0
            &&& forall|i: int| 0 <= i < a.entries.len() ==> K::le((#[trigger] a.entries[i]).key, sep)
            &&& forall|i: int| 0 <= i < b.entries.len() ==> K::le(sep, (#[trigger] b.entries[i]).key)
            &&& a.high_key == Some(sep) && b.high_key == l.high_key
            &&& a.rightlink == Some(new) && b.rightlink == l.rightlink
            &&& a.prev_page == l.prev_page && b.prev_page == Some(pid)
            &&& l.rightlink matches Some(r) ==> t2.nodes[r]->Leaf_0.prev_page == Some(new)
                && t2.nodes[r]->Leaf_0.entries == t.nodes[r]->Leaf_0.entries
            &&& a.incomplete_split && b.incomplete_split == l.incomplete_split
            &&& a.page_id == l.page_id && b.page_id == new
        }),
{
    K::le_laws();
    let l = t.nodes[pid]->Leaf_0;
    let a = t2.nodes[pid]->Leaf_0;
    let b = t2.nodes[new]->Leaf_0;
    assert(a.entries + b.entries =~= l.entries);
    assert forall|i: int| 0 <= i < a.entries.len() implies K::le(
        (#[trigger] a.entries[i]).key,
        sep,
    ) by {
        assert(K::le(l.entries[i].key, l.entries[mid].key));
    }
    assert forall|i: int| 0 <= i < b.entries.len() implies K::le(
        sep,
        (#[trigger] b.entries[i]).key,
    ) by {
        assert(K::le(l.entries[mid].key, l.entries[mid + i].key));
    }
}

/// Where separators are cut, both halves fit a page of 4096 bytes: a header of 48 bytes, the
/// high key, and ten bytes and the key for each separator. They are cut in the middle where
/// that fits.
pub proof fn law_internal_halves_fit(v: InternalView, keys: Seq<Seq<u8>>, mid: int)
    requires
        halved(v, keys, mid),
    ensures
        0 <= mid < keys.len(),
        48 + keys[mid].len() + separators_size(keys.subrange(0, mid)) <= 4096,
        48 + (if v.high_key is Some {
            v.high_key->0.len() as int
        } else {
            0
        }) + separators_size(keys.subrange(mid + 1, keys.len() as int)) <= 4096,
        ({
            let m = keys.len() as int / 2;
            48 + keys[m].len() + separators_size(keys.subrange(0, m)) <= 4096 && 48 + (
            if v.high_key is Some {
                v.high_key->0.len() as int
            } else {
                0
            }) + separators_size(keys.subrange(m + 1, keys.len() as int)) <= 4096 ==> mid == m
        }),
{
}

/// A separator that enters a page stands where it entered, with its child right of it, and
/// all others in the order in which they were.
pub proof fn law_separators_enter_with_their_child(
    v: InternalView,
    idx: int,
    sep: Seq<u8>,
    right: u64,
    i: int,
)
    requires
        0 <= idx <= v.keys.len(),
        v.children.len() == v.keys.len() + 1,
        0 <= i < v.keys.len(),
    ensures
        widened(v, idx, sep, right).keys[idx] == sep,
        widened(v, idx, sep, right).children[idx + 1] == right,
        widened(v, idx, sep, right).children[0] == v.children[0],
        widened(v, idx, sep, right).keys[if i < idx {
            i
        } else {
            i + 1
        }] == v.keys[i],
        widened(v, idx, sep, right).children[if i < idx {
            i + 1
        } else {
            i + 2
        }] == v.children[i + 1],
{
}

} // verus!
