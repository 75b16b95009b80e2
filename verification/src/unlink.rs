//! Taking empty leaves out of the tree.

use vstd::prelude::*;

use crate::change::{
    all_fit, apply_all, change_views, lemma_changed_wf, Change, ChangeView, PageChange, Pages,
};
use crate::chronicle::{calm, lemma_present};
use crate::downlinks::{
    downs, kids_of, laced, lemma_laced_put, lemma_laced_unlink, lemma_one_place, lemma_root_alone,
    tied,
};
use crate::index::{ancestor, lemma_page, stack_at, BTreeIndex, SYSTEM_TXN_ID};
use crate::index_edit::{flagged, flags};
use crate::index_write::{lemma_flags_finite, lemma_work_large, lemma_work_shrinks, lemma_work_step};
use crate::key::{Key, KeyOrder};
use crate::log_codec::loggable;
use crate::node::{InternalPage, InternalView, LeafView, Node, NodeView};
use crate::smo::{kept_below, lemma_internal_count, lemma_kept_trans, lemma_kept_weaker};
use crate::store::{all_used, lemma_more_changes, used_after};
use crate::trace::carries_on;
use crate::transaction_manager::TransactionManager;
use crate::tree_spec::{
    bound_le, child_ok, children_ok, lemma_lows_monotone, lemma_put_leaf, lemma_unlink,
    neighbours_ok, put, records_ok, unlink, unlink_nodes, Tree,
};
use crate::wal::WalRecordType;

verus! {

/// The children of the `k`-th page above the leaves.
pub open spec fn parents_children(t: Tree, k: int) -> Seq<u64> {
    t.nodes[t.page(1, k)]->Internal_0.children
}

/// Whether the `j`-th child of the `k`-th page above the leaves is `leaf`.
pub open spec fn downlink(t: Tree, leaf: u64, k: int, j: int) -> bool {
    &&& t.valid(1, k)
    &&& 0 <= j < parents_children(t, k).len()
    &&& parents_children(t, k)[j] == leaf
}

/// Whether that is the only downlink of `leaf`.
pub open spec fn only_downlink(t: Tree, leaf: u64, k: int, j: int) -> bool {
    &&& downlink(t, leaf, k, j)
    &&& forall|a: int, b: int| #[trigger] downlink(t, leaf, a, b) ==> a == k && b == j
}

/// Whether an only downlink can go: its page keeps a child, and when the first
/// child goes the next leaf takes its place.
pub open spec fn spare(t: Tree, leaf: u64, k: int, j: int) -> bool {
    &&& only_downlink(t, leaf, k, j)
    &&& parents_children(t, k).len() >= 2
    &&& j >= 1 || t.nodes[leaf].rightlink() == Some(parents_children(t, k)[1])
}

/// Whether an empty leaf can leave the tree. One whose split is incomplete cannot:
/// its flag stands for the downlink that its right neighbour lacks.
pub open spec fn removable(t: Tree, leaf: u64) -> bool {
    &&& t.levels.len() >= 2
    &&& t.nodes[leaf]->Leaf_0.entries.len() == 0
    &&& !flagged(t.nodes[leaf])
    &&& exists|k: int, j: int| #[trigger] spare(t, leaf, k, j)
}

impl<K: Key> BTreeIndex<K> {
    /// The first page of the level above the leaves, if there is one.
    fn leftmost_parent(&mut self) -> (r: Option<u64>)
        requires
            old(self).wf(),
        ensures
            final(self).wf(),
            final(self).same(old(self)),
            r is Some <==> old(self).levels@.len() >= 2,
            r matches Some(p) ==> p == old(self).tree().page(1, 0),
    {
        let ghost t = self.tree();
        let ghost mut h: int = t.levels.len() - 1;
        let mut pid: u64 = self.root;
        proof {
            assert(t.levels[h].len() >= 1);
            assert(t.valid(h, 0));
        }
        loop
            invariant
                self.wf(),
                self.same(old(self)),
                self.tree() == t,
                t == old(self).tree(),
                0 <= h < t.levels.len(),
                t.levels.len() >= 2 ==> h >= 1,
                t.valid(h, 0),
                t.page(h, 0) == pid,
            decreases h,
        {
            proof {
                assert(t.page_ok::<K>(h, 0));
            }
            match self.store.load(pid) {
                Node::Leaf(_) => {
                    return None;
                },
                Node::Internal(p) => {
                    let child: u64 = p.children[0];
                    let ghost i;
                    proof {
                        reveal(children_ok);
                        assert(t.internal_ok::<K>(h, p@));
                        let _ = p@.children[0];
                        assert(child_ok::<K>(t.levels[h - 1], t.lows, p@, 0));
                        i = lemma_page::<K>(t, h - 1, child);
                        self.lemma_first(h - 1, i, p@, h);
                    }
                    match self.store.load(child) {
                        Node::Leaf(_) => {
                            return Some(pid);
                        },
                        Node::Internal(_) => {
                            proof {
                                h = h - 1;
                            }
                            pid = child;
                        },
                    }
                },
            }
        }
    }

    /// The first child of the first page of a level is the first of its own.
    pub proof fn lemma_first(&self, g: int, i: int, p: InternalView, h: int)
        requires
            self.tree().wf::<K>(),
            h == g + 1,
            1 <= h < self.tree().levels.len(),
            self.tree().valid(h, 0),
            self.tree().nodes[self.tree().page(h, 0)] == NodeView::Internal(p),
            self.tree().valid(g, i),
            p.children.len() >= 1,
            self.tree().page(g, i) == p.children[0],
            child_ok::<K>(self.tree().levels[g], self.tree().lows, p, 0),
        ensures
            i == 0,
            self.tree().valid(g, 0),
    {
        let t = self.tree();
        assert(t.page_ok::<K>(h, 0));
        assert(t.page_ok::<K>(g, i));
        assert(t.linked(h, 0) && t.linked(g, i));
        if i > 0 {
            assert(t.valid(g, i - 1));
            assert(t.page_ok::<K>(g, i - 1));
            assert(t.linked(g, i - 1));
        }
    }

    /// The only downlink of a leaf: the page that holds it and the index there.
    /// `None` if the leaf has none or several.
    fn find_downlink(&mut self, leaf: u64) -> (r: Option<(InternalPage, usize)>)
        requires
            old(self).wf(),
        ensures
            final(self).wf(),
            final(self).same(old(self)),
            r is None ==> forall|k: int, j: int| !(#[trigger] only_downlink(
                old(self).tree(),
                leaf,
                k,
                j,
            )),
            r matches Some((p, j)) ==> {
                &&& old(self).levels@.len() >= 2
                &&& old(self).levels@[1].contains(p@.page_id)
                &&& old(self).tree().nodes[p@.page_id] == NodeView::Internal(p@)
                &&& p@.wf()
                &&& forall|k: int|
                    old(self).tree().valid(1, k) && #[trigger] old(self).tree().page(1, k)
                        == p@.page_id ==> only_downlink(old(self).tree(), leaf, k, j as int)
            },
    {
        let ghost t = self.tree();
        let first = self.leftmost_parent();
        if first.is_none() {
            return None;
        }
        let mut pid: u64 = first.unwrap();
        let ghost mut m: int = 0;
        let mut found: Option<(InternalPage, usize)> = None;
        let ghost mut at: int = 0;
        proof {
            assert(t.levels[1].len() >= 1);
        }
        loop
            invariant
                self.wf(),
                self.same(old(self)),
                self.tree() == t,
                t == old(self).tree(),
                t.levels.len() >= 2,
                t.valid(1, m),
                t.page(1, m) == pid,
                found is None ==> forall|a: int, b: int| #[trigger]
                    downlink(t, leaf, a, b) ==> a >= m,
                found matches Some((p, j)) ==> {
                    &&& 0 <= at < m
                    &&& t.page(1, at) == p@.page_id
                    &&& t.nodes[p@.page_id] == NodeView::Internal(p@)
                    &&& p@.wf()
                    &&& downlink(t, leaf, at, j as int)
                    &&& forall|a: int, b: int| #[trigger]
                        downlink(t, leaf, a, b) ==> a >= m || (a == at && b == j)
                },
            decreases t.levels[1].len() - m,
        {
            proof {
                assert(t.page_ok::<K>(1, m));
                assert(t.linked(1, m));
            }
            let p = match self.store.load(pid) {
                Node::Internal(p) => p,
                Node::Leaf(_) => vstd::pervasive::unreached(),
            };
            let next = p.rightlink;
            let ghost pv = p@;
            let mut here: Option<usize> = None;
            let mut i: usize = 0;
            while i < p.children.len()
                invariant
                    self.wf(),
                    self.same(old(self)),
                    t == old(self).tree(),
                    i <= p.children@.len(),
                    p@ == pv,
                    t.valid(1, m),
                    t.nodes[t.page(1, m)] == NodeView::Internal(pv),
                    here is None ==> forall|b: int| 0 <= b < i ==> p.children@[b] != leaf,
                    here matches Some(j) ==> j < i && p.children@[j as int] == leaf && forall|b: int|
                        0 <= b < i && b != j ==> p.children@[b] != leaf,
                decreases p.children.len() - i,
            {
                if p.children[i] == leaf {
                    if here.is_some() {
                        proof {
                            assert(downlink(t, leaf, m, here->0 as int));
                            assert(downlink(t, leaf, m, i as int));
                        }
                        return None;
                    }
                    here = Some(i);
                }
                i = i + 1;
            }
            if let Some(j) = here {
                proof {
                    assert(downlink(t, leaf, m, j as int));
                }
                if found.is_some() {
                    proof {
                        assert(downlink(t, leaf, at, (found->0).1 as int));
                    }
                    return None;
                }
                found = Some((p, j));
                proof {
                    at = m;
                }
            }
            proof {
                assert forall|a: int, b: int| #[trigger] downlink(t, leaf, a, b) implies a >= m + 1
                    || (found matches Some((p, j)) && a == at && b == j) by {
                    if a == m {
                        assert(pv.children[b] == leaf);
                    }
                }
            }
            match next {
                Some(right) => {
                    proof {
                        assert(t.valid(1, m + 1));
                        m = m + 1;
                    }
                    pid = right;
                },
                None => {
                    proof {
                        assert(t.levels[1].len() == m + 1);
                        if found is Some {
                            let p = (found->0).0;
                            let j = (found->0).1;
                            assert(t.levels[1][at] == p@.page_id);
                            assert(only_downlink(t, leaf, at, j as int));
                            assert forall|k: int|
                                t.valid(1, k) && #[trigger] t.page(1, k)
                                    == p@.page_id implies only_downlink(t, leaf, k, j as int) by {
                                assert(t.page(1, k) == t.page(1, at));
                            }
                        }
                    }
                    return found;
                },
            }
        }
    }
}

/// A separator page without the downlink at index `j`.
pub open spec fn narrowed(v: InternalView, j: int) -> InternalView {
    InternalView {
        keys: v.keys.remove(if j == 0 {
            0
        } else {
            j - 1
        }),
        children: v.children.remove(j),
        ..v
    }
}

/// The children that stay are in place when the leaf at index `i` leaves.
proof fn lemma_narrowed_ok<K: Key>(
    t: Tree,
    t2: Tree,
    i: int,
    k: int,
    j: int,
    v: InternalView,
    w: InternalView,
)
    requires
        t.wf::<K>(),
        t.valid(0, i),
        spare(t, t.page(0, i), k, j),
        t.nodes[t.page(1, k)] == NodeView::Internal(v),
        w == (InternalView { lsn: w.lsn, ..narrowed(v, j) }),
        t2.levels.len() == t.levels.len(),
        t2.levels[0] == t.levels[0].remove(i),
        t2.lows == (if i + 1 < t.levels[0].len() {
            t.lows.insert(t.page(0, i + 1), t.lows[t.page(0, i)])
        } else {
            t.lows
        }),
        i + 1 < t.levels[0].len() ==> bound_le::<K>(
            t.lows[t.page(0, i)],
            t.lows[t.page(0, i + 1)],
        ),
    ensures
        t2.internal_ok::<K>(1, w),
{
    reveal(children_ok);
    K::le_laws();
    let p = t.page(0, i);
    assert(t.page_ok::<K>(0, i));
    assert(t.page_ok::<K>(1, k));
    assert(t.linked(0, i));
    assert(t.internal_ok::<K>(1, v));
    let c = t.levels[0];
    let c2 = t2.levels[0];
    let r = if j == 0 {
        0int
    } else {
        j - 1
    };
    assert forall|a: int, b: int| 0 <= a <= b < w.keys.len() implies K::le(
        #[trigger] w.keys[a],
        #[trigger] w.keys[b],
    ) by {
        let a0 = if a >= r {
            a + 1
        } else {
            a
        };
        let b0 = if b >= r {
            b + 1
        } else {
            b
        };
        assert(w.keys[a] == v.keys[a0] && w.keys[b] == v.keys[b0]);
    }
    assert forall|x: int| 0 <= x < w.children.len() implies {
        let _ = #[trigger] w.children[x];
        child_ok::<K>(c2, t2.lows, w, x)
    } by {
        let x0 = if x >= j {
            x + 1
        } else {
            x
        };
        let cc = v.children[x0];
        assert(w.children[x] == cc);
        assert(child_ok::<K>(c, t.lows, v, x0));
        assert(cc != p) by {
            if cc == p {
                assert(downlink(t, p, k, x0));
            }
        }
        let z = choose|z: int| 0 <= z < c.len() && c[z] == cc;
        assert(c2[if z > i { z - 1 } else { z }] == cc);
        assert(t.page(1, k) != t.page(0, z)) by {
            assert(t.valid(0, z));
        }
        if i + 1 < c.len() {
            assert(t.valid(0, i + 1));
            assert(t.page(1, k) != t.page(0, i + 1));
        }
        assert(bound_le::<K>(t2.lows[cc], t.lows[cc]));
        if x == 0 {
            if j == 0 {
                assert(cc == v.children[1]);
                assert(t.nodes[p].rightlink() == Some(cc));
                assert(i + 1 < c.len() && c[i + 1] == cc);
                let _ = v.children[0];
                assert(child_ok::<K>(c, t.lows, v, 0));
            }
        } else {
            let r0 = if x - 1 >= r {
                x
            } else {
                x - 1
            };
            assert(w.keys[x - 1] == v.keys[r0]);
            assert(r0 == x0 - 1);
        }
    }
}

impl<K: Key> BTreeIndex<K> {
    /// Walks down towards the leaf below `high`, completing splits on the way.
    #[verifier::rlimit(30)]
    fn descend_to_high(&mut self, high: &Option<Vec<u8>>)
        requires
            old(self).wf(),
            old(self).store.budget() >= old(self).work() + 4,
        ensures
            final(self).wf(),
            carries_on(old(self).store.log(), final(self).store.log(), 0),
            calm(old(self).past@, final(self).past@),
            final(self).store.budget() - final(self).work() >= old(self).store.budget() - old(
                self,
            ).work(),
            final(self).work() <= old(self).work(),
            final(self).incomplete <= old(self).incomplete,
            final(self).records() == old(self).records(),
            final(self).store.pages().chunks == old(self).store.pages().chunks,
            final(self).chains@ == old(self).chains@,
            final(self).pending_recycle@ == old(self).pending_recycle@,
            kept_below(old(self).tree(), final(self).tree(), 0),
            flags(old(self).tree().nodes) == Set::<u64>::empty() ==> final(self).same(old(self)),
    {
        let ghost t0 = self.tree();
        let mut stack: Vec<u64> = Vec::new();
        let mut pid: u64 = self.root;
        let ghost mut h: int = self.levels@.len() - 1;
        let ghost mut i: int = 0;
        proof {
            self.store.lemma_wf();
            lemma_present::<K>(*self);
            lemma_flags_finite(self.tree().nodes);
            self.lemma_root();
        }
        loop
            invariant
                self.wf(),
                carries_on(old(self).store.log(), self.store.log(), 0),
                calm(old(self).past@, self.past@),
                old(self).store.budget() >= old(self).work() + 4,
                self.store.budget() - self.work() >= old(self).store.budget() - old(self).work(),
                flags(self.tree().nodes).len() <= flags(t0.nodes).len(),
                self.incomplete <= old(self).incomplete,
                self.levels@.len() + flags(self.tree().nodes).len() <= t0.levels.len() + flags(
                    t0.nodes,
                ).len(),
                t0 == old(self).tree(),
                self.records() == old(self).records(),
                self.store.pages().chunks == old(self).store.pages().chunks,
                self.chains@ == old(self).chains@,
                self.pending_recycle@ == old(self).pending_recycle@,
                kept_below(t0, self.tree(), 0),
                flags(t0.nodes) == Set::<u64>::empty() ==> self.same(old(self)),
                pid == self.root || self.levels@.last().len() == 1,
                self.tree().valid(h, i),
                self.tree().page(h, i) == pid,
                stack@.len() == self.levels@.len() - 1 - h,
                stack_at(self.tree(), stack@, h),
                flags(self.tree().nodes).finite(),
            decreases flags(self.tree().nodes).len(), h, self.levels@[h].len() - i,
        {
            let ghost t = self.tree();
            proof {
                assert(t.page_ok::<K>(h, i));
                assert(t.levels[h][i] == pid);
                assert(t.linked(h, i));
            }
            let node = self.store.load(pid);
            assert(self.tree() == t);
            let flag = match &node {
                Node::Leaf(l) => l.incomplete_split,
                Node::Internal(p) => p.incomplete_split,
            };
            if flag {
                let ghost f = flags(t.nodes);
                assert(f.contains(pid));
                proof {
                    lemma_work_large(t.levels.len(), f.len());
                }
                self.finish_split(Ghost(h), pid, &stack);
                proof {
                    let f2 = flags(self.tree().nodes);
                    assert(f2.len() + 1 <= f.len());
                    lemma_kept_weaker(t, self.tree(), h, 0);
                    lemma_kept_trans(t0, t, self.tree(), 0);
                    lemma_work_step(t.levels.len(), f.len(), self.levels@.len(), f2.len());
                    h = self.levels@.len() - 1;
                    i = 0;
                    self.lemma_root();
                }
                stack = Vec::new();
                pid = self.root;
                continue;
            }
            proof {
                if pid == t.root {
                    lemma_root_alone::<K>(t);
                }
            }
            match node {
                Node::Internal(p) => {
                    let go_right = match (high, &p.high_key) {
                        (Some(hk), Some(node_hk)) => match K::compare(
                            hk.as_slice(),
                            node_hk.as_slice(),
                        ) {
                            KeyOrder::Greater => true,
                            _ => false,
                        },
                        (None, _) => p.rightlink.is_some(),
                        (_, None) => false,
                    };
                    if go_right {
                        let next: u64 = p.rightlink.unwrap();
                        proof {
                            assert(t.valid(h, i + 1));
                            i = i + 1;
                        }
                        pid = next;
                        continue;
                    }
                    let child_idx: usize = match high {
                        Some(hk) => p.first_not_below::<K>(hk.as_slice()),
                        None => p.keys.len(),
                    };
                    let child: u64 = p.children[child_idx];
                    let ghost above = stack@;
                    stack.push(pid);
                    proof {
                        assert forall|k: int| 0 <= k < stack@.len() implies #[trigger] ancestor(
                            t,
                            stack@,
                            h - 1,
                            k,
                        ) by {
                            if k < above.len() {
                                assert(ancestor(t, above, h, k));
                                assert(stack@[k] == above[k]);
                            }
                        }
                        reveal(children_ok);
                        assert(t.internal_ok::<K>(h, p@));
                        let _ = p@.children[child_idx as int];
                        assert(child_ok::<K>(t.levels[h - 1], t.lows, p@, child_idx as int));
                        h = h - 1;
                        i = lemma_page::<K>(t, h, child);
                    }
                    pid = child;
                },
                Node::Leaf(_) => {
                    proof {
                        lemma_work_shrinks(
                            t0.levels.len(),
                            flags(t0.nodes).len(),
                            t.levels.len(),
                            flags(t.nodes).len(),
                        );
                    }
                    return;
                },
            }
        }
    }
}

impl InternalPage {
    /// The index of the first separator that is not below `key`.
    fn first_not_below<K: Key>(&self, key: &[u8]) -> (r: usize)
        ensures
            r <= self@.keys.len(),
            forall|i: int| 0 <= i < r ==> !K::le(key@, #[trigger] self@.keys[i]),
            r < self@.keys.len() ==> K::le(key@, self@.keys[r as int]),
    {
        let mut i: usize = 0;
        while i < self.keys.len()
            invariant
                i <= self.keys@.len(),
                forall|k: int| 0 <= k < i ==> !K::le(key@, #[trigger] self@.keys[k]),
            decreases self.keys.len() - i,
        {
            assert(self@.keys[i as int] == self.keys@[i as int]@);
            match K::compare(self.keys[i].as_slice(), key) {
                KeyOrder::Less => {},
                _ => {
                    return i;
                },
            }
            i = i + 1;
        }
        i
    }
}

/// The changes that take a leaf out of the tree.
pub open spec fn unlink_changes(
    left: Option<u64>,
    right: Option<u64>,
    parent: u64,
    j: int,
) -> Seq<(u64, ChangeView)> {
    let none = Seq::<(u64, ChangeView)>::empty();
    let a = match left {
        Some(p) => none.push((p, ChangeView::SetRightlink(right))),
        None => none,
    };
    let b = match right {
        Some(p) => a.push((p, ChangeView::SetPrev(left))),
        None => a,
    };
    b.push((parent, unlink_parent(j)))
}

/// The change to the page above a leaf that goes.
pub open spec fn unlink_parent(j: int) -> ChangeView {
    ChangeView::RemoveKey {
        at: (if j == 0 {
            0
        } else {
            j - 1
        }) as u16,
        keep_right: j == 0,
    }
}

/// The left neighbour of the leaf at index `i` after that has gone.
pub open spec fn left_after(t: Tree, i: int, lsn: u64) -> Option<LeafView> {
    if i > 0 {
        Some(
            LeafView {
                rightlink: t.leaf(i).rightlink,
                high_key: if t.leaf(i).rightlink is None {
                    None
                } else {
                    t.leaf(i - 1).high_key
                },
                lsn,
                ..t.leaf(i - 1)
            },
        )
    } else {
        None
    }
}

/// The right neighbour of the leaf at index `i` after that has gone.
pub open spec fn right_after(t: Tree, i: int, lsn: u64) -> Option<LeafView> {
    if i + 1 < t.levels[0].len() {
        Some(LeafView { prev_page: t.leaf(i).prev_page, lsn, ..t.leaf(i + 1) })
    } else {
        None
    }
}

/// The changes that take a leaf out of the tree make one record.
proof fn lemma_unlink_loggable<K: Key>(t: Tree, i: int, k: int, j: int)
    requires
        t.wf::<K>(),
        t.valid(0, i),
        t.valid(1, k),
    ensures
        loggable(
            WalRecordType::UnlinkPage,
            unlink_changes(t.leaf(i).prev_page, t.leaf(i).rightlink, t.page(1, k), j),
        ),
{
    let left = t.leaf(i).prev_page;
    let right = t.leaf(i).rightlink;
    assert(t.page_ok::<K>(0, i));
    assert(t.linked(0, i));
    if let Some(q) = left {
        assert(t.valid(0, i - 1));
        assert(t.page_ok::<K>(0, i - 1));
        assert(t.page(0, i - 1) == q);
        assert(t.page(0, i - 1) != t.page(1, k));
    }
    if let Some(q) = right {
        assert(t.valid(0, i + 1));
        assert(t.page_ok::<K>(0, i + 1));
        assert(t.page(0, i + 1) == q);
        if left is Some {
            assert(t.page(0, i + 1) != t.page(0, i - 1));
        }
        assert(t.page(0, i + 1) != t.page(1, k));
    }
}

/// What the changes that take a leaf out of the tree do to the pages.
#[verifier::rlimit(40)]
proof fn lemma_unlink_pages<K: Key>(
    t: Tree,
    p: Pages,
    used: Set<u64>,
    i: int,
    k: int,
    j: int,
    w: InternalView,
    lsn: u64,
)
    requires
        t.wf::<K>(),
        p.nodes == t.nodes,
        forall|id: u64| #[trigger] p.nodes.contains_key(id) ==> used.contains(id),
        t.valid(0, i),
        t.valid(1, k),
        spare(t, t.page(0, i), k, j),
        w == (InternalView { lsn, ..narrowed(t.nodes[t.page(1, k)]->Internal_0, j) }),
    ensures
        ({
            let cs = unlink_changes(t.leaf(i).prev_page, t.leaf(i).rightlink, t.page(1, k), j);
            &&& all_fit(p, cs, lsn)
            &&& all_used(used, cs)
            &&& apply_all(p, cs, lsn) == (Pages {
                nodes: unlink_nodes(t.nodes, w, left_after(t, i, lsn), right_after(t, i, lsn)),
                ..p
            })
            &&& used_after(used, cs) == used
        }),
{
    let left = t.leaf(i).prev_page;
    let right = t.leaf(i).rightlink;
    let parent = t.page(1, k);
    let v = t.nodes[parent]->Internal_0;
    assert(t.page_ok::<K>(0, i));
    assert(t.page_ok::<K>(1, k));
    assert(t.linked(0, i));
    lemma_internal_count(v);
    let none = Seq::<(u64, ChangeView)>::empty();
    let a = match left {
        Some(q) => none.push((q, ChangeView::SetRightlink(right))),
        None => none,
    };
    let b = match right {
        Some(q) => a.push((q, ChangeView::SetPrev(left))),
        None => a,
    };
    assert(apply_all(p, none, lsn) == p);
    assert(all_fit(p, none, lsn));
    assert(used_after(used, none) == used);
    assert(all_used(used, none));
    if let Some(q) = left {
        assert(t.valid(0, i - 1));
        assert(t.page_ok::<K>(0, i - 1));
        assert(t.page(0, i - 1) == q);
        lemma_more_changes(p, used, none, q, ChangeView::SetRightlink(right), lsn);
        assert(t.page(0, i - 1) != t.page(1, k));
    }
    if let Some(q) = right {
        assert(t.valid(0, i + 1));
        assert(t.page_ok::<K>(0, i + 1));
        assert(t.page(0, i + 1) == q);
        if left is Some {
            assert(t.page(0, i + 1) != t.page(0, i - 1));
        }
        lemma_more_changes(p, used, a, q, ChangeView::SetPrev(left), lsn);
        assert(t.page(0, i + 1) != t.page(1, k));
    }
    lemma_more_changes(p, used, b, parent, unlink_parent(j), lsn);
    let cs = unlink_changes(left, right, parent, j);
    assert(apply_all(p, cs, lsn).nodes =~= unlink_nodes(
        t.nodes,
        w,
        left_after(t, i, lsn),
        right_after(t, i, lsn),
    ));
}

/// Taking an empty leaf with a spare downlink out keeps the tree well-formed and
/// its records.
#[verifier::rlimit(40)]
proof fn lemma_unlink_all<K: Key>(t: Tree, i: int, k: int, j: int, w: InternalView, lsn: u64)
    requires
        t.wf::<K>(),
        t.valid(0, i),
        t.valid(1, k),
        t.leaf(i).entries.len() == 0,
        spare(t, t.page(0, i), k, j),
        w == (InternalView { lsn, ..narrowed(t.nodes[t.page(1, k)]->Internal_0, j) }),
    ensures
        ({
            let t3 = unlink(t, i, w, left_after(t, i, lsn), right_after(t, i, lsn));
            &&& t3.wf::<K>()
            &&& t3.records() == t.records()
            &&& !t3.levels[0].contains(t.page(0, i))
            &&& t3.levels[0].len() + 1 == t.levels[0].len()
        }),
{
    let leaf_pid = t.page(0, i);
    let left2 = left_after(t, i, lsn);
    let right2 = right_after(t, i, lsn);
    let t3 = unlink(t, i, w, left2, right2);
    let chain = t.levels[0];
    let v = t.nodes[t.page(1, k)]->Internal_0;
    assert(t.page_ok::<K>(0, i));
    assert(t.page_ok::<K>(1, k));
    assert(t.linked(0, i));
    if i > 0 {
        assert(t.valid(0, i - 1));
        assert(t.page_ok::<K>(0, i - 1));
        assert(t.linked(0, i - 1));
    }
    assert(neighbours_ok(t, i, left2, right2));
    assert(w.wf()) by {
        let at = if j == 0 {
            0
        } else {
            j - 1
        };
        lemma_internal_count(v);
        lemma_changed_wf(NodeView::Internal(v), unlink_parent(j));
    }
    if i + 1 < chain.len() {
        lemma_lows_monotone::<K>(t, i, i + 1);
    }
    lemma_narrowed_ok::<K>(t, t3, i, k, j, v, w);
    assert(chain.len() >= 2) by {
        let other = if j == 0 {
            1int
        } else {
            0int
        };
        assert(t.internal_ok::<K>(1, v));
        reveal(children_ok);
        let _ = v.children[other];
        assert(child_ok::<K>(chain, t.lows, v, other));
        let z = choose|z: int| 0 <= z < chain.len() && chain[z] == v.children[other];
        if v.children[other] == leaf_pid {
            assert(downlink(t, leaf_pid, k, other));
        }
        assert(chain[i] == leaf_pid);
    }
    assert forall|m: int| 0 <= m < t.levels[1].len() && m != k implies !(#[trigger] t.nodes[t.page(
        1,
        m,
    )]->Internal_0).children.contains(t.page(0, i)) by {
        let ch = t.nodes[t.page(1, m)]->Internal_0.children;
        if ch.contains(leaf_pid) {
            let b = choose|b: int| 0 <= b < ch.len() && ch[b] == leaf_pid;
            assert(downlink(t, leaf_pid, m, b));
        }
    }
    lemma_unlink::<K>(t, i, k, w, left2, right2);
    if t3.levels[0].contains(leaf_pid) {
        let lev = t3.levels[0];
        let z = choose|z: int| 0 <= z < lev.len() && lev[z] == leaf_pid;
        let z0 = if z >= i {
            z + 1
        } else {
            z
        };
        assert(t.valid(0, z0));
        assert(t.page(0, z0) == t.page(0, i));
    }
}

/// Whether a leaf left the tree: it was at index `i` of the chain, the `j`-th child of
/// the `k`-th page above. That page lost this child and the separator next to it, the
/// neighbours are linked to each other, and every other page is as it was.
pub open spec fn spliced(t: Tree, t2: Tree, leaf: u64, i: int, k: int, j: int) -> bool {
    let parent = t.page(1, k);
    let lsn = t2.nodes[parent]->Internal_0.lsn;
    &&& t.valid(0, i)
    &&& t.page(0, i) == leaf
    &&& spare(t, leaf, k, j)
    &&& t2.levels == t.levels.update(0, t.levels[0].remove(i))
    &&& t2.nodes[parent] == NodeView::Internal(
        InternalView { lsn, ..narrowed(t.nodes[parent]->Internal_0, j) },
    )
    &&& left_after(t, i, lsn) matches Some(l) ==> t2.nodes[t.page(0, i - 1)] == NodeView::Leaf(l)
    &&& right_after(t, i, lsn) matches Some(r) ==> t2.nodes[t.page(0, i + 1)] == NodeView::Leaf(r)
    &&& forall|p: u64|
        p != leaf && p != parent && !(i > 0 && p == t.page(0, i - 1)) && !(i + 1
            < t.levels[0].len() && p == t.page(0, i + 1)) ==> (#[trigger] t2.nodes.contains_key(p))
            == t.nodes.contains_key(p) && t2.nodes[p] == t.nodes[p]
}

/// What becomes of a leaf that is to leave the tree. If it stays, it could not go, and
/// nothing has changed but that splits have been completed and a mark cleared; if it goes,
/// it was empty, and its page waits to be used again until the horizon has passed.
pub open spec fn leaf_deleted<K: Key>(
    before: BTreeIndex<K>,
    after: BTreeIndex<K>,
    leaf: u64,
    horizon: u64,
) -> bool {
    if after.levels@[0].contains(leaf) {
        &&& !removable(after.tree(), leaf)
        &&& !after.tree().nodes[leaf]->Leaf_0.half_dead
        &&& after.levels@[0] == before.levels@[0]
        &&& after.pending_recycle@ == before.pending_recycle@
        &&& flags(before.tree().nodes) == Set::<u64>::empty() ==> !removable(before.tree(), leaf)
        &&& flags(before.tree().nodes) == Set::<u64>::empty()
            && !before.tree().nodes[leaf]->Leaf_0.half_dead ==> after.same(&before)
    } else {
        &&& before.tree().nodes[leaf]->Leaf_0.entries.len() == 0
        &&& exists|i: int|
            0 <= i < before.levels@[0].len() && #[trigger] before.levels@[0][i] == leaf
                && after.levels@[0] == before.levels@[0].remove(i)
        &&& after.pending_recycle@ == before.pending_recycle@.push((leaf, horizon))
        &&& exists|t: Tree, i: int, k: int, j: int|
            {
                &&& #[trigger] spliced(t, after.tree(), leaf, i, k, j)
                &&& kept_below(before.tree(), t, 0)
                &&& flags(before.tree().nodes) == Set::<u64>::empty() ==> t == before.tree()
            }
    }
}

/// An empty leaf goes: where no split is incomplete, a leaf without records that has both
/// neighbours, and that the page above names beside another child, leaves the tree. Its
/// neighbours are linked to each other, and the page above loses this child and the
/// separator next to it, the others staying in order. The one such leaf that stays is the
/// first child of its page where the next child is not its right neighbour.
pub proof fn law_empty_leaves_go<K: Key>(
    before: BTreeIndex<K>,
    after: BTreeIndex<K>,
    horizon: u64,
    i: int,
    k: int,
    j: int,
)
    requires
        before.wf(),
        flags(before.tree().nodes) == Set::<u64>::empty(),
        before.tree().valid(0, i),
        0 < i,
        i + 1 < before.levels@[0].len(),
        before.tree().leaf(i).entries.len() == 0,
        downlink(before.tree(), before.tree().page(0, i), k, j),
        parents_children(before.tree(), k).len() >= 2,
        j == 0 ==> parents_children(before.tree(), k)[1] == before.tree().page(0, i + 1),
    ensures
        removable(before.tree(), before.tree().page(0, i)),
        leaf_deleted(before, after, before.tree().page(0, i), horizon) ==> {
            let t = before.tree();
            let t2 = after.tree();
            let parent = t.nodes[t.page(1, k)]->Internal_0;
            let parent2 = t2.nodes[t.page(1, k)]->Internal_0;
            &&& t2.levels[0] == t.levels[0].remove(i)
            &&& t2.nodes[t.page(0, i - 1)].rightlink() == Some(t.page(0, i + 1))
            &&& t2.nodes[t.page(0, i + 1)]->Leaf_0.prev_page == Some(t.page(0, i - 1))
            &&& parent2.children == parent.children.remove(j)
            &&& parent2.keys == parent.keys.remove(
                if j == 0 {
                    0
                } else {
                    j - 1
                },
            )
            &&& after.pending_recycle@ == before.pending_recycle@.push((t.page(0, i), horizon))
        },
{
    let t = before.tree();
    let leaf = t.page(0, i);
    reveal(laced);
    assert(tied(t, 0, i));
    assert(t.page_ok::<K>(0, i));
    assert(t.linked(0, i));
    assert(t.valid(0, i - 1) && t.valid(0, i + 1));
    assert(t.page_ok::<K>(0, i - 1) && t.page_ok::<K>(0, i + 1));
    assert(t.page_ok::<K>(1, k));
    assert(t.linked(0, i - 1) && t.linked(0, i + 1));
    if flagged(t.nodes[t.page(0, i - 1)]) {
        assert(flags(t.nodes).contains(t.page(0, i - 1)));
    }
    if flagged(t.nodes[leaf]) {
        assert(flags(t.nodes).contains(leaf));
    }
    assert(downs(t, 0, leaf) == 1);
    assert forall|a: int, b: int| #[trigger] downlink(t, leaf, a, b) implies a == k && b == j by {
        assert(t.page_ok::<K>(1, a));
        lemma_one_place(t, 0, leaf, k, j, a, b);
    }
    assert(spare(t, leaf, k, j));
    if leaf_deleted(before, after, leaf, horizon) {
        let (s, x, a, b) = choose|s: Tree, x: int, a: int, b: int|
            {
                &&& #[trigger] spliced(s, after.tree(), leaf, x, a, b)
                &&& kept_below(t, s, 0)
                &&& flags(t.nodes) == Set::<u64>::empty() ==> s == t
            };
        assert(s == t);
        assert(t.page(0, x) == t.page(0, i));
        assert(spare(t, leaf, a, b));
        assert(downlink(t, leaf, a, b));
    }
}

/// The outermost leaves go as well: where no split is incomplete, the first or the last leaf,
/// if it has no records and the page above names it beside another child, leaves the tree,
/// and the one next to it becomes the outermost.
pub proof fn law_outermost_leaves_go<K: Key>(
    before: BTreeIndex<K>,
    after: BTreeIndex<K>,
    horizon: u64,
    i: int,
    k: int,
    j: int,
)
    requires
        before.wf(),
        flags(before.tree().nodes) == Set::<u64>::empty(),
        before.tree().valid(0, i),
        i == 0 || i + 1 == before.levels@[0].len(),
        before.levels@[0].len() >= 2,
        before.tree().leaf(i).entries.len() == 0,
        downlink(before.tree(), before.tree().page(0, i), k, j),
        parents_children(before.tree(), k).len() >= 2,
        j == 0 ==> i + 1 < before.levels@[0].len() && parents_children(before.tree(), k)[1]
            == before.tree().page(0, i + 1),
    ensures
        leaf_deleted(before, after, before.tree().page(0, i), horizon) ==> {
            let t = before.tree();
            let t2 = after.tree();
            &&& t2.levels[0] == t.levels[0].remove(i)
            &&& i == 0 ==> t2.nodes[t.page(0, 1)]->Leaf_0.prev_page is None
            &&& i > 0 ==> t2.nodes[t.page(0, i - 1)].rightlink() is None
                && t2.nodes[t.page(0, i - 1)].high_key() is None
            &&& after.pending_recycle@ == before.pending_recycle@.push((t.page(0, i), horizon))
        },
{
    let t = before.tree();
    let leaf = t.page(0, i);
    reveal(laced);
    assert(tied(t, 0, i));
    assert(t.page_ok::<K>(0, i));
    assert(t.linked(0, i));
    assert(t.page_ok::<K>(1, k));
    if i > 0 {
        assert(t.valid(0, i - 1));
        assert(t.page_ok::<K>(0, i - 1));
        assert(t.linked(0, i - 1));
        if flagged(t.nodes[t.page(0, i - 1)]) {
            assert(flags(t.nodes).contains(t.page(0, i - 1)));
        }
    } else {
        assert(t.valid(0, 1));
        assert(t.page_ok::<K>(0, 1));
        assert(t.linked(0, 1));
    }
    if flagged(t.nodes[leaf]) {
        assert(flags(t.nodes).contains(leaf));
    }
    assert(downs(t, 0, leaf) == 1);
    assert forall|a: int, b: int| #[trigger] downlink(t, leaf, a, b) implies a == k && b == j by {
        assert(t.page_ok::<K>(1, a));
        lemma_one_place(t, 0, leaf, k, j, a, b);
    }
    assert(spare(t, leaf, k, j));
    assert(removable(t, leaf));
    if leaf_deleted(before, after, leaf, horizon) {
        let (s, x, a, b) = choose|s: Tree, x: int, a: int, b: int|
            {
                &&& #[trigger] spliced(s, after.tree(), leaf, x, a, b)
                &&& kept_below(t, s, 0)
                &&& flags(t.nodes) == Set::<u64>::empty() ==> s == t
            };
        assert(s == t);
        assert(t.page(0, x) == t.page(0, i));
    }
}

/// A leaf with records never goes.
pub proof fn law_leaves_with_records_stay<K: Key>(
    before: BTreeIndex<K>,
    after: BTreeIndex<K>,
    leaf: u64,
    horizon: u64,
)
    requires
        leaf_deleted(before, after, leaf, horizon),
        before.tree().nodes[leaf]->Leaf_0.entries.len() > 0,
    ensures
        after.levels@[0] == before.levels@[0],
        after.pending_recycle@ == before.pending_recycle@,
{
}

/// A leaf that left leaves the tree tied together.
#[verifier::rlimit(40)]
proof fn lemma_spliced<K: Key>(t: Tree, i: int, k: int, j: int, w: InternalView, lsn: u64)
    requires
        t.wf::<K>(),
        laced(t),
        t.valid(0, i),
        t.valid(1, k),
        spare(t, t.page(0, i), k, j),
        !flagged(t.nodes[t.page(0, i)]),
        w == (InternalView { lsn, ..narrowed(t.nodes[t.page(1, k)]->Internal_0, j) }),
    ensures
        ({
            let t3 = unlink(t, i, w, left_after(t, i, lsn), right_after(t, i, lsn));
            &&& spliced(t, t3, t.page(0, i), i, k, j)
            &&& laced(t3)
            &&& flags(t3.nodes) == flags(t.nodes)
        }),
{
    let left = left_after(t, i, lsn);
    let right = right_after(t, i, lsn);
    let t3 = unlink(t, i, w, left, right);
    assert(t.page_ok::<K>(0, i));
    assert(t.page_ok::<K>(1, k));
    assert(t.page(0, i) != t.page(1, k));
    if i > 0 {
        assert(t.valid(0, i - 1));
        assert(t.page_ok::<K>(0, i - 1));
        assert(t.page(0, i - 1) != t.page(1, k));
    }
    if i + 1 < t.levels[0].len() {
        assert(t.valid(0, i + 1));
        assert(t.page_ok::<K>(0, i + 1));
        assert(t.page(0, i + 1) != t.page(1, k));
        if i > 0 {
            assert(t.page(0, i + 1) != t.page(0, i - 1));
        }
    }
    assert(spliced(t, t3, t.page(0, i), i, k, j));
    assert forall|g: int, x: int|
        t.valid(g, x) && #[trigger] t.page(g, x) != t.page(0, i) implies {
        let p = t.page(g, x);
        &&& p != t.page(1, k) ==> kids_of(t3.nodes[p]) == kids_of(t.nodes[p])
        &&& flagged(t.nodes[p]) ==> flagged(t3.nodes[p])
    } by {
        assert(t.page_ok::<K>(g, x));
        assert(t3.nodes.contains_key(t.page(g, x)));
    }
    assert(downlink(t, t.page(0, i), k, j));
    assert forall|p: u64| #[trigger] flags(t3.nodes).contains(p) == flags(t.nodes).contains(p) by {
        assert(t3.nodes.contains_key(p) == t.nodes.contains_key(p));
    }
    assert(flags(t3.nodes) =~= flags(t.nodes));
    lemma_laced_unlink::<K>(t, t3, i, k, j);
}

/// Two contents of a leaf that differ in stamp and half-dead mark at most.
pub open spec fn remarked(a: LeafView, b: LeafView) -> bool {
    b == (LeafView { lsn: b.lsn, half_dead: b.half_dead, ..a })
}

proof fn lemma_remark<K: Key>(t: Tree, pid: u64, b: LeafView)
    requires
        t.wf::<K>(),
        t.levels[0].contains(pid),
        remarked(t.nodes[pid]->Leaf_0, b),
    ensures
        put(t, NodeView::Leaf(b)).wf::<K>(),
        put(t, NodeView::Leaf(b)).records() == t.records(),
        b.page_id == pid,
        b.wf(),
{
    let i = lemma_page::<K>(t, 0, pid);
    reveal(records_ok);
    assert(t.leaf_ok::<K>(t.leaf(i)));
    assert(t.leaf_ok::<K>(b));
    lemma_put_leaf::<K>(t, i, b);
}

/// Whether trees differ at most in the mark of a leaf.
pub open spec fn only_marked(t: Tree, t2: Tree, leaf: u64) -> bool {
    &&& t2.levels == t.levels
    &&& forall|p: u64|
        p != leaf ==> (#[trigger] t2.nodes.contains_key(p)) == t.nodes.contains_key(p) && t2.nodes[p]
            == t.nodes[p]
    &&& t2.nodes[leaf]->Leaf_0.entries == t.nodes[leaf]->Leaf_0.entries
    &&& t2.nodes[leaf].rightlink() == t.nodes[leaf].rightlink()
    &&& flagged(t2.nodes[leaf]) == flagged(t.nodes[leaf])
}

/// The mark of a leaf does not decide whether the leaf can go.
proof fn lemma_still_needed<K: Key>(t: Tree, t2: Tree, leaf: u64)
    requires
        t.wf::<K>(),
        t.levels[0].contains(leaf),
        only_marked(t, t2, leaf),
        !removable(t, leaf),
    ensures
        !removable(t2, leaf),
{
    let i = lemma_page::<K>(t, 0, leaf);
    assert forall|a: int, b: int| #[trigger] downlink(t2, leaf, a, b) == downlink(t, leaf, a, b) by {
        if t.valid(1, a) {
            assert(t.page_ok::<K>(1, a));
            assert(t.page_ok::<K>(0, i));
            assert(t.page(1, a) != t.page(0, i));
            assert(t2.nodes.contains_key(t.page(1, a)) == t.nodes.contains_key(t.page(1, a)));
        }
    }
    if removable(t2, leaf) {
        let (k, j) = choose|k: int, j: int| #[trigger] spare(t2, leaf, k, j);
        assert(only_downlink(t2, leaf, k, j));
        assert(downlink(t2, leaf, k, j));
        assert(t.page_ok::<K>(1, k));
        assert(t.page_ok::<K>(0, i));
        assert(t.page(1, k) != t.page(0, i));
        assert(t2.nodes.contains_key(t.page(1, k)) == t.nodes.contains_key(t.page(1, k)));
        assert(only_downlink(t, leaf, k, j)) by {
            assert forall|a: int, b: int| #[trigger] downlink(t, leaf, a, b) implies a == k && b
                == j by {
                assert(downlink(t2, leaf, a, b));
            }
        }
        assert(spare(t, leaf, k, j));
    }
}

/// The mark of a leaf does not matter when it has left.
#[verifier::spinoff_prover]
proof fn lemma_spliced_marked<K: Key>(
    t: Tree,
    t2: Tree,
    t3: Tree,
    leaf: u64,
    i: int,
    k: int,
    j: int,
)
    requires
        t.wf::<K>(),
        t.valid(0, i),
        t.valid(1, k),
        t.page(0, i) == leaf,
        only_marked(t, t2, leaf),
        t2.nodes[leaf]->Leaf_0.prev_page == t.nodes[leaf]->Leaf_0.prev_page,
        t2.nodes[leaf]->Leaf_0.rightlink == t.nodes[leaf]->Leaf_0.rightlink,
        spare(t, leaf, k, j),
        spliced(t2, t3, leaf, i, k, j),
    ensures
        spliced(t, t3, leaf, i, k, j),
{
    let parent = t.page(1, k);
    let lsn = t3.nodes[parent]->Internal_0.lsn;
    assert(t.page_ok::<K>(0, i));
    assert(t.page_ok::<K>(1, k));
    assert(t.page(1, k) != t.page(0, i));
    assert(t2.nodes.contains_key(parent) == t.nodes.contains_key(parent));
    assert(t2.levels == t.levels);
    assert(t2.page(1, k) == parent);
    assert(t2.nodes[parent] == t.nodes[parent]);
    assert(t3.nodes[parent] == NodeView::Internal(
        InternalView { lsn, ..narrowed(t.nodes[parent]->Internal_0, j) },
    ));
    if i > 0 {
        assert(t.valid(0, i - 1));
        assert(t.page(0, i - 1) != t.page(0, i));
        assert(t2.nodes.contains_key(t.page(0, i - 1)) == t.nodes.contains_key(t.page(0, i - 1)));
        assert(t2.leaf(i - 1) == t.leaf(i - 1));
    }
    if i + 1 < t.levels[0].len() {
        assert(t.valid(0, i + 1));
        assert(t.page(0, i + 1) != t.page(0, i));
        assert(t2.nodes.contains_key(t.page(0, i + 1)) == t.nodes.contains_key(t.page(0, i + 1)));
        assert(t2.leaf(i + 1) == t.leaf(i + 1));
    }
    assert(left_after(t2, i, lsn) == left_after(t, i, lsn));
    assert(right_after(t2, i, lsn) == right_after(t, i, lsn));
    assert forall|p: u64|
        p != leaf && p != parent && !(i > 0 && p == t.page(0, i - 1)) && !(i + 1
            < t.levels[0].len() && p == t.page(0, i + 1)) implies (#[trigger] t3.nodes.contains_key(
        p,
    )) == t.nodes.contains_key(p) && t3.nodes[p] == t.nodes[p] by {
        assert(t2.nodes.contains_key(p) == t.nodes.contains_key(p));
        assert(t3.nodes.contains_key(p) == t2.nodes.contains_key(p));
    }
}

impl<K: Key> BTreeIndex<K> {
    /// Takes back the half-dead mark of a leaf that stays.
    fn abandon_unlink(&mut self, pid: u64)
        requires
            old(self).wf(),
            old(self).levels@[0].contains(pid),
            old(self).store.budget() >= 1,
        ensures
            final(self).wf(),
            carries_on(old(self).store.log(), final(self).store.log(), 0),
            calm(old(self).past@, final(self).past@),
            final(self).records() == old(self).records(),
            final(self).store.pages().chunks == old(self).store.pages().chunks,
            final(self).chains@ == old(self).chains@,
            final(self).pending_recycle@ == old(self).pending_recycle@,
            final(self).levels@ == old(self).levels@,
            final(self).lows@ == old(self).lows@,
            !final(self).tree().nodes[pid]->Leaf_0.half_dead,
            only_marked(old(self).tree(), final(self).tree(), pid),
            !old(self).tree().nodes[pid]->Leaf_0.half_dead ==> final(self).same(old(self)),
            flags(final(self).tree().nodes) == flags(old(self).tree().nodes),
            final(self).incomplete == old(self).incomplete,
            final(self).store.budget() >= old(self).store.budget() - 1,
    {
        let ghost t = self.tree();
        proof {
            let i = lemma_page::<K>(t, 0, pid);
            self.store.lemma_wf();
            lemma_present::<K>(*self);
        }
        let mut l = self.load_leaf(pid);
        if l.half_dead {
            l.half_dead = false;
            let ghost b = l@;
            let ghost c0 = self.store.pages().chunks;
            proof {
                assert(b.entries == t.nodes[pid]->Leaf_0.entries);
                lemma_remark::<K>(t, pid, b);
            }
            let ghost s0 = self.store;
            let lsn: u64 = self.store.write_one(
                WalRecordType::PageCompact,
                SYSTEM_TXN_ID,
                pid,
                Change::Image(Node::Leaf(l)),
            );
            proof {
                let b2 = LeafView { lsn, ..b };
                lemma_remark::<K>(t, pid, b2);
                lemma_laced_put(t, NodeView::Leaf(b2));
                assert(self.tree() == put(t, NodeView::Leaf(b2)));
                assert(flags(self.tree().nodes) =~= flags(t.nodes));
                assert(self.store.pages().chunks =~= c0);
                let was = self.past@;
                self.past@ = was.push(self.rows());
                self.lemma_logged(s0, was);
            }
        }
    }

    /// Takes the leaf at index `i` of the chain, which is empty, out of the
    /// tree: the `j`-th downlink of the `k`-th page above goes, and the
    /// neighbours `left` and `right` are linked to each other.
    #[verifier::rlimit(40)]
    #[verifier::spinoff_prover]
    fn splice_out(
        &mut self,
        Ghost(i): Ghost<int>,
        Ghost(k): Ghost<int>,
        leaf_pid: u64,
        parent_pid: u64,
        j: usize,
        left: Option<u64>,
        right: Option<u64>,
    )
        requires
            old(self).wf(),
            old(self).store.budget() >= 1,
            old(self).tree().valid(0, i),
            old(self).tree().page(0, i) == leaf_pid,
            old(self).tree().leaf(i).entries.len() == 0,
            old(self).tree().leaf(i).prev_page == left,
            old(self).tree().leaf(i).rightlink == right,
            old(self).tree().valid(1, k),
            old(self).tree().page(1, k) == parent_pid,
            spare(old(self).tree(), leaf_pid, k, j as int),
            !flagged(old(self).tree().nodes[leaf_pid]),
        ensures
            final(self).wf(),
            carries_on(old(self).store.log(), final(self).store.log(), 0),
            calm(old(self).past@, final(self).past@),
            final(self).records() == old(self).records(),
            final(self).store.pages().chunks == old(self).store.pages().chunks,
            final(self).chains@ == old(self).chains@,
            final(self).pending_recycle@ == old(self).pending_recycle@,
            !final(self).levels@[0].contains(leaf_pid),
            final(self).levels@[0] == old(self).levels@[0].remove(i),
            spliced(old(self).tree(), final(self).tree(), leaf_pid, i, k, j as int),
            flags(final(self).tree().nodes) == flags(old(self).tree().nodes),
            final(self).incomplete == old(self).incomplete,
            final(self).store.budget() >= old(self).store.budget() - 1,
    {
        let ghost t = self.tree();
        let ghost v = t.nodes[parent_pid]->Internal_0;
        let keep_right = j == 0;
        let at: usize = if j == 0 {
            0
        } else {
            j - 1
        };
        let mut cs: Vec<PageChange> = Vec::new();
        if let Some(lp) = left {
            cs.push(PageChange { page_id: lp, change: Change::SetRightlink(right) });
        }
        if let Some(rp) = right {
            cs.push(PageChange { page_id: rp, change: Change::SetPrev(left) });
        }
        proof {
            assert(t.page_ok::<K>(1, k));
            lemma_internal_count(v);
        }
        cs.push(
            PageChange {
                page_id: parent_pid,
                change: Change::RemoveKey { at: at as u16, keep_right },
            },
        );
        let ghost lsn0 = self.store.next_lsn();
        let ghost w = InternalView { lsn: lsn0, ..narrowed(v, j as int) };
        proof {
            self.store.lemma_wf();
            assert(change_views(cs@) =~= unlink_changes(left, right, parent_pid, j as int));
            lemma_unlink_pages::<K>(
                t,
                self.store.pages(),
                self.store.used(),
                i,
                k,
                j as int,
                w,
                lsn0,
            );
            lemma_unlink_loggable::<K>(t, i, k, j as int);
        }
        let ghost s0 = self.store;
        let ghost ix0 = *self;
        self.store.write(WalRecordType::UnlinkPage, SYSTEM_TXN_ID, &cs);
        proof {
            let left2 = left_after(t, i, lsn0);
            let right2 = right_after(t, i, lsn0);
            let t3 = unlink(t, i, w, left2, right2);
            self.levels@ = t3.levels;
            self.lows@ = t3.lows;
            assert(self.tree() == t3);
            lemma_unlink_all::<K>(t, i, k, j as int, w, lsn0);
            lemma_spliced::<K>(t, i, k, j as int, w, lsn0);
            let was = self.past@;
            self.past@ = was.push(self.rows());
            self.lemma_logged(s0, was);
            lemma_present::<K>(ix0);
        }
    }

    /// Takes an empty leaf out of the tree: its downlink goes, its neighbours
    /// are linked to each other, and its page waits to be used again. A leaf
    /// that cannot go, because it holds records, is the root, or is needed by
    /// the page above, stays. Splits met on the way are completed first.
    #[verifier::rlimit(60)]
    #[verifier::spinoff_prover]
    pub fn delete_empty_leaf(&mut self, leaf_pid: u64, tm: &TransactionManager)
        requires
            old(self).wf(),
            tm.wf(),
            old(self).levels@[0].contains(leaf_pid),
            old(self).store.budget() >= old(self).work() + 4,
        ensures
            final(self).wf(),
            carries_on(old(self).store.log(), final(self).store.log(), 0),
            calm(old(self).past@, final(self).past@),
            final(self).records() == old(self).records(),
            final(self).store.pages().chunks == old(self).store.pages().chunks,
            final(self).chains@ == old(self).chains@,
            final(self).store.budget() >= old(self).store.budget() - old(self).work() - 2,
            final(self).work() <= old(self).work(),
            final(self).incomplete <= old(self).incomplete,
            leaf_deleted(*old(self), *final(self), leaf_pid, tm.horizon()),
    {
        let first = self.load_leaf(leaf_pid);
        self.descend_to_high(&first.high_key);
        let ghost t1 = self.tree();
        let ghost i = lemma_page::<K>(t1, 0, leaf_pid);
        let ghost v0 = t1.leaf(i);
        let l = self.load_leaf(leaf_pid);
        let found = self.find_downlink(leaf_pid);
        if found.is_none() {
            assert(!removable(t1, leaf_pid)) by {
                if removable(t1, leaf_pid) {
                    let (k, j) = choose|k: int, j: int| #[trigger] spare(t1, leaf_pid, k, j);
                    assert(only_downlink(t1, leaf_pid, k, j));
                }
            }
            self.abandon_unlink(leaf_pid);
            proof {
                lemma_still_needed::<K>(t1, self.tree(), leaf_pid);
            }
            return;
        }
        let (parent, j) = found.unwrap();
        let parent_pid: u64 = parent.page_id;
        let ghost v = parent@;
        let ghost k = lemma_page::<K>(t1, 1, parent_pid);
        proof {
            assert(t1.page(1, k) == parent_pid);
            assert(only_downlink(t1, leaf_pid, k, j as int));
            assert(parents_children(t1, k) == v.children);
        }
        let needed = j == 0 && parent.keys.len() != 0 && match l.rightlink {
            Some(r) => r != parent.children[1],
            None => true,
        };
        let stays = l.entries.len() != 0 || l.incomplete_split || parent.keys.len() == 0 || needed;
        assert(stays == !removable(t1, leaf_pid)) by {
            if removable(t1, leaf_pid) {
                let (a, b) = choose|a: int, b: int| #[trigger] spare(t1, leaf_pid, a, b);
                assert(only_downlink(t1, leaf_pid, a, b));
                assert(a == k && b == j);
            }
            if !stays {
                assert(spare(t1, leaf_pid, k, j as int));
            }
        }
        if stays {
            self.abandon_unlink(leaf_pid);
            proof {
                lemma_still_needed::<K>(t1, self.tree(), leaf_pid);
            }
            return;
        }
        let ghost p0 = self.store.pages();
        proof {
            self.store.lemma_wf();
        }
        if !l.half_dead {
            let ghost s0 = self.store;
            let ghost ix0 = *self;
            let lsn: u64 = self.store.write_one(
                WalRecordType::MarkHalfDead,
                SYSTEM_TXN_ID,
                leaf_pid,
                Change::MarkHalfDead,
            );
            proof {
                let b = LeafView { half_dead: true, lsn, ..v0 };
                lemma_remark::<K>(t1, leaf_pid, b);
                lemma_laced_put(t1, NodeView::Leaf(b));
                assert(self.tree() == put(t1, NodeView::Leaf(b)));
                assert(flags(self.tree().nodes) =~= flags(t1.nodes));
                let was = self.past@;
                self.past@ = was.push(self.rows());
                self.lemma_logged(s0, was);
                lemma_present::<K>(ix0);
            }
        }
        let ghost t2 = self.tree();
        proof {
            assert(t2.levels == t1.levels);
            assert(t2.page_ok::<K>(0, i) && t2.page_ok::<K>(1, k));
            assert(t2.page(1, k) != t2.page(0, i));
            assert forall|a: int, b: int| #[trigger] downlink(t2, leaf_pid, a, b) == downlink(
                t1,
                leaf_pid,
                a,
                b,
            ) by {
                if t1.valid(1, a) {
                    assert(t1.page_ok::<K>(1, a));
                    assert(t1.page(1, a) != t1.page(0, i));
                }
            }
            assert(spare(t2, leaf_pid, k, j as int)) by {
                assert(spare(t1, leaf_pid, k, j as int));
                assert(downlink(t2, leaf_pid, k, j as int));
            }
        }
        self.splice_out(Ghost(i), Ghost(k), leaf_pid, parent_pid, j, l.prev_page, l.rightlink);
        let horizon: u64 = tm.global_xmin();
        self.pending_recycle.push((leaf_pid, horizon));
        proof {
            assert(t1.levels[0][i] == leaf_pid);
            assert(spare(t1, leaf_pid, k, j as int));
            lemma_spliced_marked::<K>(t1, t2, self.tree(), leaf_pid, i, k, j as int);
        }
    }
}

} // verus!
