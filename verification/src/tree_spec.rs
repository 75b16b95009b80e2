//! What a well-formed tree is: levels of right-linked pages, key bounds and
//! downlinks; and what the steps that reshape a tree keep.

use vstd::prelude::*;

use crate::key::Key;
use crate::node::{keys_sorted, records_sorted, InternalView, LeafView, NodeView, RecordView};

verus! {

/// A tree of pages. `levels[0]` is the chain of leaves from left to right,
/// `levels[h]` the chain of internal pages at height `h`. `lows` gives each
/// page its lower key bound, `None` standing for no bound.
#[verifier::ext_equal]
pub struct Tree {
    pub nodes: Map<u64, NodeView>,
    pub levels: Seq<Seq<u64>>,
    pub lows: Map<u64, Option<Seq<u8>>>,
    pub root: u64,
}

/// Order of lower bounds; `None` lies below every key.
pub open spec fn bound_le<K: Key>(a: Option<Seq<u8>>, b: Option<Seq<u8>>) -> bool {
    match a {
        None => true,
        Some(x) => match b {
            None => false,
            Some(y) => K::le(x, y),
        },
    }
}

/// Whether a key lies below an upper bound or on it; `None` is no bound.
pub open spec fn below<K: Key>(k: Seq<u8>, high: Option<Seq<u8>>) -> bool {
    match high {
        None => true,
        Some(h) => K::le(k, h),
    }
}

/// The records of a page; an internal page has none.
pub open spec fn entries_of(nodes: Map<u64, NodeView>, p: u64) -> Seq<RecordView> {
    match nodes[p] {
        NodeView::Leaf(l) => l.entries,
        NodeView::Internal(_) => Seq::empty(),
    }
}

/// The records of a chain of pages, from left to right.
pub open spec fn flat(nodes: Map<u64, NodeView>, chain: Seq<u64>) -> Seq<RecordView>
    decreases chain.len(),
{
    if chain.len() == 0 {
        Seq::empty()
    } else {
        flat(nodes, chain.drop_last()) + entries_of(nodes, chain.last())
    }
}

/// The lower bound that the `j`-th child of an internal page must respect.
pub open spec fn separator(
    lows: Map<u64, Option<Seq<u8>>>,
    n: InternalView,
    j: int,
) -> Option<Seq<u8>> {
    if j == 0 {
        lows[n.page_id]
    } else {
        Some(n.keys[j - 1])
    }
}

/// The `j`-th child of `n` is a page of the level below, `lower`, whose keys
/// start no higher than its separator.
pub open spec fn child_ok<K: Key>(
    lower: Seq<u64>,
    lows: Map<u64, Option<Seq<u8>>>,
    n: InternalView,
    j: int,
) -> bool {
    &&& lower.contains(n.children[j])
    &&& bound_le::<K>(lows[n.children[j]], separator(lows, n, j))
}

/// The keys of an internal page are in order and its children in place.
#[verifier::opaque]
pub open spec fn children_ok<K: Key>(
    lower: Seq<u64>,
    lows: Map<u64, Option<Seq<u8>>>,
    n: InternalView,
) -> bool {
    &&& keys_sorted::<K>(n.keys)
    &&& forall|j: int|
        0 <= j < n.children.len() ==> {
            let _ = #[trigger] n.children[j];
            child_ok::<K>(lower, lows, n, j)
        }
}

/// The records of a leaf are in order and between its bounds. Versions of one
/// key may sit on both sides of a bound that equals the key.
#[verifier::opaque]
pub open spec fn records_ok<K: Key>(low: Option<Seq<u8>>, l: LeafView) -> bool {
    &&& records_sorted::<K>(l.entries)
    &&& forall|s: int|
        0 <= s < l.entries.len() ==> bound_le::<K>(low, Some((#[trigger] l.entries[s]).key))
            && below::<K>(l.entries[s].key, l.high_key)
    &&& l.high_key is Some ==> bound_le::<K>(low, l.high_key)
}

impl Tree {
    /// The page at index `i` of level `h`.
    pub open spec fn page(self, h: int, i: int) -> u64 {
        self.levels[h][i]
    }

    /// Whether level `h` has an index `i`.
    pub open spec fn valid(self, h: int, i: int) -> bool {
        0 <= h < self.levels.len() && 0 <= i < self.levels[h].len()
    }

    /// All record versions, in key order.
    pub open spec fn records(self) -> Seq<RecordView> {
        flat(self.nodes, self.levels[0])
    }

    /// Every child of `n`, a page of level `h`, is in place.
    pub open spec fn internal_ok<K: Key>(self, h: int, n: InternalView) -> bool {
        children_ok::<K>(self.levels[h - 1], self.lows, n)
    }

    /// The records of the leaf `l` are in place.
    pub open spec fn leaf_ok<K: Key>(self, l: LeafView) -> bool {
        records_ok::<K>(self.lows[l.page_id], l)
    }

    /// The links and bounds of the page at index `i` of level `h` agree with
    /// its place in the chain.
    pub open spec fn linked(self, h: int, i: int) -> bool {
        let p = self.levels[h][i];
        let n = self.nodes[p];
        &&& self.lows.contains_key(p)
        &&& self.lows[p] == (if i == 0 {
            None
        } else {
            self.nodes[self.levels[h][i - 1]].high_key()
        })
        &&& n.rightlink() == (if i + 1 < self.levels[h].len() {
            Some(self.levels[h][i + 1])
        } else {
            None
        })
        &&& n.high_key() is Some <==> i + 1 < self.levels[h].len()
        &&& n matches NodeView::Leaf(l) ==> l.prev_page == (if i == 0 {
            None
        } else {
            Some(self.levels[h][i - 1])
        })
    }

    /// The page at index `i` of level `h` is in order.
    pub open spec fn page_ok<K: Key>(self, h: int, i: int) -> bool {
        let p = self.levels[h][i];
        let n = self.nodes[p];
        &&& self.nodes.contains_key(p)
        &&& n.wf()
        &&& n.page_id() == p
        &&& h == 0 <==> n is Leaf
        &&& self.linked(h, i)
        &&& (n matches NodeView::Leaf(l) ==> self.leaf_ok::<K>(l))
        &&& (n matches NodeView::Internal(v) ==> self.internal_ok::<K>(h, v))
    }

    /// There is at least the leaf level, no level is empty, and the root is the
    /// first page of the top level.
    pub open spec fn shape(self) -> bool {
        &&& self.levels.len() >= 1
        &&& forall|h: int| 0 <= h < self.levels.len() ==> (#[trigger] self.levels[h]).len() >= 1
        &&& self.root == self.page(self.levels.len() - 1, 0)
    }

    /// No page occurs twice.
    pub open spec fn distinct(self) -> bool {
        forall|h: int, i: int, g: int, j: int|
            self.valid(h, i) && self.valid(g, j) && #[trigger] self.page(h, i)
                == #[trigger] self.page(g, j) ==> h == g && i == j
    }

    /// The tree is well-formed.
    pub open spec fn wf<K: Key>(self) -> bool {
        &&& self.shape()
        &&& self.distinct()
        &&& forall|h: int, i: int|
            self.valid(h, i) ==> #[trigger] self.page_ok::<K>(h, i)
    }

    /// The leaf at index `i` of the chain.
    pub open spec fn leaf(self, i: int) -> LeafView {
        self.nodes[self.page(0, i)]->Leaf_0
    }
}

// ── Records of a chain ───────────────────────────────────────────────────────
pub proof fn lemma_flat_add(nodes: Map<u64, NodeView>, a: Seq<u64>, b: Seq<u64>)
    ensures
        flat(nodes, a + b) == flat(nodes, a) + flat(nodes, b),
    decreases b.len(),
{
    if b.len() == 0 {
        assert(a + b =~= a);
        assert(flat(nodes, a) + flat(nodes, b) =~= flat(nodes, a));
    } else {
        assert((a + b).drop_last() =~= a + b.drop_last());
        lemma_flat_add(nodes, a, b.drop_last());
        assert(flat(nodes, a + b) =~= flat(nodes, a) + flat(nodes, b));
    }
}

pub proof fn lemma_flat_one(nodes: Map<u64, NodeView>, p: u64)
    ensures
        flat(nodes, seq![p]) == entries_of(nodes, p),
{
    assert(seq![p].drop_last() =~= Seq::<u64>::empty());
    assert(flat(nodes, Seq::<u64>::empty()) =~= Seq::<RecordView>::empty());
    assert(seq![p].last() == p);
    assert(flat(nodes, seq![p]) =~= entries_of(nodes, p));
}

pub proof fn lemma_flat_frame(m1: Map<u64, NodeView>, m2: Map<u64, NodeView>, chain: Seq<u64>)
    requires
        forall|i: int|
            0 <= i < chain.len() ==> entries_of(m1, #[trigger] chain[i]) == entries_of(
                m2,
                chain[i],
            ),
    ensures
        flat(m1, chain) == flat(m2, chain),
    decreases chain.len(),
{
    if chain.len() > 0 {
        assert(chain.last() == chain[chain.len() - 1]);
        assert forall|i: int| 0 <= i < chain.drop_last().len() implies entries_of(
            m1,
            #[trigger] chain.drop_last()[i],
        ) == entries_of(m2, chain.drop_last()[i]) by {
            assert(chain.drop_last()[i] == chain[i]);
        }
        lemma_flat_frame(m1, m2, chain.drop_last());
    }
}

/// The records of a chain, cut at one of its pages.
pub proof fn lemma_flat_cut(nodes: Map<u64, NodeView>, chain: Seq<u64>, i: int)
    requires
        0 <= i < chain.len(),
    ensures
        flat(nodes, chain) == flat(nodes, chain.subrange(0, i)) + entries_of(nodes, chain[i])
            + flat(nodes, chain.subrange(i + 1, chain.len() as int)),
{
    let a = chain.subrange(0, i);
    let b = chain.subrange(i + 1, chain.len() as int);
    assert(chain =~= (a + seq![chain[i]]) + b);
    lemma_flat_add(nodes, a + seq![chain[i]], b);
    lemma_flat_add(nodes, a, seq![chain[i]]);
    lemma_flat_one(nodes, chain[i]);
}

/// A record of the chain sits on one of its pages.
pub proof fn lemma_flat_member(nodes: Map<u64, NodeView>, chain: Seq<u64>, k: int) -> (r: (int, int))
    requires
        0 <= k < flat(nodes, chain).len(),
    ensures
        0 <= r.0 < chain.len(),
        0 <= r.1 < entries_of(nodes, chain[r.0]).len(),
        flat(nodes, chain)[k] == entries_of(nodes, chain[r.0])[r.1],
        k == flat(nodes, chain.subrange(0, r.0)).len() + r.1,
    decreases chain.len(),
{
    let a = chain.drop_last();
    let n = flat(nodes, a).len();
    if k < n {
        let r = lemma_flat_member(nodes, a, k);
        assert(a.subrange(0, r.0) =~= chain.subrange(0, r.0));
        assert(chain[r.0] == a[r.0]);
        r
    } else {
        assert(chain.subrange(0, chain.len() - 1) =~= a);
        (chain.len() - 1, k - n)
    }
}

/// A record on a page of the chain is a record of the chain.
pub proof fn lemma_flat_index(nodes: Map<u64, NodeView>, chain: Seq<u64>, i: int, s: int)
    requires
        0 <= i < chain.len(),
        0 <= s < entries_of(nodes, chain[i]).len(),
    ensures
        ({
            let k = flat(nodes, chain.subrange(0, i)).len() + s;
            &&& 0 <= k < flat(nodes, chain).len()
            &&& flat(nodes, chain)[k] == entries_of(nodes, chain[i])[s]
        }),
{
    lemma_flat_cut(nodes, chain, i);
}

// ── Order along the leaves ───────────────────────────────────────────────────
/// Lower bounds do not decrease along the leaves.
pub proof fn lemma_lows_monotone<K: Key>(t: Tree, i: int, j: int)
    requires
        t.wf::<K>(),
        0 <= i <= j < t.levels[0].len(),
    ensures
        bound_le::<K>(t.lows[t.page(0, i)], t.lows[t.page(0, j)]),
    decreases j - i,
{
    K::le_laws();
    assert(t.valid(0, i) && t.valid(0, j));
    assert(t.page_ok::<K>(0, i) && t.page_ok::<K>(0, j));
    if i < j {
        lemma_lows_monotone::<K>(t, i, j - 1);
        assert(t.valid(0, j - 1));
        assert(t.page_ok::<K>(0, j - 1));
        let l = t.leaf(j - 1);
        assert(t.leaf_ok::<K>(l));
        reveal(records_ok);
        assert(t.linked(0, j));
        assert(t.linked(0, j - 1));
    }
}

// ── Steps ────────────────────────────────────────────────────────────────────
/// The tree after one of its pages is replaced.
pub open spec fn put(t: Tree, n: NodeView) -> Tree {
    Tree { nodes: t.nodes.insert(n.page_id(), n), ..t }
}

/// Replacing a leaf by one with the same links and bounds keeps the tree
/// well-formed and changes its records there only.
pub proof fn lemma_put_leaf<K: Key>(t: Tree, i: int, l: LeafView)
    requires
        t.wf::<K>(),
        t.valid(0, i),
        l.page_id == t.page(0, i),
        l.wf(),
        l.rightlink == t.leaf(i).rightlink,
        l.prev_page == t.leaf(i).prev_page,
        l.high_key == t.leaf(i).high_key,
        t.leaf_ok::<K>(l),
    ensures
        put(t, NodeView::Leaf(l)).wf::<K>(),
        ({
            let c = t.levels[0];
            let a = flat(t.nodes, c.subrange(0, i));
            let b = flat(t.nodes, c.subrange(i + 1, c.len() as int));
            &&& t.records() == a + t.leaf(i).entries + b
            &&& put(t, NodeView::Leaf(l)).records() == a + l.entries + b
        }),
{
    let t2 = put(t, NodeView::Leaf(l));
    let p = t.page(0, i);
    assert(t.page_ok::<K>(0, i));
    assert forall|h: int, j: int| t2.valid(h, j) implies #[trigger] t2.page_ok::<K>(h, j) by {
        assert(t.valid(h, j));
        assert(t.page(h, j) == t2.page(h, j));
        assert(t.page_ok::<K>(h, j));
        if j > 0 {
            assert(t.valid(h, j - 1));
            assert(t.page_ok::<K>(h, j - 1));
            assert(t.page(h, j - 1) == t2.page(h, j - 1));
        }
        if !(h == 0 && j == i) {
            assert(t.page(h, j) != p);
            assert(t2.nodes[t2.page(h, j)] == t.nodes[t.page(h, j)]);
            if let NodeView::Internal(v) = t2.nodes[t2.page(h, j)] {
                lemma_internal_frame::<K>(t, t2, h, v);
            }
        }
        assert(t2.linked(h, j));
    }
    assert forall|h: int, a: int, g: int, b: int|
        t2.valid(h, a) && t2.valid(g, b) && #[trigger] t2.page(h, a) == #[trigger] t2.page(
            g,
            b,
        ) implies h == g && a == b by {
        assert(t.page(h, a) == t2.page(h, a) && t.page(g, b) == t2.page(g, b));
    }
    assert(t2.shape()) by {
        assert(t.page(t.levels.len() - 1, 0) == t2.page(t2.levels.len() - 1, 0));
    }
    lemma_put_records(t, i, l);
}

/// Children that were in place stay in place when no page leaves its level and
/// no lower bound of a child rises.
pub proof fn lemma_internal_frame<K: Key>(t: Tree, t2: Tree, h: int, v: InternalView)
    requires
        t.internal_ok::<K>(h, v),
        1 <= h < t.levels.len(),
        t2.levels.len() >= t.levels.len(),
        forall|c: u64| #[trigger] t.levels[h - 1].contains(c) ==> t2.levels[h - 1].contains(c),
        forall|c: u64| #[trigger] t.levels[h - 1].contains(c) ==> t2.lows[c] == t.lows[c],
        t2.lows[v.page_id] == t.lows[v.page_id],
    ensures
        t2.internal_ok::<K>(h, v),
{
    reveal(children_ok);
    assert forall|j: int| 0 <= j < v.children.len() implies {
        let _ = #[trigger] v.children[j];
        child_ok::<K>(t2.levels[h - 1], t2.lows, v, j)
    } by {
        assert(child_ok::<K>(t.levels[h - 1], t.lows, v, j));
    }
}

proof fn lemma_put_records(t: Tree, i: int, l: LeafView)
    requires
        t.distinct(),
        t.valid(0, i),
        t.nodes[t.page(0, i)] is Leaf,
        l.page_id == t.page(0, i),
    ensures
        ({
            let c = t.levels[0];
            let a = flat(t.nodes, c.subrange(0, i));
            let b = flat(t.nodes, c.subrange(i + 1, c.len() as int));
            &&& t.records() == a + t.leaf(i).entries + b
            &&& put(t, NodeView::Leaf(l)).records() == a + l.entries + b
        }),
{
    let t2 = put(t, NodeView::Leaf(l));
    let c = t.levels[0];
    assert(c[i] == t.page(0, i));
    lemma_flat_cut(t.nodes, c, i);
    lemma_flat_cut(t2.nodes, c, i);
    let a = c.subrange(0, i);
    let b = c.subrange(i + 1, c.len() as int);
    assert forall|k: int| 0 <= k < a.len() implies entries_of(t.nodes, #[trigger] a[k])
        == entries_of(t2.nodes, a[k]) by {
        assert(a[k] == t.page(0, k));
        assert(t.valid(0, k));
        assert(t.page(0, k) != t.page(0, i));
    }
    assert forall|k: int| 0 <= k < b.len() implies entries_of(t.nodes, #[trigger] b[k])
        == entries_of(t2.nodes, b[k]) by {
        assert(b[k] == t.page(0, k + i + 1));
        assert(t.valid(0, k + i + 1));
        assert(t.page(0, k + i + 1) != t.page(0, i));
    }
    lemma_flat_frame(t.nodes, t2.nodes, a);
    lemma_flat_frame(t.nodes, t2.nodes, b);
}

/// Replacing an internal page by one with the same links and bounds, and with
/// all children in place, keeps the tree well-formed and its records.
pub proof fn lemma_put_internal<K: Key>(t: Tree, h: int, i: int, v: InternalView)
    requires
        t.wf::<K>(),
        h >= 1,
        t.valid(h, i),
        v.page_id == t.page(h, i),
        v.wf(),
        v.rightlink == t.nodes[t.page(h, i)].rightlink(),
        v.high_key == t.nodes[t.page(h, i)].high_key(),
        t.internal_ok::<K>(h, v),
    ensures
        put(t, NodeView::Internal(v)).wf::<K>(),
        put(t, NodeView::Internal(v)).records() == t.records(),
{
    let t2 = put(t, NodeView::Internal(v));
    let p = t.page(h, i);
    assert(t.page_ok::<K>(h, i));
    assert forall|g: int, j: int| t2.valid(g, j) implies #[trigger] t2.page_ok::<K>(g, j) by {
        assert(t.valid(g, j));
        assert(t.page(g, j) == t2.page(g, j));
        assert(t.page_ok::<K>(g, j));
        if j > 0 {
            assert(t.valid(g, j - 1));
            assert(t.page_ok::<K>(g, j - 1));
            assert(t.page(g, j - 1) == t2.page(g, j - 1));
        }
        if !(g == h && j == i) {
            assert(t.page(g, j) != p);
            assert(t2.nodes[t2.page(g, j)] == t.nodes[t.page(g, j)]);
            if let NodeView::Internal(w) = t2.nodes[t2.page(g, j)] {
                lemma_internal_frame::<K>(t, t2, g, w);
            }
        } else {
            lemma_internal_frame::<K>(t, t2, h, v);
        }
        assert(t2.linked(g, j));
    }
    assert forall|g: int, a: int, f: int, b: int|
        t2.valid(g, a) && t2.valid(f, b) && #[trigger] t2.page(g, a) == #[trigger] t2.page(
            f,
            b,
        ) implies g == f && a == b by {
        assert(t.page(g, a) == t2.page(g, a) && t.page(f, b) == t2.page(f, b));
    }
    assert(t2.shape()) by {
        assert(t.page(t.levels.len() - 1, 0) == t2.page(t2.levels.len() - 1, 0));
    }
    let c = t.levels[0];
    assert forall|k: int| 0 <= k < c.len() implies entries_of(t.nodes, #[trigger] c[k])
        == entries_of(t2.nodes, c[k]) by {
        assert(c[k] == t.page(0, k));
        assert(t.valid(0, k));
        assert(t.page(0, k) != p);
    }
    lemma_flat_frame(t.nodes, t2.nodes, c);
}

/// The pages after a split of `left` into `left` and `right`; `next`, if any, is
/// the leaf after them with its back-link turned to `right`.
pub open spec fn split_nodes(
    m: Map<u64, NodeView>,
    left: NodeView,
    right: NodeView,
    next: Option<LeafView>,
) -> Map<u64, NodeView> {
    let m1 = m.insert(left.page_id(), left).insert(right.page_id(), right);
    match next {
        Some(l) => m1.insert(l.page_id, NodeView::Leaf(l)),
        None => m1,
    }
}

/// The tree after the page at index `i` of level `h` split in two at `sep`.
pub open spec fn split(
    t: Tree,
    h: int,
    i: int,
    left: NodeView,
    right: NodeView,
    next: Option<LeafView>,
    sep: Seq<u8>,
) -> Tree {
    Tree {
        nodes: split_nodes(t.nodes, left, right, next),
        levels: t.levels.update(h, t.levels[h].insert(i + 1, right.page_id())),
        lows: t.lows.insert(right.page_id(), Some(sep)),
        root: t.root,
    }
}

/// What `next` must be: the leaf after the split page, linked back to the new one.
pub open spec fn next_ok(t: Tree, h: int, i: int, new: u64, next: Option<LeafView>) -> bool {
    if h == 0 && i + 1 < t.levels[0].len() {
        &&& next is Some
        &&& next->0 == LeafView { prev_page: Some(new), lsn: next->0.lsn, ..t.leaf(i + 1) }
    } else {
        next is None
    }
}

/// Splitting a page, with the halves between their bounds, keeps the tree
/// well-formed and, when the halves of a leaf make up its records, its records.
#[verifier::rlimit(40)]
pub proof fn lemma_split<K: Key>(
    t: Tree,
    h: int,
    i: int,
    left: NodeView,
    right: NodeView,
    next: Option<LeafView>,
    sep: Seq<u8>,
)
    requires
        t.wf::<K>(),
        t.valid(h, i),
        left.page_id() == t.page(h, i),
        !t.nodes.contains_key(right.page_id()),
        left.wf(),
        right.wf(),
        left is Leaf <==> h == 0,
        right is Leaf <==> h == 0,
        left.rightlink() == Some(right.page_id()),
        left.high_key() == Some(sep),
        right.rightlink() == t.nodes[t.page(h, i)].rightlink(),
        right.high_key() == t.nodes[t.page(h, i)].high_key(),
        next_ok(t, h, i, right.page_id(), next),
        ({
            let t2 = split(t, h, i, left, right, next, sep);
            &&& (left matches NodeView::Leaf(l) ==> t2.leaf_ok::<K>(l) && l.prev_page == t.leaf(
                i,
            ).prev_page)
            &&& (right matches NodeView::Leaf(r) ==> t2.leaf_ok::<K>(r) && r.prev_page == Some(
                left.page_id(),
            ))
            &&& (left matches NodeView::Internal(l) ==> t2.internal_ok::<K>(h, l))
            &&& (right matches NodeView::Internal(r) ==> t2.internal_ok::<K>(h, r))
        }),
    ensures
        split(t, h, i, left, right, next, sep).wf::<K>(),
{
    let t2 = split(t, h, i, left, right, next, sep);
    let p = t.page(h, i);
    let q = right.page_id();
    let c = t.levels[h];
    let c2 = t2.levels[h];
    assert(t.page_ok::<K>(h, i));
    assert(c2 =~= c.subrange(0, i + 1) + seq![q] + c.subrange(i + 1, c.len() as int));
    // Where each page of the new tree was before.
    assert forall|g: int, j: int| #[trigger] t2.valid(g, j) && !(g == h && j == i + 1) implies {
        let j0 = if g == h && j > i {
            j - 1
        } else {
            j
        };
        &&& t.valid(g, j0)
        &&& t2.page(g, j) == t.page(g, j0)
        &&& t2.page(g, j) != q
        &&& t.page_ok::<K>(g, j0)
    } by {
        let j0 = if g == h && j > i {
            j - 1
        } else {
            j
        };
        assert(t.valid(g, j0));
        assert(t.page_ok::<K>(g, j0));
        if g != h {
            assert(t2.levels[g] == t.levels[g]);
        }
    }
    assert(t2.page(h, i + 1) == q);
    assert(t2.page(h, i) == p);
    assert(t2.distinct()) by {
        assert forall|g: int, a: int, f: int, b: int|
            t2.valid(g, a) && t2.valid(f, b) && #[trigger] t2.page(g, a) == #[trigger] t2.page(
                f,
                b,
            ) implies g == f && a == b by {
            let a0 = if g == h && a > i {
                a - 1
            } else {
                a
            };
            let b0 = if f == h && b > i {
                b - 1
            } else {
                b
            };
            if !(g == h && a == i + 1) && !(f == h && b == i + 1) {
                assert(t.page(g, a0) == t.page(f, b0));
            }
        }
    }
    assert(t2.shape()) by {
        let top = t.levels.len() - 1;
        assert(t.levels[top].len() >= 1);
        assert(t2.valid(top, 0));
        assert(t2.page(top, 0) == t.page(top, 0));
        assert forall|g: int| 0 <= g < t2.levels.len() implies (#[trigger] t2.levels[g]).len()
            >= 1 by {
            assert(t.levels[g].len() >= 1);
        }
    }
    assert forall|g: int, cc: u64| 0 <= g < t.levels.len() && #[trigger] t.levels[g].contains(
        cc,
    ) implies t2.levels[g].contains(cc) && t2.lows[cc] == t.lows[cc] by {
        let k = choose|k: int| 0 <= k < t.levels[g].len() && t.levels[g][k] == cc;
        assert(t.valid(g, k));
        assert(t.page(g, k) == cc);
        assert(t.page_ok::<K>(g, k));
        if g == h {
            let k2 = if k > i {
                k + 1
            } else {
                k
            };
            assert(c2[k2] == cc);
        }
    }
    assert forall|g: int, j: int| t2.valid(g, j) implies #[trigger] t2.page_ok::<K>(g, j) by {
        lemma_split_page::<K>(t, h, i, left, right, next, sep, g, j);
    }
}

proof fn lemma_split_page<K: Key>(
    t: Tree,
    h: int,
    i: int,
    left: NodeView,
    right: NodeView,
    next: Option<LeafView>,
    sep: Seq<u8>,
    g: int,
    j: int,
)
    requires
        t.wf::<K>(),
        t.valid(h, i),
        left.page_id() == t.page(h, i),
        !t.nodes.contains_key(right.page_id()),
        left.wf(),
        right.wf(),
        left is Leaf <==> h == 0,
        right is Leaf <==> h == 0,
        left.rightlink() == Some(right.page_id()),
        left.high_key() == Some(sep),
        right.rightlink() == t.nodes[t.page(h, i)].rightlink(),
        right.high_key() == t.nodes[t.page(h, i)].high_key(),
        next_ok(t, h, i, right.page_id(), next),
        ({
            let t2 = split(t, h, i, left, right, next, sep);
            &&& (left matches NodeView::Leaf(l) ==> t2.leaf_ok::<K>(l) && l.prev_page == t.leaf(
                i,
            ).prev_page)
            &&& (right matches NodeView::Leaf(r) ==> t2.leaf_ok::<K>(r) && r.prev_page == Some(
                left.page_id(),
            ))
            &&& (left matches NodeView::Internal(l) ==> t2.internal_ok::<K>(h, l))
            &&& (right matches NodeView::Internal(r) ==> t2.internal_ok::<K>(h, r))
            &&& t2.valid(g, j)
            &&& forall|g: int, cc: u64|
                0 <= g < t.levels.len() && #[trigger] t.levels[g].contains(cc)
                    ==> t2.levels[g].contains(cc) && t2.lows[cc] == t.lows[cc]
        }),
    ensures
        split(t, h, i, left, right, next, sep).page_ok::<K>(g, j),
{
    let t2 = split(t, h, i, left, right, next, sep);
    let p = t.page(h, i);
    let q = right.page_id();
    let c = t.levels[h];
    let c2 = t2.levels[h];
    assert(c2 =~= c.subrange(0, i + 1) + seq![q] + c.subrange(i + 1, c.len() as int));
    assert(t.page_ok::<K>(h, i));
    if i + 1 < c.len() {
        assert(t.valid(h, i + 1));
        assert(t.page_ok::<K>(h, i + 1));
        assert(t.page(h, i + 1) != p);
        assert(c2[i + 2] == t.page(h, i + 1));
    }
    if i > 0 {
        assert(t.valid(h, i - 1));
        assert(t.page_ok::<K>(h, i - 1));
        assert(t.page(h, i - 1) != p);
        assert(c2[i - 1] == t.page(h, i - 1));
        if i + 1 < c.len() {
            assert(t.page(h, i - 1) != t.page(h, i + 1));
        }
    }
    assert(c2[i] == p && c2[i + 1] == q);
    assert(p != q);
    if next is Some {
        assert(next->0.page_id == t.page(0, i + 1));
    }
    assert(t2.nodes[p] == left && t2.nodes[q] == right);
    if g == h && j == i {
        assert(t2.lows[p] == t.lows[p]);
        assert(t2.linked(g, j));
    } else if g == h && j == i + 1 {
        assert(t2.linked(g, j));
    } else {
        let j0 = if g == h && j > i {
            j - 1
        } else {
            j
        };
        assert(t.valid(g, j0));
        assert(t.page_ok::<K>(g, j0));
        assert(t2.page(g, j) == t.page(g, j0));
        assert(t.page(g, j0) != p);
        let n = t.nodes[t.page(g, j0)];
        assert(t.page(g, j0) != q);
        if g == h && j == i + 2 {
            assert(t2.lows[t2.page(g, j)] == t.lows[t.page(g, j0)]);
            assert(t2.levels[g][j - 1] == q);
            if j0 + 1 < c.len() {
                assert(c2[j + 1] == c[j0 + 1]);
            }
            assert(t2.linked(g, j));
            if h == 0 {
                assert(n->Leaf_0.entries == next->0.entries);
                reveal(records_ok);
            }
            if let NodeView::Internal(v) = n {
                lemma_internal_frame::<K>(t, t2, g, v);
            }
        } else {
            if next is Some {
                assert(t.page(g, j0) != t.page(0, i + 1));
            }
            assert(t2.nodes[t2.page(g, j)] == n);
            assert(t2.lows[t2.page(g, j)] == t.lows[t.page(g, j0)]);
            if j0 > 0 {
                assert(t.valid(g, j0 - 1));
                assert(t.page_ok::<K>(g, j0 - 1));
                assert(t.page(g, j0 - 1) != p);
                assert(t2.page(g, j - 1) == t.page(g, j0 - 1));
            }
            if j0 + 1 < t.levels[g].len() {
                assert(t.valid(g, j0 + 1));
                assert(t2.page(g, j + 1) == t.page(g, j0 + 1));
            }
            assert(t2.linked(g, j));
            if let NodeView::Internal(v) = n {
                lemma_internal_frame::<K>(t, t2, g, v);
            }
        }
    }
}

/// Splitting a page keeps the records, when the halves of a leaf make them up.
pub proof fn lemma_split_records<K: Key>(
    t: Tree,
    h: int,
    i: int,
    left: NodeView,
    right: NodeView,
    next: Option<LeafView>,
    sep: Seq<u8>,
)
    requires
        t.wf::<K>(),
        t.valid(h, i),
        left.page_id() == t.page(h, i),
        !t.nodes.contains_key(right.page_id()),
        left is Leaf <==> h == 0,
        right is Leaf <==> h == 0,
        next_ok(t, h, i, right.page_id(), next),
        h == 0 ==> left->Leaf_0.entries + right->Leaf_0.entries == t.leaf(i).entries,
    ensures
        split(t, h, i, left, right, next, sep).records() == t.records(),
{
    let t2 = split(t, h, i, left, right, next, sep);
    let c = t.levels[0];
    let q = right.page_id();
    assert(t.page_ok::<K>(h, i));
    if next is Some {
        assert(t.valid(0, i + 1));
        assert(t.page_ok::<K>(0, i + 1));
        assert(next->0.page_id == t.page(0, i + 1));
        assert(t.page(0, i + 1) != t.page(h, i));
    }
    assert forall|k: int| 0 <= k < c.len() && !(h == 0 && k == i) implies entries_of(
        t.nodes,
        #[trigger] c[k],
    ) == entries_of(t2.nodes, c[k]) by {
        assert(t.valid(0, k));
        assert(t.page_ok::<K>(0, k));
        assert(c[k] == t.page(0, k));
        assert(t.page(0, k) != t.page(h, i));
        if next is Some && k == i + 1 {
        }
    }
    if h == 0 {
        let a = c.subrange(0, i);
        let b = c.subrange(i + 1, c.len() as int);
        let p = c[i];
        assert(p == t.page(0, i));
        assert(t2.levels[0] =~= ((a + seq![p]) + seq![q]) + b);
        lemma_flat_cut(t.nodes, c, i);
        lemma_flat_add(t2.nodes, (a + seq![p]) + seq![q], b);
        lemma_flat_add(t2.nodes, a + seq![p], seq![q]);
        lemma_flat_add(t2.nodes, a, seq![p]);
        lemma_flat_one(t2.nodes, p);
        lemma_flat_one(t2.nodes, q);
        assert forall|k: int| 0 <= k < a.len() implies entries_of(t.nodes, #[trigger] a[k])
            == entries_of(t2.nodes, a[k]) by {
            assert(a[k] == c[k]);
        }
        assert forall|k: int| 0 <= k < b.len() implies entries_of(t.nodes, #[trigger] b[k])
            == entries_of(t2.nodes, b[k]) by {
            assert(b[k] == c[k + i + 1]);
        }
        lemma_flat_frame(t.nodes, t2.nodes, a);
        lemma_flat_frame(t.nodes, t2.nodes, b);
        assert(t2.records() =~= t.records());
    } else {
        assert(t2.levels[0] == c);
        lemma_flat_frame(t.nodes, t2.nodes, c);
    }
}

/// The tree with a new root `v` above its old one.
pub open spec fn grow(t: Tree, v: InternalView) -> Tree {
    Tree {
        nodes: t.nodes.insert(v.page_id, NodeView::Internal(v)),
        levels: t.levels.push(seq![v.page_id]),
        lows: t.lows.insert(v.page_id, None),
        root: v.page_id,
    }
}

/// Putting a new root on top keeps the tree well-formed and its records.
pub proof fn lemma_grow<K: Key>(t: Tree, v: InternalView)
    requires
        t.wf::<K>(),
        !t.nodes.contains_key(v.page_id),
        v.wf(),
        v.rightlink is None,
        v.high_key is None,
        children_ok::<K>(t.levels.last(), t.lows.insert(v.page_id, None), v),
    ensures
        grow(t, v).wf::<K>(),
        grow(t, v).records() == t.records(),
{
    let t2 = grow(t, v);
    let top = t.levels.len() as int;
    assert forall|g: int, j: int| t2.valid(g, j) implies #[trigger] t2.page_ok::<K>(g, j) by {
        if g == top {
            assert(t2.levels[g] == seq![v.page_id]);
            assert(t2.levels[g - 1] == t.levels.last());
            assert(t2.linked(g, j));
        } else {
            assert(t2.levels[g] == t.levels[g]);
            assert(t.valid(g, j));
            assert(t.page_ok::<K>(g, j));
            if j > 0 {
                assert(t.valid(g, j - 1));
                assert(t.page_ok::<K>(g, j - 1));
            }
            assert(t2.linked(g, j));
            if let NodeView::Internal(w) = t.nodes[t.page(g, j)] {
                assert forall|c: u64| #[trigger] t.levels[g - 1].contains(c) implies t2.lows[c]
                    == t.lows[c] by {
                    let lower = t.levels[g - 1];
                    let k = choose|k: int| 0 <= k < lower.len() && lower[k] == c;
                    assert(t.valid(g - 1, k));
                    assert(t.page_ok::<K>(g - 1, k));
                }
                assert(t2.levels[g - 1] == t.levels[g - 1]);
                lemma_internal_frame::<K>(t, t2, g, w);
            }
        }
    }
    assert forall|g: int, a: int, f: int, b: int|
        t2.valid(g, a) && t2.valid(f, b) && #[trigger] t2.page(g, a) == #[trigger] t2.page(
            f,
            b,
        ) implies g == f && a == b by {
        if g < top {
            assert(t2.levels[g] == t.levels[g]);
            assert(t.page_ok::<K>(g, a));
            assert(t.page(g, a) == t2.page(g, a));
        }
        if f < top {
            assert(t2.levels[f] == t.levels[f]);
            assert(t.page_ok::<K>(f, b));
            assert(t.page(f, b) == t2.page(f, b));
        }
    }
    let c = t.levels[0];
    assert(t2.levels[0] == c);
    assert forall|k: int| 0 <= k < c.len() implies entries_of(t.nodes, #[trigger] c[k])
        == entries_of(t2.nodes, c[k]) by {
        assert(t.valid(0, k));
        assert(t.page_ok::<K>(0, k));
    }
    lemma_flat_frame(t.nodes, t2.nodes, c);
}

/// The pages after the leaf between `left` and `right` left the chain and
/// `parent` lost its downlink.
pub open spec fn unlink_nodes(
    m: Map<u64, NodeView>,
    parent: InternalView,
    left: Option<LeafView>,
    right: Option<LeafView>,
) -> Map<u64, NodeView> {
    let m1 = m.insert(parent.page_id, NodeView::Internal(parent));
    let m2 = match left {
        Some(l) => m1.insert(l.page_id, NodeView::Leaf(l)),
        None => m1,
    };
    match right {
        Some(r) => m2.insert(r.page_id, NodeView::Leaf(r)),
        None => m2,
    }
}

/// The tree after the leaf at index `i` left the chain.
pub open spec fn unlink(
    t: Tree,
    i: int,
    parent: InternalView,
    left: Option<LeafView>,
    right: Option<LeafView>,
) -> Tree {
    Tree {
        nodes: unlink_nodes(t.nodes, parent, left, right),
        levels: t.levels.update(0, t.levels[0].remove(i)),
        lows: if i + 1 < t.levels[0].len() {
            t.lows.insert(t.page(0, i + 1), t.lows[t.page(0, i)])
        } else {
            t.lows
        },
        root: t.root,
    }
}

/// What the neighbours of an unlinked leaf must be: joined to each other.
pub open spec fn neighbours_ok(
    t: Tree,
    i: int,
    left: Option<LeafView>,
    right: Option<LeafView>,
) -> bool {
    let n = t.levels[0].len();
    &&& left is Some <==> i > 0
    &&& right is Some <==> i + 1 < n
    &&& left is Some ==> left->0 == LeafView {
        rightlink: t.leaf(i).rightlink,
        high_key: if i + 1 < n {
            t.leaf(i - 1).high_key
        } else {
            None
        },
        lsn: left->0.lsn,
        ..t.leaf(i - 1)
    }
    &&& right is Some ==> right->0 == LeafView {
        prev_page: t.leaf(i).prev_page,
        lsn: right->0.lsn,
        ..t.leaf(i + 1)
    }
}

/// Taking an empty leaf out of the chain, with its only downlink gone, keeps
/// the tree well-formed and its records.
#[verifier::rlimit(60)]
pub proof fn lemma_unlink<K: Key>(
    t: Tree,
    i: int,
    k: int,
    parent: InternalView,
    left: Option<LeafView>,
    right: Option<LeafView>,
)
    requires
        t.wf::<K>(),
        t.valid(0, i),
        t.valid(1, k),
        t.levels[0].len() >= 2,
        t.leaf(i).entries.len() == 0,
        neighbours_ok(t, i, left, right),
        parent.page_id == t.page(1, k),
        parent.wf(),
        parent.rightlink == t.nodes[t.page(1, k)].rightlink(),
        parent.high_key == t.nodes[t.page(1, k)].high_key(),
        forall|m: int|
            0 <= m < t.levels[1].len() && m != k ==> !(#[trigger] t.nodes[t.page(
                1,
                m,
            )]->Internal_0).children.contains(t.page(0, i)),
        unlink(t, i, parent, left, right).internal_ok::<K>(1, parent),
    ensures
        unlink(t, i, parent, left, right).wf::<K>(),
        unlink(t, i, parent, left, right).records() == t.records(),
{
    let t2 = unlink(t, i, parent, left, right);
    let c = t.levels[0];
    let c2 = t2.levels[0];
    let p = t.page(0, i);
    assert(c2 =~= c.subrange(0, i) + c.subrange(i + 1, c.len() as int));
    assert(t.page_ok::<K>(0, i));
    assert(t.page_ok::<K>(1, k));
    if i > 0 {
        assert(t.valid(0, i - 1));
        assert(t.page_ok::<K>(0, i - 1));
    }
    if i + 1 < c.len() {
        assert(t.valid(0, i + 1));
        assert(t.page_ok::<K>(0, i + 1));
        lemma_lows_monotone::<K>(t, i, i + 1);
    }
    assert forall|g: int, j: int| #[trigger] t2.valid(g, j) implies {
        let j0 = if g == 0 && j >= i {
            j + 1
        } else {
            j
        };
        &&& t.valid(g, j0)
        &&& t2.page(g, j) == t.page(g, j0)
        &&& t.page_ok::<K>(g, j0)
    } by {
        let j0 = if g == 0 && j >= i {
            j + 1
        } else {
            j
        };
        assert(t.valid(g, j0));
        assert(t.page_ok::<K>(g, j0));
    }
    assert(t2.distinct()) by {
        assert forall|g: int, a: int, f: int, b: int|
            t2.valid(g, a) && t2.valid(f, b) && #[trigger] t2.page(g, a) == #[trigger] t2.page(
                f,
                b,
            ) implies g == f && a == b by {
            let a0 = if g == 0 && a >= i {
                a + 1
            } else {
                a
            };
            let b0 = if f == 0 && b >= i {
                b + 1
            } else {
                b
            };
            assert(t.page(g, a0) == t.page(f, b0));
        }
    }
    assert(t2.shape()) by {
        let top = t.levels.len() - 1;
        assert(t.levels[top].len() >= 1);
        assert(t2.valid(top, 0));
        assert forall|g: int| 0 <= g < t2.levels.len() implies (#[trigger] t2.levels[g]).len()
            >= 1 by {
            assert(t.levels[g].len() >= 1);
        }
    }
    assert forall|g: int, j: int| t2.valid(g, j) implies #[trigger] t2.page_ok::<K>(g, j) by {
        lemma_unlink_page::<K>(t, i, k, parent, left, right, g, j);
    }
    // Records.
    let a = c.subrange(0, i);
    let b = c.subrange(i + 1, c.len() as int);
    lemma_flat_cut(t.nodes, c, i);
    lemma_flat_add(t2.nodes, a, b);
    assert forall|m: int| 0 <= m < c.len() && m != i implies entries_of(t.nodes, #[trigger] c[m])
        == entries_of(t2.nodes, c[m]) by {
        assert(t.valid(0, m));
        assert(t.page_ok::<K>(0, m));
        assert(c[m] == t.page(0, m));
        assert(t.page(0, m) != t.page(1, k));
        if i > 0 {
            assert(t.page(0, i - 1) == c[i - 1]);
        }
        if i + 1 < c.len() {
            assert(t.page(0, i + 1) == c[i + 1]);
        }
    }
    assert forall|m: int| 0 <= m < a.len() implies entries_of(t.nodes, #[trigger] a[m])
        == entries_of(t2.nodes, a[m]) by {
        assert(a[m] == c[m]);
    }
    assert forall|m: int| 0 <= m < b.len() implies entries_of(t.nodes, #[trigger] b[m])
        == entries_of(t2.nodes, b[m]) by {
        assert(b[m] == c[m + i + 1]);
    }
    lemma_flat_frame(t.nodes, t2.nodes, a);
    lemma_flat_frame(t.nodes, t2.nodes, b);
    assert(entries_of(t.nodes, c[i]) =~= Seq::<RecordView>::empty());
    assert(t2.records() =~= t.records());
}

#[verifier::rlimit(40)]
proof fn lemma_unlink_page<K: Key>(
    t: Tree,
    i: int,
    k: int,
    parent: InternalView,
    left: Option<LeafView>,
    right: Option<LeafView>,
    g: int,
    j: int,
)
    requires
        t.wf::<K>(),
        t.valid(0, i),
        t.valid(1, k),
        t.levels[0].len() >= 2,
        t.leaf(i).entries.len() == 0,
        neighbours_ok(t, i, left, right),
        parent.page_id == t.page(1, k),
        parent.wf(),
        parent.rightlink == t.nodes[t.page(1, k)].rightlink(),
        parent.high_key == t.nodes[t.page(1, k)].high_key(),
        forall|m: int|
            0 <= m < t.levels[1].len() && m != k ==> !(#[trigger] t.nodes[t.page(
                1,
                m,
            )]->Internal_0).children.contains(t.page(0, i)),
        unlink(t, i, parent, left, right).internal_ok::<K>(1, parent),
        unlink(t, i, parent, left, right).valid(g, j),
        i + 1 < t.levels[0].len() ==> bound_le::<K>(t.lows[t.page(0, i)], t.lows[t.page(0, i + 1)]),
    ensures
        unlink(t, i, parent, left, right).page_ok::<K>(g, j),
{
    let t2 = unlink(t, i, parent, left, right);
    let c = t.levels[0];
    let c2 = t2.levels[0];
    let p = t.page(0, i);
    let pp = t.page(1, k);
    K::le_laws();
    assert(c2 =~= c.subrange(0, i) + c.subrange(i + 1, c.len() as int));
    assert(t.page_ok::<K>(0, i));
    assert(t.page_ok::<K>(1, k));
    if i > 0 {
        assert(t.valid(0, i - 1));
        assert(t.page_ok::<K>(0, i - 1));
        assert(t.page(0, i - 1) != pp && t.page(0, i - 1) != p);
    }
    if i + 1 < c.len() {
        assert(t.valid(0, i + 1));
        assert(t.page_ok::<K>(0, i + 1));
        assert(t.page(0, i + 1) != pp && t.page(0, i + 1) != p);
        if i > 0 {
            assert(t.page(0, i + 1) != t.page(0, i - 1));
        }
    }
    let j0 = if g == 0 && j >= i {
        j + 1
    } else {
        j
    };
    assert(t.valid(g, j0));
    assert(t.page_ok::<K>(g, j0));
    let x = t.page(g, j0);
    let n = t.nodes[x];
    assert(t2.page(g, j) == x);
    if g == 0 {
        assert(x != pp);
        if j0 > 0 {
            assert(t.valid(0, j0 - 1));
            assert(t.page_ok::<K>(0, j0 - 1));
            assert(t.page(0, j0 - 1) != pp);
        }
        if j0 + 1 < c.len() {
            assert(t.valid(0, j0 + 1));
        }
        if j > 0 {
            assert(t2.levels[0][j - 1] == t.page(0, if j == i { i - 1 } else { j0 - 1 }));
        }
        if j == i - 1 {
            assert(t2.nodes[x] == NodeView::Leaf(left->0));
            reveal(records_ok);
            assert(t2.linked(g, j));
        } else if j == i {
            assert(t2.nodes[x] == NodeView::Leaf(right->0));
            lemma_records_low::<K>(t.lows[x], t.lows[p], n->Leaf_0, right->0);
            assert(t2.linked(g, j));
        } else {
            if i > 0 {
                assert(x != t.page(0, i - 1));
            }
            if i + 1 < c.len() {
                assert(x != t.page(0, i + 1));
            }
            assert(t2.nodes[x] == n);
            if j0 > 0 {
                let y = t.page(0, j0 - 1);
                assert(t2.nodes[y].high_key() == t.nodes[y].high_key()) by {
                    if i > 0 && j0 - 1 != i - 1 {
                        assert(y != t.page(0, i - 1));
                    }
                    if i + 1 < c.len() && j0 - 1 != i + 1 {
                        assert(y != t.page(0, i + 1));
                    }
                }
            }
            assert(t2.linked(g, j));
        }
    } else {
        if i > 0 {
            assert(x != t.page(0, i - 1));
        }
        if i + 1 < c.len() {
            assert(x != t.page(0, i + 1));
        }
        if j0 > 0 {
            assert(t.valid(g, j0 - 1));
            assert(t.page_ok::<K>(g, j0 - 1));
            let y = t.page(g, j0 - 1);
            if i > 0 {
                assert(y != t.page(0, i - 1));
            }
            if i + 1 < c.len() {
                assert(y != t.page(0, i + 1));
            }
            assert(t2.nodes[y].high_key() == t.nodes[y].high_key());
        }
        assert(t2.linked(g, j));
        if x != pp {
            assert(t2.nodes[x] == n);
            let v = n->Internal_0;
            reveal(children_ok);
            assert forall|m: int| 0 <= m < v.children.len() implies {
                let _ = #[trigger] v.children[m];
                child_ok::<K>(t2.levels[g - 1], t2.lows, v, m)
            } by {
                assert(child_ok::<K>(t.levels[g - 1], t.lows, v, m));
                let cc = v.children[m];
                let lower = t.levels[g - 1];
                let z = choose|z: int| 0 <= z < lower.len() && lower[z] == cc;
                assert(t.valid(g - 1, z));
                assert(cc == t.page(g - 1, z));
                if g == 1 {
                    assert(j != k);
                    assert(!t.nodes[t.page(1, j)]->Internal_0.children.contains(p));
                    assert(v.children.contains(cc));
                    assert(cc != p);
                    assert(c2[if z > i { z - 1 } else { z }] == cc);
                } else if i + 1 < c.len() {
                    assert(cc != t.page(0, i + 1));
                }
            }
        } else {
            assert(g == 1 && j == k);
        }
    }
}

proof fn lemma_records_low<K: Key>(
    low: Option<Seq<u8>>,
    low2: Option<Seq<u8>>,
    l: LeafView,
    l2: LeafView,
)
    requires
        records_ok::<K>(low, l),
        bound_le::<K>(low2, low),
        l2.entries == l.entries,
        l2.high_key == l.high_key,
    ensures
        records_ok::<K>(low2, l2),
{
    reveal(records_ok);
    K::le_laws();
}

} // verus!
