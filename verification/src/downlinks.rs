//! The downlinks of a tree: which pages the level above names as children, and
//! which it does not because a split is still incomplete.

use vstd::prelude::*;

use crate::index::{lemma_page, BTreeIndex};
use crate::index_edit::flagged;
use crate::key::Key;
use crate::node::NodeView;
use crate::tree_spec::{child_ok, children_ok, put, separator, Tree};

verus! {

/// How often an id occurs.
pub open spec fn times(s: Seq<u64>, p: u64) -> nat
    decreases s.len(),
{
    if s.len() == 0 {
        0
    } else {
        times(s.drop_last(), p) + if s.last() == p {
            1nat
        } else {
            0nat
        }
    }
}

/// The children of a page; a leaf has none.
pub open spec fn kids_of(n: NodeView) -> Seq<u64> {
    match n {
        NodeView::Internal(v) => v.children,
        NodeView::Leaf(_) => Seq::empty(),
    }
}

/// The children of a chain of pages, from left to right.
pub open spec fn brood(nodes: Map<u64, NodeView>, chain: Seq<u64>) -> Seq<u64>
    decreases chain.len(),
{
    if chain.len() == 0 {
        Seq::empty()
    } else {
        brood(nodes, chain.drop_last()) + kids_of(nodes[chain.last()])
    }
}

/// The downlinks to pages of level `h`.
pub open spec fn downlinks(t: Tree, h: int) -> Seq<u64> {
    if h + 1 < t.levels.len() {
        brood(t.nodes, t.levels[h + 1])
    } else {
        Seq::empty()
    }
}

/// How many downlinks a page of level `h` has.
pub open spec fn downs(t: Tree, h: int, p: u64) -> nat {
    times(downlinks(t, h), p)
}

/// Whether the page at index `i` of level `h` has one downlink; or none, and it is
/// the root, or its left neighbour is flagged as one whose split is incomplete.
pub open spec fn tied(t: Tree, h: int, i: int) -> bool {
    let n = downs(t, h, t.page(h, i));
    n == 1 || (n == 0 && if i == 0 {
        h + 1 == t.levels.len()
    } else {
        flagged(t.nodes[t.page(h, i - 1)])
    })
}

/// Whether every page is tied to the level above.
#[verifier::opaque]
pub open spec fn laced(t: Tree) -> bool {
    forall|h: int, i: int| t.valid(h, i) ==> #[trigger] tied(t, h, i)
}

/// In an index every page has exactly one downlink in the level above; or it has none,
/// and is the root, or its left neighbour is flagged as one whose split is incomplete.
pub proof fn law_pages_are_tied<K: Key>(index: BTreeIndex<K>, h: int, i: int)
    requires
        index.wf(),
        index.tree().valid(h, i),
    ensures
        tied(index.tree(), h, i),
{
    reveal(laced);
}

// ── Occurrences ──────────────────────────────────────────────────────────────
pub proof fn lemma_times_add(a: Seq<u64>, b: Seq<u64>, p: u64)
    ensures
        times(a + b, p) == times(a, p) + times(b, p),
    decreases b.len(),
{
    if b.len() == 0 {
        assert(a + b =~= a);
    } else {
        assert((a + b).drop_last() =~= a + b.drop_last());
        lemma_times_add(a, b.drop_last(), p);
    }
}

proof fn lemma_times_one(x: u64, p: u64)
    ensures
        times(seq![x], p) == if x == p {
            1nat
        } else {
            0nat
        },
{
    assert(seq![x].drop_last() =~= Seq::<u64>::empty());
    assert(seq![x].last() == x);
    assert(times(Seq::<u64>::empty(), p) == 0);
}

pub proof fn lemma_times_insert(s: Seq<u64>, k: int, x: u64, p: u64)
    requires
        0 <= k <= s.len(),
    ensures
        times(s.insert(k, x), p) == times(s, p) + if x == p {
            1nat
        } else {
            0nat
        },
{
    let a = s.take(k);
    let b = s.skip(k);
    assert(s =~= a + b);
    assert(s.insert(k, x) =~= (a + seq![x]) + b);
    lemma_times_add(a, b, p);
    lemma_times_add(a + seq![x], b, p);
    lemma_times_add(a, seq![x], p);
    lemma_times_one(x, p);
}

pub proof fn lemma_times_remove(s: Seq<u64>, k: int, p: u64)
    requires
        0 <= k < s.len(),
    ensures
        times(s, p) == times(s.remove(k), p) + if s[k] == p {
            1nat
        } else {
            0nat
        },
{
    lemma_times_insert(s.remove(k), k, s[k], p);
    assert(s.remove(k).insert(k, s[k]) =~= s);
}

pub proof fn lemma_times_contains(s: Seq<u64>, p: u64)
    ensures
        times(s, p) > 0 <==> s.contains(p),
    decreases s.len(),
{
    if s.len() > 0 {
        let t = s.drop_last();
        lemma_times_contains(t, p);
        if t.contains(p) {
            let i = choose|i: int| 0 <= i < t.len() && t[i] == p;
            assert(s[i] == p);
        }
        if s.last() == p {
            assert(s[s.len() - 1] == p);
        }
        if s.contains(p) && s.last() != p {
            let i = choose|i: int| 0 <= i < s.len() && s[i] == p;
            assert(t[i] == p);
        }
    }
}

// ── Children of a chain ──────────────────────────────────────────────────────
pub proof fn lemma_brood_add(nodes: Map<u64, NodeView>, a: Seq<u64>, b: Seq<u64>)
    ensures
        brood(nodes, a + b) == brood(nodes, a) + brood(nodes, b),
    decreases b.len(),
{
    if b.len() == 0 {
        assert(a + b =~= a);
        assert(brood(nodes, a) + brood(nodes, b) =~= brood(nodes, a));
    } else {
        assert((a + b).drop_last() =~= a + b.drop_last());
        lemma_brood_add(nodes, a, b.drop_last());
        assert(brood(nodes, a + b) =~= brood(nodes, a) + brood(nodes, b));
    }
}

proof fn lemma_brood_one(nodes: Map<u64, NodeView>, p: u64)
    ensures
        brood(nodes, seq![p]) == kids_of(nodes[p]),
{
    assert(seq![p].drop_last() =~= Seq::<u64>::empty());
    assert(brood(nodes, Seq::<u64>::empty()) =~= Seq::<u64>::empty());
    assert(seq![p].last() == p);
    assert(brood(nodes, seq![p]) =~= kids_of(nodes[p]));
}

proof fn lemma_brood_frame(m1: Map<u64, NodeView>, m2: Map<u64, NodeView>, chain: Seq<u64>)
    requires
        forall|i: int|
            0 <= i < chain.len() ==> kids_of(m1[#[trigger] chain[i]]) == kids_of(m2[chain[i]]),
    ensures
        brood(m1, chain) == brood(m2, chain),
    decreases chain.len(),
{
    if chain.len() > 0 {
        assert(chain.last() == chain[chain.len() - 1]);
        assert forall|i: int| 0 <= i < chain.drop_last().len() implies kids_of(
            m1[#[trigger] chain.drop_last()[i]],
        ) == kids_of(m2[chain.drop_last()[i]]) by {
            assert(chain.drop_last()[i] == chain[i]);
        }
        lemma_brood_frame(m1, m2, chain.drop_last());
    }
}

/// The children of a chain, cut at one of its pages.
proof fn lemma_brood_cut(nodes: Map<u64, NodeView>, chain: Seq<u64>, k: int)
    requires
        0 <= k < chain.len(),
    ensures
        brood(nodes, chain) == brood(nodes, chain.subrange(0, k)) + kids_of(nodes[chain[k]])
            + brood(nodes, chain.subrange(k + 1, chain.len() as int)),
{
    let a = chain.subrange(0, k);
    let b = chain.subrange(k + 1, chain.len() as int);
    assert(chain =~= (a + seq![chain[k]]) + b);
    lemma_brood_add(nodes, a + seq![chain[k]], b);
    lemma_brood_add(nodes, a, seq![chain[k]]);
    lemma_brood_one(nodes, chain[k]);
}

/// A child of a chain is the child of one of its pages.
proof fn lemma_brood_member(nodes: Map<u64, NodeView>, chain: Seq<u64>, p: u64) -> (k: int)
    requires
        brood(nodes, chain).contains(p),
    ensures
        0 <= k < chain.len(),
        kids_of(nodes[chain[k]]).contains(p),
    decreases chain.len(),
{
    let s = brood(nodes, chain);
    let i = choose|i: int| 0 <= i < s.len() && s[i] == p;
    let a = brood(nodes, chain.drop_last());
    if i < a.len() {
        assert(a[i] == p);
        let k = lemma_brood_member(nodes, chain.drop_last(), p);
        assert(chain.drop_last()[k] == chain[k]);
        k
    } else {
        assert(kids_of(nodes[chain.last()])[i - a.len()] == p);
        chain.len() - 1
    }
}

/// The children of a chain in which one page differs.
proof fn lemma_brood_changed(
    m1: Map<u64, NodeView>,
    m2: Map<u64, NodeView>,
    chain: Seq<u64>,
    k: int,
    p: u64,
)
    requires
        0 <= k < chain.len(),
        forall|i: int|
            0 <= i < chain.len() && i != k ==> kids_of(m1[#[trigger] chain[i]]) == kids_of(
                m2[chain[i]],
            ),
    ensures
        times(brood(m2, chain), p) + times(kids_of(m1[chain[k]]), p) == times(brood(m1, chain), p)
            + times(kids_of(m2[chain[k]]), p),
{
    let a = chain.subrange(0, k);
    let b = chain.subrange(k + 1, chain.len() as int);
    lemma_brood_cut(m1, chain, k);
    lemma_brood_cut(m2, chain, k);
    assert forall|i: int| 0 <= i < a.len() implies kids_of(m1[#[trigger] a[i]]) == kids_of(
        m2[a[i]],
    ) by {
        assert(a[i] == chain[i]);
    }
    assert forall|i: int| 0 <= i < b.len() implies kids_of(m1[#[trigger] b[i]]) == kids_of(
        m2[b[i]],
    ) by {
        assert(b[i] == chain[i + k + 1]);
    }
    lemma_brood_frame(m1, m2, a);
    lemma_brood_frame(m1, m2, b);
    let x = brood(m1, a);
    let y = brood(m1, b);
    let c1 = kids_of(m1[chain[k]]);
    let c2 = kids_of(m2[chain[k]]);
    lemma_times_add(x + c1, y, p);
    lemma_times_add(x, c1, p);
    lemma_times_add(x + c2, y, p);
    lemma_times_add(x, c2, p);
}

// ── What keeps a tree laced ──────────────────────────────────────────────────
/// Only pages of a level have downlinks from the one above.
pub proof fn lemma_downs_member<K: Key>(t: Tree, h: int, p: u64)
    requires
        t.wf::<K>(),
        0 <= h,
        downs(t, h, p) > 0,
    ensures
        h + 1 < t.levels.len(),
        t.levels[h].contains(p),
{
    lemma_times_contains(downlinks(t, h), p);
    let k = lemma_brood_member(t.nodes, t.levels[h + 1], p);
    assert(t.valid(h + 1, k));
    assert(t.page_ok::<K>(h + 1, k));
    assert(t.page(h + 1, k) == t.levels[h + 1][k]);
    let v = t.nodes[t.page(h + 1, k)]->Internal_0;
    let j = choose|j: int| 0 <= j < v.children.len() && v.children[j] == p;
    assert(t.internal_ok::<K>(h + 1, v));
    reveal(children_ok);
    let _ = v.children[j];
    assert(child_ok::<K>(t.levels[h], t.lows, v, j));
}

/// A page that another one names as a child has a downlink.
pub proof fn lemma_down_at(t: Tree, h: int, k: int, p: u64)
    requires
        0 <= h,
        t.valid(h + 1, k),
        kids_of(t.nodes[t.page(h + 1, k)]).contains(p),
    ensures
        downs(t, h, p) >= 1,
{
    lemma_brood_cut(t.nodes, t.levels[h + 1], k);
    let c = kids_of(t.nodes[t.page(h + 1, k)]);
    let a = brood(t.nodes, t.levels[h + 1].subrange(0, k));
    let b = brood(
        t.nodes,
        t.levels[h + 1].subrange(k + 1, t.levels[h + 1].len() as int),
    );
    lemma_times_contains(c, p);
    lemma_times_add(a + c, b, p);
    lemma_times_add(a, c, p);
}

/// A page that has downlinks is a child of some page above.
pub proof fn lemma_down_from(t: Tree, h: int, p: u64) -> (k: int)
    requires
        0 <= h,
        downs(t, h, p) >= 1,
    ensures
        t.valid(h + 1, k),
        kids_of(t.nodes[t.page(h + 1, k)]).contains(p),
{
    lemma_times_contains(downlinks(t, h), p);
    lemma_brood_member(t.nodes, t.levels[h + 1], p)
}

/// A page with one downlink is named in one place.
pub proof fn lemma_one_place(t: Tree, h: int, p: u64, k: int, j: int, a: int, b: int)
    requires
        0 <= h,
        downs(t, h, p) == 1,
        t.valid(h + 1, k),
        t.valid(h + 1, a),
        0 <= j < kids_of(t.nodes[t.page(h + 1, k)]).len(),
        0 <= b < kids_of(t.nodes[t.page(h + 1, a)]).len(),
        kids_of(t.nodes[t.page(h + 1, k)])[j] == p,
        kids_of(t.nodes[t.page(h + 1, a)])[b] == p,
    ensures
        a == k,
        b == j,
{
    let c = t.levels[h + 1];
    lemma_brood_cut(t.nodes, c, k);
    let kids = kids_of(t.nodes[c[k]]);
    let left = c.subrange(0, k);
    let right = c.subrange(k + 1, c.len() as int);
    let x = brood(t.nodes, left);
    let y = brood(t.nodes, right);
    lemma_times_add(x + kids, y, p);
    lemma_times_add(x, kids, p);
    lemma_times_remove(kids, j, p);
    if a < k {
        assert(left[a] == c[a]);
        lemma_named_in_brood(t.nodes, left, a, p);
    } else if a > k {
        assert(right[a - k - 1] == c[a]);
        lemma_named_in_brood(t.nodes, right, a - k - 1, p);
    } else if b != j {
        let rest = kids.remove(j);
        let i = if b < j {
            b
        } else {
            b - 1
        };
        assert(rest[i] == p);
        lemma_times_contains(rest, p);
    }
}

proof fn lemma_named_in_brood(nodes: Map<u64, NodeView>, chain: Seq<u64>, a: int, p: u64)
    requires
        0 <= a < chain.len(),
        kids_of(nodes[chain[a]]).contains(p),
    ensures
        times(brood(nodes, chain), p) >= 1,
{
    lemma_brood_cut(nodes, chain, a);
    let x = brood(nodes, chain.subrange(0, a));
    let y = brood(nodes, chain.subrange(a + 1, chain.len() as int));
    let kids = kids_of(nodes[chain[a]]);
    lemma_times_contains(kids, p);
    lemma_times_add(x + kids, y, p);
    lemma_times_add(x, kids, p);
}

/// Pages keep their children and their flags.
pub proof fn lemma_laced_frame(t: Tree, t2: Tree)
    requires
        laced(t),
        t2.levels == t.levels,
        forall|h: int, i: int|
            t.valid(h, i) ==> {
                let p = #[trigger] t.page(h, i);
                &&& kids_of(t2.nodes[p]) == kids_of(t.nodes[p])
                &&& flagged(t.nodes[p]) ==> flagged(t2.nodes[p])
            },
    ensures
        laced(t2),
        forall|h: int, p: u64| 0 <= h ==> #[trigger] downs(t2, h, p) == downs(t, h, p),
{
    reveal(laced);
    assert forall|h: int, p: u64| 0 <= h implies #[trigger] downs(t2, h, p) == downs(t, h, p) by {
        lemma_downs_frame(t, t2, h);
    }
    assert forall|h: int, i: int| t2.valid(h, i) implies #[trigger] tied(t2, h, i) by {
        assert(tied(t, h, i));
        assert(downs(t2, h, t2.page(h, i)) == downs(t, h, t.page(h, i)));
        if i > 0 {
            assert(t.valid(h, i - 1));
            assert(t.page(h, i - 1) == t2.page(h, i - 1));
        }
    }
}

/// A page is replaced by one with the same children, and keeps its flag if it has
/// one.
pub proof fn lemma_laced_put(t: Tree, n: NodeView)
    requires
        laced(t),
        kids_of(n) == kids_of(t.nodes[n.page_id()]),
        flagged(t.nodes[n.page_id()]) ==> flagged(n),
    ensures
        laced(put(t, n)),
        forall|h: int, p: u64| 0 <= h ==> #[trigger] downs(put(t, n), h, p) == downs(t, h, p),
{
    lemma_laced_frame(t, put(t, n));
}

/// With the root's own split complete the root is alone on its level.
pub proof fn lemma_root_alone<K: Key>(t: Tree)
    requires
        t.wf::<K>(),
        laced(t),
        !flagged(t.nodes[t.root]),
    ensures
        t.levels.last().len() == 1,
{
    reveal(laced);
    let top = t.levels.len() - 1;
    assert(t.levels[top].len() >= 1);
    assert(t.valid(top, 0));
    if t.levels[top].len() > 1 {
        assert(t.valid(top, 1));
        assert(tied(t, top, 1));
        assert(downlinks(t, top) =~= Seq::<u64>::empty());
    }
}

/// The downlinks to a level do not change when the level above does not.
pub proof fn lemma_downs_frame(t: Tree, t2: Tree, h: int)
    requires
        0 <= h,
        h + 1 < t.levels.len() <==> h + 1 < t2.levels.len(),
        h + 1 < t.levels.len() ==> t2.levels[h + 1] == t.levels[h + 1],
        forall|i: int|
            t.valid(h + 1, i) ==> kids_of(t2.nodes[#[trigger] t.page(h + 1, i)]) == kids_of(
                t.nodes[t.page(h + 1, i)],
            ),
    ensures
        downlinks(t2, h) == downlinks(t, h),
{
    if h + 1 < t.levels.len() {
        let c = t.levels[h + 1];
        assert forall|i: int| 0 <= i < c.len() implies kids_of(t.nodes[#[trigger] c[i]])
            == kids_of(t2.nodes[c[i]]) by {
            assert(t.valid(h + 1, i));
            assert(t.page(h + 1, i) == c[i]);
        }
        lemma_brood_frame(t.nodes, t2.nodes, c);
    }
}

/// The flag of a page goes whose right neighbour has its downlink.
pub proof fn lemma_laced_clear(t: Tree, t2: Tree, h: int, i: int)
    requires
        laced(t),
        t.valid(h, i),
        t2.levels == t.levels,
        forall|g: int, j: int|
            t.valid(g, j) ==> {
                let p = #[trigger] t.page(g, j);
                &&& kids_of(t2.nodes[p]) == kids_of(t.nodes[p])
                &&& flagged(t.nodes[p]) && p != t.page(h, i) ==> flagged(t2.nodes[p])
            },
        t.distinct(),
        i + 1 < t.levels[h].len() ==> downs(t, h, t.page(h, i + 1)) == 1,
    ensures
        laced(t2),
        forall|g: int, p: u64| 0 <= g ==> #[trigger] downs(t2, g, p) == downs(t, g, p),
{
    reveal(laced);
    assert forall|g: int, p: u64| 0 <= g implies #[trigger] downs(t2, g, p) == downs(t, g, p) by {
        lemma_downs_frame(t, t2, g);
    }
    assert forall|g: int, j: int| t2.valid(g, j) implies #[trigger] tied(t2, g, j) by {
        assert(tied(t, g, j));
        assert(downs(t2, g, t2.page(g, j)) == downs(t, g, t.page(g, j)));
        if j > 0 {
            assert(t.valid(g, j - 1));
            assert(t.page(g, j - 1) == t2.page(g, j - 1));
            if t.page(g, j - 1) == t.page(h, i) {
                assert(g == h && j == i + 1);
            }
        }
    }
}

/// A leaf splits: it is flagged, and the new one is if it was before.
pub proof fn lemma_laced_leaf_split<K: Key>(t: Tree, t2: Tree, i: int, new: u64)
    requires
        t.wf::<K>(),
        laced(t),
        t.valid(0, i),
        !t.nodes.contains_key(new),
        t2.levels == t.levels.update(0, t.levels[0].insert(i + 1, new)),
        forall|g: int, j: int|
            t.valid(g, j) ==> {
                let p = #[trigger] t.page(g, j);
                &&& kids_of(t2.nodes[p]) == kids_of(t.nodes[p])
                &&& flagged(t.nodes[p]) ==> flagged(t2.nodes[p])
            },
        flagged(t2.nodes[t.page(0, i)]),
        flagged(t.nodes[t.page(0, i)]) ==> flagged(t2.nodes[new]),
    ensures
        laced(t2),
        forall|g: int, p: u64| 0 <= g ==> #[trigger] downs(t2, g, p) == downs(t, g, p),
        downs(t2, 0, new) == 0,
{
    assert forall|g: int, p: u64| 0 <= g implies #[trigger] downs(t2, g, p) == downs(t, g, p) by {
        if g + 1 < t.levels.len() {
            assert(t2.levels[g + 1] == t.levels[g + 1]);
        }
        lemma_downs_frame(t, t2, g);
    }
    lemma_laced_split_rest::<K>(t, t2, 0, i, new);
}

/// What a split at level `h` leaves to show once the downlinks are known.
proof fn lemma_laced_split_rest<K: Key>(t: Tree, t2: Tree, h: int, i: int, new: u64)
    requires
        t.wf::<K>(),
        laced(t),
        t.valid(h, i),
        !t.nodes.contains_key(new),
        t2.levels == t.levels.update(h, t.levels[h].insert(i + 1, new)),
        forall|g: int, j: int|
            t.valid(g, j) ==> {
                let p = #[trigger] t.page(g, j);
                &&& flagged(t.nodes[p]) ==> flagged(t2.nodes[p])
            },
        flagged(t2.nodes[t.page(h, i)]),
        flagged(t.nodes[t.page(h, i)]) ==> flagged(t2.nodes[new]),
        forall|g: int, j: int|
            t.valid(g, j) ==> downs(t2, g, #[trigger] t.page(g, j)) == downs(t, g, t.page(g, j))
                || (downs(t, g, t.page(g, j)) == 0 && downs(t2, g, t.page(g, j)) == 1),
        downs(t2, h, new) == downs(t, h, new),
    ensures
        laced(t2),
        downs(t2, h, new) == 0,
{
    reveal(laced);
    let c = t.levels[h];
    let c2 = t2.levels[h];
    if downs(t, h, new) > 0 {
        lemma_downs_member::<K>(t, h, new);
        let k = lemma_page::<K>(t, h, new);
    }
    assert forall|g: int, j: int| t2.valid(g, j) implies #[trigger] tied(t2, g, j) by {
        if g == h && j == i + 1 {
            assert(c2[i + 1] == new);
            assert(c2[i] == c[i]);
            assert(t2.page(g, j) == new);
            assert(t2.page(g, j - 1) == t.page(h, i));
        } else {
            let j0 = if g == h && j > i {
                j - 1
            } else {
                j
            };
            assert(t2.page(g, j) == t.page(g, j0)) by {
                if g == h {
                    assert(c2[j] == c[j0]);
                }
            }
            assert(t.valid(g, j0));
            assert(tied(t, g, j0));
            if j > 0 {
                if g == h && j == i + 2 {
                    assert(t2.page(g, j - 1) == new) by {
                        assert(c2[i + 1] == new);
                    }
                    assert(t.page(g, j0 - 1) == t.page(h, i));
                } else {
                    assert(t.valid(g, j0 - 1));
                    assert(t2.page(g, j - 1) == t.page(g, j0 - 1)) by {
                        if g == h {
                            assert(c2[j - 1] == c[j0 - 1]);
                        }
                    }
                }
            }
        }
    }
}

/// An internal page splits while a child enters it: it is flagged, and the new one
/// is if it was before.
pub proof fn lemma_laced_internal_split<K: Key>(
    t: Tree,
    t2: Tree,
    h: int,
    i: int,
    new: u64,
    x: int,
    fresh: u64,
)
    requires
        t.wf::<K>(),
        laced(t),
        h >= 1,
        t.valid(h, i),
        !t.nodes.contains_key(new),
        t2.levels == t.levels.update(h, t.levels[h].insert(i + 1, new)),
        forall|g: int, j: int|
            t.valid(g, j) ==> {
                let p = #[trigger] t.page(g, j);
                &&& p != t.page(h, i) ==> kids_of(t2.nodes[p]) == kids_of(t.nodes[p])
                &&& flagged(t.nodes[p]) ==> flagged(t2.nodes[p])
            },
        0 <= x <= kids_of(t.nodes[t.page(h, i)]).len(),
        kids_of(t2.nodes[t.page(h, i)]) + kids_of(t2.nodes[new]) == kids_of(
            t.nodes[t.page(h, i)],
        ).insert(x, fresh),
        downs(t, h - 1, fresh) == 0,
        flagged(t2.nodes[t.page(h, i)]),
        flagged(t.nodes[t.page(h, i)]) ==> flagged(t2.nodes[new]),
    ensures
        laced(t2),
        downs(t2, h - 1, fresh) == 1,
        forall|p: u64|
            p != fresh ==> #[trigger] downs(t2, h - 1, p) == downs(t, h - 1, p),
        forall|g: int, p: u64|
            0 <= g && g != h - 1 ==> #[trigger] downs(t2, g, p) == downs(t, g, p),
        downs(t2, h, new) == 0,
{
    let pid = t.page(h, i);
    assert forall|g: int, p: u64| 0 <= g && g != h - 1 implies #[trigger] downs(t2, g, p) == downs(
        t,
        g,
        p,
    ) by {
        if g + 1 < t.levels.len() {
            assert(t2.levels[g + 1] == t.levels[g + 1]);
            assert forall|j: int| t.valid(g + 1, j) implies kids_of(
                t2.nodes[#[trigger] t.page(g + 1, j)],
            ) == kids_of(t.nodes[t.page(g + 1, j)]) by {
                assert(t.page(g + 1, j) != t.page(h, i));
            }
        }
        lemma_downs_frame(t, t2, g);
    }
    assert forall|p: u64| #[trigger] downs(t2, h - 1, p) == downs(t, h - 1, p) + if p == fresh {
        1nat
    } else {
        0nat
    } by {
        lemma_split_times::<K>(t, t2, h, i, new, p);
        lemma_times_insert(kids_of(t.nodes[pid]), x, fresh, p);
        lemma_times_add(kids_of(t2.nodes[pid]), kids_of(t2.nodes[new]), p);
    }
    assert forall|g: int, j: int| t.valid(g, j) implies downs(t2, g, #[trigger] t.page(g, j))
        == downs(t, g, t.page(g, j)) || (downs(t, g, t.page(g, j)) == 0 && downs(
        t2,
        g,
        t.page(g, j),
    ) == 1) by {
        assert(g == h - 1 || downs(t2, g, t.page(g, j)) == downs(t, g, t.page(g, j)));
    }
    lemma_laced_split_rest::<K>(t, t2, h, i, new);
}

proof fn lemma_split_times<K: Key>(t: Tree, t2: Tree, h: int, i: int, new: u64, p: u64)
    requires
        t.wf::<K>(),
        h >= 1,
        t.valid(h, i),
        t2.levels == t.levels.update(h, t.levels[h].insert(i + 1, new)),
        forall|g: int, j: int|
            t.valid(g, j) && #[trigger] t.page(g, j) != t.page(h, i) ==> kids_of(
                t2.nodes[t.page(g, j)],
            ) == kids_of(t.nodes[t.page(g, j)]),
    ensures
        downs(t2, h - 1, p) + times(kids_of(t.nodes[t.page(h, i)]), p) == downs(t, h - 1, p)
            + times(kids_of(t2.nodes[t.page(h, i)]), p) + times(kids_of(t2.nodes[new]), p),
{
    let c = t.levels[h];
    let c2 = t2.levels[h];
    let pid = t.page(h, i);
    let a = c.subrange(0, i + 1);
    let b = c.subrange(i + 1, c.len() as int);
    assert(c =~= a + b);
    assert(c2 =~= (a + seq![new]) + b);
    assert forall|k: int| 0 <= k < c.len() && k != i implies kids_of(t.nodes[#[trigger] c[k]])
        == kids_of(t2.nodes[c[k]]) by {
        assert(t.valid(h, k));
        assert(t.page(h, k) != t.page(h, i));
    }
    lemma_brood_changed(t.nodes, t2.nodes, c, i, p);
    lemma_brood_add(t2.nodes, a, b);
    lemma_brood_add(t2.nodes, a + seq![new], b);
    lemma_brood_add(t2.nodes, a, seq![new]);
    lemma_brood_one(t2.nodes, new);
    let x = brood(t2.nodes, a);
    let y = brood(t2.nodes, b);
    let z = kids_of(t2.nodes[new]);
    lemma_times_add(x, y, p);
    lemma_times_add(x + z, y, p);
    lemma_times_add(x, z, p);
}

/// A downlink enters, and the flag of the left neighbour of its page goes.
pub proof fn lemma_laced_link<K: Key>(
    t: Tree,
    t2: Tree,
    h: int,
    k: int,
    x: int,
    a: int,
    fresh: u64,
)
    requires
        t.wf::<K>(),
        laced(t),
        h >= 1,
        t.valid(h, k),
        t.valid(h - 1, a),
        t.valid(h - 1, a + 1),
        t.page(h - 1, a + 1) == fresh,
        t2.levels == t.levels,
        forall|g: int, j: int|
            t.valid(g, j) ==> {
                let p = #[trigger] t.page(g, j);
                &&& p != t.page(h, k) ==> kids_of(t2.nodes[p]) == kids_of(t.nodes[p])
                &&& flagged(t.nodes[p]) && p != t.page(h - 1, a) ==> flagged(t2.nodes[p])
            },
        0 <= x <= kids_of(t.nodes[t.page(h, k)]).len(),
        kids_of(t2.nodes[t.page(h, k)]) == kids_of(t.nodes[t.page(h, k)]).insert(x, fresh),
        downs(t, h - 1, fresh) == 0,
    ensures
        laced(t2),
        downs(t2, h - 1, fresh) == 1,
        forall|p: u64|
            p != fresh ==> #[trigger] downs(t2, h - 1, p) == downs(t, h - 1, p),
        forall|g: int, p: u64|
            0 <= g && g != h - 1 ==> #[trigger] downs(t2, g, p) == downs(t, g, p),
{
    reveal(laced);
    let pid = t.page(h, k);
    assert forall|g: int, p: u64| 0 <= g && g != h - 1 implies #[trigger] downs(t2, g, p) == downs(
        t,
        g,
        p,
    ) by {
        if g + 1 < t.levels.len() {
            assert forall|j: int| t.valid(g + 1, j) implies kids_of(
                t2.nodes[#[trigger] t.page(g + 1, j)],
            ) == kids_of(t.nodes[t.page(g + 1, j)]) by {
                assert(t.page(g + 1, j) != t.page(h, k));
            }
        }
        lemma_downs_frame(t, t2, g);
    }
    let c = t.levels[h];
    assert forall|p: u64| #[trigger] downs(t2, h - 1, p) == downs(t, h - 1, p) + if p == fresh {
        1nat
    } else {
        0nat
    } by {
        assert forall|j: int| 0 <= j < c.len() && j != k implies kids_of(t.nodes[#[trigger] c[j]])
            == kids_of(t2.nodes[c[j]]) by {
            assert(t.valid(h, j));
            assert(t.page(h, j) != t.page(h, k));
        }
        lemma_brood_changed(t.nodes, t2.nodes, c, k, p);
        lemma_times_insert(kids_of(t.nodes[pid]), x, fresh, p);
    }
    assert forall|g: int, j: int| t2.valid(g, j) implies #[trigger] tied(t2, g, j) by {
        assert(tied(t, g, j));
        assert(t.page(g, j) == t2.page(g, j));
        assert(g == h - 1 || downs(t2, g, t.page(g, j)) == downs(t, g, t.page(g, j)));
        if j > 0 {
            assert(t.valid(g, j - 1));
            assert(t.page(g, j - 1) == t2.page(g, j - 1));
            if t.page(g, j - 1) == t.page(h - 1, a) {
                assert(g == h - 1 && j == a + 1);
            }
        }
    }
}

/// A root grows above the old one and its right neighbour.
pub proof fn lemma_laced_grow<K: Key>(t: Tree, t2: Tree, new: u64)
    requires
        t.wf::<K>(),
        laced(t),
        t.levels.last().len() >= 2,
        !t.nodes.contains_key(new),
        t2.levels == t.levels.push(seq![new]),
        forall|g: int, j: int|
            t.valid(g, j) ==> {
                let p = #[trigger] t.page(g, j);
                &&& kids_of(t2.nodes[p]) == kids_of(t.nodes[p])
                &&& flagged(t.nodes[p]) && p != t.root ==> flagged(t2.nodes[p])
            },
        kids_of(t2.nodes[new]) == seq![t.root, t.levels.last()[1]],
    ensures
        laced(t2),
        downs(t2, t.levels.len() - 1, t.levels.last()[1]) == 1,
        forall|g: int, p: u64|
            0 <= g < t.levels.len() - 1 ==> #[trigger] downs(t2, g, p) == downs(t, g, p),
        forall|p: u64|
            p != t.root && p != t.levels.last()[1] ==> #[trigger] downs(
                t2,
                t.levels.len() - 1,
                p,
            ) == 0,
{
    reveal(laced);
    let top = t.levels.len() - 1;
    let r = t.levels[top][1];
    assert(t2.levels[top + 1] == seq![new]);
    assert forall|g: int, p: u64| 0 <= g < top implies #[trigger] downs(t2, g, p) == downs(
        t,
        g,
        p,
    ) by {
        assert(t2.levels[g + 1] == t.levels[g + 1]);
        lemma_downs_frame(t, t2, g);
    }
    assert(t.valid(top, 0) && t.valid(top, 1));
    assert(t.page(top, 0) != t.page(top, 1));
    assert forall|p: u64| #[trigger] downs(t2, top, p) == if p == t.root || p == r {
        1nat
    } else {
        0nat
    } by {
        lemma_brood_one(t2.nodes, new);
        assert(seq![t.root, r] =~= seq![t.root] + seq![r]);
        lemma_times_add(seq![t.root], seq![r], p);
        lemma_times_one(t.root, p);
        lemma_times_one(r, p);
    }
    assert forall|g: int, j: int| t2.valid(g, j) implies #[trigger] tied(t2, g, j) by {
        if g == top + 1 {
            assert(j == 0);
            assert(downs(t2, g, t2.page(g, j)) == 0);
        } else {
            assert(t2.levels[g] == t.levels[g]);
            assert(t.valid(g, j));
            assert(tied(t, g, j));
            assert(t.page(g, j) == t2.page(g, j));
            if g < top {
                assert(downs(t2, g, t.page(g, j)) == downs(t, g, t.page(g, j)));
            }
            if j > 0 {
                assert(t.valid(g, j - 1));
                assert(t.page(g, j - 1) == t2.page(g, j - 1));
                if t.page(g, j - 1) == t.root {
                    assert(t.page(g, j - 1) == t.page(top, 0));
                    assert(g == top && j == 1);
                }
                if g == top && j >= 2 {
                    assert(downs(t, top, t.page(g, j)) == 0);
                    assert(t.page(top, j) != t.page(top, 0));
                    assert(t.page(top, j) != t.page(top, 1));
                }
            } else if g == top {
                assert(t.page(g, j) == t.root);
            }
        }
    }
}

/// A leaf without a flag goes, with its only downlink.
pub proof fn lemma_laced_unlink<K: Key>(t: Tree, t2: Tree, i: int, k: int, x: int)
    requires
        t.wf::<K>(),
        laced(t),
        t.valid(0, i),
        t.valid(1, k),
        t2.levels == t.levels.update(0, t.levels[0].remove(i)),
        !flagged(t.nodes[t.page(0, i)]),
        forall|g: int, j: int|
            t.valid(g, j) && #[trigger] t.page(g, j) != t.page(0, i) ==> {
                let p = t.page(g, j);
                &&& p != t.page(1, k) ==> kids_of(t2.nodes[p]) == kids_of(t.nodes[p])
                &&& flagged(t.nodes[p]) ==> flagged(t2.nodes[p])
            },
        0 <= x < kids_of(t.nodes[t.page(1, k)]).len(),
        kids_of(t.nodes[t.page(1, k)])[x] == t.page(0, i),
        kids_of(t2.nodes[t.page(1, k)]) == kids_of(t.nodes[t.page(1, k)]).remove(x),
    ensures
        laced(t2),
        downs(t2, 0, t.page(0, i)) == 0,
        forall|p: u64|
            p != t.page(0, i) ==> #[trigger] downs(t2, 0, p) == downs(t, 0, p),
{
    reveal(laced);
    let pid = t.page(1, k);
    let gone = t.page(0, i);
    let c = t.levels[1];
    assert(t2.levels[1] == c);
    assert forall|p: u64| #[trigger] downs(t, 0, p) == downs(t2, 0, p) + if p == gone {
        1nat
    } else {
        0nat
    } by {
        assert forall|j: int| 0 <= j < c.len() && j != k implies kids_of(t.nodes[#[trigger] c[j]])
            == kids_of(t2.nodes[c[j]]) by {
            assert(t.valid(1, j));
            assert(t.page(1, j) != t.page(1, k));
            assert(t.page(1, j) != t.page(0, i));
        }
        lemma_brood_changed(t.nodes, t2.nodes, c, k, p);
        lemma_times_remove(kids_of(t.nodes[pid]), x, p);
    }
    assert(tied(t, 0, i));
    assert forall|p: u64| p != gone implies #[trigger] downs(t2, 0, p) == downs(t, 0, p) by {
        assert(downs(t, 0, p) == downs(t2, 0, p));
    }
    assert forall|g: int, j: int| t2.valid(g, j) implies #[trigger] tied(t2, g, j) by {
        if g >= 1 {
            assert(t2.levels[g] == t.levels[g]);
            if g + 1 < t.levels.len() {
                assert(t2.levels[g + 1] == t.levels[g + 1]);
                assert forall|z: int| t.valid(g + 1, z) implies kids_of(
                    t2.nodes[#[trigger] t.page(g + 1, z)],
                ) == kids_of(t.nodes[t.page(g + 1, z)]) by {
                    assert(t.page(g + 1, z) != t.page(1, k));
                    assert(t.page(g + 1, z) != t.page(0, i));
                }
            }
            lemma_downs_frame(t, t2, g);
            assert(t.valid(g, j));
            assert(tied(t, g, j));
            assert(t.page(g, j) == t2.page(g, j));
            if j > 0 {
                assert(t.valid(g, j - 1));
                assert(t.page(g, j - 1) == t2.page(g, j - 1));
                assert(t.page(g, j - 1) != t.page(0, i));
            }
        } else {
            let j0 = if j >= i {
                j + 1
            } else {
                j
            };
            assert(t.valid(0, j0));
            assert(t2.levels[0] == t.levels[0].remove(i));
            assert(t2.page(0, j) == t.page(0, j0));
            assert(t.page(0, j0) != t.page(0, i));
            assert(tied(t, 0, j0));
            if j0 > 0 && j0 - 1 == i {
                assert(t.page(0, j0 - 1) == gone);
            } else if j0 > 0 {
                assert(t.valid(0, j0 - 1));
                assert(t.page(0, j0 - 1) != t.page(0, i));
                assert(t2.page(0, j - 1) == t.page(0, j0 - 1));
            }
        }
    }
}

// ── Downlinks with their separators ──────────────────────────────────────────
/// The downlinks on a page, each with the separator to its left; that of the first is
/// the lower bound of the page.
pub open spec fn links_of(t: Tree, p: u64) -> Seq<(Option<Seq<u8>>, u64)> {
    match t.nodes[p] {
        NodeView::Internal(v) => Seq::new(
            v.children.len(),
            |j: int| (separator(t.lows, v, j), v.children[j]),
        ),
        NodeView::Leaf(_) => Seq::empty(),
    }
}

/// The downlinks on a chain of pages, from left to right.
pub open spec fn roster(t: Tree, chain: Seq<u64>) -> Seq<(Option<Seq<u8>>, u64)>
    decreases chain.len(),
{
    if chain.len() == 0 {
        Seq::empty()
    } else {
        roster(t, chain.drop_last()) + links_of(t, chain.last())
    }
}

/// The downlinks to pages of level `h`, from left to right.
pub open spec fn listing(t: Tree, h: int) -> Seq<(Option<Seq<u8>>, u64)> {
    if h + 1 < t.levels.len() {
        roster(t, t.levels[h + 1])
    } else {
        Seq::empty()
    }
}

proof fn lemma_roster_add(t: Tree, a: Seq<u64>, b: Seq<u64>)
    ensures
        roster(t, a + b) == roster(t, a) + roster(t, b),
    decreases b.len(),
{
    if b.len() == 0 {
        assert(a + b =~= a);
        assert(roster(t, a) + roster(t, b) =~= roster(t, a));
    } else {
        assert((a + b).drop_last() =~= a + b.drop_last());
        lemma_roster_add(t, a, b.drop_last());
        assert(roster(t, a + b) =~= roster(t, a) + roster(t, b));
    }
}

pub proof fn lemma_roster_one(t: Tree, p: u64)
    ensures
        roster(t, seq![p]) == links_of(t, p),
{
    assert(seq![p].drop_last() =~= Seq::<u64>::empty());
    assert(seq![p].last() == p);
    assert(roster(t, seq![p].drop_last()) =~= Seq::empty());
    assert(roster(t, seq![p]) =~= links_of(t, p));
}

pub proof fn lemma_roster_frame(t: Tree, t2: Tree, chain: Seq<u64>)
    requires
        forall|i: int|
            0 <= i < chain.len() ==> links_of(t2, #[trigger] chain[i]) == links_of(t, chain[i]),
    ensures
        roster(t2, chain) == roster(t, chain),
    decreases chain.len(),
{
    if chain.len() > 0 {
        assert(chain.last() == chain[chain.len() - 1]);
        assert forall|i: int| 0 <= i < chain.drop_last().len() implies links_of(
            t2,
            #[trigger] chain.drop_last()[i],
        ) == links_of(t, chain.drop_last()[i]) by {
            assert(chain.drop_last()[i] == chain[i]);
        }
        lemma_roster_frame(t, t2, chain.drop_last());
    }
}

/// One downlink enters a chain: the page at index `k` gives way to `mid`, and lists one
/// downlink more.
pub proof fn lemma_roster_entered(
    t: Tree,
    t2: Tree,
    c: Seq<u64>,
    mid: Seq<u64>,
    k: int,
    z: int,
    e: (Option<Seq<u8>>, u64),
) -> (q: int)
    requires
        0 <= k < c.len(),
        0 <= z <= links_of(t, c[k]).len(),
        roster(t2, mid) == links_of(t, c[k]).insert(z, e),
        forall|i: int|
            0 <= i < c.len() && i != k ==> links_of(t2, #[trigger] c[i]) == links_of(t, c[i]),
    ensures
        0 <= q <= roster(t, c).len(),
        roster(t2, c.take(k) + mid + c.skip(k + 1)) == roster(t, c).insert(q, e),
{
    let a = c.take(k);
    let b = c.skip(k + 1);
    assert forall|i: int| 0 <= i < a.len() implies links_of(t2, #[trigger] a[i]) == links_of(
        t,
        a[i],
    ) by {
        assert(a[i] == c[i]);
    }
    assert forall|i: int| 0 <= i < b.len() implies links_of(t2, #[trigger] b[i]) == links_of(
        t,
        b[i],
    ) by {
        assert(b[i] == c[k + 1 + i]);
    }
    lemma_roster_frame(t, t2, a);
    lemma_roster_frame(t, t2, b);
    lemma_roster_one(t, c[k]);
    assert(c =~= a + seq![c[k]] + b);
    lemma_roster_add(t, a + seq![c[k]], b);
    lemma_roster_add(t, a, seq![c[k]]);
    lemma_roster_add(t2, a + mid, b);
    lemma_roster_add(t2, a, mid);
    let x = links_of(t, c[k]);
    let q = roster(t, a).len() + z;
    assert(roster(t2, a + mid + b) =~= roster(t, c).insert(q, e));
    q
}

} // verus!
