//! The B+Tree index: a Lehman-Yao tree of versioned records.
//!
//! Every level is a chain of right-linked pages, so a search that lands too far
//! left walks right. Versions of one key may spread over several leaves when
//! they outgrow one; searches then walk left along the chain.

use std::marker::PhantomData;

use vstd::prelude::*;

use crate::change::ChunkView;
use crate::chronicle::{chronicle, lemma_chronicle_step};
use crate::downlinks::laced;
use crate::index_edit::flags;
use crate::index_open::tree_of;
use crate::key::{key_eq, Key, KeyOrder};
use crate::log_codec::MAX_FREES;
use crate::mvcc::visible;
use crate::node::{copy_bytes, LeafPage, Node, NodeView, Record, RecordView, REC_TYPE_OVERFLOW};
use crate::overflow::{
    chain_value, descriptor_of, is_chain, read_overflow_chain, OverflowDescriptor,
    OVERFLOW_DESCRIPTOR_SIZE,
};
use crate::store::PageStore;
use crate::trace::{lemma_sustained_step, sustained};
use crate::transaction::Transaction;
use crate::transaction_manager::TransactionManager;
use crate::tree_spec::{
    below, bound_le, children_ok, child_ok, entries_of, flat, lemma_flat_index, lemma_flat_member,
    lemma_lows_monotone, records_ok, Tree,
};

verus! {

/// Transaction id of structural changes, which no transaction owns.
pub const SYSTEM_TXN_ID: u64 = 0;

/// A B+Tree of record versions over a page store.
pub struct BTreeIndex<K: Key> {
    pub store: PageStore,
    pub root: u64,
    /// Leaves that left the chain, each with the horizon at that time.
    pub pending_recycle: Vec<(u64, u64)>,
    /// How many levels the tree has.
    pub height: u64,
    /// As many as there are pages whose split is incomplete, or more.
    pub incomplete: u64,
    pub levels: Ghost<Seq<Seq<u64>>>,
    pub lows: Ghost<Map<u64, Option<Seq<u8>>>>,
    pub chains: Ghost<Map<u64, Seq<u64>>>,
    /// The versions and values after each record of the log.
    pub past: Ghost<Seq<Seq<(RecordView, Seq<u8>)>>>,
    pub key_type: PhantomData<K>,
}

/// The first overflow page of a record.
pub open spec fn first_page(r: RecordView) -> u64 {
    descriptor_of(r.value).first_page_id
}

/// Whether the value of a record is on overflow pages.
pub open spec fn spilled(r: RecordView) -> bool {
    r.rec_type == REC_TYPE_OVERFLOW
}

/// The value of a record is in place: inside the record, or on a chain.
pub open spec fn value_in_place(
    chunks: Map<u64, ChunkView>,
    chains: Map<u64, Seq<u64>>,
    r: RecordView,
) -> bool {
    spilled(r) ==> {
        &&& r.value.len() == OVERFLOW_DESCRIPTOR_SIZE
        &&& chains.contains_key(first_page(r))
        &&& is_chain(chunks, first_page(r), chains[first_page(r)])
        &&& chains[first_page(r)].len() <= MAX_FREES
    }
}

/// Two lists of pages have none in common.
pub open spec fn disjoint(a: Seq<u64>, b: Seq<u64>) -> bool {
    forall|id: u64| #[trigger] a.contains(id) ==> !b.contains(id)
}

/// All values are in place, and no two records share an overflow page.
#[verifier::opaque]
pub open spec fn values_ok(
    recs: Seq<RecordView>,
    chunks: Map<u64, ChunkView>,
    chains: Map<u64, Seq<u64>>,
) -> bool {
    &&& forall|i: int|
        0 <= i < recs.len() ==> value_in_place(chunks, chains, #[trigger] recs[i])
    &&& forall|i: int, j: int|
        0 <= i < recs.len() && 0 <= j < recs.len() && i != j && spilled(#[trigger] recs[i])
            && spilled(#[trigger] recs[j]) ==> disjoint(
            chains[first_page(recs[i])],
            chains[first_page(recs[j])],
        )
}

/// The value that a record stands for.
pub open spec fn content(
    chunks: Map<u64, ChunkView>,
    chains: Map<u64, Seq<u64>>,
    r: RecordView,
) -> Seq<u8> {
    if spilled(r) {
        chain_value(chunks, chains[first_page(r)])
    } else {
        r.value
    }
}

/// Versions, each with its value.
pub open spec fn rows_of(
    recs: Seq<RecordView>,
    chunks: Map<u64, ChunkView>,
    chains: Map<u64, Seq<u64>>,
) -> Seq<(RecordView, Seq<u8>)> {
    Seq::new(recs.len(), |i: int| (recs[i], content(chunks, chains, recs[i])))
}

/// A leaf of the tree whose range holds `key`: the key is not below it, and
/// strictly below whatever comes after it.
pub open spec fn landed<K: Key>(t: Tree, pid: u64, key: Seq<u8>) -> bool {
    &&& t.levels[0].contains(pid)
    &&& bound_le::<K>(t.lows[pid], Some(key))
    &&& t.nodes[pid].high_key() matches Some(h) ==> !K::le(h, key)
}

/// The `k`-th ancestor, root first, of a page of level `h` is a page of level
/// `h + stack.len() - k`.
pub open spec fn ancestor(t: Tree, stack: Seq<u64>, h: int, k: int) -> bool {
    &&& h + stack.len() - k < t.levels.len()
    &&& t.levels[h + stack.len() - k].contains(stack[k])
}

/// The pages on the way down to a page of level `h`, root first.
pub open spec fn stack_at(t: Tree, stack: Seq<u64>, h: int) -> bool {
    forall|k: int| 0 <= k < stack.len() ==> #[trigger] ancestor(t, stack, h, k)
}

/// The index of a page in its level.
pub proof fn lemma_page<K: Key>(t: Tree, h: int, pid: u64) -> (i: int)
    requires
        t.wf::<K>(),
        0 <= h < t.levels.len(),
        t.levels[h].contains(pid),
    ensures
        t.valid(h, i),
        t.page(h, i) == pid,
        t.page_ok::<K>(h, i),
        t.nodes.contains_key(pid),
{
    let level = t.levels[h];
    let i = choose|i: int| 0 <= i < level.len() && level[i] == pid;
    assert(t.valid(h, i));
    assert(t.page_ok::<K>(h, i));
    i
}

/// Whether no version of `key` on the leaves from index `i` on is visible.
pub open spec fn none_from<K: Key>(
    t: Tree,
    txn: &Transaction,
    aborts: Map<u64, ()>,
    key: Seq<u8>,
    i: int,
) -> bool {
    forall|j: int, s: int|
        i <= j < t.levels[0].len() && 0 <= s < t.leaf(j).entries.len() ==> !visible::<K>(
            txn,
            aborts,
            key,
            #[trigger] t.leaf(j).entries[s],
        )
}

/// To the right of the leaf whose range holds a key there is no version of it.
pub proof fn lemma_none_right<K: Key>(t: Tree, key: Seq<u8>, i: int, j: int, s: int)
    requires
        t.wf::<K>(),
        t.valid(0, i),
        landed::<K>(t, t.page(0, i), key),
        i < j < t.levels[0].len(),
        0 <= s < t.leaf(j).entries.len(),
    ensures
        !K::le(t.leaf(j).entries[s].key, key),
{
    K::le_laws();
    assert(t.page_ok::<K>(0, i));
    assert(t.valid(0, j) && t.valid(0, i + 1));
    assert(t.page_ok::<K>(0, j) && t.page_ok::<K>(0, i + 1));
    lemma_lows_monotone::<K>(t, i + 1, j);
    assert(t.linked(0, i + 1));
    reveal(records_ok);
    assert(t.leaf_ok::<K>(t.leaf(j)));
    assert(bound_le::<K>(t.lows[t.page(0, j)], Some(t.leaf(j).entries[s].key)));
}

/// To the left of a leaf that starts above a bound, keys are not above it.
pub proof fn lemma_left_below<K: Key>(t: Tree, i: int, j: int, s: int, bound: Seq<u8>)
    requires
        t.wf::<K>(),
        t.valid(0, i),
        t.lows[t.page(0, i)] == Some(bound),
        0 <= j < i,
        0 <= s < t.leaf(j).entries.len(),
    ensures
        K::le(t.leaf(j).entries[s].key, bound),
{
    K::le_laws();
    assert(t.valid(0, j) && t.valid(0, j + 1));
    assert(t.page_ok::<K>(0, i) && t.page_ok::<K>(0, j) && t.page_ok::<K>(0, j + 1));
    lemma_lows_monotone::<K>(t, j + 1, i);
    assert(t.linked(0, j + 1) && t.linked(0, j));
    reveal(records_ok);
    assert(t.leaf_ok::<K>(t.leaf(j)));
    assert(below::<K>(t.leaf(j).entries[s].key, t.leaf(j).high_key));
}

/// When no leaf holds a visible version, no record is one.
pub proof fn lemma_none_at_all<K: Key>(
    t: Tree,
    txn: &Transaction,
    aborts: Map<u64, ()>,
    key: Seq<u8>,
)
    requires
        t.wf::<K>(),
        none_from::<K>(t, txn, aborts, key, 0),
    ensures
        forall|k: int|
            0 <= k < t.records().len() ==> !visible::<K>(
                txn,
                aborts,
                key,
                #[trigger] t.records()[k],
            ),
{
    assert forall|k: int| 0 <= k < t.records().len() implies !visible::<K>(
        txn,
        aborts,
        key,
        #[trigger] t.records()[k],
    ) by {
        let (j, s) = lemma_flat_member(t.nodes, t.levels[0], k);
        assert(t.valid(0, j));
        assert(t.page_ok::<K>(0, j));
        assert(t.page(0, j) == t.levels[0][j]);
        assert(t.records()[k] == t.leaf(j).entries[s]);
    }
}

/// The place among all records of a version on a leaf.
pub open spec fn place(t: Tree, i: int, s: int) -> int {
    flat(t.nodes, t.levels[0].subrange(0, i)).len() + s
}

/// A version on a leaf is a record of the tree.
pub proof fn lemma_place<K: Key>(t: Tree, i: int, s: int)
    requires
        t.wf::<K>(),
        t.valid(0, i),
        0 <= s < t.leaf(i).entries.len(),
    ensures
        0 <= place(t, i, s) < t.records().len(),
        t.records()[place(t, i, s)] == t.leaf(i).entries[s],
{
    assert(t.page_ok::<K>(0, i));
    assert(t.page(0, i) == t.levels[0][i]);
    assert(entries_of(t.nodes, t.levels[0][i]) == t.leaf(i).entries);
    lemma_flat_index(t.nodes, t.levels[0], i, s);
}

impl LeafPage {
    /// The slots `[first, past_end)` of the versions of `key` around one of them.
    pub fn duplicate_slot_bounds<K: Key>(&self, key: &[u8], known: usize) -> (r: (usize, usize))
        requires
            crate::node::records_sorted::<K>(self@.entries),
            known < self@.entries.len(),
            key_eq::<K>(self@.entries[known as int].key, key@),
        ensures
            r.0 <= known < r.1 <= self@.entries.len(),
            forall|i: int|
                0 <= i < self@.entries.len() ==> (r.0 <= i < r.1 <==> key_eq::<K>(
                    #[trigger] self@.entries[i].key,
                    key@,
                )),
    {
        proof {
            K::le_laws();
        }
        let mut first: usize = known;
        let mut go = true;
        while first > 0 && go
            invariant
                first <= known < self@.entries.len(),
                crate::node::records_sorted::<K>(self@.entries),
                forall|i: int|
                    first <= i <= known ==> key_eq::<K>(#[trigger] self@.entries[i].key, key@),
                !go ==> first > 0 && !key_eq::<K>(self@.entries[first - 1].key, key@),
            decreases first, (if go { 1int } else { 0int }),
        {
            assert(self@.entries[first - 1].key == self.entries@[first - 1].key@);
            match K::compare(self.entries[first - 1].key.as_slice(), key) {
                KeyOrder::Equal => {
                    first = first - 1;
                },
                _ => {
                    go = false;
                },
            }
        }
        let n: usize = self.entries.len();
        let mut past_end: usize = known + 1;
        let mut more = true;
        while past_end < n && more
            invariant
                first <= known < past_end <= n,
                n == self@.entries.len(),
                crate::node::records_sorted::<K>(self@.entries),
                forall|i: int|
                    first <= i < past_end ==> key_eq::<K>(#[trigger] self@.entries[i].key, key@),
                !more ==> past_end < n && !key_eq::<K>(self@.entries[past_end as int].key, key@),
            decreases n - past_end, (if more { 1int } else { 0int }),
        {
            assert(self@.entries[past_end as int].key == self.entries@[past_end as int].key@);
            match K::compare(self.entries[past_end].key.as_slice(), key) {
                KeyOrder::Equal => {
                    past_end = past_end + 1;
                },
                _ => {
                    more = false;
                },
            }
        }
        proof {
            assert forall|i: int| 0 <= i < self@.entries.len() implies (first <= i < past_end
                <==> key_eq::<K>(#[trigger] self@.entries[i].key, key@)) by {
                K::le_laws();
                if i < first {
                    assert(K::le(self@.entries[i].key, self@.entries[first - 1].key));
                    assert(K::le(self@.entries[first - 1].key, self@.entries[first as int].key));
                    if key_eq::<K>(self@.entries[i].key, key@) {
                        assert(K::le(key@, self@.entries[first - 1].key));
                        assert(K::le(self@.entries[first - 1].key, key@));
                    }
                } else if i >= past_end {
                    assert(K::le(self@.entries[past_end as int].key, self@.entries[i].key));
                    assert(K::le(
                        self@.entries[past_end - 1].key,
                        self@.entries[past_end as int].key,
                    ));
                    if key_eq::<K>(self@.entries[i].key, key@) {
                        assert(K::le(self@.entries[past_end as int].key, key@));
                        assert(K::le(key@, self@.entries[past_end as int].key));
                    }
                }
            }
        }
        (first, past_end)
    }

    /// The first slot of the leaf that holds a visible version of `key`.
    pub fn find_visible_slot<K: Key>(
        &self,
        key: &[u8],
        txn: &Transaction,
        tm: &TransactionManager,
    ) -> (r: Option<usize>)
        requires
            crate::node::records_sorted::<K>(self@.entries),
            tm.wf(),
        ensures
            r matches Some(s) ==> {
                &&& s < self@.entries.len()
                &&& visible::<K>(txn, tm.aborts(), key@, self@.entries[s as int])
                &&& forall|i: int|
                    0 <= i < s ==> !visible::<K>(
                        txn,
                        tm.aborts(),
                        key@,
                        #[trigger] self@.entries[i],
                    )
            },
            r is None ==> forall|i: int|
                0 <= i < self@.entries.len() ==> !visible::<K>(
                    txn,
                    tm.aborts(),
                    key@,
                    #[trigger] self@.entries[i],
                ),
    {
        let (start, found) = self.position::<K>(key);
        if !found {
            proof {
                K::le_laws();
                assert forall|i: int| 0 <= i < self@.entries.len() implies !visible::<K>(
                    txn,
                    tm.aborts(),
                    key@,
                    #[trigger] self@.entries[i],
                ) by {
                    assert(!key_eq::<K>(self@.entries[i].key, key@));
                }
            }
            return None;
        }
        let (first, past_end) = self.duplicate_slot_bounds::<K>(key, start);
        let mut i: usize = first;
        while i < past_end
            invariant
                first <= i <= past_end <= self@.entries.len(),
                tm.wf(),
                forall|k: int|
                    0 <= k < self@.entries.len() ==> (first <= k < past_end <==> key_eq::<K>(
                        #[trigger] self@.entries[k].key,
                        key@,
                    )),
                forall|k: int|
                    first <= k < i ==> !visible::<K>(
                        txn,
                        tm.aborts(),
                        key@,
                        #[trigger] self@.entries[k],
                    ),
            decreases past_end - i,
        {
            assert(self@.entries[i as int] == self.entries@[i as int]@);
            if txn.is_visible(tm, self.entries[i].xmin, self.entries[i].xmax) {
                assert(key_eq::<K>(self@.entries[i as int].key, key@));
                assert forall|k: int| 0 <= k < i implies !visible::<K>(
                    txn,
                    tm.aborts(),
                    key@,
                    #[trigger] self@.entries[k],
                ) by {
                    if k < first {
                        assert(!key_eq::<K>(self@.entries[k].key, key@));
                    }
                }
                return Some(i);
            }
            i = i + 1;
        }
        assert forall|k: int| 0 <= k < self@.entries.len() implies !visible::<K>(
            txn,
            tm.aborts(),
            key@,
            #[trigger] self@.entries[k],
        ) by {
            if !(first <= k < past_end) {
                assert(!key_eq::<K>(self@.entries[k].key, key@));
            }
        }
        None
    }
}

impl<K: Key> BTreeIndex<K> {
    /// The tree of pages.
    pub open spec fn tree(&self) -> Tree {
        Tree {
            nodes: self.store.pages().nodes,
            levels: self.levels@,
            lows: self.lows@,
            root: self.root,
        }
    }

    /// All record versions, in key order.
    pub open spec fn records(&self) -> Seq<RecordView> {
        self.tree().records()
    }

    /// The value that a record of the index stands for.
    pub open spec fn content(&self, r: RecordView) -> Seq<u8> {
        content(self.store.pages().chunks, self.chains@, r)
    }

    /// All record versions with their values.
    pub open spec fn rows(&self) -> Seq<(RecordView, Seq<u8>)> {
        rows_of(self.records(), self.store.pages().chunks, self.chains@)
    }

    /// Whether the pages form a tree whose values are in place.
    pub open spec fn sound(&self) -> bool {
        &&& self.tree().wf::<K>()
        &&& self.store.pages().root == self.root
        &&& values_ok(self.records(), self.store.pages().chunks, self.chains@)
    }

    pub open spec fn wf(&self) -> bool {
        &&& self.store.wf()
        &&& self.tree().wf::<K>()
        &&& laced(self.tree())
        &&& self.height == self.levels@.len()
        &&& flags(self.tree().nodes).len() <= self.incomplete
        &&& self.store.pages().root == self.root
        &&& values_ok(self.records(), self.store.pages().chunks, self.chains@)
        &&& sustained::<K>(self.store.base(), self.store.log(), self.store.since())
        &&& chronicle::<K>(
            self.store.base(),
            self.store.log(),
            self.store.since(),
            self.past@,
        )
    }

    /// After one more record that has led to an index, all states still are
    /// indexes.
    pub proof fn lemma_logged(&self, before: PageStore, was: Seq<Seq<(RecordView, Seq<u8>)>>)
        requires
            before.wf(),
            sustained::<K>(before.base(), before.log(), before.since()),
            chronicle::<K>(before.base(), before.log(), before.since(), was),
            self.past@ == was.push(self.rows()),
            self.store.wf(),
            self.store.log() == before.log().push(self.store.log().last()),
            self.store.follows_on(&before),
            self.tree().wf::<K>(),
            laced(self.tree()),
            self.store.pages().root == self.root,
            values_ok(self.records(), self.store.pages().chunks, self.chains@),
        ensures
            sustained::<K>(self.store.base(), self.store.log(), self.store.since()),
            chronicle::<K>(
                self.store.base(),
                self.store.log(),
                self.store.since(),
                self.past@,
            ),
    {
        before.lemma_wf();
        lemma_chronicle_step::<K>(before, was, *self);
        let p = self.store.pages();
        assert(tree_of(p, self.levels@, self.lows@) == self.tree());
        lemma_sustained_step::<K>(before, self.store, self.levels@, self.lows@, self.chains@);
    }

    /// Whether nothing has changed that callers can see.
    pub open spec fn same(&self, other: &BTreeIndex<K>) -> bool {
        &&& self.store.same(&other.store)
        &&& self.root == other.root
        &&& self.levels@ == other.levels@
        &&& self.lows@ == other.lows@
        &&& self.chains@ == other.chains@
        &&& self.past@ == other.past@
        &&& self.pending_recycle@ == other.pending_recycle@
        &&& self.height == other.height
        &&& self.incomplete == other.incomplete
    }

    /// The page that the tree starts at.
    pub fn root_page_id(&self) -> (r: u64)
        ensures
            r == self.root,
    {
        self.root
    }

    /// Reads a leaf of the tree.
    pub fn load_leaf(&mut self, pid: u64) -> (l: LeafPage)
        requires
            old(self).wf(),
            old(self).levels@[0].contains(pid),
        ensures
            final(self).wf(),
            final(self).same(old(self)),
            old(self).tree().nodes[pid] == NodeView::Leaf(l@),
            l@.wf(),
            l@.page_id == pid,
            records_ok::<K>(old(self).lows@[pid], l@),
            crate::node::records_sorted::<K>(l@.entries),
    {
        proof {
            let i = lemma_page::<K>(self.tree(), 0, pid);
            reveal(records_ok);
        }
        match self.store.load(pid) {
            Node::Leaf(l) => l,
            Node::Internal(_) => vstd::pervasive::unreached(),
        }
    }

    /// Walks down to a leaf that is not right of `key`, remembering the
    /// ancestors. A split that its parent does not know of yet is found by
    /// walking right.
    pub fn descend(&mut self, key: &[u8]) -> (r: (u64, Vec<u64>))
        requires
            old(self).wf(),
        ensures
            final(self).wf(),
            final(self).same(old(self)),
            old(self).levels@[0].contains(r.0),
            bound_le::<K>(old(self).lows@[r.0], Some(key@)),
            stack_at(old(self).tree(), r.1@, 0),
            r.1@.len() == old(self).levels@.len() - 1,
    {
        let ghost t = self.tree();
        let ghost top = t.levels.len() - 1;
        let mut stack: Vec<u64> = Vec::new();
        let mut pid: u64 = self.root;
        let ghost mut h: int = top;
        let ghost mut i: int = 0;
        proof {
            K::le_laws();
            assert(t.levels[top].len() >= 1);
            assert(t.valid(top, 0));
            assert(t.page_ok::<K>(top, 0));
        }
        loop
            invariant
                self.wf(),
                self.same(old(self)),
                t == old(self).tree(),
                self.tree() == t,
                top == t.levels.len() - 1,
                t.valid(h, i),
                t.page(h, i) == pid,
                bound_le::<K>(t.lows[pid], Some(key@)),
                stack@.len() == top - h,
                stack_at(t, stack@, h),
            decreases h, t.levels[h].len() - i,
        {
            proof {
                K::le_laws();
                assert(t.page_ok::<K>(h, i));
            }
            let node = self.store.load(pid);
            match node {
                Node::Internal(p) => {
                    let mut right: Option<u64> = None;
                    if let Some(hk) = &p.high_key {
                        match K::compare(key, hk.as_slice()) {
                            KeyOrder::Less => {},
                            _ => {
                                right = p.rightlink;
                            },
                        }
                    }
                    if let Some(next) = right {
                        proof {
                            assert(t.valid(h, i + 1));
                            assert(t.page_ok::<K>(h, i + 1));
                            assert(t.linked(h, i + 1) && t.linked(h, i));
                            i = i + 1;
                        }
                        pid = next;
                        continue;
                    }
                    proof {
                        reveal(children_ok);
                        assert(t.internal_ok::<K>(h, p@));
                    }
                    let (idx, child) = p.find_child::<K>(key);
                    let ghost above = stack@;
                    stack.push(pid);
                    proof {
                        assert forall|k: int| 0 <= k < stack@.len() implies #[trigger] ancestor(
                            t,
                            stack@,
                            h - 1,
                            k,
                        ) by {
                            if k < above.len() {
                                assert(ancestor(t, above, h, k));
                                assert(stack@[k] == above[k]);
                            } else {
                                assert(t.levels[h][i] == pid);
                            }
                        }
                        assert(child_ok::<K>(t.levels[h - 1], t.lows, p@, idx as int));
                        if idx > 0 {
                            assert(K::le(p@.keys[idx - 1], key@));
                        }
                        h = h - 1;
                        i = lemma_page::<K>(t, h, child);
                    }
                    pid = child;
                },
                Node::Leaf(_) => {
                    proof {
                        assert(t.levels[0][i] == pid);
                        assert(self.levels@[0].contains(pid));
                    }
                    return (pid, stack);
                },
            }
        }
    }

    /// Follows right links from a leaf that is not right of `key` to the one
    /// whose range holds it.
    pub fn move_right(&mut self, pid: u64, key: &[u8]) -> (l: LeafPage)
        requires
            old(self).wf(),
            old(self).levels@[0].contains(pid),
            bound_le::<K>(old(self).lows@[pid], Some(key@)),
        ensures
            final(self).wf(),
            final(self).same(old(self)),
            landed::<K>(old(self).tree(), l@.page_id, key@),
            old(self).tree().nodes[l@.page_id] == NodeView::Leaf(l@),
            l@.wf(),
            records_ok::<K>(old(self).lows@[l@.page_id], l@),
            crate::node::records_sorted::<K>(l@.entries),
    {
        let ghost t = self.tree();
        let ghost mut i: int = lemma_page::<K>(t, 0, pid);
        let mut l = self.load_leaf(pid);
        loop
            invariant
                self.wf(),
                self.same(old(self)),
                t == old(self).tree(),
                self.tree() == t,
                t.valid(0, i),
                t.page(0, i) == l@.page_id,
                t.nodes[l@.page_id] == NodeView::Leaf(l@),
                l@.wf(),
                bound_le::<K>(t.lows[l@.page_id], Some(key@)),
                records_ok::<K>(t.lows[l@.page_id], l@),
                crate::node::records_sorted::<K>(l@.entries),
            decreases t.levels[0].len() - i,
        {
            proof {
                K::le_laws();
                assert(t.page_ok::<K>(0, i));
                assert(t.levels[0][i] == l@.page_id);
            }
            let mut right: Option<u64> = None;
            if let Some(hk) = &l.high_key {
                match K::compare(key, hk.as_slice()) {
                    KeyOrder::Less => {},
                    _ => {
                        right = l.rightlink;
                    },
                }
            }
            match right {
                Some(next) => {
                    proof {
                        assert(t.linked(0, i));
                        assert(t.valid(0, i + 1));
                        assert(t.page_ok::<K>(0, i + 1));
                        assert(t.linked(0, i + 1));
                        assert(t.levels[0][i + 1] == next);
                        i = i + 1;
                    }
                    l = self.load_leaf(next);
                },
                None => {
                    proof {
                        assert(t.linked(0, i));
                    }
                    return l;
                },
            }
        }
    }

    /// Finds a visible version of `key`, starting at the leaf whose range holds
    /// it and walking left along a chain of versions: the left neighbour can
    /// hold versions of the key only while its high key is the key itself.
    pub fn find_visible_chain(
        &mut self,
        landing: LeafPage,
        key: &[u8],
        txn: &Transaction,
        tm: &TransactionManager,
    ) -> (r: Option<(LeafPage, usize)>)
        requires
            old(self).wf(),
            tm.wf(),
            landed::<K>(old(self).tree(), landing@.page_id, key@),
            old(self).tree().nodes[landing@.page_id] == NodeView::Leaf(landing@),
            crate::node::records_sorted::<K>(landing@.entries),
        ensures
            final(self).wf(),
            final(self).same(old(self)),
            r is None ==> forall|k: int|
                0 <= k < old(self).records().len() ==> !visible::<K>(
                    txn,
                    tm.aborts(),
                    key@,
                    #[trigger] old(self).records()[k],
                ),
            r matches Some((l, s)) ==> {
                &&& old(self).levels@[0].contains(l@.page_id)
                &&& old(self).tree().nodes[l@.page_id] == NodeView::Leaf(l@)
                &&& s < l@.entries.len()
                &&& visible::<K>(txn, tm.aborts(), key@, l@.entries[s as int])
            },
    {
        let ghost t = self.tree();
        let ghost mut i: int = lemma_page::<K>(t, 0, landing@.page_id);
        let mut l = landing;
        proof {
            assert forall|j: int, s: int|
                i < j < t.levels[0].len() && 0 <= s < t.leaf(j).entries.len() implies !visible::<K>(
                txn,
                tm.aborts(),
                key@,
                #[trigger] t.leaf(j).entries[s],
            ) by {
                lemma_none_right::<K>(t, key@, i, j, s);
            }
        }
        loop
            invariant
                self.wf(),
                self.same(old(self)),
                tm.wf(),
                t == old(self).tree(),
                self.tree() == t,
                t.valid(0, i),
                t.page(0, i) == l@.page_id,
                t.nodes[l@.page_id] == NodeView::Leaf(l@),
                crate::node::records_sorted::<K>(l@.entries),
                bound_le::<K>(t.lows[l@.page_id], Some(key@)),
                none_from::<K>(t, txn, tm.aborts(), key@, i + 1),
            decreases i,
        {
            proof {
                K::le_laws();
                assert(t.page_ok::<K>(0, i));
                assert(t.levels[0][i] == l@.page_id);
                assert(t.linked(0, i));
                assert(t.leaf(i) == l@);
            }
            if let Some(slot) = l.find_visible_slot::<K>(key, txn, tm) {
                return Some((l, slot));
            }
            assert(none_from::<K>(t, txn, tm.aborts(), key@, i));
            let cont = l.entries.len() == 0 || {
                assert(l@.entries[0].key == l.entries@[0].key@);
                match K::compare(l.entries[0].key.as_slice(), key) {
                    KeyOrder::Less => false,
                    _ => true,
                }
            };
            let prev = l.prev_page;
            if !cont || prev.is_none() {
                proof {
                    if !cont && i > 0 {
                        reveal(records_ok);
                        assert(t.leaf_ok::<K>(l@));
                        let low = t.lows[l@.page_id];
                        assert(bound_le::<K>(low, Some(l@.entries[0].key)));
                        assert(t.valid(0, i - 1));
                        assert(t.page_ok::<K>(0, i - 1));
                        assert(t.linked(0, i - 1));
                        assert(low is Some);
                        self.lemma_none_left(txn, tm.aborts(), key@, i, low->0);
                    }
                    lemma_none_at_all::<K>(t, txn, tm.aborts(), key@);
                }
                return None;
            }
            let prev_pid: u64 = prev.unwrap();
            proof {
                assert(i > 0);
                assert(t.valid(0, i - 1));
                assert(t.page_ok::<K>(0, i - 1));
                assert(t.linked(0, i - 1));
                assert(t.levels[0][i - 1] == prev_pid);
            }
            l = self.load_leaf(prev_pid);
            let on_chain = match &l.high_key {
                Some(hk) => match K::compare(hk.as_slice(), key) {
                    KeyOrder::Equal => true,
                    _ => false,
                },
                None => false,
            };
            if !on_chain {
                proof {
                    let low = t.lows[t.page(0, i)];
                    self.lemma_none_left(txn, tm.aborts(), key@, i, low->0);
                    lemma_none_at_all::<K>(t, txn, tm.aborts(), key@);
                }
                return None;
            }
            proof {
                reveal(records_ok);
                assert(t.leaf_ok::<K>(l@));
                i = i - 1;
            }
        }
    }

    /// Left of a leaf that starts below the key there is no version of the key.
    proof fn lemma_none_left(
        &self,
        txn: &Transaction,
        aborts: Map<u64, ()>,
        key: Seq<u8>,
        i: int,
        low: Seq<u8>,
    )
        requires
            self.tree().wf::<K>(),
            self.tree().valid(0, i),
            self.tree().lows[self.tree().page(0, i)] == Some(low),
            !K::le(key, low),
            none_from::<K>(self.tree(), txn, aborts, key, i),
        ensures
            none_from::<K>(self.tree(), txn, aborts, key, 0),
    {
        let t = self.tree();
        K::le_laws();
        assert forall|j: int, s: int|
            0 <= j < t.levels[0].len() && 0 <= s < t.leaf(j).entries.len() implies !visible::<K>(
            txn,
            aborts,
            key,
            #[trigger] t.leaf(j).entries[s],
        ) by {
            if j < i {
                lemma_left_below::<K>(t, i, j, s, low);
            }
        }
    }

    /// The value that a record stands for.
    pub fn reify_value(&mut self, r: &Record) -> (v: Vec<u8>)
        requires
            old(self).wf(),
            value_in_place(old(self).store.pages().chunks, old(self).chains@, r@),
        ensures
            final(self).wf(),
            final(self).same(old(self)),
            v@ == old(self).content(r@),
    {
        if r.rec_type == REC_TYPE_OVERFLOW {
            match OverflowDescriptor::from_bytes(r.value.as_slice()) {
                Some(desc) => read_overflow_chain(desc, &mut self.store),
                None => vstd::pervasive::unreached(),
            }
        } else {
            copy_bytes(&r.value)
        }
    }

    /// The value of `key` that the transaction sees, if there is one. Among
    /// several visible versions any one counts; a transaction of an engine that is
    /// in order sees at most one.
    pub fn get(&mut self, key: &[u8], txn: &Transaction, tm: &TransactionManager) -> (r: Option<
        Vec<u8>,
    >)
        requires
            old(self).wf(),
            tm.wf(),
        ensures
            final(self).wf(),
            final(self).same(old(self)),
            r is None <==> forall|k: int|
                0 <= k < old(self).records().len() ==> !visible::<K>(
                    txn,
                    tm.aborts(),
                    key@,
                    #[trigger] old(self).records()[k],
                ),
            r matches Some(v) ==> exists|k: int|
                0 <= k < old(self).records().len() && visible::<K>(
                    txn,
                    tm.aborts(),
                    key@,
                    #[trigger] old(self).records()[k],
                ) && v@ == old(self).content(old(self).records()[k]),
    {
        let ghost t = self.tree();
        let (pid, _) = self.descend(key);
        let landing = self.move_right(pid, key);
        match self.find_visible_chain(landing, key, txn, tm) {
            Some((l, slot)) => {
                proof {
                    let i = lemma_page::<K>(t, 0, l@.page_id);
                    lemma_place::<K>(t, i, slot as int);
                    reveal(values_ok);
                    assert(value_in_place(
                        self.store.pages().chunks,
                        self.chains@,
                        t.records()[place(t, i, slot as int)],
                    ));
                    assert(l@.entries[slot as int] == l.entries@[slot as int]@);
                }
                Some(self.reify_value(&l.entries[slot]))
            },
            None => None,
        }
    }
}

} // verus!
