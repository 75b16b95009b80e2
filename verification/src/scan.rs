//! Range scans, forward and backward.

use vstd::prelude::*;

use crate::index::{
    lemma_left_below, lemma_none_right, lemma_page, lemma_place, place, value_in_place, values_ok,
    BTreeIndex,
};
use crate::key::{key_eq, Key, KeyOrder};
use crate::leaf_lemmas::lemma_leaf_count;
use crate::node::{copy_bytes, records_sorted, LeafPage, NodeView, RecordView};
use crate::transaction::Transaction;
use crate::transaction_manager::TransactionManager;
use crate::tree_spec::{
    below, bound_le, lemma_flat_add, lemma_flat_member, lemma_flat_one, records_ok, Tree,
};

verus! {

/// One end of a key range.
#[derive(Debug)]
pub enum KeyBound {
    Included(Vec<u8>),
    Excluded(Vec<u8>),
    Unbounded,
}

impl KeyBound {
    /// Whether a key is not cut off by this start of a range.
    pub open spec fn starts_before<K: Key>(&self, k: Seq<u8>) -> bool {
        match self {
            KeyBound::Included(b) => K::le(b@, k),
            KeyBound::Excluded(b) => !K::le(k, b@),
            KeyBound::Unbounded => true,
        }
    }

    /// Whether a key is not cut off by this end of a range.
    pub open spec fn ends_after<K: Key>(&self, k: Seq<u8>) -> bool {
        match self {
            KeyBound::Included(b) => K::le(k, b@),
            KeyBound::Excluded(b) => !K::le(b@, k),
            KeyBound::Unbounded => true,
        }
    }

    /// Whether a key is not cut off by this start of a range.
    pub fn is_before<K: Key>(&self, k: &[u8]) -> (b: bool)
        ensures
            b == self.starts_before::<K>(k@),
    {
        match self {
            KeyBound::Included(b) => match K::compare(k, b.as_slice()) {
                KeyOrder::Less => false,
                _ => true,
            },
            KeyBound::Excluded(b) => match K::compare(k, b.as_slice()) {
                KeyOrder::Greater => true,
                _ => {
                    proof {
                        K::le_laws();
                    }
                    false
                },
            },
            KeyBound::Unbounded => true,
        }
    }

    /// Whether a key is not cut off by this end of a range.
    pub fn is_after<K: Key>(&self, k: &[u8]) -> (b: bool)
        ensures
            b == self.ends_after::<K>(k@),
    {
        proof {
            K::le_laws();
        }
        match self {
            KeyBound::Included(b) => match K::compare(k, b.as_slice()) {
                KeyOrder::Greater => false,
                _ => true,
            },
            KeyBound::Excluded(b) => match K::compare(k, b.as_slice()) {
                KeyOrder::Less => true,
                _ => false,
            },
            KeyBound::Unbounded => true,
        }
    }

    /// A copy of the bound.
    pub fn copy(&self) -> (c: KeyBound)
        ensures
            c.bytes() == self.bytes(),
            c is Included == self is Included,
            c is Excluded == self is Excluded,
    {
        match self {
            KeyBound::Included(b) => KeyBound::Included(copy_bytes(b)),
            KeyBound::Excluded(b) => KeyBound::Excluded(copy_bytes(b)),
            KeyBound::Unbounded => KeyBound::Unbounded,
        }
    }

    /// The key that the bound names.
    pub open spec fn bytes(&self) -> Seq<u8> {
        match self {
            KeyBound::Included(b) => b@,
            KeyBound::Excluded(b) => b@,
            KeyBound::Unbounded => Seq::empty(),
        }
    }
}

/// The records on the first `i` leaves are as many as the leaves hold.
pub proof fn lemma_place_next<K: Key>(t: Tree, i: int)
    requires
        t.wf::<K>(),
        t.valid(0, i),
    ensures
        place(t, i, t.leaf(i).entries.len() as int) == place(t, i + 1, 0),
{
    let c = t.levels[0];
    assert(t.page_ok::<K>(0, i));
    assert(c.subrange(0, i + 1) =~= c.subrange(0, i) + seq![c[i]]);
    lemma_flat_add(t.nodes, c.subrange(0, i), seq![c[i]]);
    lemma_flat_one(t.nodes, c[i]);
    assert(t.page(0, i) == c[i]);
}

proof fn lemma_place_monotone<K: Key>(t: Tree, i: int, j: int)
    requires
        t.wf::<K>(),
        0 <= i <= j <= t.levels[0].len(),
    ensures
        place(t, i, 0) <= place(t, j, 0),
    decreases j - i,
{
    if i < j {
        assert(t.valid(0, j - 1));
        lemma_place_monotone::<K>(t, i, j - 1);
        lemma_place_next::<K>(t, j - 1);
    }
}

/// Where a record sits: on which leaf, and in which slot.
pub proof fn lemma_member<K: Key>(t: Tree, k: int) -> (r: (int, int))
    requires
        t.wf::<K>(),
        0 <= k < t.records().len(),
    ensures
        t.valid(0, r.0),
        0 <= r.1 < t.leaf(r.0).entries.len(),
        t.records()[k] == t.leaf(r.0).entries[r.1],
        k == place(t, r.0, r.1),
{
    let (j, s) = lemma_flat_member(t.nodes, t.levels[0], k);
    assert(t.valid(0, j));
    assert(t.page_ok::<K>(0, j));
    assert(t.page(0, j) == t.levels[0][j]);
    (j, s)
}

/// Places are ordered as leaves and slots are.
pub proof fn lemma_place_order<K: Key>(t: Tree, i: int, s: int, j: int, u: int)
    requires
        t.wf::<K>(),
        t.valid(0, i),
        t.valid(0, j),
        0 <= s <= t.leaf(i).entries.len(),
        0 <= u < t.leaf(j).entries.len(),
    ensures
        place(t, j, u) < place(t, i, s) <==> (j < i || (j == i && u < s)),
{
    if j < i {
        lemma_place_next::<K>(t, j);
        lemma_place_monotone::<K>(t, j + 1, i);
    } else if j > i {
        lemma_place_next::<K>(t, i);
        lemma_place_monotone::<K>(t, i + 1, j);
    }
}

/// The records of a tree are in key order.
pub proof fn law_records_are_sorted<K: Key>(t: Tree)
    requires
        t.wf::<K>(),
    ensures
        records_sorted::<K>(t.records()),
{
    K::le_laws();
    let recs = t.records();
    assert forall|a: int, b: int| 0 <= a <= b < recs.len() implies K::le(
        #[trigger] recs[a].key,
        #[trigger] recs[b].key,
    ) by {
        let (i, s) = lemma_member::<K>(t, a);
        let (j, u) = lemma_member::<K>(t, b);
        lemma_place_order::<K>(t, i, s, j, u);
        reveal(records_ok);
        assert(t.page_ok::<K>(0, i) && t.page_ok::<K>(0, j));
        assert(t.leaf_ok::<K>(t.leaf(i)) && t.leaf_ok::<K>(t.leaf(j)));
        if i == j {
            assert(K::le(t.leaf(i).entries[s].key, t.leaf(i).entries[u].key));
        } else {
            assert(t.page_ok::<K>(0, j));
            assert(t.linked(0, j));
            assert(t.valid(0, j - 1));
            assert(t.page_ok::<K>(0, j - 1));
            assert(t.linked(0, j - 1));
            let low = t.lows[t.page(0, j)];
            lemma_left_below::<K>(t, j, i, s, low->0);
            assert(bound_le::<K>(low, Some(t.leaf(j).entries[u].key)));
        }
    }
}

/// Whether the records before index `p` are those that a start bound cuts off.
pub open spec fn cut_at<K: Key>(recs: Seq<RecordView>, p: int, b: &KeyBound) -> bool {
    &&& 0 <= p <= recs.len()
    &&& forall|k: int| 0 <= k < p ==> !b.starts_before::<K>(#[trigger] recs[k].key)
    &&& forall|k: int| p <= k < recs.len() ==> b.starts_before::<K>(#[trigger] recs[k].key)
}

impl LeafPage {
    /// The first slot whose key a start bound does not cut off.
    fn first_slot<K: Key>(&self, b: &KeyBound) -> (r: usize)
        requires
            records_sorted::<K>(self@.entries),
        ensures
            r <= self@.entries.len(),
            forall|i: int| 0 <= i < r ==> !b.starts_before::<K>(#[trigger] self@.entries[i].key),
            forall|i: int|
                r <= i < self@.entries.len() ==> b.starts_before::<K>(
                    #[trigger] self@.entries[i].key,
                ),
    {
        let key = match b {
            KeyBound::Included(k) => k,
            KeyBound::Excluded(k) => k,
            KeyBound::Unbounded => {
                return 0;
            },
        };
        proof {
            K::le_laws();
        }
        let (slot, exact) = self.position::<K>(key.as_slice());
        if !exact {
            return slot;
        }
        let (first, past_end) = self.duplicate_slot_bounds::<K>(key.as_slice(), slot);
        proof {
            let e = self@.entries;
            assert forall|i: int| 0 <= i < first implies !K::le(key@, #[trigger] e[i].key) by {
                assert(K::le(e[i].key, e[first as int].key));
                assert(!key_eq::<K>(e[i].key, key@));
                assert(key_eq::<K>(e[first as int].key, key@));
            }
            assert forall|i: int| past_end <= i < e.len() implies !K::le(
                #[trigger] e[i].key,
                key@,
            ) by {
                assert(K::le(e[past_end - 1].key, e[i].key));
                assert(!key_eq::<K>(e[i].key, key@));
                assert(key_eq::<K>(e[past_end - 1].key, key@));
            }
        }
        match b {
            KeyBound::Included(_) => first,
            _ => past_end,
        }
    }
}

/// The leaf at index `i` and its slot `s` part the records at a start bound.
proof fn lemma_cut<K: Key>(t: Tree, i: int, s: int, b: &KeyBound)
    requires
        t.wf::<K>(),
        t.valid(0, i),
        0 <= s <= t.leaf(i).entries.len(),
        forall|j: int, u: int|
            0 <= j < t.levels[0].len() && 0 <= u < t.leaf(j).entries.len() ==> (b.starts_before::<
                K,
            >(#[trigger] t.leaf(j).entries[u].key) <==> !(j < i || (j == i && u < s))),
    ensures
        cut_at::<K>(t.records(), place(t, i, s), b),
{
    let recs = t.records();
    let p = place(t, i, s);
    assert(t.page_ok::<K>(0, i));
    assert(p <= recs.len()) by {
        lemma_place_next::<K>(t, i);
        lemma_place_monotone::<K>(t, i + 1, t.levels[0].len() as int);
        assert(t.levels[0].subrange(0, t.levels[0].len() as int) =~= t.levels[0]);
    }
    assert forall|k: int| 0 <= k < recs.len() implies (b.starts_before::<K>(#[trigger] recs[k].key)
        <==> k >= p) by {
        let (j, u) = lemma_member::<K>(t, k);
        lemma_place_order::<K>(t, i, s, j, u);
        assert(t.leaf(j).entries[u].key == recs[k].key);
    }
}

impl<K: Key> BTreeIndex<K> {
    /// Finds the place where a range starts.
    #[verifier::rlimit(40)]
    pub(crate) fn seek(&mut self, b: &KeyBound) -> (r: (u64, usize))
        requires
            old(self).wf(),
        ensures
            final(self).wf(),
            final(self).same(old(self)),
            old(self).levels@[0].contains(r.0),
            forall|i: int|
                old(self).tree().valid(0, i) && #[trigger] old(self).tree().page(0, i) == r.0 ==> {
                    &&& r.1 <= old(self).tree().leaf(i).entries.len()
                    &&& cut_at::<K>(
                        old(self).records(),
                        place(old(self).tree(), i, r.1 as int),
                        b,
                    )
                },
    {
        let ghost t = self.tree();
        let key = match b {
            KeyBound::Included(k) => k,
            KeyBound::Excluded(k) => k,
            KeyBound::Unbounded => {
                let pid: u64 = self.find_leftmost_leaf();
                proof {
                    assert(t.levels[0][0] == pid);
                    assert(t.valid(0, 0));
                    assert(t.page_ok::<K>(0, 0));
                    lemma_cut::<K>(t, 0, 0, b);
                    assert forall|i: int| t.valid(0, i) && #[trigger] t.page(0, i) == pid implies i
                        == 0 by {
                        assert(t.page(0, i) == t.page(0, 0));
                    }
                }
                return (pid, 0);
            },
        };
        let (start, _) = self.descend(key.as_slice());
        let mut l = self.move_right(start, key.as_slice());
        let mut slot: usize = l.first_slot::<K>(b);
        let ghost mut i: int = lemma_page::<K>(t, 0, l@.page_id);
        let inclusive = match b {
            KeyBound::Included(_) => true,
            _ => false,
        };
        proof {
            K::le_laws();
            assert(t.leaf(i) == l@);
            assert forall|j: int, u: int|
                i < j < t.levels[0].len() && 0 <= u < t.leaf(
                    j,
                ).entries.len() implies b.starts_before::<K>(
                #[trigger] t.leaf(j).entries[u].key,
            ) by {
                lemma_none_right::<K>(t, key@, i, j, u);
            }
        }
        // Versions of the key may reach further left.
        let mut go = inclusive && slot == 0;
        while go
            invariant
                self.wf(),
                self.same(old(self)),
                self.tree() == t,
                t == old(self).tree(),
                t.valid(0, i),
                t.page(0, i) == l@.page_id,
                t.nodes[l@.page_id] == NodeView::Leaf(l@),
                key@ == b.bytes(),
                b is Included || b is Excluded,
                inclusive == (b is Included),
                bound_le::<K>(t.lows[t.page(0, i)], Some(key@)),
                slot <= l@.entries.len(),
                go ==> inclusive && slot == 0,
                forall|u: int|
                    0 <= u < slot ==> !b.starts_before::<K>(#[trigger] l@.entries[u].key),
                forall|u: int|
                    slot <= u < l@.entries.len() ==> b.starts_before::<K>(
                        #[trigger] l@.entries[u].key,
                    ),
                forall|j: int, u: int|
                    i < j < t.levels[0].len() && 0 <= u < t.leaf(j).entries.len()
                        ==> b.starts_before::<K>(#[trigger] t.leaf(j).entries[u].key),
                !go && inclusive && slot == 0 && i > 0 ==> (t.lows[t.page(0, i)] matches Some(low)
                    && !K::le(key@, low)),
            decreases i, (if go { 1int } else { 0int }),
        {
            proof {
                K::le_laws();
                assert(t.page_ok::<K>(0, i));
                assert(t.linked(0, i));
                assert(t.leaf(i) == l@);
            }
            let prev = l.prev_page;
            match prev {
                None => {
                    go = false;
                },
                Some(pid) => {
                    proof {
                        assert(i > 0);
                        assert(t.valid(0, i - 1));
                        assert(t.page_ok::<K>(0, i - 1));
                        assert(t.linked(0, i - 1));
                        assert(t.levels[0][i - 1] == pid);
                    }
                    let q = self.load_leaf(pid);
                    let on_chain = match &q.high_key {
                        Some(hk) => match K::compare(hk.as_slice(), key.as_slice()) {
                            KeyOrder::Equal => true,
                            _ => false,
                        },
                        None => false,
                    };
                    if on_chain {
                        proof {
                            reveal(records_ok);
                            assert(t.leaf_ok::<K>(q@));
                            assert forall|j: int, u: int|
                                i - 1 < j < t.levels[0].len() && 0 <= u < t.leaf(
                                    j,
                                ).entries.len() implies b.starts_before::<K>(
                                #[trigger] t.leaf(j).entries[u].key,
                            ) by {
                                if j == i {
                                    assert(t.leaf(j).entries[u] == l@.entries[u]);
                                }
                            }
                        }
                        slot = q.first_slot::<K>(b);
                        l = q;
                        go = slot == 0;
                        proof {
                            i = i - 1;
                        }
                    } else {
                        go = false;
                    }
                },
            }
        }
        proof {
            K::le_laws();
            assert(t.page_ok::<K>(0, i));
            assert(t.linked(0, i));
            assert(t.leaf(i) == l@);
            assert(t.levels[0][i] == l@.page_id);
            assert forall|j: int, u: int|
                0 <= j < t.levels[0].len() && 0 <= u < t.leaf(j).entries.len() implies (
            b.starts_before::<K>(#[trigger] t.leaf(j).entries[u].key) <==> !(j < i || (j == i && u
                < slot))) by {
                if j < i {
                    assert(t.valid(0, i - 1));
                    assert(t.page_ok::<K>(0, i - 1));
                    assert(t.linked(0, i - 1));
                    let low = t.lows[t.page(0, i)];
                    lemma_left_below::<K>(t, i, j, u, low->0);
                    if inclusive && slot > 0 {
                        reveal(records_ok);
                        assert(t.leaf_ok::<K>(l@));
                        assert(!b.starts_before::<K>(l@.entries[0].key));
                        assert(bound_le::<K>(low, Some(l@.entries[0].key)));
                    }
                } else if j == i {
                    assert(t.leaf(j).entries[u] == l@.entries[u]);
                }
            }
            lemma_cut::<K>(t, i, slot as int, b);
            assert forall|x: int| t.valid(0, x) && #[trigger] t.page(0, x)
                == l@.page_id implies x == i by {
                assert(t.page(0, x) == t.page(0, i));
            }
        }
        (l.page_id, slot)
    }
}

/// Whether two bounds are the same.
pub open spec fn same_bound(a: &KeyBound, b: &KeyBound) -> bool {
    &&& a.bytes() == b.bytes()
    &&& a is Included == b is Included
    &&& a is Excluded == b is Excluded
}

/// The records from index `p` on that the transaction sees and the end bound
/// does not cut off, in order.
pub open spec fn hits_from<K: Key>(
    txn: &Transaction,
    aborts: Map<u64, ()>,
    end: &KeyBound,
    recs: Seq<RecordView>,
    p: int,
) -> Seq<RecordView>
    decreases recs.len() - p,
{
    if p < 0 || p >= recs.len() {
        Seq::empty()
    } else {
        let r = recs[p];
        let rest = hits_from::<K>(txn, aborts, end, recs, p + 1);
        if txn.sees(aborts, r.xmin, r.xmax) && end.ends_after::<K>(r.key) {
            seq![r] + rest
        } else {
            rest
        }
    }
}

/// The records before index `p` that the transaction sees and the start bound
/// does not cut off, last first.
pub open spec fn hits_back<K: Key>(
    txn: &Transaction,
    aborts: Map<u64, ()>,
    start: &KeyBound,
    recs: Seq<RecordView>,
    p: int,
) -> Seq<RecordView>
    decreases p,
{
    if p <= 0 || p > recs.len() {
        Seq::empty()
    } else {
        let r = recs[p - 1];
        let rest = hits_back::<K>(txn, aborts, start, recs, p - 1);
        if txn.sees(aborts, r.xmin, r.xmax) && start.starts_before::<K>(r.key) {
            seq![r] + rest
        } else {
            rest
        }
    }
}

proof fn lemma_no_hits_from<K: Key>(
    txn: &Transaction,
    aborts: Map<u64, ()>,
    end: &KeyBound,
    recs: Seq<RecordView>,
    p: int,
)
    requires
        0 <= p,
        forall|k: int| p <= k < recs.len() ==> !end.ends_after::<K>(#[trigger] recs[k].key),
    ensures
        hits_from::<K>(txn, aborts, end, recs, p) == Seq::<RecordView>::empty(),
    decreases recs.len() - p,
{
    if p < recs.len() {
        lemma_no_hits_from::<K>(txn, aborts, end, recs, p + 1);
        assert(!end.ends_after::<K>(recs[p].key));
    }
}

proof fn lemma_no_hits_back<K: Key>(
    txn: &Transaction,
    aborts: Map<u64, ()>,
    start: &KeyBound,
    recs: Seq<RecordView>,
    p: int,
)
    requires
        p <= recs.len(),
        forall|k: int| 0 <= k < p ==> !start.starts_before::<K>(#[trigger] recs[k].key),
    ensures
        hits_back::<K>(txn, aborts, start, recs, p) == Seq::<RecordView>::empty(),
    decreases p,
{
    if p > 0 {
        lemma_no_hits_back::<K>(txn, aborts, start, recs, p - 1);
        assert(!start.starts_before::<K>(recs[p - 1].key));
    }
}

/// A scan towards larger keys.
#[derive(Debug)]
pub struct RangeScan {
    pub current_leaf: Option<u64>,
    pub slot: usize,
    pub end: KeyBound,
}

/// A scan towards smaller keys. A negative slot stands for the last one of the
/// leaf.
#[derive(Debug)]
pub struct BackwardRangeScan {
    pub current_leaf: Option<u64>,
    pub slot: i64,
    pub start: KeyBound,
}

/// The keys and contents of records.
pub open spec fn pairs_of<K: Key>(index: &BTreeIndex<K>, recs: Seq<RecordView>) -> Seq<
    (Seq<u8>, Seq<u8>),
> {
    recs.map_values(|r: RecordView| (r.key, index.content(r)))
}

/// Keys and values, as they are returned.
pub open spec fn pair_views(pairs: Seq<(Vec<u8>, Vec<u8>)>) -> Seq<(Seq<u8>, Seq<u8>)> {
    pairs.map_values(|p: (Vec<u8>, Vec<u8>)| (p.0@, p.1@))
}

/// Appending what a scan returns next.
proof fn lemma_collected<K: Key>(
    index: &BTreeIndex<K>,
    got: Seq<(Vec<u8>, Vec<u8>)>,
    p: (Vec<u8>, Vec<u8>),
    all: Seq<RecordView>,
    rest: Seq<RecordView>,
)
    requires
        rest.len() > 0,
        p.0@ == rest[0].key,
        p.1@ == index.content(rest[0]),
        pairs_of(index, all) == pair_views(got) + pairs_of(index, rest),
    ensures
        pairs_of(index, all) == pair_views(got.push(p)) + pairs_of(index, rest.drop_first()),
{
    assert(pair_views(got.push(p)) =~= pair_views(got).push((p.0@, p.1@)));
    let rs = pairs_of(index, rest);
    assert(rs =~= seq![(rest[0].key, index.content(rest[0]))] + pairs_of(index, rest.drop_first()));
    assert(pair_views(got) + rs =~= pair_views(got.push(p)) + pairs_of(index, rest.drop_first()));
}

/// Whether two indexes hold the same contents for every record.
proof fn lemma_same_content<K: Key>(a: &BTreeIndex<K>, b: &BTreeIndex<K>, recs: Seq<RecordView>)
    requires
        a.same(b),
    ensures
        pairs_of(a, recs) == pairs_of(b, recs),
{
    assert(pairs_of(a, recs) =~= pairs_of(b, recs));
}

/// The index of a leaf in the chain.
pub open spec fn chain_index(t: Tree, pid: u64) -> int {
    choose|i: int| t.valid(0, i) && #[trigger] t.page(0, i) == pid
}

proof fn lemma_chain_index<K: Key>(t: Tree, i: int)
    requires
        t.wf::<K>(),
        t.valid(0, i),
    ensures
        chain_index(t, t.page(0, i)) == i,
{
    let pid = t.page(0, i);
    let j = chain_index(t, pid);
    assert(t.valid(0, i) && t.page(0, i) == pid);
    assert(t.valid(0, j) && t.page(0, j) == pid);
}

impl RangeScan {
    /// Whether the scan stands on a leaf of the tree, or at its end.
    pub open spec fn on(&self, t: Tree) -> bool {
        self.current_leaf matches Some(pid) ==> t.levels[0].contains(pid)
    }

    /// How many records lie behind the scan.
    pub open spec fn pos(&self, t: Tree) -> int {
        match self.current_leaf {
            None => t.records().len() as int,
            Some(pid) => {
                let i = chain_index(t, pid);
                let n = t.leaf(i).entries.len() as int;
                place(
                    t,
                    i,
                    if self.slot <= n {
                        self.slot as int
                    } else {
                        n
                    },
                )
            },
        }
    }

    /// The records that the scan has still to return.
    pub open spec fn remaining<K: Key>(
        &self,
        index: &BTreeIndex<K>,
        txn: &Transaction,
        aborts: Map<u64, ()>,
    ) -> Seq<RecordView> {
        hits_from::<K>(txn, aborts, &self.end, index.records(), self.pos(index.tree()))
    }

    /// The next key and value of the range that the transaction sees.
    #[verifier::rlimit(40)]
    pub fn next<K: Key>(
        &mut self,
        index: &mut BTreeIndex<K>,
        txn: &Transaction,
        tm: &TransactionManager,
    ) -> (r: Option<(Vec<u8>, Vec<u8>)>)
        requires
            old(index).wf(),
            tm.wf(),
            old(self).on(old(index).tree()),
        ensures
            final(index).wf(),
            final(index).same(old(index)),
            final(self).on(final(index).tree()),
            final(self).end == old(self).end,
            ({
                let rest = old(self).remaining(old(index), txn, tm.aborts());
                &&& r is Some <==> rest.len() > 0
                &&& r matches Some((k, v)) ==> {
                    &&& k@ == rest[0].key
                    &&& v@ == old(index).content(rest[0])
                    &&& final(self).remaining(final(index), txn, tm.aborts()) == rest.drop_first()
                }
                &&& r is None ==> final(self).remaining(final(index), txn, tm.aborts()).len() == 0
            }),
    {
        let ghost t = index.tree();
        let ghost recs = index.records();
        let ghost rest = self.remaining(index, txn, tm.aborts());
        let ghost aborts = tm.aborts();
        loop
            invariant
                index.wf(),
                index.same(old(index)),
                index.tree() == t,
                t == old(index).tree(),
                tm.wf(),
                aborts == tm.aborts(),
                recs == t.records(),
                self.on(t),
                self.end == old(self).end,
                hits_from::<K>(txn, aborts, &self.end, recs, self.pos(t)) == rest,
                rest == old(self).remaining(old(index), txn, aborts),
            decreases (if self.current_leaf is Some {
                t.levels[0].len() - chain_index(t, self.current_leaf->0)
            } else {
                0
            }),
        {
            if self.current_leaf.is_none() {
                return None;
            }
            let pid: u64 = self.current_leaf.unwrap();
            let ghost i = lemma_page::<K>(t, 0, pid);
            proof {
                lemma_chain_index::<K>(t, i);
                assert(t.linked(0, i));
            }
            let l = index.load_leaf(pid);
            let n: usize = l.entries.len();
            assert(t.leaf(i) == l@);
            while self.slot < n
                invariant
                    index.wf(),
                    index.same(old(index)),
                    index.tree() == t,
                    t == old(index).tree(),
                    tm.wf(),
                    aborts == tm.aborts(),
                    recs == t.records(),
                    self.current_leaf == Some(pid),
                    self.end == old(self).end,
                    hits_from::<K>(txn, aborts, &self.end, recs, self.pos(t)) == rest,
                    rest == old(self).remaining(old(index), txn, aborts),
                    t.valid(0, i),
                    t.page(0, i) == pid,
                    t.levels[0].contains(pid),
                    chain_index(t, pid) == i,
                    t.leaf(i) == l@,
                    n == l@.entries.len(),
                decreases n - self.slot,
            {
                let ghost s = self.slot as int;
                let ghost p = place(t, i, s);
                let ghost rv = l@.entries[s];
                proof {
                    assert(l@.entries[s] == l.entries@[s]@);
                    lemma_place::<K>(t, i, s);
                    assert(self.pos(t) == p);
                }
                let rec = &l.entries[self.slot];
                if !txn.is_visible(tm, rec.xmin, rec.xmax) {
                    self.slot = self.slot + 1;
                    assert(self.pos(t) == p + 1);
                    continue;
                }
                if !self.end.is_after::<K>(rec.key.as_slice()) {
                    proof {
                        law_records_are_sorted::<K>(t);
                        K::le_laws();
                        assert forall|k: int| p <= k < recs.len() implies !self.end.ends_after::<
                            K,
                        >(#[trigger] recs[k].key) by {
                            assert(K::le(recs[p].key, recs[k].key));
                        }
                        lemma_no_hits_from::<K>(txn, aborts, &self.end, recs, p);
                    }
                    self.current_leaf = None;
                    return None;
                }
                proof {
                    reveal(values_ok);
                    assert(value_in_place(index.store.pages().chunks, index.chains@, recs[p]));
                }
                let k = copy_bytes(&rec.key);
                let v = index.reify_value(rec);
                self.slot = self.slot + 1;
                proof {
                    assert(self.pos(t) == p + 1);
                    let tail = hits_from::<K>(txn, aborts, &self.end, recs, p + 1);
                    assert(rest == seq![rv] + tail);
                    assert(rest.drop_first() =~= tail);
                    assert(rest[0] == rv);
                }
                return Some((k, v));
            }
            proof {
                lemma_place_next::<K>(t, i);
                assert(self.pos(t) == place(t, i + 1, 0));
                if l@.rightlink is Some {
                    assert(t.valid(0, i + 1));
                    assert(t.levels[0][i + 1] == l@.rightlink->0);
                    lemma_chain_index::<K>(t, i + 1);
                } else {
                    assert(t.levels[0].subrange(0, i + 1) =~= t.levels[0]);
                }
            }
            self.current_leaf = l.rightlink;
            self.slot = 0;
        }
    }

    /// The keys and values that are left of the range, in the order of the scan.
    pub fn collect<K: Key>(
        self,
        index: &mut BTreeIndex<K>,
        txn: &Transaction,
        tm: &TransactionManager,
    ) -> (r: Vec<(Vec<u8>, Vec<u8>)>)
        requires
            old(index).wf(),
            tm.wf(),
            self.on(old(index).tree()),
        ensures
            final(index).wf(),
            final(index).same(old(index)),
            pair_views(r@) == pairs_of(
                old(index),
                self.remaining(old(index), txn, tm.aborts()),
            ),
    {
        let mut scan = self;
        let mut got: Vec<(Vec<u8>, Vec<u8>)> = Vec::new();
        let ghost all = self.remaining(index, txn, tm.aborts());
        let ghost mut rest = all;
        proof {
            assert(pair_views(got@) + pairs_of(old(index), all) =~= pairs_of(old(index), all));
        }
        loop
            invariant
                index.wf(),
                index.same(old(index)),
                tm.wf(),
                scan.on(index.tree()),
                rest == scan.remaining(index, txn, tm.aborts()),
                all == self.remaining(old(index), txn, tm.aborts()),
                pairs_of(old(index), all) == pair_views(got@) + pairs_of(old(index), rest),
            decreases rest.len(),
        {
            let next = scan.next(index, txn, tm);
            match next {
                None => {
                    proof {
                        assert(pairs_of(old(index), rest) =~= Seq::empty());
                        assert(pair_views(got@) + pairs_of(old(index), rest) =~= pair_views(got@));
                    }
                    return got;
                },
                Some(p) => {
                    proof {
                        lemma_same_content(index, old(index), rest);
                        lemma_collected(old(index), got@, p, all, rest);
                        rest = rest.drop_first();
                    }
                    got.push(p);
                },
            }
        }
    }
}

impl BackwardRangeScan {
    /// Whether the scan stands on a leaf of the tree, inside it or at its last
    /// slot, or at the end.
    pub open spec fn on(&self, t: Tree) -> bool {
        self.current_leaf matches Some(pid) ==> {
            &&& t.levels[0].contains(pid)
            &&& self.slot < t.leaf(chain_index(t, pid)).entries.len()
        }
    }

    /// How many records lie ahead of the scan, counted from the first one.
    pub open spec fn pos(&self, t: Tree) -> int {
        match self.current_leaf {
            None => 0,
            Some(pid) => {
                let i = chain_index(t, pid);
                if self.slot < 0 {
                    place(t, i + 1, 0)
                } else {
                    place(t, i, self.slot + 1)
                }
            },
        }
    }

    /// The records that the scan has still to return.
    pub open spec fn remaining<K: Key>(
        &self,
        index: &BTreeIndex<K>,
        txn: &Transaction,
        aborts: Map<u64, ()>,
    ) -> Seq<RecordView> {
        hits_back::<K>(txn, aborts, &self.start, index.records(), self.pos(index.tree()))
    }

    /// The next key and value, towards smaller keys, that the transaction sees.
    #[verifier::rlimit(40)]
    pub fn next<K: Key>(
        &mut self,
        index: &mut BTreeIndex<K>,
        txn: &Transaction,
        tm: &TransactionManager,
    ) -> (r: Option<(Vec<u8>, Vec<u8>)>)
        requires
            old(index).wf(),
            tm.wf(),
            old(self).on(old(index).tree()),
        ensures
            final(index).wf(),
            final(index).same(old(index)),
            final(self).on(final(index).tree()),
            final(self).start == old(self).start,
            ({
                let rest = old(self).remaining(old(index), txn, tm.aborts());
                &&& r is Some <==> rest.len() > 0
                &&& r matches Some((k, v)) ==> {
                    &&& k@ == rest[0].key
                    &&& v@ == old(index).content(rest[0])
                    &&& final(self).remaining(final(index), txn, tm.aborts()) == rest.drop_first()
                }
                &&& r is None ==> final(self).remaining(final(index), txn, tm.aborts()).len() == 0
            }),
    {
        let ghost t = index.tree();
        let ghost recs = index.records();
        let ghost rest = self.remaining(index, txn, tm.aborts());
        let ghost aborts = tm.aborts();
        loop
            invariant
                index.wf(),
                index.same(old(index)),
                index.tree() == t,
                t == old(index).tree(),
                tm.wf(),
                aborts == tm.aborts(),
                recs == t.records(),
                self.on(t),
                self.start == old(self).start,
                hits_back::<K>(txn, aborts, &self.start, recs, self.pos(t)) == rest,
                rest == old(self).remaining(old(index), txn, aborts),
            decreases (if self.current_leaf is Some {
                1 + chain_index(t, self.current_leaf->0)
            } else {
                0
            }),
        {
            if self.current_leaf.is_none() {
                return None;
            }
            let pid: u64 = self.current_leaf.unwrap();
            let ghost i = lemma_page::<K>(t, 0, pid);
            proof {
                lemma_chain_index::<K>(t, i);
                assert(t.linked(0, i));
                lemma_leaf_count(t.leaf(i));
                lemma_place_next::<K>(t, i);
                if i > 0 {
                    assert(t.valid(0, i - 1));
                    assert(t.page_ok::<K>(0, i - 1));
                    lemma_chain_index::<K>(t, i - 1);
                    assert(t.levels[0][i - 1] == t.page(0, i - 1));
                } else {
                    assert(t.levels[0].subrange(0, 0) =~= Seq::<u64>::empty());
                }
            }
            let l = index.load_leaf(pid);
            assert(t.leaf(i) == l@);
            if self.slot < 0 {
                let n: usize = l.entries.len();
                if n == 0 {
                    self.current_leaf = l.prev_page;
                    self.slot = -1;
                    continue;
                }
                self.slot = (n - 1) as i64;
            }
            while self.slot >= 0
                invariant
                    index.wf(),
                    index.same(old(index)),
                    index.tree() == t,
                    t == old(index).tree(),
                    tm.wf(),
                    aborts == tm.aborts(),
                    recs == t.records(),
                    self.current_leaf == Some(pid),
                    self.start == old(self).start,
                    -1 <= self.slot < l@.entries.len() <= 192,
                    hits_back::<K>(
                        txn,
                        aborts,
                        &self.start,
                        recs,
                        place(t, i, self.slot + 1),
                    ) == rest,
                    rest == old(self).remaining(old(index), txn, aborts),
                    t.valid(0, i),
                    t.page(0, i) == pid,
                    t.levels[0].contains(pid),
                    chain_index(t, pid) == i,
                    t.leaf(i) == l@,
                    i > 0 ==> l@.prev_page == Some(t.page(0, i - 1)) && t.levels[0].contains(
                        t.page(0, i - 1),
                    ) && chain_index(t, t.page(0, i - 1)) == i - 1,
                    i == 0 ==> l@.prev_page is None && place(t, 0, 0) == 0,
                decreases self.slot + 1,
            {
                let s: usize = self.slot as usize;
                let ghost p = place(t, i, s + 1);
                let ghost rv = l@.entries[s as int];
                proof {
                    assert(l@.entries[s as int] == l.entries@[s as int]@);
                    lemma_place::<K>(t, i, s as int);
                }
                let rec = &l.entries[s];
                if !txn.is_visible(tm, rec.xmin, rec.xmax) {
                    self.slot = self.slot - 1;
                    continue;
                }
                if !self.start.is_before::<K>(rec.key.as_slice()) {
                    proof {
                        law_records_are_sorted::<K>(t);
                        K::le_laws();
                        assert forall|k: int| 0 <= k < p implies !self.start.starts_before::<K>(
                            #[trigger] recs[k].key,
                        ) by {
                            assert(K::le(recs[k].key, recs[p - 1].key));
                        }
                        lemma_no_hits_back::<K>(txn, aborts, &self.start, recs, p);
                    }
                    self.current_leaf = None;
                    return None;
                }
                proof {
                    reveal(values_ok);
                    assert(value_in_place(index.store.pages().chunks, index.chains@, recs[p - 1]));
                }
                let k = copy_bytes(&rec.key);
                let v = index.reify_value(rec);
                self.slot = self.slot - 1;
                if self.slot < 0 {
                    self.current_leaf = l.prev_page;
                }
                proof {
                    let tail = hits_back::<K>(txn, aborts, &self.start, recs, p - 1);
                    assert(rest == seq![rv] + tail);
                    assert(rest.drop_first() =~= tail);
                    assert(rest[0] == rv);
                    assert(self.pos(t) == p - 1);
                }
                return Some((k, v));
            }
            self.current_leaf = l.prev_page;
            self.slot = -1;
        }
    }

    /// The keys and values that are left of the range, in the order of the scan.
    pub fn collect<K: Key>(
        self,
        index: &mut BTreeIndex<K>,
        txn: &Transaction,
        tm: &TransactionManager,
    ) -> (r: Vec<(Vec<u8>, Vec<u8>)>)
        requires
            old(index).wf(),
            tm.wf(),
            self.on(old(index).tree()),
        ensures
            final(index).wf(),
            final(index).same(old(index)),
            pair_views(r@) == pairs_of(
                old(index),
                self.remaining(old(index), txn, tm.aborts()),
            ),
    {
        let mut scan = self;
        let mut got: Vec<(Vec<u8>, Vec<u8>)> = Vec::new();
        let ghost all = self.remaining(index, txn, tm.aborts());
        let ghost mut rest = all;
        proof {
            assert(pair_views(got@) + pairs_of(old(index), all) =~= pairs_of(old(index), all));
        }
        loop
            invariant
                index.wf(),
                index.same(old(index)),
                tm.wf(),
                scan.on(index.tree()),
                rest == scan.remaining(index, txn, tm.aborts()),
                all == self.remaining(old(index), txn, tm.aborts()),
                pairs_of(old(index), all) == pair_views(got@) + pairs_of(old(index), rest),
            decreases rest.len(),
        {
            let next = scan.next(index, txn, tm);
            match next {
                None => {
                    proof {
                        assert(pairs_of(old(index), rest) =~= Seq::empty());
                        assert(pair_views(got@) + pairs_of(old(index), rest) =~= pair_views(got@));
                    }
                    return got;
                },
                Some(p) => {
                    proof {
                        lemma_same_content(index, old(index), rest);
                        lemma_collected(old(index), got@, p, all, rest);
                        rest = rest.drop_first();
                    }
                    got.push(p);
                },
            }
        }
    }
}

impl<K: Key> BTreeIndex<K> {
    /// A scan over the entries between two bounds, towards larger keys.
    pub fn range(&mut self, start: &KeyBound, end: &KeyBound) -> (s: RangeScan)
        requires
            old(self).wf(),
        ensures
            final(self).wf(),
            final(self).same(old(self)),
            s.on(final(self).tree()),
            cut_at::<K>(final(self).records(), s.pos(final(self).tree()), start),
            same_bound(&s.end, end),
            forall|txn: &Transaction, aborts: Map<u64, ()>| #[trigger]
                s.remaining(final(self), txn, aborts) == in_range::<K>(
                    txn,
                    aborts,
                    start,
                    end,
                    final(self).records(),
                ),
    {
        let (pid, slot) = self.seek(start);
        let ghost t = self.tree();
        proof {
            let i = lemma_page::<K>(t, 0, pid);
            lemma_chain_index::<K>(t, i);
        }
        let scan = RangeScan { current_leaf: Some(pid), slot, end: end.copy() };
        proof {
            lemma_range(self, &scan, start, end);
        }
        scan
    }

    /// A scan over the entries between two bounds, towards smaller keys.
    pub fn range_backward(&mut self, start: &KeyBound, end: &KeyBound) -> (s: BackwardRangeScan)
        requires
            old(self).wf(),
        ensures
            final(self).wf(),
            final(self).same(old(self)),
            s.on(final(self).tree()),
            ends_at::<K>(final(self).records(), s.pos(final(self).tree()), end),
            same_bound(&s.start, start),
            forall|txn: &Transaction, aborts: Map<u64, ()>| #[trigger]
                s.remaining(final(self), txn, aborts) == in_range::<K>(
                    txn,
                    aborts,
                    start,
                    end,
                    final(self).records(),
                ).reverse(),
    {
        let ghost t = self.tree();
        proof {
            K::le_laws();
        }
        // What the end bound leaves is what a start bound the other way round
        // would cut off.
        let turned = match end {
            KeyBound::Included(k) => KeyBound::Excluded(copy_bytes(k)),
            KeyBound::Excluded(k) => KeyBound::Included(copy_bytes(k)),
            KeyBound::Unbounded => {
                let pid: u64 = self.find_rightmost_leaf();
                let ghost n = t.levels[0].len() as int;
                proof {
                    assert(t.levels[0][n - 1] == pid);
                    assert(t.valid(0, n - 1));
                    lemma_chain_index::<K>(t, n - 1);
                    assert(t.levels[0].subrange(0, n) =~= t.levels[0]);
                }
                let scan = BackwardRangeScan {
                    current_leaf: Some(pid),
                    slot: -1,
                    start: start.copy(),
                };
                proof {
                    lemma_range_backward(self, &scan, start, end);
                }
                return scan;
            },
        };
        let (pid, slot) = self.seek(&turned);
        let ghost i = lemma_page::<K>(t, 0, pid);
        proof {
            lemma_chain_index::<K>(t, i);
            assert(t.linked(0, i));
            lemma_leaf_count(t.leaf(i));
            assert(ends_at::<K>(t.records(), place(t, i, slot as int), end));
            if i > 0 {
                assert(t.valid(0, i - 1));
                assert(t.page_ok::<K>(0, i - 1));
                lemma_chain_index::<K>(t, i - 1);
                assert(t.levels[0][i - 1] == t.page(0, i - 1));
            } else {
                assert(t.levels[0].subrange(0, 0) =~= Seq::<u64>::empty());
            }
        }
        let scan = if slot > 0 {
            BackwardRangeScan {
                current_leaf: Some(pid),
                slot: slot as i64 - 1,
                start: start.copy(),
            }
        } else {
            // The bound lies below every key of this leaf.
            let l = self.load_leaf(pid);
            BackwardRangeScan { current_leaf: l.prev_page, slot: -1, start: start.copy() }
        };
        proof {
            lemma_range_backward(self, &scan, start, end);
        }
        scan
    }
}

/// Whether the records from index `p` on are those that an end bound cuts off.
pub open spec fn ends_at<K: Key>(recs: Seq<RecordView>, p: int, b: &KeyBound) -> bool {
    &&& 0 <= p <= recs.len()
    &&& forall|k: int| 0 <= k < p ==> b.ends_after::<K>(#[trigger] recs[k].key)
    &&& forall|k: int| p <= k < recs.len() ==> !b.ends_after::<K>(#[trigger] recs[k].key)
}

/// The visible records of a range, in order.
pub open spec fn in_range<K: Key>(
    txn: &Transaction,
    aborts: Map<u64, ()>,
    start: &KeyBound,
    end: &KeyBound,
    recs: Seq<RecordView>,
) -> Seq<RecordView> {
    recs.filter(
        |r: RecordView|
            txn.sees(aborts, r.xmin, r.xmax) && start.starts_before::<K>(r.key)
                && end.ends_after::<K>(r.key),
    )
}

/// A scan that starts where its start bound cuts returns the visible records of
/// the range, each once and in key order.
pub proof fn law_scan_is_range<K: Key>(
    txn: &Transaction,
    aborts: Map<u64, ()>,
    start: &KeyBound,
    end: &KeyBound,
    recs: Seq<RecordView>,
    p: int,
)
    requires
        cut_at::<K>(recs, p, start),
    ensures
        hits_from::<K>(txn, aborts, end, recs, p) == in_range::<K>(txn, aborts, start, end, recs),
{
    let f = |r: RecordView|
        txn.sees(aborts, r.xmin, r.xmax) && start.starts_before::<K>(r.key)
            && end.ends_after::<K>(r.key);
    let a = recs.subrange(0, p);
    let b = recs.subrange(p, recs.len() as int);
    assert(recs =~= a + b);
    Seq::filter_distributes_over_add(a, b, f);
    lemma_filter_none(a, f);
    lemma_filter_hits::<K>(txn, aborts, start, end, recs, p);
    assert(recs.filter(f) =~= b.filter(f));
}

/// A backward scan that starts where its end bound cuts returns the same
/// records the other way round.
pub proof fn law_backward_scan_is_reversed<K: Key>(
    txn: &Transaction,
    aborts: Map<u64, ()>,
    start: &KeyBound,
    end: &KeyBound,
    recs: Seq<RecordView>,
    p: int,
)
    requires
        ends_at::<K>(recs, p, end),
    ensures
        hits_back::<K>(txn, aborts, start, recs, p) == in_range::<K>(
            txn,
            aborts,
            start,
            end,
            recs,
        ).reverse(),
{
    let f = |r: RecordView|
        txn.sees(aborts, r.xmin, r.xmax) && start.starts_before::<K>(r.key)
            && end.ends_after::<K>(r.key);
    let a = recs.subrange(0, p);
    let b = recs.subrange(p, recs.len() as int);
    assert(recs =~= a + b);
    Seq::filter_distributes_over_add(a, b, f);
    lemma_filter_none(b, f);
    assert(recs.filter(f) =~= a.filter(f));
    lemma_filter_back::<K>(txn, aborts, start, end, recs, p, p);
}

/// What a scan from where the start bound cuts has to return.
proof fn lemma_range<K: Key>(
    index: &BTreeIndex<K>,
    s: &RangeScan,
    start: &KeyBound,
    end: &KeyBound,
)
    requires
        cut_at::<K>(index.records(), s.pos(index.tree()), start),
        same_bound(&s.end, end),
    ensures
        forall|txn: &Transaction, aborts: Map<u64, ()>| #[trigger]
            s.remaining(index, txn, aborts) == in_range::<K>(
                txn,
                aborts,
                start,
                end,
                index.records(),
            ),
{
    assert forall|txn: &Transaction, aborts: Map<u64, ()>| #[trigger]
        s.remaining(index, txn, aborts) == in_range::<K>(
            txn,
            aborts,
            start,
            end,
            index.records(),
        ) by {
        let recs = index.records();
        let p = s.pos(index.tree());
        law_scan_is_range::<K>(txn, aborts, start, &s.end, recs, p);
        assert forall|k: Seq<u8>| s.end.ends_after::<K>(k) == end.ends_after::<K>(k) by {}
        assert(in_range::<K>(txn, aborts, start, &s.end, recs) == in_range::<K>(
            txn,
            aborts,
            start,
            end,
            recs,
        )) by {
            let f = |r: RecordView|
                txn.sees(aborts, r.xmin, r.xmax) && start.starts_before::<K>(r.key)
                    && s.end.ends_after::<K>(r.key);
            let g = |r: RecordView|
                txn.sees(aborts, r.xmin, r.xmax) && start.starts_before::<K>(r.key)
                    && end.ends_after::<K>(r.key);
            assert(f =~= g);
        }
    }
}

/// What a scan back from where the end bound cuts has to return.
proof fn lemma_range_backward<K: Key>(
    index: &BTreeIndex<K>,
    s: &BackwardRangeScan,
    start: &KeyBound,
    end: &KeyBound,
)
    requires
        ends_at::<K>(index.records(), s.pos(index.tree()), end),
        same_bound(&s.start, start),
    ensures
        forall|txn: &Transaction, aborts: Map<u64, ()>| #[trigger]
            s.remaining(index, txn, aborts) == in_range::<K>(
                txn,
                aborts,
                start,
                end,
                index.records(),
            ).reverse(),
{
    assert forall|txn: &Transaction, aborts: Map<u64, ()>| #[trigger]
        s.remaining(index, txn, aborts) == in_range::<K>(
            txn,
            aborts,
            start,
            end,
            index.records(),
        ).reverse() by {
        let recs = index.records();
        let p = s.pos(index.tree());
        law_backward_scan_is_reversed::<K>(txn, aborts, &s.start, end, recs, p);
        assert forall|k: Seq<u8>| s.start.starts_before::<K>(k) == start.starts_before::<K>(k) by {}
        assert(in_range::<K>(txn, aborts, &s.start, end, recs) == in_range::<K>(
            txn,
            aborts,
            start,
            end,
            recs,
        )) by {
            let f = |r: RecordView|
                txn.sees(aborts, r.xmin, r.xmax) && s.start.starts_before::<K>(r.key)
                    && end.ends_after::<K>(r.key);
            let g = |r: RecordView|
                txn.sees(aborts, r.xmin, r.xmax) && start.starts_before::<K>(r.key)
                    && end.ends_after::<K>(r.key);
            assert(f =~= g);
        }
    }
}

/// The entries of a range that a transaction sees: keys and values, in key order.
pub open spec fn range_pairs<K: Key>(
    index: &BTreeIndex<K>,
    txn: &Transaction,
    aborts: Map<u64, ()>,
    start: &KeyBound,
    end: &KeyBound,
) -> Seq<(Seq<u8>, Seq<u8>)> {
    pairs_of(index, in_range::<K>(txn, aborts, start, end, index.records()))
}

/// Scanning a range backward gives what scanning it forward gives, the other way
/// round.
pub proof fn law_backward_is_forward_reversed<K: Key>(
    index: &BTreeIndex<K>,
    txn: &Transaction,
    aborts: Map<u64, ()>,
    forward: RangeScan,
    backward: BackwardRangeScan,
    start: &KeyBound,
    end: &KeyBound,
)
    requires
        cut_at::<K>(index.records(), forward.pos(index.tree()), start),
        same_bound(&forward.end, end),
        ends_at::<K>(index.records(), backward.pos(index.tree()), end),
        same_bound(&backward.start, start),
    ensures
        pairs_of(index, forward.remaining(index, txn, aborts)) == range_pairs(
            index,
            txn,
            aborts,
            start,
            end,
        ),
        pairs_of(index, backward.remaining(index, txn, aborts)) == pairs_of(
            index,
            forward.remaining(index, txn, aborts),
        ).reverse(),
{
    lemma_range(index, &forward, start, end);
    lemma_range_backward(index, &backward, start, end);
    let s = forward.remaining(index, txn, aborts);
    assert(backward.remaining(index, txn, aborts) == s.reverse());
    assert(pairs_of(index, s.reverse()) =~= pairs_of(index, s).reverse());
}

/// Two entries of what a filter leaves stand in the same order as before.
pub proof fn lemma_filter_order<A>(s: Seq<A>, f: spec_fn(A) -> bool, i: int, j: int) -> (r: (
    int,
    int,
))
    requires
        0 <= i < j < s.filter(f).len(),
    ensures
        0 <= r.0 < r.1 < s.len(),
        s[r.0] == s.filter(f)[i],
        s[r.1] == s.filter(f)[j],
        f(s[r.0]),
        f(s[r.1]),
    decreases s.len(),
{
    reveal(Seq::filter);
    let t = s.drop_last();
    if f(s.last()) && j == s.filter(f).len() - 1 {
        let a = lemma_filter_place(t, f, i);
        (a, s.len() - 1)
    } else {
        lemma_filter_order(t, f, i, j)
    }
}

/// An entry of what a filter leaves was there before.
pub proof fn lemma_filter_place<A>(s: Seq<A>, f: spec_fn(A) -> bool, i: int) -> (r: int)
    requires
        0 <= i < s.filter(f).len(),
    ensures
        0 <= r < s.len(),
        s[r] == s.filter(f)[i],
        f(s[r]),
    decreases s.len(),
{
    reveal(Seq::filter);
    let t = s.drop_last();
    if f(s.last()) && i == s.filter(f).len() - 1 {
        s.len() - 1
    } else {
        lemma_filter_place(t, f, i)
    }
}

proof fn lemma_filter_none(s: Seq<RecordView>, f: spec_fn(RecordView) -> bool)
    requires
        forall|i: int| 0 <= i < s.len() ==> !f(#[trigger] s[i]),
    ensures
        s.filter(f) == Seq::<RecordView>::empty(),
    decreases s.len(),
{
    reveal(Seq::filter);
    if s.len() > 0 {
        let t = s.drop_last();
        assert forall|i: int| 0 <= i < t.len() implies !f(#[trigger] t[i]) by {
            assert(t[i] == s[i]);
        }
        lemma_filter_none(t, f);
        assert(!f(s[s.len() - 1]));
    }
}

proof fn lemma_filter_one(r: RecordView, f: spec_fn(RecordView) -> bool)
    ensures
        seq![r].filter(f) == (if f(r) {
            seq![r]
        } else {
            Seq::empty()
        }),
{
    reveal(Seq::filter);
    let s = seq![r];
    assert(s.drop_last() =~= Seq::<RecordView>::empty());
    assert(Seq::<RecordView>::empty().filter(f) =~= Seq::<RecordView>::empty());
    assert(s.last() == r);
    assert(s.filter(f) =~= (if f(r) {
        seq![r]
    } else {
        Seq::empty()
    }));
}

proof fn lemma_filter_hits<K: Key>(
    txn: &Transaction,
    aborts: Map<u64, ()>,
    start: &KeyBound,
    end: &KeyBound,
    recs: Seq<RecordView>,
    q: int,
)
    requires
        0 <= q <= recs.len(),
        forall|k: int| q <= k < recs.len() ==> start.starts_before::<K>(#[trigger] recs[k].key),
    ensures
        hits_from::<K>(txn, aborts, end, recs, q) == recs.subrange(
            q,
            recs.len() as int,
        ).filter(
            |r: RecordView|
                txn.sees(aborts, r.xmin, r.xmax) && start.starts_before::<K>(r.key)
                    && end.ends_after::<K>(r.key),
        ),
    decreases recs.len() - q,
{
    let f = |r: RecordView|
        txn.sees(aborts, r.xmin, r.xmax) && start.starts_before::<K>(r.key)
            && end.ends_after::<K>(r.key);
    let n = recs.len() as int;
    if q == n {
        assert(recs.subrange(q, n) =~= Seq::<RecordView>::empty());
        lemma_filter_none(recs.subrange(q, n), f);
    } else {
        lemma_filter_hits::<K>(txn, aborts, start, end, recs, q + 1);
        let r = recs[q];
        assert(recs.subrange(q, n) =~= seq![r] + recs.subrange(q + 1, n));
        Seq::filter_distributes_over_add(seq![r], recs.subrange(q + 1, n), f);
        lemma_filter_one(r, f);
        assert(start.starts_before::<K>(recs[q].key));
        assert(hits_from::<K>(txn, aborts, end, recs, q) =~= recs.subrange(q, n).filter(f));
    }
}

proof fn lemma_filter_back<K: Key>(
    txn: &Transaction,
    aborts: Map<u64, ()>,
    start: &KeyBound,
    end: &KeyBound,
    recs: Seq<RecordView>,
    p: int,
    q: int,
)
    requires
        0 <= q <= p <= recs.len(),
        forall|k: int| 0 <= k < p ==> end.ends_after::<K>(#[trigger] recs[k].key),
    ensures
        hits_back::<K>(txn, aborts, start, recs, q) == recs.subrange(0, q).filter(
            |r: RecordView|
                txn.sees(aborts, r.xmin, r.xmax) && start.starts_before::<K>(r.key)
                    && end.ends_after::<K>(r.key),
        ).reverse(),
    decreases q,
{
    let f = |r: RecordView|
        txn.sees(aborts, r.xmin, r.xmax) && start.starts_before::<K>(r.key)
            && end.ends_after::<K>(r.key);
    if q == 0 {
        lemma_filter_none(recs.subrange(0, 0), f);
        assert(recs.subrange(0, 0).filter(f).reverse() =~= Seq::<RecordView>::empty());
    } else {
        lemma_filter_back::<K>(txn, aborts, start, end, recs, p, q - 1);
        let r = recs[q - 1];
        let a = recs.subrange(0, q - 1);
        assert(recs.subrange(0, q) =~= a + seq![r]);
        Seq::filter_distributes_over_add(a, seq![r], f);
        lemma_filter_one(r, f);
        assert(end.ends_after::<K>(recs[q - 1].key));
        assert(hits_back::<K>(txn, aborts, start, recs, q) =~= recs.subrange(0, q).filter(
            f,
        ).reverse());
    }
}

} // verus!
