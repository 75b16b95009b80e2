//! Changes to pages, as the log records them, and what they do to the pages.

use vstd::prelude::*;

use crate::constants::{MAX_KEY_SIZE, OVERFLOW_THRESHOLD, PAGE_SIZE};
use crate::node::{
    copy_bytes, lemma_records_size_insert, lemma_records_size_update, lemma_separators_size_add,
    lemma_separators_size_insert, lemma_separators_size_one, separators_size, InternalView,
    LeafView, Node, NodeView, RecordView, RECORD_OVERHEAD, SEPARATOR_OVERHEAD,
};
use crate::wal::WalRecordType;

verus! {

/// A page of an overflow chain.
#[derive(Debug)]
pub struct Chunk {
    pub lsn: u64,
    pub next: Option<u64>,
    pub data: Vec<u8>,
}

/// Mathematical content of a [`Chunk`].
#[verifier::ext_equal]
pub struct ChunkView {
    pub lsn: u64,
    pub next: Option<u64>,
    pub data: Seq<u8>,
}

impl View for Chunk {
    type V = ChunkView;

    open spec fn view(&self) -> ChunkView {
        ChunkView { lsn: self.lsn, next: self.next, data: self.data@ }
    }
}

impl Chunk {
    pub fn copy(&self) -> (c: Chunk)
        ensures
            c@ == self@,
    {
        Chunk { lsn: self.lsn, next: self.next, data: copy_bytes(&self.data) }
    }
}

/// Most bytes that one overflow page holds.
pub const OVERFLOW_PAYLOAD_SIZE: usize = 4048;

impl ChunkView {
    pub open spec fn wf(self) -> bool {
        self.data.len() <= OVERFLOW_PAYLOAD_SIZE && self.next != Some(0u64)
    }
}

/// One change to one page.
#[derive(Debug)]
pub enum Change {
    /// The page becomes this node.
    Image(Node),
    /// The page becomes this part of an overflow chain.
    Chunk(Chunk),
    /// The overflow page is given back.
    Free,
    /// A new version enters a leaf.
    Insert { slot: u16, key: Vec<u8>, value: Vec<u8>, rec_type: u8, xmin: u64 },
    /// A version of a leaf gets its deleter.
    SetXmax { slot: u16, xmax: u64 },
    /// An internal page gets a separator and the child to its right.
    InsertDownlink { at: u16, key: Vec<u8>, right: u64 },
    /// The downlink of the page's right neighbour is in place.
    ClearIncompleteSplit,
    /// The leaf is about to leave the chain.
    MarkHalfDead,
    /// The leaf gets another right neighbour.
    SetRightlink(Option<u64>),
    /// The leaf gets another left neighbour.
    SetPrev(Option<u64>),
    /// An internal page loses a separator and one of the children beside it.
    RemoveKey { at: u16, keep_right: bool },
    /// The superblock points to another root.
    SetRoot(u64),
}

/// Mathematical content of a [`Change`].
#[verifier::ext_equal]
pub enum ChangeView {
    Image(NodeView),
    Chunk(ChunkView),
    Free,
    Insert { slot: u16, key: Seq<u8>, value: Seq<u8>, rec_type: u8, xmin: u64 },
    SetXmax { slot: u16, xmax: u64 },
    InsertDownlink { at: u16, key: Seq<u8>, right: u64 },
    ClearIncompleteSplit,
    MarkHalfDead,
    SetRightlink(Option<u64>),
    SetPrev(Option<u64>),
    RemoveKey { at: u16, keep_right: bool },
    SetRoot(u64),
}

impl View for Change {
    type V = ChangeView;

    open spec fn view(&self) -> ChangeView {
        match self {
            Change::Image(n) => ChangeView::Image(n@),
            Change::Chunk(c) => ChangeView::Chunk(c@),
            Change::Free => ChangeView::Free,
            Change::Insert { slot, key, value, rec_type, xmin } => ChangeView::Insert {
                slot: *slot,
                key: key@,
                value: value@,
                rec_type: *rec_type,
                xmin: *xmin,
            },
            Change::SetXmax { slot, xmax } => ChangeView::SetXmax { slot: *slot, xmax: *xmax },
            Change::InsertDownlink { at, key, right } => ChangeView::InsertDownlink {
                at: *at,
                key: key@,
                right: *right,
            },
            Change::ClearIncompleteSplit => ChangeView::ClearIncompleteSplit,
            Change::MarkHalfDead => ChangeView::MarkHalfDead,
            Change::SetRightlink(r) => ChangeView::SetRightlink(*r),
            Change::SetPrev(p) => ChangeView::SetPrev(*p),
            Change::RemoveKey { at, keep_right } => ChangeView::RemoveKey {
                at: *at,
                keep_right: *keep_right,
            },
            Change::SetRoot(r) => ChangeView::SetRoot(*r),
        }
    }
}

/// A change and the page it changes.
#[derive(Debug)]
pub struct PageChange {
    pub page_id: u64,
    pub change: Change,
}

/// Contents of a list of page changes.
pub open spec fn change_views(s: Seq<PageChange>) -> Seq<(u64, ChangeView)> {
    Seq::new(s.len(), |i: int| (s[i].page_id, s[i].change@))
}

/// The pages of a database.
#[verifier::ext_equal]
pub struct Pages {
    /// Pages of the tree.
    pub nodes: Map<u64, NodeView>,
    /// Pages of overflow chains.
    pub chunks: Map<u64, ChunkView>,
    /// The root that the superblock names.
    pub root: u64,
    /// The record that changed the superblock last.
    pub root_lsn: u64,
}

/// A log record: the changes that it makes.
#[verifier::ext_equal]
pub struct LogEntry {
    pub lsn: u64,
    pub kind: WalRecordType,
    pub txn_id: u64,
    pub changes: Seq<(u64, ChangeView)>,
    /// The data of a record that changes no page.
    pub main: Option<Seq<u8>>,
}

/// A node, stamped with the record that changed it last.
pub open spec fn with_lsn(n: NodeView, lsn: u64) -> NodeView {
    match n {
        NodeView::Leaf(l) => NodeView::Leaf(LeafView { lsn, ..l }),
        NodeView::Internal(p) => NodeView::Internal(InternalView { lsn, ..p }),
    }
}

/// A node whose split is complete.
pub open spec fn without_flag(n: NodeView) -> NodeView {
    match n {
        NodeView::Leaf(l) => NodeView::Leaf(LeafView { incomplete_split: false, ..l }),
        NodeView::Internal(p) => NodeView::Internal(InternalView { incomplete_split: false, ..p }),
    }
}

/// What a change makes of a node, its stamp aside.
pub open spec fn changed(n: NodeView, c: ChangeView) -> NodeView {
    match (n, c) {
        (_, ChangeView::Image(m)) => m,
        (NodeView::Leaf(l), ChangeView::Insert { slot, key, value, rec_type, xmin }) => {
            NodeView::Leaf(
                LeafView {
                    entries: l.entries.insert(
                        slot as int,
                        RecordView { key, value, rec_type, xmin, xmax: 0 },
                    ),
                    ..l
                },
            )
        },
        (NodeView::Leaf(l), ChangeView::SetXmax { slot, xmax }) => NodeView::Leaf(
            LeafView {
                entries: l.entries.update(
                    slot as int,
                    RecordView { xmax, ..l.entries[slot as int] },
                ),
                ..l
            },
        ),
        (NodeView::Internal(p), ChangeView::InsertDownlink { at, key, right }) => {
            NodeView::Internal(
                InternalView {
                    keys: p.keys.insert(at as int, key),
                    children: p.children.insert(at + 1, right),
                    ..p
                },
            )
        },
        (_, ChangeView::ClearIncompleteSplit) => without_flag(n),
        (NodeView::Leaf(l), ChangeView::MarkHalfDead) => NodeView::Leaf(
            LeafView { half_dead: true, ..l },
        ),
        (NodeView::Leaf(l), ChangeView::SetRightlink(r)) => NodeView::Leaf(
            LeafView {
                rightlink: r,
                high_key: if r is None {
                    None
                } else {
                    l.high_key
                },
                ..l
            },
        ),
        (NodeView::Leaf(l), ChangeView::SetPrev(p)) => NodeView::Leaf(
            LeafView { prev_page: p, ..l },
        ),
        (NodeView::Internal(p), ChangeView::RemoveKey { at, keep_right }) => NodeView::Internal(
            InternalView {
                keys: p.keys.remove(at as int),
                children: p.children.remove(
                    if keep_right {
                        at as int
                    } else {
                        at + 1
                    },
                ),
                ..p
            },
        ),
        _ => n,
    }
}

/// Whether a change can be made to a node.
pub open spec fn fits_node(n: NodeView, c: ChangeView) -> bool {
    match (n, c) {
        (NodeView::Leaf(l), ChangeView::Insert { slot, key, value, .. }) => {
            &&& slot <= l.entries.len()
            &&& key.len() <= MAX_KEY_SIZE
            &&& value.len() <= OVERFLOW_THRESHOLD
            &&& l.size() + RECORD_OVERHEAD + key.len() + value.len() <= PAGE_SIZE
        },
        (NodeView::Leaf(l), ChangeView::SetXmax { slot, .. }) => slot < l.entries.len(),
        (NodeView::Internal(p), ChangeView::InsertDownlink { at, key, .. }) => {
            &&& at <= p.keys.len()
            &&& key.len() <= MAX_KEY_SIZE
            &&& p.size() + SEPARATOR_OVERHEAD + key.len() <= PAGE_SIZE
        },
        (_, ChangeView::ClearIncompleteSplit) => true,
        (NodeView::Leaf(_), ChangeView::MarkHalfDead) => true,
        (NodeView::Leaf(_), ChangeView::SetRightlink(r)) => r != Some(0u64),
        (NodeView::Leaf(_), ChangeView::SetPrev(p)) => p != Some(0u64),
        (NodeView::Internal(p), ChangeView::RemoveKey { at, .. }) => at < p.keys.len(),
        _ => false,
    }
}

/// Whether a change can be made to a page.
pub open spec fn fits(p: Pages, id: u64, c: ChangeView) -> bool {
    match c {
        ChangeView::Image(m) => m.wf() && m.page_id() == id,
        ChangeView::Chunk(k) => k.wf() && id != 0,
        ChangeView::Free => true,
        ChangeView::SetRoot(r) => id == 0 && r != 0,
        _ => p.nodes.contains_key(id) && fits_node(p.nodes[id], c),
    }
}

/// The pages after one change.
pub open spec fn apply_one(p: Pages, id: u64, c: ChangeView, lsn: u64) -> Pages {
    match c {
        ChangeView::Image(m) => Pages {
            nodes: p.nodes.insert(id, with_lsn(m, lsn)),
            chunks: p.chunks.remove(id),
            ..p
        },
        ChangeView::Chunk(k) => Pages {
            chunks: p.chunks.insert(id, ChunkView { lsn, ..k }),
            nodes: p.nodes.remove(id),
            ..p
        },
        ChangeView::Free => Pages {
            chunks: p.chunks.remove(id),
            nodes: p.nodes.remove(id),
            ..p
        },
        ChangeView::SetRoot(r) => Pages { root: r, root_lsn: lsn, ..p },
        _ => Pages { nodes: p.nodes.insert(id, with_lsn(changed(p.nodes[id], c), lsn)), ..p },
    }
}

/// The pages after a list of changes.
pub open spec fn apply_all(p: Pages, cs: Seq<(u64, ChangeView)>, lsn: u64) -> Pages
    decreases cs.len(),
{
    if cs.len() == 0 {
        p
    } else {
        apply_one(apply_all(p, cs.drop_last(), lsn), cs.last().0, cs.last().1, lsn)
    }
}

/// Whether each change of a list can be made after those before it.
pub open spec fn all_fit(p: Pages, cs: Seq<(u64, ChangeView)>, lsn: u64) -> bool
    decreases cs.len(),
{
    cs.len() == 0 || (all_fit(p, cs.drop_last(), lsn) && fits(
        apply_all(p, cs.drop_last(), lsn),
        cs.last().0,
        cs.last().1,
    ))
}

/// The changes of a record that redo makes. The pages that the record with the
/// number zero changes are in the file before anything else happens: pages that no
/// record has changed carry that number too.
pub open spec fn effect(e: LogEntry) -> Seq<(u64, ChangeView)> {
    if e.lsn == 0 {
        Seq::empty()
    } else {
        e.changes
    }
}

/// The pages after a list of log records.
pub open spec fn replay(p: Pages, log: Seq<LogEntry>) -> Pages
    decreases log.len(),
{
    if log.len() == 0 {
        p
    } else {
        apply_all(replay(p, log.drop_last()), effect(log.last()), log.last().lsn)
    }
}

impl Pages {
    /// Every page can be stored and carries its own id.
    pub open spec fn wf(self) -> bool {
        &&& forall|id: u64| #[trigger]
            self.nodes.contains_key(id) ==> self.nodes[id].wf() && self.nodes[id].page_id() == id
        &&& forall|id: u64| #[trigger]
            self.chunks.contains_key(id) ==> self.chunks[id].wf() && id != 0
                && !self.nodes.contains_key(id)
        &&& self.nodes.dom().finite()
        &&& self.chunks.dom().finite()
    }
}

proof fn lemma_separators_size_remove(s: Seq<Seq<u8>>, i: int)
    requires
        0 <= i < s.len(),
    ensures
        separators_size(s.remove(i)) <= separators_size(s),
{
    let a = s.subrange(0, i);
    let b = s.subrange(i + 1, s.len() as int);
    assert(s =~= a + (seq![s[i]] + b));
    assert(s.remove(i) =~= a + b);
    lemma_separators_size_add(a, b);
    lemma_separators_size_add(seq![s[i]], b);
    lemma_separators_size_add(a, seq![s[i]] + b);
    lemma_separators_size_one(s[i]);
}

/// A change that can be made keeps a node storable.
pub proof fn lemma_changed_wf(n: NodeView, c: ChangeView)
    requires
        n.wf(),
        fits_node(n, c),
    ensures
        changed(n, c).wf(),
        changed(n, c).page_id() == n.page_id(),
{
    match (n, c) {
        (NodeView::Leaf(l), ChangeView::Insert { slot, key, value, rec_type, xmin }) => {
            let r = RecordView { key, value, rec_type, xmin, xmax: 0 };
            lemma_records_size_insert(l.entries, slot as int, r);
            let e = l.entries.insert(slot as int, r);
            assert forall|i: int| 0 <= i < e.len() implies (#[trigger] e[i]).key.len()
                <= MAX_KEY_SIZE && e[i].value.len() <= OVERFLOW_THRESHOLD by {
                if i < slot {
                    assert(e[i] == l.entries[i]);
                } else if i > slot {
                    assert(e[i] == l.entries[i - 1]);
                }
            }
        },
        (NodeView::Leaf(l), ChangeView::SetXmax { slot, xmax }) => {
            let r = RecordView { xmax, ..l.entries[slot as int] };
            lemma_records_size_update(l.entries, slot as int, r);
        },
        (NodeView::Internal(p), ChangeView::InsertDownlink { at, key, right }) => {
            lemma_separators_size_insert(p.keys, at as int, key);
            let e = p.keys.insert(at as int, key);
            assert forall|i: int| 0 <= i < e.len() implies (#[trigger] e[i]).len()
                <= MAX_KEY_SIZE by {
                if i < at {
                    assert(e[i] == p.keys[i]);
                } else if i > at {
                    assert(e[i] == p.keys[i - 1]);
                }
            }
        },
        (NodeView::Internal(p), ChangeView::RemoveKey { at, keep_right }) => {
            lemma_separators_size_remove(p.keys, at as int);
            let e = p.keys.remove(at as int);
            assert forall|i: int| 0 <= i < e.len() implies (#[trigger] e[i]).len()
                <= MAX_KEY_SIZE by {
                if i < at {
                    assert(e[i] == p.keys[i]);
                } else {
                    assert(e[i] == p.keys[i + 1]);
                }
            }
        },
        _ => {},
    }
}

/// A change that can be made keeps the pages storable.
pub proof fn lemma_apply_one_wf(p: Pages, id: u64, c: ChangeView, lsn: u64)
    requires
        p.wf(),
        fits(p, id, c),
    ensures
        apply_one(p, id, c, lsn).wf(),
{
    match c {
        ChangeView::Image(_) => {},
        ChangeView::Chunk(_) => {},
        ChangeView::Free => {},
        ChangeView::SetRoot(_) => {},
        _ => {
            lemma_changed_wf(p.nodes[id], c);
        },
    }
}

pub proof fn lemma_apply_all_wf(p: Pages, cs: Seq<(u64, ChangeView)>, lsn: u64)
    requires
        p.wf(),
        all_fit(p, cs, lsn),
    ensures
        apply_all(p, cs, lsn).wf(),
    decreases cs.len(),
{
    if cs.len() > 0 {
        lemma_apply_all_wf(p, cs.drop_last(), lsn);
        lemma_apply_one_wf(
            apply_all(p, cs.drop_last(), lsn),
            cs.last().0,
            cs.last().1,
            lsn,
        );
    }
}

/// Makes a change to a node and stamps it.
pub fn apply_to_node(n: Node, c: &Change, lsn: u64) -> (r: Option<Node>)
    requires
        n@.wf(),
    ensures
        r is Some <==> fits_node(n@, c@),
        r matches Some(m) ==> m@ == with_lsn(changed(n@, c@), lsn),
{
    match n {
        Node::Leaf(l) => {
            let mut l = l;
            let ghost l0 = l@;
            match c {
                Change::Insert { slot, key, value, rec_type, xmin } => {
                    if *slot as usize > l.entries.len() || key.len() > MAX_KEY_SIZE || value.len()
                        > OVERFLOW_THRESHOLD {
                        return None;
                    }
                    match l.insert_raw(*slot as usize, key.as_slice(), value.as_slice(), *rec_type) {
                        Ok(()) => {
                            l.set_xmin(*slot as usize, *xmin);
                            l.lsn = lsn;
                            assert(l@.entries =~= l0.entries.insert(
                                *slot as int,
                                RecordView {
                                    key: key@,
                                    value: value@,
                                    rec_type: *rec_type,
                                    xmin: *xmin,
                                    xmax: 0,
                                },
                            ));
                            Some(Node::Leaf(l))
                        },
                        Err(_) => None,
                    }
                },
                Change::SetXmax { slot, xmax } => {
                    if *slot as usize >= l.entries.len() {
                        return None;
                    }
                    l.set_xmax(*slot as usize, *xmax);
                    l.lsn = lsn;
                    Some(Node::Leaf(l))
                },
                Change::ClearIncompleteSplit => {
                    l.incomplete_split = false;
                    l.lsn = lsn;
                    Some(Node::Leaf(l))
                },
                Change::MarkHalfDead => {
                    l.half_dead = true;
                    l.lsn = lsn;
                    Some(Node::Leaf(l))
                },
                Change::SetRightlink(r) => {
                    if let Some(0) = *r {
                        return None;
                    }
                    l.set_rightlink(*r);
                    l.lsn = lsn;
                    Some(Node::Leaf(l))
                },
                Change::SetPrev(p) => {
                    if let Some(0) = *p {
                        return None;
                    }
                    l.prev_page = *p;
                    l.lsn = lsn;
                    Some(Node::Leaf(l))
                },
                _ => None,
            }
        },
        Node::Internal(p) => {
            let mut p = p;
            match c {
                Change::InsertDownlink { at, key, right } => {
                    if *at as usize > p.keys.len() || key.len() > MAX_KEY_SIZE {
                        return None;
                    }
                    match p.insert_key_and_right_child(*at as usize, key.as_slice(), *right) {
                        Ok(()) => {
                            p.lsn = lsn;
                            Some(Node::Internal(p))
                        },
                        Err(_) => None,
                    }
                },
                Change::ClearIncompleteSplit => {
                    p.incomplete_split = false;
                    p.lsn = lsn;
                    Some(Node::Internal(p))
                },
                Change::RemoveKey { at, keep_right } => {
                    if *at as usize >= p.keys.len() {
                        return None;
                    }
                    p.remove_key_at(*at as usize, *keep_right);
                    p.lsn = lsn;
                    Some(Node::Internal(p))
                },
                _ => None,
            }
        },
    }
}

} // verus!
