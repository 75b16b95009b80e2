//! B+Tree nodes: leaf pages with their record versions, and internal pages.

use vstd::prelude::*;

use crate::constants::PAGE_SIZE;
use crate::error::PageError;
use crate::key::{Key, KeyOrder};

verus! {

/// Record type of a value stored inside its record.
pub const REC_TYPE_INLINE: u8 = 0;

/// Record type of a record that holds the descriptor of an overflow chain.
pub const REC_TYPE_OVERFLOW: u8 = 1;

/// Bytes of the fixed header of leaf and internal pages.
pub const NODE_HEADER_SIZE: usize = 48;

/// Bytes of a leaf record besides its key and value.
pub const RECORD_OVERHEAD: usize = 21;

/// Bytes of an internal entry besides its key.
pub const SEPARATOR_OVERHEAD: usize = 10;

/// One version of a row.
#[derive(Debug)]
pub struct Record {
    pub key: Vec<u8>,
    pub value: Vec<u8>,
    pub rec_type: u8,
    pub xmin: u64,
    pub xmax: u64,
}

/// Mathematical content of a [`Record`].
#[verifier::ext_equal]
pub struct RecordView {
    pub key: Seq<u8>,
    pub value: Seq<u8>,
    pub rec_type: u8,
    pub xmin: u64,
    pub xmax: u64,
}

impl View for Record {
    type V = RecordView;

    open spec fn view(&self) -> RecordView {
        RecordView {
            key: self.key@,
            value: self.value@,
            rec_type: self.rec_type,
            xmin: self.xmin,
            xmax: self.xmax,
        }
    }
}

/// Contents of a list of records.
pub open spec fn record_views(s: Seq<Record>) -> Seq<RecordView> {
    Seq::new(s.len(), |i: int| s[i]@)
}

/// Contents of a list of keys.
pub open spec fn key_views(s: Seq<Vec<u8>>) -> Seq<Seq<u8>> {
    Seq::new(s.len(), |i: int| s[i]@)
}

/// Content of an optional key.
pub open spec fn opt_key(k: Option<Vec<u8>>) -> Option<Seq<u8>> {
    match k {
        Some(v) => Some(v@),
        None => None,
    }
}

/// A leaf page.
#[derive(Debug)]
pub struct LeafPage {
    pub page_id: u64,
    pub lsn: u64,
    pub incomplete_split: bool,
    pub half_dead: bool,
    pub rightlink: Option<u64>,
    pub prev_page: Option<u64>,
    pub high_key: Option<Vec<u8>>,
    pub entries: Vec<Record>,
}

/// Mathematical content of a [`LeafPage`].
#[verifier::ext_equal]
pub struct LeafView {
    pub page_id: u64,
    pub lsn: u64,
    pub incomplete_split: bool,
    pub half_dead: bool,
    pub rightlink: Option<u64>,
    pub prev_page: Option<u64>,
    pub high_key: Option<Seq<u8>>,
    pub entries: Seq<RecordView>,
}

impl View for LeafPage {
    type V = LeafView;

    open spec fn view(&self) -> LeafView {
        LeafView {
            page_id: self.page_id,
            lsn: self.lsn,
            incomplete_split: self.incomplete_split,
            half_dead: self.half_dead,
            rightlink: self.rightlink,
            prev_page: self.prev_page,
            high_key: opt_key(self.high_key),
            entries: record_views(self.entries@),
        }
    }
}

/// An internal page: `children[i]` holds the keys between `keys[i - 1]` and `keys[i]`.
#[derive(Debug)]
pub struct InternalPage {
    pub page_id: u64,
    pub lsn: u64,
    pub incomplete_split: bool,
    pub rightlink: Option<u64>,
    pub high_key: Option<Vec<u8>>,
    pub keys: Vec<Vec<u8>>,
    pub children: Vec<u64>,
}

/// Mathematical content of an [`InternalPage`].
#[verifier::ext_equal]
pub struct InternalView {
    pub page_id: u64,
    pub lsn: u64,
    pub incomplete_split: bool,
    pub rightlink: Option<u64>,
    pub high_key: Option<Seq<u8>>,
    pub keys: Seq<Seq<u8>>,
    pub children: Seq<u64>,
}

impl View for InternalPage {
    type V = InternalView;

    open spec fn view(&self) -> InternalView {
        InternalView {
            page_id: self.page_id,
            lsn: self.lsn,
            incomplete_split: self.incomplete_split,
            rightlink: self.rightlink,
            high_key: opt_key(self.high_key),
            keys: key_views(self.keys@),
            children: self.children@,
        }
    }
}

/// A page of the tree.
#[derive(Debug)]
pub enum Node {
    Leaf(LeafPage),
    Internal(InternalPage),
}

/// Mathematical content of a [`Node`].
#[verifier::ext_equal]
pub enum NodeView {
    Leaf(LeafView),
    Internal(InternalView),
}

impl View for Node {
    type V = NodeView;

    open spec fn view(&self) -> NodeView {
        match self {
            Node::Leaf(l) => NodeView::Leaf(l@),
            Node::Internal(p) => NodeView::Internal(p@),
        }
    }
}

impl NodeView {
    pub open spec fn page_id(self) -> u64 {
        match self {
            NodeView::Leaf(l) => l.page_id,
            NodeView::Internal(p) => p.page_id,
        }
    }

    pub open spec fn rightlink(self) -> Option<u64> {
        match self {
            NodeView::Leaf(l) => l.rightlink,
            NodeView::Internal(p) => p.rightlink,
        }
    }

    pub open spec fn high_key(self) -> Option<Seq<u8>> {
        match self {
            NodeView::Leaf(l) => l.high_key,
            NodeView::Internal(p) => p.high_key,
        }
    }

    pub open spec fn wf(self) -> bool {
        match self {
            NodeView::Leaf(l) => l.wf(),
            NodeView::Internal(p) => p.wf(),
        }
    }
}

// ── Sizes ────────────────────────────────────────────────────────────────────
/// Bytes that a high key takes on its page.
pub open spec fn high_key_size(k: Option<Seq<u8>>) -> nat {
    match k {
        Some(v) => v.len(),
        None => 0,
    }
}

/// Bytes that a record takes on its page.
pub open spec fn record_size(r: RecordView) -> nat {
    RECORD_OVERHEAD as nat + r.key.len() + r.value.len()
}

/// Bytes that a list of records takes on its page.
pub open spec fn records_size(s: Seq<RecordView>) -> nat
    decreases s.len(),
{
    if s.len() == 0 {
        0
    } else {
        records_size(s.drop_last()) + record_size(s.last())
    }
}

/// Bytes that a list of separators, with their right children, takes on its page.
pub open spec fn separators_size(s: Seq<Seq<u8>>) -> nat
    decreases s.len(),
{
    if s.len() == 0 {
        0
    } else {
        separators_size(s.drop_last()) + SEPARATOR_OVERHEAD as nat + s.last().len()
    }
}

impl LeafView {
    /// Bytes in use on the page.
    pub open spec fn size(self) -> nat {
        NODE_HEADER_SIZE as nat + high_key_size(self.high_key) + records_size(self.entries)
    }

    /// Whether the page can be stored: it fits, its keys have legal sizes and
    /// its links name pages.
    pub open spec fn wf(self) -> bool {
        &&& self.size() <= PAGE_SIZE
        &&& self.page_id != 0
        &&& self.rightlink != Some(0u64)
        &&& self.prev_page != Some(0u64)
        &&& (self.high_key matches Some(k) ==> k.len() <= crate::constants::MAX_KEY_SIZE)
        &&& forall|i: int|
            0 <= i < self.entries.len() ==> (#[trigger] self.entries[i]).key.len()
                <= crate::constants::MAX_KEY_SIZE && self.entries[i].value.len()
                <= crate::constants::OVERFLOW_THRESHOLD
    }
}

impl InternalView {
    /// Bytes in use on the page.
    pub open spec fn size(self) -> nat {
        NODE_HEADER_SIZE as nat + high_key_size(self.high_key) + separators_size(self.keys)
    }

    /// Whether the page can be stored: it fits, its keys have legal sizes, it
    /// has one child more than it has keys, and its links name pages.
    pub open spec fn wf(self) -> bool {
        &&& self.size() <= PAGE_SIZE
        &&& self.page_id != 0
        &&& self.rightlink != Some(0u64)
        &&& self.children.len() == self.keys.len() + 1
        &&& (self.high_key matches Some(k) ==> k.len() <= crate::constants::MAX_KEY_SIZE)
        &&& forall|i: int|
            0 <= i < self.keys.len() ==> (#[trigger] self.keys[i]).len()
                <= crate::constants::MAX_KEY_SIZE
    }
}

pub proof fn lemma_records_size_add(a: Seq<RecordView>, b: Seq<RecordView>)
    ensures
        records_size(a + b) == records_size(a) + records_size(b),
    decreases b.len(),
{
    if b.len() == 0 {
        assert(a + b =~= a);
    } else {
        assert((a + b).drop_last() =~= a + b.drop_last());
        lemma_records_size_add(a, b.drop_last());
    }
}

pub proof fn lemma_records_size_insert(s: Seq<RecordView>, i: int, r: RecordView)
    requires
        0 <= i <= s.len(),
    ensures
        records_size(s.insert(i, r)) == records_size(s) + record_size(r),
{
    let a = s.subrange(0, i);
    let b = s.subrange(i, s.len() as int);
    assert(s =~= a + b);
    assert(s.insert(i, r) =~= a + (seq![r] + b));
    lemma_records_size_add(a, b);
    lemma_records_size_add(seq![r], b);
    lemma_records_size_add(a, seq![r] + b);
    assert(seq![r].drop_last() =~= Seq::<RecordView>::empty());
    assert(records_size(Seq::<RecordView>::empty()) == 0);
    assert(seq![r].last() == r);
}

pub proof fn lemma_records_size_update(s: Seq<RecordView>, i: int, r: RecordView)
    requires
        0 <= i < s.len(),
        record_size(r) == record_size(s[i]),
    ensures
        records_size(s.update(i, r)) == records_size(s),
    decreases s.len(),
{
    if i == s.len() - 1 {
        assert(s.update(i, r).drop_last() =~= s.drop_last());
    } else {
        assert(s.update(i, r).drop_last() =~= s.drop_last().update(i, r));
        lemma_records_size_update(s.drop_last(), i, r);
    }
}

pub proof fn lemma_separators_size_add(a: Seq<Seq<u8>>, b: Seq<Seq<u8>>)
    ensures
        separators_size(a + b) == separators_size(a) + separators_size(b),
    decreases b.len(),
{
    if b.len() == 0 {
        assert(a + b =~= a);
    } else {
        assert((a + b).drop_last() =~= a + b.drop_last());
        lemma_separators_size_add(a, b.drop_last());
    }
}

pub proof fn lemma_separators_size_one(k: Seq<u8>)
    ensures
        separators_size(seq![k]) == SEPARATOR_OVERHEAD + k.len(),
{
    assert(seq![k].drop_last() =~= Seq::<Seq<u8>>::empty());
    assert(separators_size(Seq::<Seq<u8>>::empty()) == 0);
    assert(seq![k].last() == k);
}

pub proof fn lemma_separators_size_insert(s: Seq<Seq<u8>>, i: int, k: Seq<u8>)
    requires
        0 <= i <= s.len(),
    ensures
        separators_size(s.insert(i, k)) == separators_size(s) + SEPARATOR_OVERHEAD + k.len(),
{
    let a = s.subrange(0, i);
    let b = s.subrange(i, s.len() as int);
    assert(s =~= a + b);
    assert(s.insert(i, k) =~= a + (seq![k] + b));
    lemma_separators_size_add(a, b);
    lemma_separators_size_add(seq![k], b);
    lemma_separators_size_add(a, seq![k] + b);
    lemma_separators_size_one(k);
}

// ── Order ────────────────────────────────────────────────────────────────────
/// Whether records are in key order.
pub open spec fn records_sorted<K: Key>(s: Seq<RecordView>) -> bool {
    forall|i: int, j: int|
        0 <= i <= j < s.len() ==> K::le(#[trigger] s[i].key, #[trigger] s[j].key)
}

/// Whether keys are in order.
pub open spec fn keys_sorted<K: Key>(s: Seq<Seq<u8>>) -> bool {
    forall|i: int, j: int| 0 <= i <= j < s.len() ==> K::le(#[trigger] s[i], #[trigger] s[j])
}

impl LeafPage {
    /// Bytes in use on the page.
    pub fn used(&self) -> (n: usize)
        requires
            self@.size() <= PAGE_SIZE,
        ensures
            n == self@.size(),
    {
        let mut n: usize = NODE_HEADER_SIZE;
        if let Some(k) = &self.high_key {
            n = n + k.len();
        }
        let mut i: usize = 0;
        let ghost e = self@.entries;
        assert(e.subrange(0, 0) =~= Seq::<RecordView>::empty());
        while i < self.entries.len()
            invariant
                i <= self.entries.len(),
                e == self@.entries,
                self@.size() <= PAGE_SIZE,
                n == NODE_HEADER_SIZE + high_key_size(self@.high_key) + records_size(
                    e.subrange(0, i as int),
                ),
            decreases self.entries.len() - i,
        {
            proof {
                assert(e.subrange(0, i + 1).drop_last() =~= e.subrange(0, i as int));
                assert(e =~= e.subrange(0, i + 1) + e.subrange(i + 1, e.len() as int));
                lemma_records_size_add(e.subrange(0, i + 1), e.subrange(i + 1, e.len() as int));
                assert(e[i as int] == self.entries@[i as int]@);
                assert(records_size(e.subrange(0, i + 1)) == records_size(e.subrange(0, i as int))
                    + record_size(e[i as int]));
            }
            n = n + RECORD_OVERHEAD + self.entries[i].key.len() + self.entries[i].value.len();
            i = i + 1;
        }
        assert(e.subrange(0, e.len() as int) =~= e);
        n
    }

    /// Whether one more record with a key and a value of these sizes fits.
    pub fn can_fit_direct(&self, key_len: usize, value_len: usize) -> (b: bool)
        requires
            self@.size() <= PAGE_SIZE,
        ensures
            b == (self@.size() + RECORD_OVERHEAD + key_len + value_len <= PAGE_SIZE),
    {
        let free: usize = PAGE_SIZE - self.used();
        free >= RECORD_OVERHEAD && free - RECORD_OVERHEAD >= key_len && free - RECORD_OVERHEAD
            - key_len >= value_len
    }

    /// Binary search for `key`: the slot of one of its versions and `true`, or
    /// the slot where it belongs and `false`. Which of several versions is
    /// found is left open.
    pub fn position<K: Key>(&self, key: &[u8]) -> (r: (usize, bool))
        requires
            records_sorted::<K>(self@.entries),
        ensures
            r.0 <= self@.entries.len(),
            r.1 ==> r.0 < self@.entries.len() && K::le(self@.entries[r.0 as int].key, key@)
                && K::le(key@, self@.entries[r.0 as int].key),
            !r.1 ==> forall|i: int|
                0 <= i < r.0 ==> !K::le(key@, #[trigger] self@.entries[i].key),
            !r.1 ==> forall|i: int|
                r.0 <= i < self@.entries.len() ==> !K::le(#[trigger] self@.entries[i].key, key@),
    {
        let mut lo: usize = 0;
        let mut hi: usize = self.entries.len();
        proof {
            K::le_laws();
        }
        while lo < hi
            invariant
                lo <= hi <= self.entries.len(),
                records_sorted::<K>(self@.entries),
                forall|i: int| 0 <= i < lo ==> !K::le(key@, #[trigger] self@.entries[i].key),
                forall|i: int|
                    hi <= i < self@.entries.len() ==> !K::le(
                        #[trigger] self@.entries[i].key,
                        key@,
                    ),
            decreases hi - lo,
        {
            let mid: usize = lo + (hi - lo) / 2;
            assert(self@.entries[mid as int].key == self.entries@[mid as int].key@);
            proof {
                K::le_laws();
            }
            match K::compare(self.entries[mid].key.as_slice(), key) {
                KeyOrder::Less => {
                    lo = mid + 1;
                },
                KeyOrder::Greater => {
                    hi = mid;
                },
                KeyOrder::Equal => {
                    return (mid, true);
                },
            }
        }
        (lo, false)
    }

    /// Puts a new version at `slot`, with no transaction stamps.
    pub fn insert_raw(&mut self, slot: usize, key: &[u8], value: &[u8], rec_type: u8) -> (r: Result<
        (),
        PageError,
    >)
        requires
            old(self)@.size() <= PAGE_SIZE,
            slot <= old(self)@.entries.len(),
        ensures
            r is Ok <==> old(self)@.size() + RECORD_OVERHEAD + key@.len() + value@.len()
                <= PAGE_SIZE,
            r is Err ==> *final(self) == *old(self),
            r is Ok ==> final(self)@ == (LeafView {
                entries: old(self)@.entries.insert(
                    slot as int,
                    RecordView { key: key@, value: value@, rec_type, xmin: 0, xmax: 0 },
                ),
                ..old(self)@
            }),
    {
        let free: usize = PAGE_SIZE - self.used();
        if !self.can_fit_direct(key.len(), value.len()) {
            return Err(
                PageError::InsufficientSpace {
                    needed: key.len().saturating_add(value.len()).saturating_add(RECORD_OVERHEAD),
                    available: free,
                },
            );
        }
        let r = Record {
            key: vstd::slice::slice_to_vec(key),
            value: vstd::slice::slice_to_vec(value),
            rec_type,
            xmin: 0,
            xmax: 0,
        };
        self.entries.insert(slot, r);
        assert(final(self)@.entries =~= old(self)@.entries.insert(slot as int, r@));
        Ok(())
    }

    /// Stamps the inserting transaction of the version at `slot`.
    pub fn set_xmin(&mut self, slot: usize, xmin: u64)
        requires
            slot < old(self)@.entries.len(),
        ensures
            final(self)@ == (LeafView {
                entries: old(self)@.entries.update(
                    slot as int,
                    RecordView { xmin, ..old(self)@.entries[slot as int] },
                ),
                ..old(self)@
            }),
    {
        let ghost e = self.entries@;
        self.entries[slot].xmin = xmin;
        assert(final(self)@.entries =~= old(self)@.entries.update(
            slot as int,
            RecordView { xmin, ..old(self)@.entries[slot as int] },
        ));
    }

    /// Stamps the deleting transaction of the version at `slot`.
    pub fn set_xmax(&mut self, slot: usize, xmax: u64)
        requires
            slot < old(self)@.entries.len(),
        ensures
            final(self)@ == (LeafView {
                entries: old(self)@.entries.update(
                    slot as int,
                    RecordView { xmax, ..old(self)@.entries[slot as int] },
                ),
                ..old(self)@
            }),
    {
        self.entries[slot].xmax = xmax;
        assert(final(self)@.entries =~= old(self)@.entries.update(
            slot as int,
            RecordView { xmax, ..old(self)@.entries[slot as int] },
        ));
    }

    /// Links the page to its right neighbour. A rightmost page has no upper
    /// bound, so losing the neighbour drops the high key.
    pub fn set_rightlink(&mut self, right: Option<u64>)
        ensures
            final(self)@ == (LeafView {
                rightlink: right,
                high_key: if right is None {
                    None
                } else {
                    old(self)@.high_key
                },
                ..old(self)@
            }),
    {
        self.rightlink = right;
        if right.is_none() {
            self.high_key = None;
        }
    }
}

/// A copy of a key or value.
pub fn copy_bytes(v: &Vec<u8>) -> (w: Vec<u8>)
    ensures
        w@ == v@,
{
    vstd::slice::slice_to_vec(v.as_slice())
}

/// A copy of an optional key.
pub fn copy_opt_key(k: &Option<Vec<u8>>) -> (r: Option<Vec<u8>>)
    ensures
        opt_key(r) == opt_key(*k),
{
    match k {
        Some(v) => Some(copy_bytes(v)),
        None => None,
    }
}

impl Record {
    pub fn copy(&self) -> (r: Record)
        ensures
            r@ == self@,
    {
        Record {
            key: copy_bytes(&self.key),
            value: copy_bytes(&self.value),
            rec_type: self.rec_type,
            xmin: self.xmin,
            xmax: self.xmax,
        }
    }
}

/// A copy of the records from `from` up to `to`.
pub fn copy_records(v: &Vec<Record>, from: usize, to: usize) -> (w: Vec<Record>)
    requires
        from <= to <= v@.len(),
    ensures
        record_views(w@) == record_views(v@).subrange(from as int, to as int),
{
    let mut w: Vec<Record> = Vec::new();
    let mut i: usize = from;
    while i < to
        invariant
            from <= i <= to <= v@.len(),
            record_views(w@) =~= record_views(v@).subrange(from as int, i as int),
        decreases to - i,
    {
        let r = v[i].copy();
        let ghost before = w@;
        w.push(r);
        assert(record_views(w@) =~= record_views(before).push(r@));
        assert(record_views(v@)[i as int] == v@[i as int]@);
        i = i + 1;
    }
    w
}

/// A copy of the keys from `from` up to `to`.
pub fn copy_keys(v: &Vec<Vec<u8>>, from: usize, to: usize) -> (w: Vec<Vec<u8>>)
    requires
        from <= to <= v@.len(),
    ensures
        key_views(w@) == key_views(v@).subrange(from as int, to as int),
{
    let mut w: Vec<Vec<u8>> = Vec::new();
    let mut i: usize = from;
    while i < to
        invariant
            from <= i <= to <= v@.len(),
            key_views(w@) =~= key_views(v@).subrange(from as int, i as int),
        decreases to - i,
    {
        let k = copy_bytes(&v[i]);
        let ghost before = w@;
        w.push(k);
        assert(key_views(w@) =~= key_views(before).push(k@));
        assert(key_views(v@)[i as int] == v@[i as int]@);
        i = i + 1;
    }
    w
}

/// A copy of the ids from `from` up to `to`.
pub fn copy_children(v: &Vec<u64>, from: usize, to: usize) -> (w: Vec<u64>)
    requires
        from <= to <= v@.len(),
    ensures
        w@ == v@.subrange(from as int, to as int),
{
    vstd::slice::slice_to_vec(vstd::slice::slice_subrange(v.as_slice(), from, to))
}

impl LeafPage {
    pub fn copy(&self) -> (l: LeafPage)
        ensures
            l@ == self@,
    {
        let l = LeafPage {
            page_id: self.page_id,
            lsn: self.lsn,
            incomplete_split: self.incomplete_split,
            half_dead: self.half_dead,
            rightlink: self.rightlink,
            prev_page: self.prev_page,
            high_key: copy_opt_key(&self.high_key),
            entries: copy_records(&self.entries, 0, self.entries.len()),
        };
        assert(l@.entries =~= self@.entries);
        l
    }
}

impl InternalPage {
    pub fn copy(&self) -> (p: InternalPage)
        ensures
            p@ == self@,
    {
        let p = InternalPage {
            page_id: self.page_id,
            lsn: self.lsn,
            incomplete_split: self.incomplete_split,
            rightlink: self.rightlink,
            high_key: copy_opt_key(&self.high_key),
            keys: copy_keys(&self.keys, 0, self.keys.len()),
            children: copy_children(&self.children, 0, self.children.len()),
        };
        assert(p@.keys =~= self@.keys);
        assert(p@.children =~= self@.children);
        p
    }

    /// Bytes in use on the page.
    pub fn used(&self) -> (n: usize)
        requires
            self@.size() <= PAGE_SIZE,
        ensures
            n == self@.size(),
    {
        let mut n: usize = NODE_HEADER_SIZE;
        if let Some(k) = &self.high_key {
            n = n + k.len();
        }
        let mut i: usize = 0;
        let ghost e = self@.keys;
        assert(e.subrange(0, 0) =~= Seq::<Seq<u8>>::empty());
        while i < self.keys.len()
            invariant
                i <= self.keys.len(),
                e == self@.keys,
                self@.size() <= PAGE_SIZE,
                n == NODE_HEADER_SIZE + high_key_size(self@.high_key) + separators_size(
                    e.subrange(0, i as int),
                ),
            decreases self.keys.len() - i,
        {
            proof {
                assert(e.subrange(0, i + 1).drop_last() =~= e.subrange(0, i as int));
                assert(e =~= e.subrange(0, i + 1) + e.subrange(i + 1, e.len() as int));
                lemma_separators_size_add(e.subrange(0, i + 1), e.subrange(i + 1, e.len() as int));
                assert(e[i as int] == self.keys@[i as int]@);
                assert(separators_size(e.subrange(0, i + 1)) == separators_size(
                    e.subrange(0, i as int),
                ) + SEPARATOR_OVERHEAD + e[i as int].len());
            }
            n = n + SEPARATOR_OVERHEAD + self.keys[i].len();
            i = i + 1;
        }
        assert(e.subrange(0, e.len() as int) =~= e);
        n
    }

    /// Whether one more separator of this size fits.
    pub fn can_fit(&self, key_len: usize) -> (b: bool)
        requires
            self@.size() <= PAGE_SIZE,
        ensures
            b == (self@.size() + SEPARATOR_OVERHEAD + key_len <= PAGE_SIZE),
    {
        let free: usize = PAGE_SIZE - self.used();
        free >= SEPARATOR_OVERHEAD && free - SEPARATOR_OVERHEAD >= key_len
    }

    /// The index and the id of the child that holds `key`: the child to the
    /// right of the last separator that is not above `key`.
    pub fn find_child<K: Key>(&self, key: &[u8]) -> (r: (usize, u64))
        requires
            keys_sorted::<K>(self@.keys),
            self@.children.len() == self@.keys.len() + 1,
        ensures
            r.0 <= self@.keys.len(),
            r.1 == self@.children[r.0 as int],
            forall|i: int| 0 <= i < r.0 ==> K::le(#[trigger] self@.keys[i], key@),
            forall|i: int| r.0 <= i < self@.keys.len() ==> !K::le(#[trigger] self@.keys[i], key@),
    {
        let mut lo: usize = 0;
        let mut hi: usize = self.keys.len();
        while lo < hi
            invariant
                lo <= hi <= self.keys.len(),
                keys_sorted::<K>(self@.keys),
                forall|i: int| 0 <= i < lo ==> K::le(#[trigger] self@.keys[i], key@),
                forall|i: int|
                    hi <= i < self@.keys.len() ==> !K::le(#[trigger] self@.keys[i], key@),
            decreases hi - lo,
        {
            let mid: usize = lo + (hi - lo) / 2;
            assert(self@.keys[mid as int] == self.keys@[mid as int]@);
            proof {
                K::le_laws();
            }
            match K::compare(self.keys[mid].as_slice(), key) {
                KeyOrder::Greater => {
                    hi = mid;
                },
                _ => {
                    lo = mid + 1;
                },
            }
        }
        (lo, self.children[lo])
    }

    /// Puts a separator at index `at` and its right child behind it.
    pub fn insert_key_and_right_child(&mut self, at: usize, key: &[u8], right: u64) -> (r: Result<
        (),
        PageError,
    >)
        requires
            old(self)@.size() <= PAGE_SIZE,
            at <= old(self)@.keys.len(),
            old(self)@.children.len() == old(self)@.keys.len() + 1,
        ensures
            r is Ok <==> old(self)@.size() + SEPARATOR_OVERHEAD + key@.len() <= PAGE_SIZE,
            r is Err ==> *final(self) == *old(self),
            r is Ok ==> final(self)@ == (InternalView {
                keys: old(self)@.keys.insert(at as int, key@),
                children: old(self)@.children.insert(at + 1, right),
                ..old(self)@
            }),
    {
        let free: usize = PAGE_SIZE - self.used();
        if !self.can_fit(key.len()) {
            return Err(
                PageError::InsufficientSpace {
                    needed: key.len().saturating_add(SEPARATOR_OVERHEAD),
                    available: free,
                },
            );
        }
        let right_slot: usize = self.children.len() - (self.keys.len() - at);
        self.keys.insert(at, vstd::slice::slice_to_vec(key));
        self.children.insert(right_slot, right);
        assert(final(self)@.keys =~= old(self)@.keys.insert(at as int, key@));
        Ok(())
    }

    /// Removes the separator at index `at` with one of the children beside it;
    /// `keep_right` says which of the two stays.
    pub fn remove_key_at(&mut self, at: usize, keep_right: bool)
        requires
            at < old(self)@.keys.len(),
            old(self)@.children.len() == old(self)@.keys.len() + 1,
        ensures
            final(self)@ == (InternalView {
                keys: old(self)@.keys.remove(at as int),
                children: old(self)@.children.remove(
                    if keep_right {
                        at as int
                    } else {
                        at + 1
                    },
                ),
                ..old(self)@
            }),
    {
        let right_slot: usize = self.children.len() - (self.keys.len() - at);
        self.keys.remove(at);
        if keep_right {
            self.children.remove(at);
        } else {
            self.children.remove(right_slot);
        }
        assert(final(self)@.keys =~= old(self)@.keys.remove(at as int));
    }
}

impl Node {
    pub fn copy(&self) -> (n: Node)
        ensures
            n@ == self@,
    {
        match self {
            Node::Leaf(l) => Node::Leaf(l.copy()),
            Node::Internal(p) => Node::Internal(p.copy()),
        }
    }
}

} // verus!
