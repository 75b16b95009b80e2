//! How changes to pages are written into log records and read out of them.

use vstd::prelude::*;

use crate::bytes::{
    le16, le64, lemma_holds_add, lemma_holds_byte, lemma_holds_int, lemma_le, push_bytes, push_u16,
    push_u64, read_u16, read_u64, slice, u16_at, u64_at,
};
use crate::change::{change_views, Change, ChangeView, LogEntry, PageChange};
use crate::codec::{encode_node, lemma_node_page_len, link, node_page, unlink};
use crate::constants::{MAX_KEY_SIZE, OVERFLOW_THRESHOLD};
use crate::node::REC_TYPE_INLINE;
use crate::overflow_page::{chunk_page, encode_chunk, law_chunk_roundtrip};
use crate::wal::{
    appended, block_clean, block_views, opt_bytes, part, parts_ok, record_bytes, record_clean,
    Block, BlockView, Wal, WalRecordType, WalRecordView, BLK_HAS_DATA, BLK_HAS_FPI,
};

verus! {

/// Role of a block of an unlink record: the left neighbour.
pub const UNLINK_ROLE_LEFT: u8 = 0;

/// Role of a block of an unlink record: the right neighbour.
pub const UNLINK_ROLE_RIGHT: u8 = 1;

/// Role of a block of an unlink record: the parent.
pub const UNLINK_ROLE_PARENT: u8 = 2;

/// The parent loses the child to the right of the separator.
pub const UNLINK_KEEP_LEFT: u8 = 0;

/// The parent loses the child to the left of the separator.
pub const UNLINK_KEEP_RIGHT: u8 = 1;

/// Most blocks that a record has.
pub const MAX_BLOCKS: usize = 255;

/// Most pages that one record gives back.
pub const MAX_FREES: usize = 8191;

// ── Writing ──────────────────────────────────────────────────────────────────
/// The redo data of a change; a full image has none.
pub open spec fn payload(c: ChangeView) -> Seq<u8> {
    match c {
        ChangeView::Insert { slot, key, value, rec_type, xmin } => le16(slot) + (le16(
            key.len() as u16,
        ) + (le16(value.len() as u16) + (seq![rec_type] + (le64(xmin) + (key + value))))),
        ChangeView::SetXmax { slot, xmax } => le16(slot) + le64(xmax),
        ChangeView::InsertDownlink { at, key, right } => le16(at) + (le16(key.len() as u16) + (le64(
            right,
        ) + key)),
        ChangeView::SetRightlink(r) => seq![UNLINK_ROLE_LEFT] + le64(link(r)),
        ChangeView::SetPrev(p) => seq![UNLINK_ROLE_RIGHT] + le64(link(p)),
        ChangeView::RemoveKey { at, keep_right } => seq![UNLINK_ROLE_PARENT] + (le16(at) + seq![
            if keep_right {
                UNLINK_KEEP_RIGHT
            } else {
                UNLINK_KEEP_LEFT
            },
        ]),
        ChangeView::SetRoot(r) => le64(r),
        _ => Seq::empty(),
    }
}

/// The full image that a change needs.
pub open spec fn image(id: u64, c: ChangeView) -> Option<Seq<u8>> {
    match c {
        ChangeView::Image(n) => Some(node_page(n)),
        ChangeView::Chunk(k) => Some(chunk_page(id, k)),
        _ => None,
    }
}

/// The block of a change.
pub open spec fn block_of(id: u64, c: ChangeView) -> BlockView {
    BlockView {
        page_id: id,
        blk_flags: if image(id, c) is Some {
            BLK_HAS_FPI
        } else if payload(c).len() > 0 {
            BLK_HAS_DATA
        } else {
            0
        },
        fpi: image(id, c),
        data: if payload(c).len() > 0 {
            Some(payload(c))
        } else {
            None
        },
    }
}

/// Whether a change can stand at this place of a record of this type.
pub open spec fn suits(kind: WalRecordType, i: int, c: ChangeView) -> bool {
    match (kind, c) {
        (WalRecordType::Insert, ChangeView::Insert { key, value, .. }) => i == 0 && key.len()
            <= MAX_KEY_SIZE && value.len() <= OVERFLOW_THRESHOLD,
        (WalRecordType::SetXMax, ChangeView::SetXmax { .. }) => i == 0,
        (WalRecordType::LeafSplit, ChangeView::Image(n)) => n.wf(),
        (WalRecordType::InternalSPlit, ChangeView::Image(n)) => n.wf(),
        (WalRecordType::PageCompact, ChangeView::Image(n)) => n.wf(),
        (WalRecordType::InsertDownLink, ChangeView::InsertDownlink { key, .. }) => i == 0
            && key.len() <= MAX_KEY_SIZE,
        (WalRecordType::InsertDownLink, ChangeView::ClearIncompleteSplit) => i == 1,
        (WalRecordType::NewRoot, ChangeView::Image(n)) => i == 0 && n.wf(),
        (WalRecordType::NewRoot, ChangeView::SetRoot(_)) => i == 1,
        (WalRecordType::NewRoot, ChangeView::ClearIncompleteSplit) => i == 2,
        (WalRecordType::MarkHalfDead, ChangeView::MarkHalfDead) => i == 0,
        (WalRecordType::UnlinkPage, ChangeView::SetRightlink(r)) => r != Some(0u64),
        (WalRecordType::UnlinkPage, ChangeView::SetPrev(p)) => p != Some(0u64),
        (WalRecordType::UnlinkPage, ChangeView::RemoveKey { .. }) => true,
        (WalRecordType::PageCompact, ChangeView::Chunk(k)) => k.wf(),
        (WalRecordType::OverflowFree, ChangeView::Free) => true,
        _ => false,
    }
}

/// Whether a list of changes to different pages can be logged as one record.
pub open spec fn loggable(kind: WalRecordType, cs: Seq<(u64, ChangeView)>) -> bool {
    &&& cs.len() >= 1
    &&& cs.len() <= if kind == WalRecordType::OverflowFree {
        MAX_FREES
    } else {
        MAX_BLOCKS
    }
    &&& forall|i: int| 0 <= i < cs.len() ==> suits(kind, i, (#[trigger] cs[i]).1)
    &&& forall|i: int, j: int|
        0 <= i < cs.len() && 0 <= j < cs.len() && i != j ==> (#[trigger] cs[i]).0 != (
        #[trigger] cs[j]).0
}

/// The page ids of a list of changes, one after the other.
pub open spec fn ids_bytes(cs: Seq<(u64, ChangeView)>) -> Seq<u8>
    decreases cs.len(),
{
    if cs.len() == 0 {
        Seq::empty()
    } else {
        ids_bytes(cs.drop_last()) + le64(cs.last().0)
    }
}

/// The blocks of a record: one for each change, but none for pages given back.
pub open spec fn entry_blocks(kind: WalRecordType, cs: Seq<(u64, ChangeView)>) -> Seq<BlockView> {
    if kind == WalRecordType::OverflowFree {
        Seq::empty()
    } else {
        Seq::new(cs.len(), |i: int| block_of(cs[i].0, cs[i].1))
    }
}

/// The main data of a record: the pages that are given back, or what a record
/// without changes says.
pub open spec fn entry_main(
    kind: WalRecordType,
    cs: Seq<(u64, ChangeView)>,
    main: Option<Seq<u8>>,
) -> Option<Seq<u8>> {
    if kind == WalRecordType::OverflowFree {
        Some(ids_bytes(cs))
    } else {
        main
    }
}

/// The record of a list of changes.
pub open spec fn entry_record(e: LogEntry) -> WalRecordView {
    appended(
        e.lsn,
        e.kind,
        e.txn_id,
        entry_blocks(e.kind, e.changes),
        entry_main(e.kind, e.changes, e.main),
    )
}

/// The bytes of a list of page ids.
pub proof fn lemma_ids_len(cs: Seq<(u64, ChangeView)>)
    ensures
        ids_bytes(cs).len() == 8 * cs.len(),
    decreases cs.len(),
{
    if cs.len() > 0 {
        lemma_ids_len(cs.drop_last());
        lemma_le(0, 0, cs.last().0);
    }
}

proof fn lemma_payload_len(c: ChangeView)
    ensures
        match c {
            ChangeView::Insert { key, value, .. } => payload(c).len() == 15 + key.len()
                + value.len(),
            ChangeView::SetXmax { .. } => payload(c).len() == 10,
            ChangeView::InsertDownlink { key, .. } => payload(c).len() == 12 + key.len(),
            ChangeView::SetRightlink(_) => payload(c).len() == 9,
            ChangeView::SetPrev(_) => payload(c).len() == 9,
            ChangeView::RemoveKey { .. } => payload(c).len() == 4,
            ChangeView::SetRoot(_) => payload(c).len() == 8,
            _ => payload(c).len() == 0,
        },
{
}

proof fn lemma_block_clean(kind: WalRecordType, i: int, id: u64, c: ChangeView)
    requires
        suits(kind, i, c),
    ensures
        block_clean(block_of(id, c)),
{
    lemma_payload_len(c);
    assert(1u8 & 1 == 1 && 2u8 & 1 == 0 && 0u8 & 1 == 0) by (bit_vector);
    match c {
        ChangeView::Image(n) => {
            lemma_node_page_len(n);
        },
        ChangeView::Chunk(k) => {
            law_chunk_roundtrip(id, k);
        },
        _ => {},
    }
}

/// The record of changes that can be logged reads back as it was written.
pub proof fn lemma_entry_clean(e: LogEntry)
    requires
        loggable(e.kind, e.changes),
        e.main is None,
    ensures
        record_clean(entry_record(e)),
        parts_ok(entry_blocks(e.kind, e.changes), entry_main(e.kind, e.changes, e.main)),
{
    lemma_ids_len(e.changes);
    let r = entry_record(e);
    assert forall|i: int| 0 <= i < r.blocks.len() implies block_clean(#[trigger] r.blocks[i]) by {
        lemma_block_clean(e.kind, i, e.changes[i].0, e.changes[i].1);
    }
}

/// Writes the redo data of a change.
fn encode_payload(c: &Change) -> (v: Vec<u8>)
    requires
        exists|kind: WalRecordType, i: int| suits(kind, i, c@),
    ensures
        v@ == payload(c@),
{
    let mut v: Vec<u8> = Vec::new();
    match c {
        Change::Insert { slot, key, value, rec_type, xmin } => {
            push_u16(&mut v, *slot);
            push_u16(&mut v, key.len() as u16);
            push_u16(&mut v, value.len() as u16);
            v.push(*rec_type);
            push_u64(&mut v, *xmin);
            push_bytes(&mut v, key.as_slice());
            push_bytes(&mut v, value.as_slice());
        },
        Change::SetXmax { slot, xmax } => {
            push_u16(&mut v, *slot);
            push_u64(&mut v, *xmax);
        },
        Change::InsertDownlink { at, key, right } => {
            push_u16(&mut v, *at);
            push_u16(&mut v, key.len() as u16);
            push_u64(&mut v, *right);
            push_bytes(&mut v, key.as_slice());
        },
        Change::SetRightlink(r) => {
            v.push(UNLINK_ROLE_LEFT);
            push_u64(
                &mut v,
                match r {
                    Some(x) => *x,
                    None => 0,
                },
            );
        },
        Change::SetPrev(p) => {
            v.push(UNLINK_ROLE_RIGHT);
            push_u64(
                &mut v,
                match p {
                    Some(x) => *x,
                    None => 0,
                },
            );
        },
        Change::RemoveKey { at, keep_right } => {
            v.push(UNLINK_ROLE_PARENT);
            push_u16(&mut v, *at);
            v.push(
                if *keep_right {
                    UNLINK_KEEP_RIGHT
                } else {
                    UNLINK_KEEP_LEFT
                },
            );
        },
        Change::SetRoot(r) => {
            push_u64(&mut v, *r);
        },
        _ => {},
    }
    assert(v@ =~= payload(c@));
    v
}

impl Wal {
    /// Logs the insertion of a value that stands in its record. It is not durable
    /// until a flush covers its number.
    pub fn log_insert(
        &mut self,
        txn_id: u64,
        page_id: u64,
        slot: u16,
        key: &[u8],
        value: &[u8],
        xmin: u64,
    ) -> (lsn: u64)
        requires
            old(self).next_lsn < u64::MAX,
            15 + key@.len() + value@.len() <= 0xffff,
        ensures
            lsn == old(self).next_lsn,
            final(self).next_lsn == lsn + 1,
            final(self).flushed_lsn == old(self).flushed_lsn,
            final(self).pending@ == old(self).pending@ + record_bytes(
                appended(
                    lsn,
                    WalRecordType::Insert,
                    txn_id,
                    seq![
                        block_of(
                            page_id,
                            ChangeView::Insert {
                                slot,
                                key: key@,
                                value: value@,
                                rec_type: REC_TYPE_INLINE,
                                xmin,
                            },
                        ),
                    ],
                    None,
                ),
            ),
    {
        let ghost c = ChangeView::Insert {
            slot,
            key: key@,
            value: value@,
            rec_type: REC_TYPE_INLINE,
            xmin,
        };
        let mut data: Vec<u8> = Vec::new();
        push_u16(&mut data, slot);
        push_u16(&mut data, key.len() as u16);
        push_u16(&mut data, value.len() as u16);
        data.push(REC_TYPE_INLINE);
        push_u64(&mut data, xmin);
        push_bytes(&mut data, key);
        push_bytes(&mut data, value);
        assert(data@ =~= payload(c));
        let mut blocks: Vec<Block> = Vec::new();
        blocks.push(Block { page_id, blk_flags: BLK_HAS_DATA, fpi: None, data: Some(data) });
        proof {
            lemma_le(0, 0, 0);
            assert(blocks@[0]@ =~= block_of(page_id, c));
            assert(block_views(blocks@) =~= seq![block_of(page_id, c)]);
        }
        self.append(WalRecordType::Insert, txn_id, &blocks, None)
    }
}

/// The block of a change.
fn encode_block(id: u64, c: &Change) -> (k: Block)
    requires
        exists|kind: WalRecordType, i: int| suits(kind, i, c@),
    ensures
        k@ == block_of(id, c@),
{
    let data: Vec<u8> = encode_payload(c);
    let fpi: Option<Vec<u8>> = match c {
        Change::Image(n) => Some(encode_node(n)),
        Change::Chunk(k) => Some(encode_chunk(id, k)),
        _ => None,
    };
    let has_data: bool = data.len() > 0;
    let blk_flags: u8 = if fpi.is_some() {
        BLK_HAS_FPI
    } else if has_data {
        BLK_HAS_DATA
    } else {
        0
    };
    let k = Block {
        page_id: id,
        blk_flags,
        fpi,
        data: if has_data {
            Some(data)
        } else {
            None
        },
    };
    assert(k@ =~= block_of(id, c@));
    k
}

/// The blocks and the main data of the record of some changes.
pub fn encode_changes(kind: WalRecordType, changes: &Vec<PageChange>) -> (r: (
    Vec<Block>,
    Option<Vec<u8>>,
))
    requires
        loggable(kind, change_views(changes@)),
    ensures
        block_views(r.0@) == entry_blocks(kind, change_views(changes@)),
        opt_bytes(r.1) == entry_main(kind, change_views(changes@), None),
{
    let ghost cs = change_views(changes@);
    let mut blocks: Vec<Block> = Vec::new();
    let mut i: usize = 0;
    if kind == WalRecordType::OverflowFree {
        let mut main: Vec<u8> = Vec::new();
        assert(cs.subrange(0, 0) =~= Seq::<(u64, ChangeView)>::empty());
        while i < changes.len()
            invariant
                i <= changes@.len(),
                cs == change_views(changes@),
                main@ == ids_bytes(cs.subrange(0, i as int)),
            decreases changes.len() - i,
        {
            proof {
                assert(cs.subrange(0, i + 1).drop_last() =~= cs.subrange(0, i as int));
                assert(cs[i as int] == (
                    changes@[i as int].page_id,
                    changes@[i as int].change@,
                ));
            }
            push_u64(&mut main, changes[i].page_id);
            i = i + 1;
        }
        assert(cs.subrange(0, cs.len() as int) =~= cs);
        assert(block_views(blocks@) =~= Seq::<BlockView>::empty());
        return (blocks, Some(main));
    }
    while i < changes.len()
        invariant
            i <= changes@.len(),
            cs == change_views(changes@),
            loggable(kind, cs),
            blocks@.len() == i,
            forall|j: int|
                0 <= j < i ==> (#[trigger] blocks@[j])@ == block_of(cs[j].0, cs[j].1),
        decreases changes.len() - i,
    {
        proof {
            assert(cs[i as int] == (changes@[i as int].page_id, changes@[i as int].change@));
            assert(suits(kind, i as int, cs[i as int].1));
        }
        blocks.push(encode_block(changes[i].page_id, &changes[i].change));
        i = i + 1;
    }
    assert(block_views(blocks@) =~= entry_blocks(kind, cs));
    (blocks, None)
}

// ── Reading ──────────────────────────────────────────────────────────────────
/// What the redo data of a block asks for.
pub enum Redo {
    /// A change of the page.
    Change(ChangeView),
    /// Nothing but the new record number.
    Keep,
    /// The data does not describe a change.
    Malformed,
}

/// The insertion that redo data describes.
pub open spec fn insert_at(d: Seq<u8>) -> Redo {
    if d.len() < 15 {
        Redo::Malformed
    } else {
        let k = u16_at(d, 2) as int;
        let v = u16_at(d, 4) as int;
        if d.len() < 15 + k + v {
            Redo::Malformed
        } else {
            Redo::Change(
                ChangeView::Insert {
                    slot: u16_at(d, 0),
                    key: slice(d, 15, k),
                    value: slice(d, 15 + k, v),
                    rec_type: d[6],
                    xmin: u64_at(d, 7),
                },
            )
        }
    }
}

/// The new separator that redo data describes.
pub open spec fn downlink_at(d: Seq<u8>) -> Redo {
    if d.len() < 12 {
        Redo::Malformed
    } else {
        let k = u16_at(d, 2) as int;
        if d.len() < 12 + k {
            Redo::Malformed
        } else {
            Redo::Change(
                ChangeView::InsertDownlink {
                    at: u16_at(d, 0),
                    key: slice(d, 12, k),
                    right: u64_at(d, 4),
                },
            )
        }
    }
}

/// The part of an unlink that redo data describes.
pub open spec fn unlink_at(d: Seq<u8>) -> Redo {
    if d.len() == 0 {
        Redo::Malformed
    } else if d[0] == UNLINK_ROLE_LEFT && d.len() >= 9 {
        Redo::Change(ChangeView::SetRightlink(unlink(u64_at(d, 1))))
    } else if d[0] == UNLINK_ROLE_RIGHT && d.len() >= 9 {
        Redo::Change(ChangeView::SetPrev(unlink(u64_at(d, 1))))
    } else if d[0] == UNLINK_ROLE_PARENT && d.len() >= 4 {
        Redo::Change(
            ChangeView::RemoveKey { at: u16_at(d, 1), keep_right: d[3] == UNLINK_KEEP_RIGHT },
        )
    } else {
        Redo::Malformed
    }
}

/// What the redo data of a block asks for, by the record's type and the block's
/// place in the record.
pub open spec fn redo_of(kind: WalRecordType, i: int, data: Option<Seq<u8>>) -> Redo {
    let d = part(data);
    match kind {
        WalRecordType::Insert if i == 0 => insert_at(d),
        WalRecordType::SetXMax if i == 0 => if d.len() < 10 {
            Redo::Malformed
        } else {
            Redo::Change(ChangeView::SetXmax { slot: u16_at(d, 0), xmax: u64_at(d, 2) })
        },
        WalRecordType::InsertDownLink if i == 0 => downlink_at(d),
        WalRecordType::InsertDownLink if i == 1 => Redo::Change(ChangeView::ClearIncompleteSplit),
        WalRecordType::MarkHalfDead if i == 0 => Redo::Change(ChangeView::MarkHalfDead),
        WalRecordType::UnlinkPage => unlink_at(d),
        WalRecordType::NewRoot if i == 1 => if d.len() < 8 {
            Redo::Malformed
        } else {
            Redo::Change(ChangeView::SetRoot(u64_at(d, 0)))
        },
        WalRecordType::NewRoot if i == 2 => Redo::Change(ChangeView::ClearIncompleteSplit),
        _ => Redo::Keep,
    }
}

proof fn lemma_insert_roundtrip(slot: u16, key: Seq<u8>, value: Seq<u8>, rec_type: u8, xmin: u64)
    requires
        key.len() <= MAX_KEY_SIZE,
        value.len() <= OVERFLOW_THRESHOLD,
    ensures
        ({
            let c = ChangeView::Insert { slot, key, value, rec_type, xmin };
            insert_at(payload(c)) == Redo::Change(c)
        }),
{
    let c = ChangeView::Insert { slot, key, value, rec_type, xmin };
    lemma_payload_len(c);
    let d = payload(c);
    assert(slice(d, 0, d.len() as int) =~= d);
    let k = key.len() as u16;
    let v = value.len() as u16;
    let s5 = key + value;
    let s4 = le64(xmin) + s5;
    let s3 = seq![rec_type] + s4;
    let s2 = le16(v) + s3;
    let s1 = le16(k) + s2;
    lemma_holds_add(d, 0, le16(slot), s1);
    lemma_holds_add(d, 2, le16(k), s2);
    lemma_holds_add(d, 4, le16(v), s3);
    lemma_holds_add(d, 6, seq![rec_type], s4);
    lemma_holds_add(d, 7, le64(xmin), s5);
    lemma_holds_add(d, 15, key, value);
    lemma_holds_int(d, 0, slot, 0, 0);
    lemma_holds_int(d, 2, k, 0, 0);
    lemma_holds_int(d, 4, v, 0, 0);
    lemma_holds_byte(d, 6, rec_type);
    lemma_holds_int(d, 7, 0, 0, xmin);
}

proof fn lemma_downlink_roundtrip(at: u16, key: Seq<u8>, right: u64)
    requires
        key.len() <= MAX_KEY_SIZE,
    ensures
        ({
            let c = ChangeView::InsertDownlink { at, key, right };
            downlink_at(payload(c)) == Redo::Change(c)
        }),
{
    let c = ChangeView::InsertDownlink { at, key, right };
    lemma_payload_len(c);
    let d = payload(c);
    assert(slice(d, 0, d.len() as int) =~= d);
    let k = key.len() as u16;
    lemma_holds_add(d, 0, le16(at), le16(k) + (le64(right) + key));
    lemma_holds_add(d, 2, le16(k), le64(right) + key);
    lemma_holds_add(d, 4, le64(right), key);
    lemma_holds_int(d, 0, at, 0, 0);
    lemma_holds_int(d, 2, k, 0, 0);
    lemma_holds_int(d, 4, 0, 0, right);
}

proof fn lemma_unlink_roundtrip(c: ChangeView)
    requires
        match c {
            ChangeView::SetRightlink(r) => r != Some(0u64),
            ChangeView::SetPrev(p) => p != Some(0u64),
            ChangeView::RemoveKey { .. } => true,
            _ => false,
        },
    ensures
        unlink_at(payload(c)) == Redo::Change(c),
{
    lemma_payload_len(c);
    let d = payload(c);
    assert(slice(d, 0, d.len() as int) =~= d);
    match c {
        ChangeView::SetRightlink(r) => {
            lemma_holds_add(d, 0, seq![UNLINK_ROLE_LEFT], le64(link(r)));
            lemma_holds_byte(d, 0, UNLINK_ROLE_LEFT);
            lemma_holds_int(d, 1, 0, 0, link(r));
        },
        ChangeView::SetPrev(p) => {
            lemma_holds_add(d, 0, seq![UNLINK_ROLE_RIGHT], le64(link(p)));
            lemma_holds_byte(d, 0, UNLINK_ROLE_RIGHT);
            lemma_holds_int(d, 1, 0, 0, link(p));
        },
        ChangeView::RemoveKey { at, keep_right } => {
            let x: u8 = if keep_right {
                UNLINK_KEEP_RIGHT
            } else {
                UNLINK_KEEP_LEFT
            };
            lemma_holds_add(d, 0, seq![UNLINK_ROLE_PARENT], le16(at) + seq![x]);
            lemma_holds_add(d, 1, le16(at), seq![x]);
            lemma_holds_byte(d, 0, UNLINK_ROLE_PARENT);
            lemma_holds_int(d, 1, at, 0, 0);
            lemma_holds_byte(d, 3, x);
        },
        _ => {},
    }
}

/// A change is read back from its redo data.
pub proof fn law_change_roundtrip(kind: WalRecordType, i: int, id: u64, c: ChangeView)
    requires
        suits(kind, i, c),
        image(id, c) is None,
        !(c is Free),
    ensures
        redo_of(kind, i, block_of(id, c).data) == Redo::Change(c),
{
    lemma_payload_len(c);
    let d = payload(c);
    match c {
        ChangeView::Insert { slot, key, value, rec_type, xmin } => {
            lemma_insert_roundtrip(slot, key, value, rec_type, xmin);
        },
        ChangeView::SetXmax { slot, xmax } => {
            assert(slice(d, 0, d.len() as int) =~= d);
            lemma_holds_add(d, 0, le16(slot), le64(xmax));
            lemma_holds_int(d, 0, slot, 0, 0);
            lemma_holds_int(d, 2, 0, 0, xmax);
        },
        ChangeView::InsertDownlink { at, key, right } => {
            lemma_downlink_roundtrip(at, key, right);
        },
        ChangeView::SetRightlink(_) => {
            lemma_unlink_roundtrip(c);
        },
        ChangeView::SetPrev(_) => {
            lemma_unlink_roundtrip(c);
        },
        ChangeView::RemoveKey { .. } => {
            lemma_unlink_roundtrip(c);
        },
        ChangeView::SetRoot(r) => {
            assert(slice(d, 0, d.len() as int) =~= d);
            lemma_holds_int(d, 0, 0, 0, r);
        },
        _ => {},
    }
}

/// What the redo data of a block asks for.
#[derive(Debug)]
pub enum RedoStep {
    Change(Change),
    Keep,
    Malformed,
}

impl View for RedoStep {
    type V = Redo;

    open spec fn view(&self) -> Redo {
        match self {
            RedoStep::Change(c) => Redo::Change(c@),
            RedoStep::Keep => Redo::Keep,
            RedoStep::Malformed => Redo::Malformed,
        }
    }
}

fn copy_run(d: &[u8], from: usize, n: usize) -> (v: Vec<u8>)
    requires
        from + n <= d@.len(),
    ensures
        v@ == slice(d@, from as int, n as int),
{
    let len: usize = d.len();
    assert(from + n <= len);
    vstd::slice::slice_to_vec(vstd::slice::slice_subrange(d, from, from + n))
}

fn read_page_link(d: &[u8], off: usize) -> (r: Option<u64>)
    requires
        off + 8 <= d@.len(),
    ensures
        r == unlink(u64_at(d@, off as int)),
{
    let x: u64 = read_u64(d, off);
    if x == 0 {
        None
    } else {
        Some(x)
    }
}

fn decode_insert(d: &[u8]) -> (t: RedoStep)
    ensures
        t@ == insert_at(d@),
{
    if d.len() < 15 {
        return RedoStep::Malformed;
    }
    let slot: u16 = read_u16(d, 0);
    let key_len: usize = read_u16(d, 2) as usize;
    let val_len: usize = read_u16(d, 4) as usize;
    let rec_type: u8 = d[6];
    let xmin: u64 = read_u64(d, 7);
    if d.len() - 15 < key_len + val_len {
        return RedoStep::Malformed;
    }
    let key: Vec<u8> = copy_run(d, 15, key_len);
    let value: Vec<u8> = copy_run(d, 15 + key_len, val_len);
    RedoStep::Change(Change::Insert { slot, key, value, rec_type, xmin })
}

fn decode_downlink(d: &[u8]) -> (t: RedoStep)
    ensures
        t@ == downlink_at(d@),
{
    if d.len() < 12 {
        return RedoStep::Malformed;
    }
    let at: u16 = read_u16(d, 0);
    let sep_len: usize = read_u16(d, 2) as usize;
    let right: u64 = read_u64(d, 4);
    if d.len() - 12 < sep_len {
        return RedoStep::Malformed;
    }
    let key: Vec<u8> = copy_run(d, 12, sep_len);
    RedoStep::Change(Change::InsertDownlink { at, key, right })
}

fn decode_unlink(d: &[u8]) -> (t: RedoStep)
    ensures
        t@ == unlink_at(d@),
{
    if d.len() == 0 {
        return RedoStep::Malformed;
    }
    let role: u8 = d[0];
    if role == UNLINK_ROLE_LEFT && d.len() >= 9 {
        RedoStep::Change(Change::SetRightlink(read_page_link(d, 1)))
    } else if role == UNLINK_ROLE_RIGHT && d.len() >= 9 {
        RedoStep::Change(Change::SetPrev(read_page_link(d, 1)))
    } else if role == UNLINK_ROLE_PARENT && d.len() >= 4 {
        RedoStep::Change(
            Change::RemoveKey { at: read_u16(d, 1), keep_right: d[3] == UNLINK_KEEP_RIGHT },
        )
    } else {
        RedoStep::Malformed
    }
}

/// Reads the redo data of a block.
pub fn decode_change(kind: WalRecordType, i: usize, data: &Option<Vec<u8>>) -> (t: RedoStep)
    ensures
        t@ == redo_of(kind, i as int, opt_bytes(*data)),
{
    let empty: Vec<u8> = Vec::new();
    assert(empty@ =~= Seq::<u8>::empty());
    let d: &[u8] = match data {
        Some(x) => x.as_slice(),
        None => empty.as_slice(),
    };
    assert(d@ == part(opt_bytes(*data)));
    match kind {
        WalRecordType::Insert => if i == 0 {
            decode_insert(d)
        } else {
            RedoStep::Keep
        },
        WalRecordType::SetXMax => if i == 0 {
            if d.len() < 10 {
                RedoStep::Malformed
            } else {
                RedoStep::Change(Change::SetXmax { slot: read_u16(d, 0), xmax: read_u64(d, 2) })
            }
        } else {
            RedoStep::Keep
        },
        WalRecordType::InsertDownLink => if i == 0 {
            decode_downlink(d)
        } else if i == 1 {
            RedoStep::Change(Change::ClearIncompleteSplit)
        } else {
            RedoStep::Keep
        },
        WalRecordType::MarkHalfDead => if i == 0 {
            RedoStep::Change(Change::MarkHalfDead)
        } else {
            RedoStep::Keep
        },
        WalRecordType::UnlinkPage => decode_unlink(d),
        WalRecordType::NewRoot => if i == 1 {
            if d.len() < 8 {
                RedoStep::Malformed
            } else {
                RedoStep::Change(Change::SetRoot(read_u64(d, 0)))
            }
        } else if i == 2 {
            RedoStep::Change(Change::ClearIncompleteSplit)
        } else {
            RedoStep::Keep
        },
        _ => RedoStep::Keep,
    }
}

/// Redo data that was cut short describes no change, and bytes behind redo data change
/// nothing.
pub proof fn law_changes_are_whole_or_nothing(
    kind: WalRecordType,
    i: int,
    id: u64,
    c: ChangeView,
    n: int,
    more: Seq<u8>,
)
    requires
        suits(kind, i, c),
        image(id, c) is None,
        !(c is Free),
        0 <= n < payload(c).len(),
    ensures
        redo_of(kind, i, Some(payload(c).subrange(0, n))) is Malformed,
        redo_of(kind, i, Some(payload(c) + more)) == Redo::Change(c),
{
    let d = payload(c);
    let e = d.subrange(0, n);
    let f = d + more;
    lemma_payload_len(c);
    law_change_roundtrip(kind, i, id, c);
    assert(forall|j: int| 0 <= j < n ==> e[j] == d[j]);
    assert(forall|j: int| 0 <= j < d.len() ==> f[j] == d[j]);
    match c {
        ChangeView::Insert { slot, key, value, rec_type, xmin } => {
            assert(slice(f, 15, key.len() as int) =~= slice(d, 15, key.len() as int));
            assert(slice(f, 15 + key.len() as int, value.len() as int) =~= slice(
                d,
                15 + key.len() as int,
                value.len() as int,
            ));
        },
        ChangeView::InsertDownlink { at, key, right } => {
            assert(slice(f, 12, key.len() as int) =~= slice(d, 12, key.len() as int));
        },
        _ => {},
    }
}

} // verus!
