//! Redoing one block of a log record on its page.

use vstd::prelude::*;

use crate::bytes::{le64, lemma_le, put};
use crate::change::{apply_to_node, changed, fits_node, with_lsn, Change, ChangeView, ChunkView};
use crate::codec::{
    decode_node, encode_node, flag_byte, header, high_key_code, law_node_roundtrip,
    lemma_node_page_len, link, node_at, node_page,
};
use crate::constants::PAGE_SIZE;
use crate::error::WalError;
use crate::log_codec::{decode_change, redo_of, Redo, RedoStep};
use crate::meta::{set_root, with_root};
use crate::node::{copy_bytes, NodeView};
use crate::overflow_page::chunk_page;
use crate::page::{blank, lemma_restamped, lsn_of, restamped, set_lsn, INTERNAL, LEAF};
use crate::wal::{Block, BlockView, WalRecordType};

verus! {

/// The page after a block has been redone on it; nothing if the block does not
/// describe a change of this page.
#[verifier::opaque]
pub open spec fn redo_page(
    page: Seq<u8>,
    kind: WalRecordType,
    i: int,
    k: BlockView,
    lsn: u64,
) -> Option<Seq<u8>> {
    match k.fpi {
        Some(f) => Some(restamped(f, lsn)),
        None => match redo_of(kind, i, k.data) {
            Redo::Malformed => None,
            Redo::Keep => Some(restamped(page, lsn)),
            Redo::Change(ChangeView::SetRoot(r)) => Some(restamped(with_root(page, r), lsn)),
            Redo::Change(c) => match node_at(blank(page)) {
                None => None,
                Some(n) => if fits_node(n, c) {
                    Some(node_page(with_lsn(changed(n, c), lsn)))
                } else {
                    None
                },
            },
        },
    }
}

/// Redoes the change of a data block. Fails where the data does not describe a
/// change of this page.
fn apply_data(
    kind: WalRecordType,
    i: usize,
    data: &Option<Vec<u8>>,
    page: &Vec<u8>,
    lsn: u64,
) -> (r: Result<Vec<u8>, WalError>)
    requires
        page@.len() == PAGE_SIZE,
    ensures
        ({
            let k = BlockView {
                page_id: 0,
                blk_flags: 0,
                fpi: None,
                data: crate::wal::opt_bytes(*data),
            };
            match redo_page(page@, kind, i as int, k, lsn) {
                Some(b) => r matches Ok(v) && v@ == b && v@.len() == PAGE_SIZE,
                None => r == Err::<Vec<u8>, WalError>(WalError::CorruptedLog),
            }
        }),
{
    proof {
        reveal(redo_page);
    }
    match decode_change(kind, i, data) {
        RedoStep::Malformed => Err(WalError::CorruptedLog),
        RedoStep::Keep => {
            let mut p: Vec<u8> = copy_bytes(page);
            set_lsn(&mut p, lsn);
            Ok(p)
        },
        RedoStep::Change(c) => {
            if let Change::SetRoot(r) = c {
                let mut p: Vec<u8> = copy_bytes(page);
                set_root(p.as_mut_slice(), r);
                set_lsn(&mut p, lsn);
                return Ok(p);
            }
            match decode_node(page) {
                None => Err(WalError::CorruptedLog),
                Some(n) => {
                    let ghost nv = n@;
                    assert(nv.wf());
                    match apply_to_node(n, &c, lsn) {
                        None => Err(WalError::CorruptedLog),
                        Some(m) => {
                            proof {
                                crate::change::lemma_changed_wf(nv, c@);
                            }
                            Ok(encode_node(&m))
                        },
                    }
                },
            }
        },
    }
}

/// Redoes a block on its page.
pub fn redo_block(kind: WalRecordType, i: usize, block: &Block, page: &Vec<u8>, lsn: u64) -> (r:
    Result<Vec<u8>, WalError>)
    requires
        page@.len() == PAGE_SIZE,
        block@.fpi matches Some(f) ==> f.len() == PAGE_SIZE,
    ensures
        match redo_page(page@, kind, i as int, block@, lsn) {
            Some(b) => r matches Ok(v) && v@ == b && v@.len() == PAGE_SIZE,
            None => r == Err::<Vec<u8>, WalError>(WalError::CorruptedLog),
        },
{
    proof {
        reveal(redo_page);
    }
    match &block.fpi {
        Some(f) => {
            let mut p: Vec<u8> = copy_bytes(f);
            set_lsn(&mut p, lsn);
            Ok(p)
        },
        None => apply_data(kind, i, &block.data, page, lsn),
    }
}

// ── Record numbers on pages ──────────────────────────────────────────────────
proof fn lemma_header_restamped(
    kind: u8,
    flags: u8,
    page_id: u64,
    lsn: u64,
    lsn2: u64,
    right: u64,
    fifth: u64,
    count: u16,
    hk: u16,
)
    ensures
        header(kind, flags, page_id, lsn2, right, fifth, count, hk) == put(
            header(kind, flags, page_id, lsn, right, fifth, count, hk),
            16,
            le64(lsn2),
        ),
        header(kind, flags, page_id, lsn, right, fifth, count, hk).len() == 48,
{
    lemma_le(count, 0, page_id);
    lemma_le(hk, 0, lsn);
    lemma_le(0, 0, lsn2);
    lemma_le(0, 0, right);
    lemma_le(0, 0, fifth);
    assert(header(kind, flags, page_id, lsn2, right, fifth, count, hk) =~= put(
        header(kind, flags, page_id, lsn, right, fifth, count, hk),
        16,
        le64(lsn2),
    ));
}

/// The page of a node under another record number.
pub proof fn lemma_node_restamped(n: NodeView, lsn: u64)
    requires
        n.wf(),
    ensures
        with_lsn(n, lsn).wf(),
        restamped(node_page(n), lsn) == node_page(with_lsn(n, lsn)),
{
    let m = with_lsn(n, lsn);
    lemma_node_page_len(n);
    lemma_node_page_len(m);
    lemma_le(0, 0, lsn);
    match n {
        NodeView::Leaf(l) => {
            lemma_header_restamped(
                LEAF,
                flag_byte(l.incomplete_split, l.half_dead),
                l.page_id,
                l.lsn,
                lsn,
                link(l.rightlink),
                link(l.prev_page),
                l.entries.len() as u16,
                high_key_code(l.high_key),
            );
        },
        NodeView::Internal(p) => {
            lemma_header_restamped(
                INTERNAL,
                flag_byte(p.incomplete_split, false),
                p.page_id,
                p.lsn,
                lsn,
                link(p.rightlink),
                p.children[0],
                p.keys.len() as u16,
                high_key_code(p.high_key),
            );
        },
    }
    assert(restamped(node_page(n), lsn) =~= node_page(m));
}

/// The page of a part of a chain under another record number.
pub proof fn lemma_chunk_restamped(id: u64, c: ChunkView, lsn: u64)
    ensures
        restamped(chunk_page(id, c), lsn) == chunk_page(id, ChunkView { lsn, ..c }),
{
    lemma_le(0, 0, lsn);
    lemma_le(0, 0, c.lsn);
    assert(restamped(chunk_page(id, c), lsn) =~= chunk_page(id, ChunkView { lsn, ..c }));
}

/// A page that a block has been redone on carries the number of the record.
pub proof fn lemma_redo_stamps(page: Seq<u8>, kind: WalRecordType, i: int, k: BlockView, lsn: u64)
    requires
        page.len() == PAGE_SIZE,
        k.fpi matches Some(f) ==> f.len() == PAGE_SIZE,
    ensures
        redo_page(page, kind, i, k, lsn) matches Some(b) ==> b.len() == PAGE_SIZE && lsn_of(b)
            == lsn,
{
    reveal(redo_page);
    if let Some(f) = k.fpi {
        lemma_restamped(f, lsn);
    } else {
        lemma_restamped(page, lsn);
        match redo_of(kind, i, k.data) {
            Redo::Change(ChangeView::SetRoot(r)) => {
                crate::meta::law_root_roundtrip(page, r);
                lemma_restamped(with_root(page, r), lsn);
            },
            Redo::Change(c) => {
                if let Some(n) = node_at(blank(page)) {
                    if fits_node(n, c) {
                        crate::change::lemma_changed_wf(n, c);
                        let m = with_lsn(changed(n, c), lsn);
                        lemma_node_restamped(changed(n, c), lsn);
                        crate::codec::law_node_roundtrip(m);
                        crate::codec::lemma_node_page_len(m);
                    }
                }
            },
            _ => {},
        }
    }
}

} // verus!
