//! The write-ahead log: records with sequence numbers and checksums, laid out
//! one after the other.
//!
//! A record is its number (8 bytes), its length (4), its type (1), the number of
//! its blocks (1), its transaction (8), the length of its main data (2), the
//! blocks, the main data, and the CRC-32 of all that (4). A block is a page id
//! (8), flags (1), the length of its data (2), a full page image if flag bit 0
//! is set, and the data.

use vstd::prelude::*;

use crate::bytes::{
    crc32, crc32_of, holds, law_integers_give_their_bytes_back, le16, le32, le64, lemma_holds_add,
    lemma_holds_byte, lemma_holds_int, lemma_le, push_bytes, push_u16, push_u32, push_u64, read_u16,
    read_u32, read_u64, slice, u16_at, u32_at, u64_at,
};
use crate::constants::PAGE_SIZE;
use crate::disk::{IoAction, IoView, Outbox};
use crate::error::WalError;

verus! {

/// The operation that a log record stands for.
#[derive(Debug, Clone, Copy, PartialEq, Eq, Structural)]
pub enum WalRecordType {
    Insert,
    SetXMax,
    Commit,
    Abort,
    LeafSplit,
    InternalSPlit,
    InsertDownLink,
    NewRoot,
    PageCompact,
    MarkHalfDead,
    UnlinkPage,
    Checkpoint,
    OverflowFree,
}

impl WalRecordType {
    /// The byte that stands for the type on disk.
    pub open spec fn code(self) -> u8 {
        match self {
            WalRecordType::Insert => 0,
            WalRecordType::SetXMax => 1,
            WalRecordType::Commit => 2,
            WalRecordType::Abort => 3,
            WalRecordType::LeafSplit => 4,
            WalRecordType::InternalSPlit => 5,
            WalRecordType::InsertDownLink => 6,
            WalRecordType::NewRoot => 7,
            WalRecordType::PageCompact => 8,
            WalRecordType::MarkHalfDead => 9,
            WalRecordType::UnlinkPage => 10,
            WalRecordType::Checkpoint => 11,
            WalRecordType::OverflowFree => 12,
        }
    }

    /// The byte that stands for the type on disk.
    pub fn as_byte(self) -> (b: u8)
        ensures
            b == self.code(),
    {
        match self {
            WalRecordType::Insert => 0,
            WalRecordType::SetXMax => 1,
            WalRecordType::Commit => 2,
            WalRecordType::Abort => 3,
            WalRecordType::LeafSplit => 4,
            WalRecordType::InternalSPlit => 5,
            WalRecordType::InsertDownLink => 6,
            WalRecordType::NewRoot => 7,
            WalRecordType::PageCompact => 8,
            WalRecordType::MarkHalfDead => 9,
            WalRecordType::UnlinkPage => 10,
            WalRecordType::Checkpoint => 11,
            WalRecordType::OverflowFree => 12,
        }
    }

    /// The type that a byte stands for.
    pub fn try_from(value: u8) -> (r: Result<WalRecordType, WalError>)
        ensures
            r is Ok <==> value <= 12,
            r matches Ok(t) ==> t.code() == value,
            r matches Err(e) ==> e == WalError::InvalidEntryType(value),
    {
        match value {
            0 => Ok(WalRecordType::Insert),
            1 => Ok(WalRecordType::SetXMax),
            2 => Ok(WalRecordType::Commit),
            3 => Ok(WalRecordType::Abort),
            4 => Ok(WalRecordType::LeafSplit),
            5 => Ok(WalRecordType::InternalSPlit),
            6 => Ok(WalRecordType::InsertDownLink),
            7 => Ok(WalRecordType::NewRoot),
            8 => Ok(WalRecordType::PageCompact),
            9 => Ok(WalRecordType::MarkHalfDead),
            10 => Ok(WalRecordType::UnlinkPage),
            11 => Ok(WalRecordType::Checkpoint),
            12 => Ok(WalRecordType::OverflowFree),
            _ => Err(WalError::InvalidEntryType(value)),
        }
    }
}

/// Block flag: a full page image follows the block's header.
pub const BLK_HAS_FPI: u8 = 1;

/// Block flag: the block has redo data.
pub const BLK_HAS_DATA: u8 = 2;

/// Bytes of a record before its blocks.
pub const RECORD_HEADER: usize = 24;

/// Bytes of a block before its image and data.
pub const BLOCK_HEADER: usize = 11;

/// A page that a record touches, with its image or its redo data.
#[derive(Debug)]
pub struct Block {
    pub page_id: u64,
    pub blk_flags: u8,
    pub fpi: Option<Vec<u8>>,
    pub data: Option<Vec<u8>>,
}

/// Mathematical content of a [`Block`].
#[verifier::ext_equal]
pub struct BlockView {
    pub page_id: u64,
    pub blk_flags: u8,
    pub fpi: Option<Seq<u8>>,
    pub data: Option<Seq<u8>>,
}

/// Content of optional bytes.
pub open spec fn opt_bytes(v: Option<Vec<u8>>) -> Option<Seq<u8>> {
    match v {
        Some(x) => Some(x@),
        None => None,
    }
}

impl View for Block {
    type V = BlockView;

    open spec fn view(&self) -> BlockView {
        BlockView {
            page_id: self.page_id,
            blk_flags: self.blk_flags,
            fpi: opt_bytes(self.fpi),
            data: opt_bytes(self.data),
        }
    }
}

/// Contents of a list of blocks.
pub open spec fn block_views(s: Seq<Block>) -> Seq<BlockView> {
    Seq::new(s.len(), |i: int| s[i]@)
}

/// One record of the log.
#[derive(Debug)]
pub struct WalRecord {
    pub lsn: u64,
    pub rec_len: u32,
    pub entry_type: WalRecordType,
    pub txn_id: u64,
    pub blocks: Vec<Block>,
    pub main_data: Option<Vec<u8>>,
}

/// Mathematical content of a [`WalRecord`].
#[verifier::ext_equal]
pub struct WalRecordView {
    pub lsn: u64,
    pub rec_len: u32,
    pub entry_type: WalRecordType,
    pub txn_id: u64,
    pub blocks: Seq<BlockView>,
    pub main_data: Option<Seq<u8>>,
}

impl View for WalRecord {
    type V = WalRecordView;

    open spec fn view(&self) -> WalRecordView {
        WalRecordView {
            lsn: self.lsn,
            rec_len: self.rec_len,
            entry_type: self.entry_type,
            txn_id: self.txn_id,
            blocks: block_views(self.blocks@),
            main_data: opt_bytes(self.main_data),
        }
    }
}

// ── Writing ──────────────────────────────────────────────────────────────────
/// The bytes of an optional part.
pub open spec fn part(v: Option<Seq<u8>>) -> Seq<u8> {
    match v {
        Some(x) => x,
        None => Seq::empty(),
    }
}

/// The bytes of a block.
pub open spec fn block_bytes(k: BlockView) -> Seq<u8> {
    le64(k.page_id) + (seq![k.blk_flags] + (le16(part(k.data).len() as u16) + (part(k.fpi) + part(
        k.data,
    ))))
}

/// The bytes of a list of blocks.
pub open spec fn blocks_bytes(ks: Seq<BlockView>) -> Seq<u8>
    decreases ks.len(),
{
    if ks.len() == 0 {
        Seq::empty()
    } else {
        blocks_bytes(ks.drop_last()) + block_bytes(ks.last())
    }
}

/// The bytes that a record's checksum protects.
pub open spec fn body_bytes(r: WalRecordView) -> Seq<u8> {
    le64(r.lsn) + (le32(r.rec_len) + (seq![r.entry_type.code()] + (seq![r.blocks.len() as u8] + (
    le64(r.txn_id) + (le16(part(r.main_data).len() as u16) + (blocks_bytes(r.blocks) + part(
        r.main_data,
    )))))))
}

/// The bytes of a record.
pub open spec fn record_bytes(r: WalRecordView) -> Seq<u8> {
    body_bytes(r) + le32(crc32(body_bytes(r)))
}

/// Whether a block can be written: the image is a page and the data's length
/// has two bytes.
pub open spec fn block_ok(k: BlockView) -> bool {
    &&& (k.fpi matches Some(p) ==> p.len() == PAGE_SIZE)
    &&& part(k.data).len() <= 0xffff
}

/// Whether the blocks and the main data of a record can be written.
pub open spec fn parts_ok(blocks: Seq<BlockView>, main: Option<Seq<u8>>) -> bool {
    &&& blocks.len() <= 255
    &&& forall|i: int| 0 <= i < blocks.len() ==> block_ok(#[trigger] blocks[i])
    &&& part(main).len() <= 0xffff
}

/// Whether a block reads back as it was written: its flags announce its image,
/// and data that is there is not empty.
pub open spec fn block_clean(k: BlockView) -> bool {
    &&& block_ok(k)
    &&& (k.fpi is Some <==> k.blk_flags & 1 == 1)
    &&& (k.data matches Some(d) ==> d.len() > 0)
}

/// Whether a record reads back as it was written.
pub open spec fn record_clean(r: WalRecordView) -> bool {
    &&& r.blocks.len() <= 255
    &&& forall|i: int| 0 <= i < r.blocks.len() ==> block_clean(#[trigger] r.blocks[i])
    &&& part(r.main_data).len() <= 0xffff
    &&& (r.main_data matches Some(d) ==> d.len() > 0)
}

// ── Reading ──────────────────────────────────────────────────────────────────
/// The bytes `[from, from + n)`, if there are any to read.
pub open spec fn read_part(b: Seq<u8>, from: int, n: int) -> Option<Seq<u8>> {
    if n > 0 {
        Some(slice(b, from, n))
    } else {
        None
    }
}

/// Where the data of the block at `pos` starts.
pub open spec fn block_data_at(b: Seq<u8>, pos: int) -> int {
    pos + BLOCK_HEADER + if b[pos + 8] & 1 == 1 {
        PAGE_SIZE as int
    } else {
        0
    }
}

/// The block at `pos` and where it ends, unless the bytes end before it does.
pub open spec fn block_at(b: Seq<u8>, pos: int) -> Option<(BlockView, int)> {
    if pos + BLOCK_HEADER > b.len() {
        None
    } else {
        let from = block_data_at(b, pos);
        let end = from + u16_at(b, pos + 9);
        if end > b.len() {
            None
        } else {
            Some(
                (
                    BlockView {
                        page_id: u64_at(b, pos),
                        blk_flags: b[pos + 8],
                        fpi: if b[pos + 8] & 1 == 1 {
                            Some(slice(b, pos + BLOCK_HEADER, PAGE_SIZE as int))
                        } else {
                            None
                        },
                        data: read_part(b, from, u16_at(b, pos + 9) as int),
                    },
                    end,
                ),
            )
        }
    }
}

/// The `n` blocks from `pos` on and where they end.
pub open spec fn blocks_at(b: Seq<u8>, pos: int, n: nat) -> Option<(Seq<BlockView>, int)>
    decreases n,
{
    if n == 0 {
        Some((Seq::empty(), pos))
    } else {
        match blocks_at(b, pos, (n - 1) as nat) {
            None => None,
            Some((ks, q)) => match block_at(b, q) {
                None => None,
                Some((k, e)) => Some((ks.push(k), e)),
            },
        }
    }
}

/// What there is at a place of the log.
pub enum Parsed {
    /// The end of the log.
    End,
    /// A record, and where it ends.
    Record(WalRecordView, int),
    /// No record, and how far it was read.
    Bad(WalError, int),
}

/// What there is at `pos`.
pub open spec fn parse(b: Seq<u8>, pos: int) -> Parsed {
    if pos >= b.len() {
        Parsed::End
    } else if pos + 13 > b.len() {
        Parsed::Bad(WalError::UnexpectedEof, b.len() as int)
    } else if b[pos + 12] > 12 {
        Parsed::Bad(WalError::InvalidEntryType(b[pos + 12]), pos + 13)
    } else if pos + RECORD_HEADER > b.len() {
        Parsed::Bad(WalError::UnexpectedEof, b.len() as int)
    } else {
        match blocks_at(b, pos + RECORD_HEADER, b[pos + 13] as nat) {
            None => Parsed::Bad(WalError::UnexpectedEof, b.len() as int),
            Some((blocks, q)) => {
                let m = u16_at(b, pos + 22) as int;
                if q + m + 4 > b.len() {
                    Parsed::Bad(WalError::UnexpectedEof, b.len() as int)
                } else {
                    let expected = u32_at(b, q + m);
                    let actual = crc32(slice(b, pos, q + m - pos));
                    if actual != expected {
                        Parsed::Bad(
                            WalError::ChecksumMismatch { lsn: u64_at(b, pos), expected, actual },
                            q + m + 4,
                        )
                    } else {
                        Parsed::Record(
                            WalRecordView {
                                lsn: u64_at(b, pos),
                                rec_len: u32_at(b, pos + 8),
                                entry_type: type_of(b[pos + 12]),
                                txn_id: u64_at(b, pos + 14),
                                blocks,
                                main_data: read_part(b, q, m),
                            },
                            q + m + 4,
                        )
                    }
                }
            },
        }
    }
}

/// The type that a byte stands for.
pub open spec fn type_of(c: u8) -> WalRecordType {
    choose|t: WalRecordType| t.code() == c
}

/// A type is what its byte stands for.
pub proof fn lemma_type_of(t: WalRecordType)
    ensures
        type_of(t.code()) == t,
        t.code() <= 12,
{
    let u = type_of(t.code());
    assert(u.code() == t.code());
}

/// The records of the log from `pos` on, as far as they can be read.
pub open spec fn records_from(b: Seq<u8>, pos: int) -> Seq<WalRecordView>
    decreases b.len() - pos,
{
    match parse(b, pos) {
        Parsed::Record(r, e) => if pos < e && 0 <= pos {
            seq![r] + records_from(b, e)
        } else {
            Seq::empty()
        },
        _ => Seq::empty(),
    }
}

/// Where the records from `pos` on stop.
pub open spec fn records_end(b: Seq<u8>, pos: int) -> int
    decreases b.len() - pos,
{
    match parse(b, pos) {
        Parsed::Record(r, e) => if pos < e && 0 <= pos {
            records_end(b, e)
        } else {
            pos
        },
        _ => pos,
    }
}

proof fn lemma_blocks_at_bounds(b: Seq<u8>, pos: int, n: nat)
    requires
        0 <= pos <= b.len(),
    ensures
        blocks_at(b, pos, n) matches Some((ks, q)) ==> pos <= q <= b.len() && ks.len() == n,
    decreases n,
{
    if n > 0 {
        lemma_blocks_at_bounds(b, pos, (n - 1) as nat);
    }
}

/// A record ends after it starts and inside the log.
pub proof fn lemma_parse_bounds(b: Seq<u8>, pos: int)
    requires
        0 <= pos,
    ensures
        parse(b, pos) matches Parsed::Record(r, e) ==> pos + 28 <= e <= b.len(),
        parse(b, pos) matches Parsed::Bad(_, e) ==> pos <= e <= b.len(),
{
    if pos + RECORD_HEADER <= b.len() {
        lemma_blocks_at_bounds(b, pos + RECORD_HEADER, b[pos + 13] as nat);
    }
}

// ── Law: what was written is read back ───────────────────────────────────────
proof fn lemma_block_roundtrip(b: Seq<u8>, pos: int, k: BlockView)
    requires
        holds(b, pos, block_bytes(k)),
        block_clean(k),
    ensures
        block_at(b, pos) == Some((k, pos + block_bytes(k).len())),
        block_bytes(k).len() == BLOCK_HEADER + part(k.fpi).len() + part(k.data).len(),
{
    let n = part(k.data).len() as u16;
    lemma_le(n, 0, k.page_id);
    let e = part(k.fpi) + part(k.data);
    let d = le16(n) + e;
    let c = seq![k.blk_flags] + d;
    lemma_holds_add(b, pos, le64(k.page_id), c);
    lemma_holds_add(b, pos + 8, seq![k.blk_flags], d);
    lemma_holds_add(b, pos + 9, le16(n), e);
    lemma_holds_add(b, pos + 11, part(k.fpi), part(k.data));
    lemma_holds_int(b, pos, 0, 0, k.page_id);
    lemma_holds_int(b, pos + 9, n, 0, 0);
    lemma_holds_byte(b, pos + 8, k.blk_flags);
}

proof fn lemma_blocks_roundtrip(b: Seq<u8>, pos: int, ks: Seq<BlockView>)
    requires
        holds(b, pos, blocks_bytes(ks)),
        forall|i: int| 0 <= i < ks.len() ==> block_clean(#[trigger] ks[i]),
    ensures
        blocks_at(b, pos, ks.len()) == Some((ks, pos + blocks_bytes(ks).len())),
    decreases ks.len(),
{
    if ks.len() > 0 {
        let p = ks.drop_last();
        lemma_holds_add(b, pos, blocks_bytes(p), block_bytes(ks.last()));
        lemma_blocks_roundtrip(b, pos, p);
        lemma_block_roundtrip(b, pos + blocks_bytes(p).len(), ks.last());
        assert(p.push(ks.last()) =~= ks);
    } else {
        assert(ks =~= Seq::empty());
    }
}

/// A record is read back from wherever it was written, and reading stops where
/// it ends.
pub proof fn law_record_roundtrip(b: Seq<u8>, pos: int, r: WalRecordView)
    requires
        holds(b, pos, record_bytes(r)),
        record_clean(r),
    ensures
        parse(b, pos) == Parsed::Record(r, pos + record_bytes(r).len()),
{
    let n = part(r.main_data).len() as u16;
    let k = r.blocks.len() as u8;
    let body = body_bytes(r);
    lemma_le(n, r.rec_len, r.lsn);
    lemma_le(0, crc32(body), r.txn_id);
    lemma_type_of(r.entry_type);
    lemma_holds_add(b, pos, body, le32(crc32(body)));
    let s7 = blocks_bytes(r.blocks) + part(r.main_data);
    let s6 = le16(n) + s7;
    let s5 = le64(r.txn_id) + s6;
    let s4 = seq![k] + s5;
    let s3 = seq![r.entry_type.code()] + s4;
    let s2 = le32(r.rec_len) + s3;
    lemma_holds_add(b, pos, le64(r.lsn), s2);
    lemma_holds_add(b, pos + 8, le32(r.rec_len), s3);
    lemma_holds_add(b, pos + 12, seq![r.entry_type.code()], s4);
    lemma_holds_add(b, pos + 13, seq![k], s5);
    lemma_holds_add(b, pos + 14, le64(r.txn_id), s6);
    lemma_holds_add(b, pos + 22, le16(n), s7);
    lemma_holds_add(b, pos + 24, blocks_bytes(r.blocks), part(r.main_data));
    lemma_holds_int(b, pos, 0, 0, r.lsn);
    lemma_holds_int(b, pos + 8, 0, r.rec_len, 0);
    lemma_holds_byte(b, pos + 12, r.entry_type.code());
    lemma_holds_byte(b, pos + 13, k);
    lemma_holds_int(b, pos + 14, 0, 0, r.txn_id);
    lemma_holds_int(b, pos + 22, n, 0, 0);
    lemma_blocks_roundtrip(b, pos + 24, r.blocks);
    lemma_holds_int(b, pos + body.len(), 0, crc32(body), 0);
}

/// The bytes of a list of records.
pub open spec fn log_bytes(rs: Seq<WalRecordView>) -> Seq<u8>
    decreases rs.len(),
{
    if rs.len() == 0 {
        Seq::empty()
    } else {
        record_bytes(rs[0]) + log_bytes(rs.subrange(1, rs.len() as int))
    }
}

/// The bytes of two lists one after the other.
pub proof fn lemma_log_bytes_add(a: Seq<WalRecordView>, b: Seq<WalRecordView>)
    ensures
        log_bytes(a + b) == log_bytes(a) + log_bytes(b),
    decreases a.len(),
{
    if a.len() == 0 {
        assert(a + b =~= b);
        assert(log_bytes(a) + log_bytes(b) =~= log_bytes(b));
    } else {
        let t = a.subrange(1, a.len() as int);
        lemma_log_bytes_add(t, b);
        assert((a + b).subrange(1, (a + b).len() as int) =~= t + b);
        assert((a + b)[0] == a[0]);
        assert(record_bytes(a[0]) + (log_bytes(t) + log_bytes(b)) =~= (record_bytes(a[0])
            + log_bytes(t)) + log_bytes(b));
    }
}

/// The bytes of a list with one record more.
pub proof fn lemma_log_bytes_push(a: Seq<WalRecordView>, r: WalRecordView)
    ensures
        log_bytes(a.push(r)) == log_bytes(a) + record_bytes(r),
{
    assert(a.push(r) =~= a + seq![r]);
    lemma_log_bytes_add(a, seq![r]);
    assert(seq![r].subrange(1, 1) =~= Seq::empty());
    assert(log_bytes(seq![r].subrange(1, 1)) == Seq::<u8>::empty());
    assert(record_bytes(r) + Seq::<u8>::empty() =~= record_bytes(r));
}

/// Whether every record of a list reads back as it was written.
pub open spec fn all_clean(rs: Seq<WalRecordView>) -> bool {
    forall|i: int| 0 <= i < rs.len() ==> record_clean(#[trigger] rs[i])
}

/// A log that holds a list of records up to its end reads back as that list.
pub proof fn law_log_roundtrip(b: Seq<u8>, pos: int, rs: Seq<WalRecordView>)
    requires
        holds(b, pos, log_bytes(rs)),
        pos + log_bytes(rs).len() == b.len(),
        all_clean(rs),
    ensures
        records_from(b, pos) == rs,
        records_end(b, pos) == b.len(),
    decreases rs.len(),
{
    if rs.len() > 0 {
        let rest = rs.subrange(1, rs.len() as int);
        lemma_holds_add(b, pos, record_bytes(rs[0]), log_bytes(rest));
        law_record_roundtrip(b, pos, rs[0]);
        lemma_parse_bounds(b, pos);
        assert(all_clean(rest)) by {
            assert forall|i: int| 0 <= i < rest.len() implies record_clean(#[trigger] rest[i]) by {
                assert(rest[i] == rs[i + 1]);
            }
        }
        law_log_roundtrip(b, pos + record_bytes(rs[0]).len(), rest);
        assert(seq![rs[0]] + rest =~= rs);
    } else {
        assert(records_from(b, pos) =~= rs);
    }
}

// ── The iterator ─────────────────────────────────────────────────────────────
/// Copies the bytes `[from, from + n)`, if there are any to copy.
fn copy_part(b: &Vec<u8>, from: usize, n: usize) -> (r: Option<Vec<u8>>)
    requires
        from + n <= b@.len(),
    ensures
        opt_bytes(r) == read_part(b@, from as int, n as int),
{
    if n > 0 {
        let len: usize = b.len();
        assert(from + n <= len);
        Some(
            vstd::slice::slice_to_vec(
                vstd::slice::slice_subrange(b.as_slice(), from, from + n),
            ),
        )
    } else {
        None
    }
}

/// Reads the block at `pos`.
fn read_block(b: &Vec<u8>, pos: usize) -> (r: Option<(Block, usize)>)
    requires
        pos <= b@.len(),
    ensures
        r is None <==> block_at(b@, pos as int) is None,
        r matches Some((k, e)) ==> block_at(b@, pos as int) == Some((k@, e as int)) && e
            <= b@.len(),
{
    let len: usize = b.len();
    if len - pos < BLOCK_HEADER {
        return None;
    }
    let page_id: u64 = read_u64(b.as_slice(), pos);
    let blk_flags: u8 = b[pos + 8];
    let data_len: usize = read_u16(b.as_slice(), pos + 9) as usize;
    let mut at: usize = pos + BLOCK_HEADER;
    let fpi: Option<Vec<u8>> = if blk_flags & 1 == 1 {
        if len - at < PAGE_SIZE {
            return None;
        }
        let p = copy_part(b, at, PAGE_SIZE);
        at = at + PAGE_SIZE;
        p
    } else {
        None
    };
    if len - at < data_len {
        return None;
    }
    let data: Option<Vec<u8>> = copy_part(b, at, data_len);
    Some((Block { page_id, blk_flags, fpi, data }, at + data_len))
}

/// Reads `n` blocks from `pos` on.
fn read_blocks(b: &Vec<u8>, pos: usize, n: u8) -> (r: Option<(Vec<Block>, usize)>)
    requires
        pos <= b@.len(),
    ensures
        r is None <==> blocks_at(b@, pos as int, n as nat) is None,
        r matches Some((ks, e)) ==> blocks_at(b@, pos as int, n as nat) == Some(
            (block_views(ks@), e as int),
        ) && e <= b@.len(),
{
    let mut ks: Vec<Block> = Vec::new();
    let mut at: usize = pos;
    let mut i: u8 = 0;
    assert(block_views(ks@) =~= Seq::<BlockView>::empty());
    while i < n
        invariant
            i <= n,
            pos <= b@.len(),
            at <= b@.len(),
            blocks_at(b@, pos as int, i as nat) == Some((block_views(ks@), at as int)),
        decreases n - i,
    {
        match read_block(b, at) {
            None => {
                proof {
                    lemma_blocks_at_none(b@, pos as int, (i + 1) as nat, n as nat);
                }
                return None;
            },
            Some((k, e)) => {
                let ghost old_ks = block_views(ks@);
                let ghost kv = k@;
                ks.push(k);
                assert(block_views(ks@) =~= old_ks.push(kv));
                at = e;
            },
        }
        i = i + 1;
    }
    Some((ks, at))
}

proof fn lemma_blocks_at_none(b: Seq<u8>, pos: int, m: nat, n: nat)
    requires
        blocks_at(b, pos, m) is None,
        m <= n,
    ensures
        blocks_at(b, pos, n) is None,
    decreases n,
{
    if m < n {
        lemma_blocks_at_none(b, pos, m, (n - 1) as nat);
    }
}

/// Reads and validates the records of a log one after the other.
pub struct WalIterator {
    pub bytes: Vec<u8>,
    pub pos: usize,
}

impl WalIterator {
    pub open spec fn wf(&self) -> bool {
        self.pos <= self.bytes@.len()
    }

    /// Starts at the beginning of a log.
    pub fn new(bytes: Vec<u8>) -> (it: WalIterator)
        ensures
            it.wf(),
            it.bytes == bytes,
            it.pos == 0,
    {
        WalIterator { bytes, pos: 0 }
    }

    /// The next record: `None` at the end of the log, an error where there is no
    /// valid record. The iterator stands behind what it has read.
    pub fn next_record(&mut self) -> (r: Option<Result<WalRecord, WalError>>)
        requires
            old(self).wf(),
        ensures
            final(self).wf(),
            final(self).bytes == old(self).bytes,
            match parse(old(self).bytes@, old(self).pos as int) {
                Parsed::End => r is None && final(self).pos == old(self).pos,
                Parsed::Record(v, e) => r matches Some(Ok(w)) && w@ == v && final(self).pos == e,
                Parsed::Bad(err, e) => r matches Some(Err(f)) && f == err && final(self).pos == e,
            },
    {
        let start: usize = self.pos;
        let len: usize = self.bytes.len();
        proof {
            lemma_parse_bounds(self.bytes@, start as int);
        }
        if start == len {
            return None;
        }
        if len - start < 13 {
            self.pos = len;
            return Some(Err(WalError::UnexpectedEof));
        }
        let lsn: u64 = read_u64(self.bytes.as_slice(), start);
        let rec_len: u32 = read_u32(self.bytes.as_slice(), start + 8);
        let entry_type = match WalRecordType::try_from(self.bytes[start + 12]) {
            Ok(t) => t,
            Err(e) => {
                self.pos = start + 13;
                return Some(Err(e));
            },
        };
        proof {
            lemma_type_of(entry_type);
        }
        if len - start < RECORD_HEADER {
            self.pos = len;
            return Some(Err(WalError::UnexpectedEof));
        }
        let nblocks: u8 = self.bytes[start + 13];
        let txn_id: u64 = read_u64(self.bytes.as_slice(), start + 14);
        let main_len: usize = read_u16(self.bytes.as_slice(), start + 22) as usize;
        let (blocks, at) = match read_blocks(&self.bytes, start + RECORD_HEADER, nblocks) {
            Some(x) => x,
            None => {
                self.pos = len;
                return Some(Err(WalError::UnexpectedEof));
            },
        };
        if len - at < main_len || len - at - main_len < 4 {
            self.pos = len;
            return Some(Err(WalError::UnexpectedEof));
        }
        proof {
            lemma_blocks_at_bounds(self.bytes@, start + RECORD_HEADER, nblocks as nat);
        }
        let main_data: Option<Vec<u8>> = copy_part(&self.bytes, at, main_len);
        let end: usize = at + main_len;
        let expected: u32 = read_u32(self.bytes.as_slice(), end);
        let actual: u32 = crc32_of(
            vstd::slice::slice_subrange(self.bytes.as_slice(), start, end),
        );
        self.pos = end + 4;
        if actual != expected {
            return Some(Err(WalError::ChecksumMismatch { lsn, expected, actual }));
        }
        Some(Ok(WalRecord { lsn, rec_len, entry_type, txn_id, blocks, main_data }))
    }
}

// ── The log manager ──────────────────────────────────────────────────────────
/// Where a record has what: its number at byte 0, its length at 8, its type at 12, the number
/// of its blocks at 13, its transaction at 14, and the length of its main data at 22. The
/// types count from 0 in the order in which they are declared.
pub proof fn law_records_are_laid_out(r: WalRecordView)
    requires
        record_clean(r),
    ensures
        ({
            let b = record_bytes(r);
            &&& u64_at(b, 0) == r.lsn
            &&& u32_at(b, 8) == r.rec_len
            &&& b[12] == match r.entry_type {
                WalRecordType::Insert => 0int,
                WalRecordType::SetXMax => 1,
                WalRecordType::Commit => 2,
                WalRecordType::Abort => 3,
                WalRecordType::LeafSplit => 4,
                WalRecordType::InternalSPlit => 5,
                WalRecordType::InsertDownLink => 6,
                WalRecordType::NewRoot => 7,
                WalRecordType::PageCompact => 8,
                WalRecordType::MarkHalfDead => 9,
                WalRecordType::UnlinkPage => 10,
                WalRecordType::Checkpoint => 11,
                WalRecordType::OverflowFree => 12,
            }
            &&& b[13] == r.blocks.len()
            &&& u64_at(b, 14) == r.txn_id
            &&& u16_at(b, 22) == part(r.main_data).len()
        }),
{
    let b = record_bytes(r);
    let n = part(r.main_data).len() as u16;
    let k = r.blocks.len() as u8;
    let body = body_bytes(r);
    lemma_le(n, r.rec_len, r.lsn);
    lemma_le(0, crc32(body), r.txn_id);
    assert(slice(b, 0, b.len() as int) =~= b);
    lemma_holds_add(b, 0, body, le32(crc32(body)));
    let s7 = blocks_bytes(r.blocks) + part(r.main_data);
    let s6 = le16(n) + s7;
    let s5 = le64(r.txn_id) + s6;
    let s4 = seq![k] + s5;
    let s3 = seq![r.entry_type.code()] + s4;
    let s2 = le32(r.rec_len) + s3;
    lemma_holds_add(b, 0, le64(r.lsn), s2);
    lemma_holds_add(b, 8, le32(r.rec_len), s3);
    lemma_holds_add(b, 12, seq![r.entry_type.code()], s4);
    lemma_holds_add(b, 13, seq![k], s5);
    lemma_holds_add(b, 14, le64(r.txn_id), s6);
    lemma_holds_add(b, 22, le16(n), s7);
    lemma_holds_int(b, 0, 0, 0, r.lsn);
    lemma_holds_int(b, 8, 0, r.rec_len, 0);
    lemma_holds_byte(b, 12, r.entry_type.code());
    lemma_holds_byte(b, 13, k);
    lemma_holds_int(b, 14, 0, 0, r.txn_id);
    lemma_holds_int(b, 22, n, 0, 0);
}

/// A record that is appended says how long it is.
pub proof fn law_records_know_their_length(
    lsn: u64,
    entry_type: WalRecordType,
    txn_id: u64,
    blocks: Seq<BlockView>,
    main_data: Option<Seq<u8>>,
)
    requires
        parts_ok(blocks, main_data),
    ensures
        ({
            let r = appended(lsn, entry_type, txn_id, blocks, main_data);
            r.rec_len == record_bytes(r).len()
        }),
{
    let r = appended(lsn, entry_type, txn_id, blocks, main_data);
    let body = body_bytes(r);
    lemma_blocks_len(blocks);
    lemma_le(part(main_data).len() as u16, r.rec_len, lsn);
    lemma_le(0, crc32(body), txn_id);
    assert(blocks_bytes(blocks).len() <= 69642 * 255);
}

// ── Laws: what is read was written ───────────────────────────────────────────
/// A block that is read stands there as it would be written.
proof fn lemma_block_written(b: Seq<u8>, pos: int)
    requires
        0 <= pos,
    ensures
        block_at(b, pos) matches Some((k, e)) ==> holds(b, pos, block_bytes(k)) && e == pos
            + block_bytes(k).len(),
{
    if let Some((k, e)) = block_at(b, pos) {
        let n = u16_at(b, pos + 9);
        let from = block_data_at(b, pos);
        law_integers_give_their_bytes_back(b, pos);
        law_integers_give_their_bytes_back(b, pos + 9);
        assert(part(k.data) =~= slice(b, from, n as int));
        assert(part(k.fpi) =~= slice(b, pos + 11, from - pos - 11));
        assert(part(k.data).len() as u16 == n);
        assert(le64(k.page_id) + (seq![k.blk_flags] + (le16(n) + (part(k.fpi) + part(k.data))))
            =~= slice(b, pos, e - pos));
    }
}

proof fn lemma_blocks_written(b: Seq<u8>, pos: int, n: nat)
    requires
        0 <= pos <= b.len(),
    ensures
        blocks_at(b, pos, n) matches Some((ks, e)) ==> holds(b, pos, blocks_bytes(ks)) && e == pos
            + blocks_bytes(ks).len() && ks.len() == n,
    decreases n,
{
    if n > 0 {
        lemma_blocks_written(b, pos, (n - 1) as nat);
        if let Some((ks, q)) = blocks_at(b, pos, (n - 1) as nat) {
            lemma_block_written(b, q);
            if let Some((k, e)) = block_at(b, q) {
                assert(ks.push(k).drop_last() =~= ks);
                assert(blocks_bytes(ks) + block_bytes(k) =~= slice(b, pos, e - pos));
            }
        }
    } else {
        assert(slice(b, pos, 0) =~= Seq::<u8>::empty());
    }
}

/// Nothing passes for a record but what stands there as the record would be written, its
/// checksum among it.
pub proof fn law_records_stand_as_written(b: Seq<u8>, pos: int, r: WalRecordView, e: int)
    requires
        0 <= pos,
        parse(b, pos) == Parsed::Record(r, e),
    ensures
        slice(b, pos, e - pos) == record_bytes(r),
        e <= b.len(),
        u32_at(b, e - 4) == crc32(slice(b, pos, e - 4 - pos)),
{
    lemma_parse_bounds(b, pos);
    let q = (blocks_at(b, pos + RECORD_HEADER, b[pos + 13] as nat)->0).1;
    let m = u16_at(b, pos + 22) as int;
    lemma_blocks_written(b, pos + RECORD_HEADER, b[pos + 13] as nat);
    law_integers_give_their_bytes_back(b, pos);
    law_integers_give_their_bytes_back(b, pos + 8);
    law_integers_give_their_bytes_back(b, pos + 14);
    law_integers_give_their_bytes_back(b, pos + 22);
    law_integers_give_their_bytes_back(b, q + m);
    lemma_known_type(b[pos + 12]);
    assert(part(r.main_data) =~= slice(b, q, m));
    assert(body_bytes(r) =~= slice(b, pos, q + m - pos));
    assert(record_bytes(r) =~= slice(b, pos, e - pos));
}

proof fn lemma_known_type(c: u8)
    requires
        c <= 12,
    ensures
        type_of(c).code() == c,
{
    let t = if c == 0 {
        WalRecordType::Insert
    } else if c == 1 {
        WalRecordType::SetXMax
    } else if c == 2 {
        WalRecordType::Commit
    } else if c == 3 {
        WalRecordType::Abort
    } else if c == 4 {
        WalRecordType::LeafSplit
    } else if c == 5 {
        WalRecordType::InternalSPlit
    } else if c == 6 {
        WalRecordType::InsertDownLink
    } else if c == 7 {
        WalRecordType::NewRoot
    } else if c == 8 {
        WalRecordType::PageCompact
    } else if c == 9 {
        WalRecordType::MarkHalfDead
    } else if c == 10 {
        WalRecordType::UnlinkPage
    } else if c == 11 {
        WalRecordType::Checkpoint
    } else {
        WalRecordType::OverflowFree
    };
    assert(t.code() == c);
}

/// A block that the bytes break off in cannot be read.
proof fn lemma_block_cut(b: Seq<u8>, full: Seq<u8>, pos: int)
    requires
        0 <= pos,
        b.len() <= full.len(),
        b == full.subrange(0, b.len() as int),
        block_at(full, pos) is Some,
    ensures
        (block_at(full, pos)->0).1 <= b.len() ==> block_at(b, pos) == block_at(full, pos),
        (block_at(full, pos)->0).1 > b.len() ==> block_at(b, pos) is None,
{
    let e = (block_at(full, pos)->0).1;
    assert(forall|i: int| 0 <= i < b.len() ==> b[i] == full[i]);
    if pos + BLOCK_HEADER <= b.len() {
        assert(u16_at(b, pos + 9) == u16_at(full, pos + 9));
        assert(block_data_at(b, pos) == block_data_at(full, pos));
        if e <= b.len() {
            let from = block_data_at(b, pos);
            assert(u64_at(b, pos) == u64_at(full, pos));
            assert(slice(b, from, e - from) =~= slice(full, from, e - from));
            if b[pos + 8] & 1 == 1 {
                assert(slice(b, pos + BLOCK_HEADER, PAGE_SIZE as int) =~= slice(
                    full,
                    pos + BLOCK_HEADER,
                    PAGE_SIZE as int,
                ));
            }
        }
    }
}

proof fn lemma_blocks_cut(b: Seq<u8>, full: Seq<u8>, pos: int, n: nat)
    requires
        0 <= pos <= full.len(),
        b.len() <= full.len(),
        b == full.subrange(0, b.len() as int),
        blocks_at(full, pos, n) is Some,
    ensures
        (blocks_at(full, pos, n)->0).1 <= b.len() ==> blocks_at(b, pos, n) == blocks_at(full, pos, n),
        n > 0 && (blocks_at(full, pos, n)->0).1 > b.len() ==> blocks_at(b, pos, n) is None,
    decreases n,
{
    if n > 0 {
        let n1 = (n - 1) as nat;
        lemma_blocks_cut(b, full, pos, n1);
        lemma_blocks_at_bounds(full, pos, n1);
        let q = (blocks_at(full, pos, n1)->0).1;
        lemma_block_cut(b, full, q);
        if q > b.len() && n1 == 0 {
            assert(block_at(b, pos) is None);
        }
    }
}

/// A record that the bytes break off in is told from a damaged one: it is the end of the
/// log.
proof fn lemma_record_cut(b: Seq<u8>, full: Seq<u8>, pos: int, r: WalRecordView)
    requires
        0 <= pos < b.len(),
        b.len() < pos + record_bytes(r).len(),
        full.len() == pos + record_bytes(r).len(),
        b == full.subrange(0, b.len() as int),
        holds(full, pos, record_bytes(r)),
        record_clean(r),
    ensures
        parse(b, pos) == Parsed::Bad(WalError::UnexpectedEof, b.len() as int),
{
    law_record_roundtrip(full, pos, r);
    lemma_parse_bounds(full, pos);
    assert(forall|i: int| 0 <= i < b.len() ==> b[i] == full[i]);
    lemma_type_of(r.entry_type);
    if pos + RECORD_HEADER <= b.len() {
        let n = b[pos + 13] as nat;
        lemma_blocks_cut(b, full, pos + RECORD_HEADER, n);
        assert(u16_at(b, pos + 22) == u16_at(full, pos + 22));
    }
}

/// A log whose last record was cut short by a crash opens: it reads as the records before
/// that one, its valid part ends where they end, and what follows counts as a torn tail.
pub proof fn law_torn_tails_are_dropped(
    b: Seq<u8>,
    rs: Seq<WalRecordView>,
    r: WalRecordView,
    n: int,
)
    requires
        all_clean(rs),
        record_clean(r),
        0 <= n < record_bytes(r).len(),
        b == log_bytes(rs) + record_bytes(r).subrange(0, n),
    ensures
        records_from(b, 0) == rs,
        records_end(b, 0) == log_bytes(rs).len(),
        torn_or_end(b, parse(b, log_bytes(rs).len() as int)),
{
    assert(slice(b, 0, log_bytes(rs).len() as int) =~= log_bytes(rs));
    assert(slice(b, log_bytes(rs).len() as int, n) =~= record_bytes(r).subrange(0, n));
    lemma_torn(b, 0, rs, r, n);
}

#[verifier::rlimit(40)]
#[verifier::spinoff_prover]
proof fn lemma_torn(b: Seq<u8>, pos: int, rs: Seq<WalRecordView>, r: WalRecordView, n: int)
    requires
        holds(b, pos, log_bytes(rs)),
        all_clean(rs),
        record_clean(r),
        0 <= n < record_bytes(r).len(),
        b.len() == pos + log_bytes(rs).len() + n,
        slice(b, pos + log_bytes(rs).len(), n) == record_bytes(r).subrange(0, n),
    ensures
        records_from(b, pos) == rs,
        records_end(b, pos) == pos + log_bytes(rs).len(),
        torn_or_end(b, parse(b, pos + log_bytes(rs).len())),
    decreases rs.len(),
{
    if rs.len() > 0 {
        let rest = rs.subrange(1, rs.len() as int);
        lemma_holds_add(b, pos, record_bytes(rs[0]), log_bytes(rest));
        law_record_roundtrip(b, pos, rs[0]);
        lemma_parse_bounds(b, pos);
        assert(all_clean(rest)) by {
            assert forall|i: int| 0 <= i < rest.len() implies record_clean(#[trigger] rest[i]) by {
                assert(rest[i] == rs[i + 1]);
            }
        }
        lemma_torn(b, pos + record_bytes(rs[0]).len(), rest, r, n);
        assert(seq![rs[0]] + rest =~= rs);
    } else {
        lemma_torn_end(b, pos, r, n);
        assert(records_from(b, pos) =~= rs);
    }
}

proof fn lemma_torn_end(b: Seq<u8>, pos: int, r: WalRecordView, n: int)
    requires
        record_clean(r),
        0 <= pos,
        0 <= n < record_bytes(r).len(),
        b.len() == pos + n,
        slice(b, pos, n) == record_bytes(r).subrange(0, n),
    ensures
        parse(b, pos) == (if n > 0 {
            Parsed::Bad(WalError::UnexpectedEof, b.len() as int)
        } else {
            Parsed::End
        }),
{
    if n > 0 {
        let full = b.subrange(0, pos) + record_bytes(r);
        assert(b =~= full.subrange(0, b.len() as int)) by {
            assert forall|i: int| pos <= i < b.len() implies b[i] == full[i] by {
                assert(slice(b, pos, n)[i - pos] == record_bytes(r).subrange(0, n)[i - pos]);
            }
        }
        assert(slice(full, pos, record_bytes(r).len() as int) =~= record_bytes(r));
        lemma_record_cut(b, full, pos, r);
    }
}

/// The number to go on with is the first that lies above those of all records.
pub proof fn law_numbers_go_on(rs: Seq<WalRecordView>)
    ensures
        forall|i: int| 0 <= i < rs.len() ==> (#[trigger] rs[i]).lsn < lsn_after(rs),
        lsn_after(rs) == 0 || exists|i: int|
            0 <= i < rs.len() && (#[trigger] rs[i]).lsn == lsn_after(rs) - 1,
        rs.len() == 0 ==> last_lsn(rs) is None,
        rs.len() > 0 ==> last_lsn(rs) == Some(rs[rs.len() - 1].lsn),
    decreases rs.len(),
{
    if rs.len() > 0 {
        let t = rs.drop_last();
        law_numbers_go_on(t);
        assert(rs.last() == rs[rs.len() - 1]);
        assert forall|i: int| 0 <= i < rs.len() implies (#[trigger] rs[i]).lsn < lsn_after(rs) by {
            if i < t.len() {
                assert(t[i] == rs[i]);
            }
        }
        if lsn_after(t) != 0 {
            let i = choose|i: int|
                0 <= i < t.len() && (#[trigger] t[i]).lsn == lsn_after(t) - 1;
            assert(rs[i] == t[i]);
        }
    }
}

/// The log: appends records and keeps track of how far it is durable.
pub struct Wal {
    /// Records that the host has not been asked to write yet.
    pub pending: Vec<u8>,
    pub next_lsn: u64,
    /// The highest number known to be durable.
    pub flushed_lsn: Option<u64>,
}

/// The number that comes after those of a list of records.
pub open spec fn lsn_after(rs: Seq<WalRecordView>) -> int
    decreases rs.len(),
{
    if rs.len() == 0 {
        0
    } else if rs.last().lsn >= lsn_after(rs.drop_last()) {
        rs.last().lsn + 1
    } else {
        lsn_after(rs.drop_last())
    }
}

/// The number of the last record of a list.
pub open spec fn last_lsn(rs: Seq<WalRecordView>) -> Option<u64> {
    if rs.len() == 0 {
        None
    } else {
        Some(rs.last().lsn)
    }
}

/// Whether the end of what can be read is the end of the log, give or take a
/// torn tail.
pub open spec fn torn_or_end(b: Seq<u8>, p: Parsed) -> bool {
    match p {
        Parsed::End => true,
        Parsed::Bad(e, at) => e == WalError::UnexpectedEof || at == b.len(),
        Parsed::Record(_, _) => false,
    }
}

/// The size of a record with these parts.
pub open spec fn record_size(blocks: Seq<BlockView>, main: Option<Seq<u8>>) -> int {
    RECORD_HEADER + blocks_bytes(blocks).len() + part(main).len() + 4
}

/// The record that an append makes.
pub open spec fn appended(
    lsn: u64,
    entry_type: WalRecordType,
    txn_id: u64,
    blocks: Seq<BlockView>,
    main_data: Option<Seq<u8>>,
) -> WalRecordView {
    WalRecordView {
        lsn,
        rec_len: record_size(blocks, main_data) as u32,
        entry_type,
        txn_id,
        blocks,
        main_data,
    }
}

proof fn lemma_block_len(k: BlockView)
    ensures
        block_bytes(k).len() == BLOCK_HEADER + part(k.fpi).len() + part(k.data).len(),
{
    lemma_le(part(k.data).len() as u16, 0, k.page_id);
}

proof fn lemma_blocks_len(ks: Seq<BlockView>)
    requires
        forall|i: int| 0 <= i < ks.len() ==> block_ok(#[trigger] ks[i]),
    ensures
        blocks_bytes(ks).len() <= 69642 * ks.len(),
    decreases ks.len(),
{
    if ks.len() > 0 {
        lemma_blocks_len(ks.drop_last());
        lemma_block_len(ks.last());
        assert(block_ok(ks[ks.len() - 1]));
    }
}

/// Appends an optional part.
fn push_part(v: &mut Vec<u8>, p: &Option<Vec<u8>>)
    ensures
        final(v)@ == old(v)@ + part(opt_bytes(*p)),
{
    match p {
        Some(x) => {
            push_bytes(v, x.as_slice());
        },
        None => {
            assert(v@ =~= old(v)@ + part(opt_bytes(*p)));
        },
    }
}

/// The length of an optional part.
fn part_len(p: &Option<Vec<u8>>) -> (n: usize)
    ensures
        n == part(opt_bytes(*p)).len(),
{
    match p {
        Some(x) => x.len(),
        None => 0,
    }
}

impl Wal {
    /// Opens a log: reads it to its end, drops a torn tail, and finds the number
    /// to go on with. Also returns how many bytes of the log are valid; the host
    /// cuts the file there. Damage in the middle of the log is an error, and so is
    /// a record with the last possible number.
    pub fn new(bytes: Vec<u8>) -> (r: Result<(Wal, usize), WalError>)
        ensures
            ({
                let rs = records_from(bytes@, 0);
                let end = records_end(bytes@, 0);
                let stop = parse(bytes@, end);
                &&& r is Ok <==> lsn_after(rs) <= u64::MAX && torn_or_end(bytes@, stop)
                &&& r matches Ok((w, n)) ==> {
                    &&& n == end
                    &&& n <= bytes@.len()
                    &&& w.pending@ == Seq::<u8>::empty()
                    &&& w.next_lsn == lsn_after(rs)
                    &&& w.flushed_lsn == last_lsn(rs)
                }
                &&& r matches Err(e) ==> if lsn_after(rs) <= u64::MAX {
                    stop matches Parsed::Bad(f, _) && e == f
                } else {
                    e == WalError::CorruptedLog
                }
            }),
    {
        let len: usize = bytes.len();
        let ghost b = bytes@;
        let mut next_lsn: u64 = 0;
        let mut flushed_lsn: Option<u64> = None;
        let mut exhausted: bool = false;
        let mut it = WalIterator::new(bytes);
        let ghost mut done: Seq<WalRecordView> = Seq::empty();
        assert(done + records_from(b, 0) =~= records_from(b, 0));
        loop
            invariant
                it.wf(),
                b == bytes@,
                it.bytes@ == b,
                len == b.len(),
                done + records_from(b, it.pos as int) == records_from(b, 0),
                records_end(b, it.pos as int) == records_end(b, 0),
                exhausted == (lsn_after(done) > u64::MAX),
                !exhausted ==> next_lsn == lsn_after(done),
                flushed_lsn == last_lsn(done),
            decreases len - it.pos,
        {
            let at: usize = it.pos;
            proof {
                lemma_parse_bounds(b, at as int);
            }
            match it.next_record() {
                Some(Ok(record)) => {
                    proof {
                        let v = record@;
                        assert(done + (seq![v] + records_from(b, it.pos as int)) =~= done.push(v)
                            + records_from(b, it.pos as int));
                        assert(done.push(v).drop_last() =~= done);
                        done = done.push(v);
                    }
                    if !exhausted && record.lsn >= next_lsn {
                        if record.lsn == u64::MAX {
                            exhausted = true;
                        } else {
                            next_lsn = record.lsn + 1;
                        }
                    }
                    flushed_lsn = Some(record.lsn);
                },
                Some(Err(e)) => {
                    assert(records_from(b, at as int) =~= Seq::<WalRecordView>::empty());
                    assert(done =~= records_from(b, 0));
                    assert(records_end(b, 0) == at);
                    if exhausted {
                        return Err(WalError::CorruptedLog);
                    }
                    let is_eof: bool = match e {
                        WalError::UnexpectedEof => true,
                        _ => false,
                    };
                    if is_eof || it.pos == len {
                        let w = Wal { pending: Vec::new(), next_lsn, flushed_lsn };
                        return Ok((w, at));
                    }
                    return Err(e);
                },
                None => {
                    assert(records_from(b, at as int) =~= Seq::<WalRecordView>::empty());
                    assert(done =~= records_from(b, 0));
                    if exhausted {
                        return Err(WalError::CorruptedLog);
                    }
                    let w = Wal { pending: Vec::new(), next_lsn, flushed_lsn };
                    return Ok((w, at));
                },
            }
        }
    }

    /// Appends a record under the next number. It is not durable until a flush
    /// covers that number.
    pub fn append(
        &mut self,
        entry_type: WalRecordType,
        txn_id: u64,
        blocks: &Vec<Block>,
        main_data: Option<Vec<u8>>,
    ) -> (lsn: u64)
        requires
            old(self).next_lsn < u64::MAX,
            parts_ok(block_views(blocks@), opt_bytes(main_data)),
        ensures
            lsn == old(self).next_lsn,
            final(self).next_lsn == lsn + 1,
            final(self).flushed_lsn == old(self).flushed_lsn,
            final(self).pending@ == old(self).pending@ + record_bytes(
                appended(lsn, entry_type, txn_id, block_views(blocks@), opt_bytes(main_data)),
            ),
    {
        let lsn: u64 = self.next_lsn;
        self.next_lsn = lsn + 1;
        let ghost kv = block_views(blocks@);
        proof {
            lemma_blocks_len(kv);
        }
        let mut body: Vec<u8> = Vec::new();
        let mut i: usize = 0;
        assert(kv.subrange(0, 0) =~= Seq::<BlockView>::empty());
        while i < blocks.len()
            invariant
                i <= blocks.len(),
                kv == block_views(blocks@),
                forall|j: int| 0 <= j < kv.len() ==> block_ok(#[trigger] kv[j]),
                body@ == blocks_bytes(kv.subrange(0, i as int)),
            decreases blocks.len() - i,
        {
            let block = &blocks[i];
            let ghost b0 = body@;
            proof {
                assert(kv.subrange(0, i + 1).drop_last() =~= kv.subrange(0, i as int));
                assert(block_ok(kv[i as int]));
            }
            push_u64(&mut body, block.page_id);
            body.push(block.blk_flags);
            push_u16(&mut body, part_len(&block.data) as u16);
            push_part(&mut body, &block.fpi);
            push_part(&mut body, &block.data);
            assert(body@ =~= b0 + block_bytes(kv[i as int]));
            i = i + 1;
        }
        assert(kv.subrange(0, kv.len() as int) =~= kv);
        let main_len: usize = part_len(&main_data);
        let size: usize = RECORD_HEADER + body.len() + main_len + 4;
        let mut rec: Vec<u8> = Vec::new();
        push_u64(&mut rec, lsn);
        push_u32(&mut rec, size as u32);
        rec.push(entry_type.as_byte());
        rec.push(blocks.len() as u8);
        push_u64(&mut rec, txn_id);
        push_u16(&mut rec, main_len as u16);
        push_bytes(&mut rec, body.as_slice());
        push_part(&mut rec, &main_data);
        let ghost v = appended(lsn, entry_type, txn_id, kv, opt_bytes(main_data));
        assert(rec@ =~= body_bytes(v));
        let checksum: u32 = crc32_of(rec.as_slice());
        push_u32(&mut rec, checksum);
        self.pending.append(&mut rec);
        lsn
    }

    /// Logs that a transaction has committed.
    pub fn log_commit(&mut self, txn_id: u64) -> (lsn: u64)
        requires
            old(self).next_lsn < u64::MAX,
        ensures
            lsn == old(self).next_lsn,
            final(self).next_lsn == lsn + 1,
            final(self).flushed_lsn == old(self).flushed_lsn,
            final(self).pending@ == old(self).pending@ + record_bytes(
                appended(lsn, WalRecordType::Commit, txn_id, Seq::empty(), None),
            ),
    {
        let none: Vec<Block> = Vec::new();
        assert(block_views(none@) =~= Seq::<BlockView>::empty());
        self.append(WalRecordType::Commit, txn_id, &none, None)
    }

    /// Logs that a transaction has aborted.
    pub fn log_abort(&mut self, txn_id: u64) -> (lsn: u64)
        requires
            old(self).next_lsn < u64::MAX,
        ensures
            lsn == old(self).next_lsn,
            final(self).next_lsn == lsn + 1,
            final(self).flushed_lsn == old(self).flushed_lsn,
            final(self).pending@ == old(self).pending@ + record_bytes(
                appended(lsn, WalRecordType::Abort, txn_id, Seq::empty(), None),
            ),
    {
        let none: Vec<Block> = Vec::new();
        assert(block_views(none@) =~= Seq::<BlockView>::empty());
        self.append(WalRecordType::Abort, txn_id, &none, None)
    }

    /// Whether a flush has to happen for `lsn` to be durable.
    pub open spec fn needs_flush(&self, lsn: u64) -> bool {
        match self.flushed_lsn {
            Some(f) => lsn > f,
            None => true,
        }
    }

    /// Makes the last record durable, whatever has been asked for before.
    pub fn flush_all(&mut self, out: &mut Outbox)
        requires
            old(self).next_lsn > 0,
        ensures
            final(self).next_lsn == old(self).next_lsn,
            final(out)@ == old(out)@.push(IoView::AppendLog(old(self).pending@)).push(
                IoView::SyncLog,
            ),
            final(self).pending@ == Seq::<u8>::empty(),
            final(self).flushed_lsn == Some((old(self).next_lsn - 1) as u64),
    {
        let mut bytes: Vec<u8> = Vec::new();
        std::mem::swap(&mut bytes, &mut self.pending);
        out.push(IoAction::AppendLog(bytes));
        out.push(IoAction::SyncLog);
        self.flushed_lsn = Some(self.next_lsn - 1);
    }

    /// Makes the records up to and including `lsn` durable: asks the host to
    /// append what is pending and to sync the file, unless `lsn` is durable already.
    pub fn flush_up_to(&mut self, lsn: u64, out: &mut Outbox)
        ensures
            final(self).next_lsn == old(self).next_lsn,
            old(self).needs_flush(lsn) ==> {
                &&& final(out)@ == old(out)@.push(IoView::AppendLog(old(self).pending@)).push(
                    IoView::SyncLog,
                )
                &&& final(self).pending@ == Seq::<u8>::empty()
                &&& final(self).flushed_lsn == Some(lsn)
            },
            !old(self).needs_flush(lsn) ==> {
                &&& *final(out) == *old(out)
                &&& *final(self) == *old(self)
            },
    {
        let needs: bool = match self.flushed_lsn {
            Some(f) => lsn > f,
            None => true,
        };
        if needs {
            let mut bytes: Vec<u8> = Vec::new();
            std::mem::swap(&mut bytes, &mut self.pending);
            out.push(IoAction::AppendLog(bytes));
            out.push(IoAction::SyncLog);
            self.flushed_lsn = Some(lsn);
        }
    }
}

} // verus!
