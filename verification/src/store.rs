//! The pages of a database together with their log: every change is logged
//! under a sequence number, which stamps the pages that it touches. The pages
//! live in the buffer pool and its file.

use vstd::prelude::*;

use crate::bytes::{lemma_zero_ints, pad_to, put, zeros};
use crate::change::{
    all_fit, apply_all, apply_one, apply_to_node, change_views, changed, effect, fits, fits_node,
    lemma_apply_one_wf, lemma_changed_wf, replay, with_lsn, Change, ChangeView, Chunk, LogEntry,
    PageChange, Pages,
};
use crate::codec::{
    decode_node, encode_node, law_node_roundtrip, lemma_node_page_len, node_at, node_page,
};
use crate::constants::{INVALID_FRAME_ID, NUM_SHARDS, PAGE_SIZE};
use crate::disk::{lemma_log_of, log_of, DiskManager, IoAction, IoView};
use crate::history::{
    alike, entry_ok, exact, ids_ok, law_redo_restores, lemma_alike_all, lemma_alike_refl,
    lemma_change_shown, lemma_log_prefix, lemma_log_push, lemma_meta_redo, lemma_note_clean,
    lemma_past_prefix, lemma_past_push, lemma_prefix_page, lemma_shown_stamp, lemma_state_wf,
    lemma_wf_lsn, log_ok, log_records, note_ok, page_in, page_past, present, recoverable, redo_all,
    same_page, shown, shown_at, stamp, state,
};
use crate::index_edit::{flagged, flags};
use crate::index_write::lemma_flags_few;
use crate::log_codec::{
    encode_changes, entry_blocks, entry_main, entry_record, lemma_entry_clean, loggable,
};
use crate::manager::{flush_asked, kept, only_written, rewritten, shard_of, BufferPoolManager};
use crate::meta::{init, law_root_roundtrip, read_root, root_of, set_root, with_root};
use crate::node::{LeafPage, LeafView, Node, NodeView, RecordView};
use crate::overflow_page::{decode_chunk, encode_chunk, law_chunk_roundtrip};
use crate::page::{blank, clear_checksum, lemma_blank, lsn_of, set_lsn, META};
use crate::pool_ops::{
    at_rest, content, drop_page, grown, lemma_at_rest, lemma_content_grown, lemma_content_moved,
    lemma_content_stored, moved, new_id, page_bytes, read_page, solid, stored, write_page,
};
use crate::shard::{
    intact, announced, backed, covered, has_rec_lsn, io_ok, lemma_backed, lemma_same_front, sound,
};
use crate::smo::is_flagged;
use crate::wal::{
    block_views, lemma_log_bytes_add, lemma_log_bytes_push, log_bytes, opt_bytes, parts_ok,
    records_end, records_from, Block, BlockView, Wal, WalRecordType, WalRecordView,
};

verus! {

/// Pages and log.
pub struct PageStore {
    pool: BufferPoolManager,
    /// The pages that the log starts from.
    base: Ghost<Pages>,
    pages: Ghost<Pages>,
    used: Ghost<Set<u64>>,
    log: Ghost<Seq<LogEntry>>,
    /// How many records have been given to the host.
    durable: Ghost<int>,
    /// The log bytes that the host has taken.
    sent: Ghost<Seq<u8>>,
    /// How many records led to the first state that callers have seen.
    since: Ghost<int>,
}

/// Whether a pool holds the pages of a state.
#[verifier::opaque]
pub open spec fn held(m: BufferPoolManager, p: Pages) -> bool {
    forall|id: u64| #[trigger] present(p, id) ==> (m.holds(id) matches Some(b) && exact(p, id, b))
}

/// Whether ids are given out in order, and every page of a state has one.
#[verifier::opaque]
pub open spec fn numbered(m: BufferPoolManager, p: Pages, used: Set<u64>) -> bool {
    &&& m.free_pool@.len() == 0
    &&& m.next_page_id > 0
    &&& forall|id: u64| #[trigger] used.contains(id) ==> 0 < id < m.next_page_id
    &&& forall|id: u64| #[trigger] p.nodes.contains_key(id) ==> used.contains(id)
    &&& forall|id: u64| #[trigger] p.chunks.contains_key(id) ==> used.contains(id)
}

/// Whether a page carries a number that has been given out, or zero.
pub open spec fn known(b: Seq<u8>, next: u64) -> bool {
    lsn_of(b) < next || lsn_of(b) == 0
}

/// Whether bytes are what a page was at some time, under a number that has been
/// given out.
pub open spec fn settled(base: Pages, log: Seq<LogEntry>, next: u64, id: u64, b: Seq<u8>) -> bool {
    page_past(base, log, id, b) && known(b, next)
}

/// Whether every page in the file, and every page that is to be written, is what
/// the page was at some time.
#[verifier::opaque]
pub open spec fn aged(m: BufferPoolManager, base: Pages, log: Seq<LogEntry>) -> bool {
    &&& forall|id: u64|
        settled(base, log, m.wal.next_lsn, id, blank(#[trigger] m.disk.at(id)))
    &&& forall|id: u64| #[trigger]
        m.dirty(id) ==> (m.holds(id) matches Some(b) && settled(
            base,
            log,
            m.wal.next_lsn,
            id,
            b,
        ))
}

/// Whether a log can follow a state, and its numbers have been given out.
#[verifier::opaque]
pub open spec fn follows(next: u64, base: Pages, log: Seq<LogEntry>) -> bool {
    &&& log_ok(base, log)
    &&& ids_ok(log)
    &&& forall|i: int| 0 <= i < log.len() ==> (#[trigger] log[i]).lsn < next
    &&& forall|id: u64| #[trigger] present(base, id) ==> stamp(base, id) < next || stamp(base, id)
        == 0
}

/// Whether a page that waits for the host comes after the records that have changed
/// it: of the log file as it is then, with the bytes before, they are all there.
pub open spec fn in_turn(
    next: u64,
    log: Seq<LogEntry>,
    durable: int,
    sent: Seq<u8>,
    out: Seq<IoView>,
    k: int,
) -> bool {
    out[k] matches IoView::WritePage(_, b) ==> lsn_of(b) == 0 || (lsn_of(b) < next && exists|
        n: int,
    |
        0 <= n <= durable && sent + log_of(out.take(k)) == #[trigger] log_bytes(
            log_records(log).subrange(0, n),
        ) && forall|i: int| n <= i < log.len() ==> lsn_of(b) < (#[trigger] log[i]).lsn)
}

/// Whether all pages that wait for the host come in their turn.
#[verifier::opaque]
pub open spec fn queued(
    next: u64,
    log: Seq<LogEntry>,
    durable: int,
    sent: Seq<u8>,
    out: Seq<IoView>,
) -> bool {
    forall|k: int| 0 <= k < out.len() ==> #[trigger] in_turn(next, log, durable, sent, out, k)
}

/// More records, and more work that writes no page.
proof fn lemma_queued_more(
    next: u64,
    log: Seq<LogEntry>,
    d: int,
    sent: Seq<u8>,
    out: Seq<IoView>,
    next2: u64,
    log2: Seq<LogEntry>,
    d2: int,
    out2: Seq<IoView>,
)
    requires
        queued(next, log, d, sent, out),
        next <= next2,
        log.len() <= log2.len(),
        forall|i: int|
            0 <= i < log2.len() ==> if i < log.len() {
                #[trigger] log2[i] == log[i]
            } else {
                next <= log2[i].lsn
            },
        d <= d2,
        d <= log.len(),
        out.len() <= out2.len(),
        forall|k: int|
            0 <= k < out2.len() ==> if k < out.len() {
                #[trigger] out2[k] == out[k]
            } else {
                !(out2[k] is WritePage)
            },
    ensures
        queued(next2, log2, d2, sent, out2),
{
    reveal(queued);
    assert forall|k: int| 0 <= k < out2.len() implies #[trigger] in_turn(
        next2,
        log2,
        d2,
        sent,
        out2,
        k,
    ) by {
        if out2[k] is WritePage {
            assert(out2[k] == out[k]);
            assert(in_turn(next, log, d, sent, out, k));
            let b = out[k]->WritePage_1;
            if lsn_of(b) != 0 {
                assert(out2.take(k) =~= out.take(k));
                let n = choose|n: int|
                    0 <= n <= d && sent + log_of(out.take(k)) == #[trigger] log_bytes(
                        log_records(log).subrange(0, n),
                    ) && forall|i: int| n <= i < log.len() ==> lsn_of(b) < (#[trigger] log[i]).lsn;
                assert(log_records(log2).subrange(0, n) =~= log_records(log).subrange(0, n)) by {
                    assert forall|i: int| 0 <= i < n implies log_records(log2)[i] == log_records(
                        log,
                    )[i] by {
                        assert(log2[i] == log[i]);
                    }
                }
                assert forall|i: int| n <= i < log2.len() implies lsn_of(b) < (
                #[trigger] log2[i]).lsn by {
                    if i < log.len() {
                        assert(log2[i] == log[i]);
                    }
                }
            }
        }
    }
}

/// Work of the pool.
proof fn lemma_queued_io(
    m0: BufferPoolManager,
    m: BufferPoolManager,
    log: Seq<LogEntry>,
    d: int,
    d2: int,
    sent: Seq<u8>,
)
    requires
        queued(m0.wal.next_lsn, log, d, sent, m0.disk.out@),
        io_ok(m0.disk, m0.wal, m.disk, m.wal),
        0 <= d <= d2 <= log.len(),
        sent + log_of(m0.disk.out@) == log_bytes(log_records(log).subrange(0, d)),
        d2 == log.len() || (d2 == d && m.wal.pending@ == m0.wal.pending@ && m.wal.flushed_lsn
            == m0.wal.flushed_lsn),
        sent + (log_of(m0.disk.out@) + m0.wal.pending@) == log_bytes(log_records(log)),
        m0.wal.flushed_lsn matches Some(f) ==> forall|i: int|
            d <= i < log.len() ==> f < (#[trigger] log[i]).lsn,
        m.wal.flushed_lsn matches Some(g) ==> g < m.wal.next_lsn || g == 0,
    ensures
        queued(m.wal.next_lsn, log, d2, sent, m.disk.out@),
{
    reveal(queued);
    let out = m.disk.out@;
    let out0 = m0.disk.out@;
    let rs = log_records(log);
    assert(rs.subrange(0, rs.len() as int) =~= rs);
    assert forall|k: int| 0 <= k < out.len() implies #[trigger] in_turn(
        m.wal.next_lsn,
        log,
        d2,
        sent,
        out,
        k,
    ) by {
        if k < out0.len() {
            assert(out[k] == out0[k]);
            assert(out.take(k) =~= out0.take(k));
            assert(in_turn(m0.wal.next_lsn, log, d, sent, out0, k));
        } else if out[k] is WritePage {
            let b = out[k]->WritePage_1;
            assert(announced(m0.disk, m0.wal, m.disk, m.wal, k));
            if lsn_of(b) != 0 {
                if log_of(out.take(k)) == log_of(out0) && !m0.wal.needs_flush(lsn_of(b)) {
                    assert(sent + log_of(out.take(k)) == log_bytes(rs.subrange(0, d)));
                } else if d2 == log.len() {
                    assert(sent + log_of(out.take(k)) == log_bytes(rs.subrange(0, rs.len() as int)));
                } else {
                    lemma_all_out(out, k, m.wal.pending@, log_of(out0) + m0.wal.pending@);
                    assert(log_of(out0) + m0.wal.pending@ =~= log_of(out0));
                    assert(sent + log_of(out.take(k)) == log_bytes(rs.subrange(0, d)));
                }
            }
        }
    }
}

/// When all of the log has been handed over at some point, nothing is pending.
proof fn lemma_all_out(out: Seq<IoView>, k: int, pending: Seq<u8>, all: Seq<u8>)
    requires
        0 <= k <= out.len(),
        log_of(out.take(k)) == all,
        log_of(out) + pending == all,
    ensures
        pending.len() == 0,
    decreases out.len() - k,
{
    lemma_log_grows(out, k);
    assert((log_of(out) + pending).len() == log_of(out).len() + pending.len());
}

proof fn lemma_log_grows(out: Seq<IoView>, k: int)
    requires
        0 <= k <= out.len(),
    ensures
        log_of(out.take(k)).len() <= log_of(out).len(),
    decreases out.len(),
{
    if k < out.len() {
        lemma_log_grows(out.drop_last(), k);
        assert(out.drop_last().take(k) =~= out.take(k));
    } else {
        assert(out.take(k) =~= out);
    }
}

/// Whether the host has been given the first `durable` records of a log and the
/// others are pending.
#[verifier::opaque]
pub open spec fn passed_on(
    m: BufferPoolManager,
    log: Seq<LogEntry>,
    durable: int,
    sent: Seq<u8>,
) -> bool {
    &&& 0 <= durable <= log.len()
    &&& m.wal.pending@ == log_bytes(log_records(log).subrange(durable, log.len() as int))
    &&& sent + log_of(m.disk.out@) == log_bytes(log_records(log).subrange(0, durable))
    &&& forall|i: int| durable <= i < log.len() ==> (#[trigger] log[i]).lsn > 0
    &&& m.wal.flushed_lsn matches Some(f) ==> (f < m.wal.next_lsn || f == 0) && forall|i: int|
        durable <= i < log.len() ==> f < (#[trigger] log[i]).lsn
    &&& queued(m.wal.next_lsn, log, durable, sent, m.disk.out@)
}

/// Whether the pages that a log starts from carry no number that comes after its
/// first `since` records.
#[verifier::opaque]
pub open spec fn rooted(base: Pages, log: Seq<LogEntry>, since: int) -> bool {
    forall|id: u64| #[trigger]
        present(base, id) ==> stamp(base, id) == 0 || (0 < since <= log.len() && stamp(base, id)
            <= log[since - 1].lsn)
}

/// Where no page carries a number, it does not matter where a log starts.
proof fn lemma_rooted_zero(next: u64, base: Pages, log: Seq<LogEntry>, since: int)
    requires
        follows(next, base, log),
        next <= 1,
    ensures
        rooted(base, log, since),
{
    reveal(follows);
    reveal(rooted);
}

proof fn lemma_rooted_push(base: Pages, log: Seq<LogEntry>, e: LogEntry, since: int)
    requires
        rooted(base, log, since),
    ensures
        rooted(base, log.push(e), since),
{
    reveal(rooted);
    assert forall|id: u64| #[trigger] present(base, id) implies stamp(base, id) == 0 || (0 < since
        <= log.push(e).len() && stamp(base, id) <= log.push(e)[since - 1].lsn) by {
        if stamp(base, id) != 0 {
            assert(log.push(e)[since - 1] == log[since - 1]);
        }
    }
}

/// Whether a log consists of the record with the number zero.
pub open spec fn single(log: Seq<LogEntry>) -> bool {
    log.len() == 1 && log[0].lsn == 0
}

/// Whether pages are safe: the file verifies, and the log is ahead of it.
#[verifier::opaque]
pub open spec fn guarded(m: BufferPoolManager) -> bool {
    at_rest(m) && sound(m.disk) && covered(m.disk, m.wal)
}

/// How many records the host has been given after some work on the pool.
pub open spec fn durable_after(m0: BufferPoolManager, m: BufferPoolManager, len: int, d: int) -> int {
    if m.wal.pending@ == m0.wal.pending@ && m.wal.flushed_lsn == m0.wal.flushed_lsn {
        d
    } else {
        len
    }
}

/// Where the log has been made durable, all of it has been given to the host.
proof fn lemma_all_given(log: Seq<LogEntry>, d: int, sent: Seq<u8>, a: Seq<u8>, b: Seq<u8>, c: Seq<u8>)
    requires
        0 <= d <= log.len(),
        b == log_bytes(log_records(log).subrange(d, log.len() as int)),
        sent + a == log_bytes(log_records(log).subrange(0, d)),
        c + Seq::<u8>::empty() == a + b,
    ensures
        sent + c == log_bytes(log_records(log).subrange(0, log.len() as int)),
        log_bytes(log_records(log).subrange(log.len() as int, log.len() as int)) == Seq::<
            u8,
        >::empty(),
{
    let rs = log_records(log);
    let n = log.len() as int;
    lemma_log_bytes_add(rs.subrange(0, d), rs.subrange(d, n));
    assert(rs.subrange(0, d) + rs.subrange(d, n) =~= rs.subrange(0, n));
    assert(c + Seq::<u8>::empty() =~= c);
    assert(sent + (a + b) =~= (sent + a) + b);
    assert(rs.subrange(n, n) =~= Seq::empty());
}

proof fn lemma_passed_on(
    m0: BufferPoolManager,
    m: BufferPoolManager,
    log: Seq<LogEntry>,
    d: int,
    sent: Seq<u8>,
)
    requires
        forall|id: u64| #[trigger]
            m0.dirty(id) ==> (m0.holds(id) matches Some(b) && known(b, m0.wal.next_lsn)),
        passed_on(m0, log, d, sent),
        io_ok(m0.disk, m0.wal, m.disk, m.wal),
        flush_asked(m0, m),
    ensures
        passed_on(m, log, durable_after(m0, m, log.len() as int, d), sent),
{
    reveal(passed_on);
    let n = log.len() as int;
    if m.wal.pending@ == m0.wal.pending@ && m.wal.flushed_lsn == m0.wal.flushed_lsn {
        lemma_same_front(log_of(m.disk.out@), log_of(m0.disk.out@), m.wal.pending@);
    } else {
        assert(m.wal.pending@ =~= Seq::<u8>::empty());
        lemma_all_given(
            log,
            d,
            sent,
            log_of(m0.disk.out@),
            m0.wal.pending@,
            log_of(m.disk.out@),
        );
        if m.wal.flushed_lsn != m0.wal.flushed_lsn {
            let id = choose|id: u64|
                #![trigger m0.dirty(id)]
                m0.dirty(id) && m.wal.flushed_lsn == Some(lsn_of(m0.holds(id)->0));
            assert(m0.dirty(id));
            assert(known(m0.holds(id)->0, m0.wal.next_lsn));
        }
    }
    assert(sent + (log_of(m0.disk.out@) + m0.wal.pending@) == log_bytes(log_records(log))) by {
        let rs = log_records(log);
        lemma_log_bytes_add(rs.subrange(0, d), rs.subrange(d, n));
        assert(rs.subrange(0, d) + rs.subrange(d, n) =~= rs);
        assert(sent + (log_of(m0.disk.out@) + m0.wal.pending@) =~= (sent + log_of(m0.disk.out@))
            + m0.wal.pending@);
    }
    lemma_queued_io(m0, m, log, d, durable_after(m0, m, n, d), sent);
}

proof fn lemma_aged_disk(m0: BufferPoolManager, m: BufferPoolManager, base: Pages, log: Seq<LogEntry>)
    requires
        aged(m0, base, log),
        m0.wf(),
        rewritten(m0, m),
        m.wal.next_lsn == m0.wal.next_lsn,
    ensures
        forall|id: u64|
            settled(base, log, m.wal.next_lsn, id, blank(#[trigger] m.disk.at(id))),
{
    reveal(aged);
    assert forall|id: u64|
        settled(base, log, m.wal.next_lsn, id, blank(#[trigger] m.disk.at(id))) by {
        if blank(m.disk.at(id)) != blank(m0.disk.at(id)) {
            assert(m0.holds(id) == Some(blank(m.disk.at(id))));
            if !m0.dirty(id) {
                assert(m0.holds(id) == Some(blank(m0.disk.at(id))));
            }
        }
        assert(settled(base, log, m0.wal.next_lsn, id, blank(m0.disk.at(id))));
    }
}

/// Moving pages between frames and file changes nothing.
proof fn lemma_moved(
    m0: BufferPoolManager,
    m: BufferPoolManager,
    base: Pages,
    p: Pages,
    used: Set<u64>,
    log: Seq<LogEntry>,
    d: int,
    sent: Seq<u8>,
)
    requires
        guarded(m0),
        held(m0, p),
        numbered(m0, p, used),
        aged(m0, base, log),
        passed_on(m0, log, d, sent),
        moved(m0, m) || grown(m0, m),
    ensures
        guarded(m),
        held(m, p),
        moved(m0, m) ==> numbered(m, p, used),
        grown(m0, m) ==> numbered(m, p, used.insert(m0.next_page_id)),
        aged(m, base, log),
        passed_on(m, log, durable_after(m0, m, log.len() as int, d), sent),
        m.wal.next_lsn == m0.wal.next_lsn,
        moved(m0, m) ==> m.next_page_id == m0.next_page_id,
        grown(m0, m) ==> m.next_page_id == m0.next_page_id + 1,
{
    reveal(moved);
    reveal(grown);
    reveal(numbered);
    reveal(aged);
    reveal(held);
    reveal(guarded);
    lemma_at_rest(m0);
    lemma_passed_on(m0, m, log, d, sent);
    lemma_aged_disk(m0, m, base, log);
    assert forall|id: u64| #[trigger] present(p, id) implies (m.holds(id) matches Some(b) && exact(
        p,
        id,
        b,
    )) by {
        assert(m0.holds(id) is Some);
        assert(m.holds(id) == m0.holds(id));
    }
    assert forall|id: u64| #[trigger] m.dirty(id) implies (m.holds(id) matches Some(b) && settled(
        base,
        log,
        m.wal.next_lsn,
        id,
        b,
    )) by {
        assert(m0.dirty(id));
        assert(m.holds(id) == m0.holds(id));
    }
}

/// A page gets new bytes.
proof fn lemma_stored(
    m0: BufferPoolManager,
    m: BufferPoolManager,
    base: Pages,
    p: Pages,
    q: Pages,
    log: Seq<LogEntry>,
    d: int,
    sent: Seq<u8>,
    x: u64,
    b: Seq<u8>,
    used: Set<u64>,
)
    requires
        guarded(m0),
        held(m0, p),
        numbered(m0, q, used),
        aged(m0, base, log),
        passed_on(m0, log, d, sent),
        stored(m0, m, x, b),
        blank(b) == b,
        settled(base, log, m0.wal.next_lsn, x, b),
        forall|id: u64| id != x && #[trigger] present(q, id) ==> same_page(p, q, id),
        present(q, x) ==> exact(q, x, b),
    ensures
        guarded(m),
        held(m, q),
        numbered(m, q, used),
        aged(m, base, log),
        passed_on(m, log, durable_after(m0, m, log.len() as int, d), sent),
        m.wal.next_lsn == m0.wal.next_lsn,
        m.next_page_id == m0.next_page_id,
{
    reveal(stored);
    reveal(numbered);
    reveal(aged);
    reveal(held);
    reveal(guarded);
    lemma_at_rest(m0);
    lemma_passed_on(m0, m, log, d, sent);
    lemma_aged_disk(m0, m, base, log);
    assert forall|id: u64| #[trigger] present(q, id) implies (m.holds(id) matches Some(c) && exact(
        q,
        id,
        c,
    )) by {
        if id != x {
            assert(present(p, id));
            assert(m0.holds(id) is Some);
            assert(m.holds(id) == m0.holds(id));
        }
    }
    assert forall|id: u64| #[trigger] m.dirty(id) implies (m.holds(id) matches Some(c) && settled(
        base,
        log,
        m.wal.next_lsn,
        id,
        c,
    )) by {
        if id != x {
            assert(m0.dirty(id));
            assert(m0.holds(id) is Some);
            assert(m.holds(id) == m0.holds(id));
        }
    }
}

/// The bytes of a page of a state.
proof fn lemma_exact(p: Pages, id: u64, b: Seq<u8>)
    requires
        p.wf(),
        present(p, id),
        exact(p, id, b),
    ensures
        b.len() == PAGE_SIZE,
        blank(b) == b,
        lsn_of(b) == stamp(p, id),
{
    if id != 0 {
        if p.nodes.contains_key(id) {
            law_node_roundtrip(p.nodes[id]);
            lemma_node_page_len(p.nodes[id]);
        } else {
            law_chunk_roundtrip(id, p.chunks[id]);
        }
    }
}

/// A change to a node.
proof fn lemma_node_change(p: Pages, id: u64, c: ChangeView, lsn: u64)
    requires
        p.wf(),
        fits(p, id, c),
        !(c is Image),
        !(c is Chunk),
        !(c is Free),
        !(c is SetRoot),
    ensures
        ({
            let q = apply_one(p, id, c, lsn);
            &&& p.nodes.contains_key(id)
            &&& p.nodes[id].wf()
            &&& present(p, id)
            &&& fits_node(p.nodes[id], c)
            &&& q.wf()
            &&& present(q, id)
            &&& stamp(q, id) == lsn
            &&& exact(p, id, node_page(p.nodes[id]))
            &&& exact(q, id, node_page(with_lsn(changed(p.nodes[id], c), lsn)))
            &&& forall|b: Seq<u8>| exact(p, id, b) ==> b == node_page(p.nodes[id])
            &&& forall|x: u64| x != id && #[trigger] present(q, x) ==> same_page(p, q, x)
        }),
{
    lemma_apply_one_wf(p, id, c, lsn);
    let q = apply_one(p, id, c, lsn);
    assert(q.nodes.contains_key(id));
    assert(q.nodes[id] == with_lsn(changed(p.nodes[id], c), lsn));
    assert(q.nodes[id].wf() && q.nodes[id].page_id() == id);
    assert(p.nodes[id].wf());
}

/// Makes a change to the bytes of a node.
fn changed_page(b: &Vec<u8>, c: &Change, lsn: u64, n: Ghost<NodeView>) -> (r: Vec<u8>)
    requires
        b@.len() == PAGE_SIZE,
        blank(b@) == node_page(n@),
        n@.wf(),
        fits_node(n@, c@),
    ensures
        r@ == node_page(with_lsn(changed(n@, c@), lsn)),
        r@.len() == PAGE_SIZE,
{
    proof {
        law_node_roundtrip(n@);
        lemma_changed_wf(n@, c@);
        lemma_wf_lsn(changed(n@, c@), lsn);
    }
    match decode_node(b) {
        Some(m) => {
            match apply_to_node(m, c, lsn) {
                Some(m) => encode_node(&m),
                None => vstd::pervasive::unreached(),
            }
        },
        None => vstd::pervasive::unreached(),
    }
}

/// What a change makes of a page depends on nothing but the page.
proof fn lemma_same_change(p: Pages, q: Pages, id: u64, c: ChangeView, lsn: u64, b: Seq<u8>)
    requires
        same_page(p, q, id),
        fits(p, id, c),
    ensures
        present(apply_one(p, id, c, lsn), id) == present(apply_one(q, id, c, lsn), id),
        exact(apply_one(p, id, c, lsn), id, b) == exact(apply_one(q, id, c, lsn), id, b),
{
}

/// The flagged pages with ids below `n`.
spec fn flags_below(m: Map<u64, NodeView>, n: int) -> Set<u64> {
    flags(m).filter(|p: u64| p < n)
}

impl PageStore {
    /// The pages as they stand.
    pub closed spec fn pages(&self) -> Pages {
        self.pages@
    }

    /// The pages that the log starts from.
    pub closed spec fn base(&self) -> Pages {
        self.base@
    }

    /// The records logged so far.
    pub closed spec fn log(&self) -> Seq<LogEntry> {
        self.log@
    }

    /// How many records led to the first state that callers have seen.
    pub closed spec fn since(&self) -> int {
        self.since@
    }

    /// How many of the records the host has been given.
    pub closed spec fn durable(&self) -> int {
        self.durable@
    }

    /// The sequence number of the next record.
    pub closed spec fn next_lsn(&self) -> u64 {
        self.pool.wal.next_lsn
    }

    /// The highest number that the log was made durable for.
    pub closed spec fn flushed_lsn(&self) -> Option<u64> {
        self.pool.wal.flushed_lsn
    }

    /// The pages that have been given out.
    pub closed spec fn used(&self) -> Set<u64> {
        self.used@
    }

    /// How many more records and pages there are numbers for.
    pub closed spec fn budget(&self) -> int {
        if self.pool.wal.next_lsn >= self.pool.next_page_id {
            u64::MAX - self.pool.wal.next_lsn
        } else {
            u64::MAX - self.pool.next_page_id
        }
    }

    /// Pool, pages and log fit together.
    closed spec fn joined(&self) -> bool {
        &&& guarded(self.pool)
        &&& self.pages@.wf()
        &&& held(self.pool, self.pages@)
        &&& numbered(self.pool, self.pages@, self.used@)
        &&& aged(self.pool, self.base@, self.log@)
        &&& passed_on(self.pool, self.log@, self.durable@, self.sent@)
        &&& follows(self.pool.wal.next_lsn, self.base@, self.log@)
        &&& 0 <= self.since@ <= self.durable@ <= self.log@.len()
        &&& rooted(self.base@, self.log@, self.since@)
    }

    /// Nothing but the record with the number zero has been logged, and the pages
    /// are those that the log starts from.
    closed spec fn starts(&self) -> bool {
        &&& single(self.log@)
        &&& self.pool.wal.next_lsn == 1
        &&& self.durable@ == 1
        &&& alike(self.pages@, self.base@)
    }

    pub closed spec fn wf(&self) -> bool {
        self.joined() && alike(self.pages@, replay(self.base@, self.log@))
    }

    /// The pages that the log starts from are older than the first state that
    /// callers have seen.
    pub proof fn lemma_rooted(&self)
        requires
            self.wf(),
        ensures
            rooted(self.base(), self.log(), self.since()),
    {
    }

    /// What well-formedness says of the pages.
    pub proof fn lemma_wf(&self)
        requires
            self.wf(),
        ensures
            self.pages().wf(),
            forall|id: u64| #[trigger]
                self.pages().nodes.contains_key(id) ==> self.used().contains(id),
            forall|id: u64| #[trigger]
                self.pages().chunks.contains_key(id) ==> self.used().contains(id),
            !self.used().contains(0),
            alike(self.pages(), replay(self.base(), self.log())),
            0 <= self.since() <= self.durable() <= self.log().len(),
    {
        reveal(numbered);
    }

    /// Whether nothing has changed that callers can see.
    pub open spec fn same(&self, other: &PageStore) -> bool {
        &&& self.pages() == other.pages()
        &&& self.base() == other.base()
        &&& self.log() == other.log()
        &&& self.since() == other.since()
        &&& self.next_lsn() == other.next_lsn()
        &&& self.used() == other.used()
        &&& self.budget() == other.budget()
    }

    /// Whether the log goes on from where another was: it starts from the same
    /// pages, or it is the first record that has been logged.
    pub open spec fn follows_on(&self, other: &PageStore) -> bool {
        if other.next_lsn() > 0 {
            self.base() == other.base() && self.since() == other.since()
        } else {
            other.log().len() == 0 && self.since() == 1
        }
    }

    /// Reads the bytes of a page.
    fn read(&mut self, id: u64) -> (b: Vec<u8>)
        requires
            old(self).joined(),
            present(old(self).pages@, id),
        ensures
            final(self).joined(),
            final(self).same(old(self)),
            old(self).durable@ == old(self).log@.len() ==> final(self).durable@
                == old(self).durable@,
            b@.len() == PAGE_SIZE,
            exact(old(self).pages@, id, blank(b@)),
    {
        let ghost m0 = self.pool;
        proof {
            lemma_readable(m0, self.pages@, self.used@, id);
        }
        let b = read_page(&mut self.pool, id);
        proof {
            lemma_moved(
                m0,
                self.pool,
                self.base@,
                self.pages@,
                self.used@,
                self.log@,
                self.durable@,
                self.sent@,
            );
            self.durable@ = durable_after(m0, self.pool, self.log@.len() as int, self.durable@);
        }
        b
    }

    /// Reads a page of the tree.
    pub fn load(&mut self, id: u64) -> (n: Node)
        requires
            old(self).wf(),
            old(self).pages().nodes.contains_key(id),
        ensures
            final(self).wf(),
            final(self).same(old(self)),
            n@ == old(self).pages().nodes[id],
            n@.wf(),
            n@.page_id() == id,
    {
        assert(present(self.pages@, id));
        let b = self.read(id);
        proof {
            law_node_roundtrip(self.pages@.nodes[id]);
        }
        match decode_node(&b) {
            Some(n) => n,
            None => vstd::pervasive::unreached(),
        }
    }

    /// Whether a page may be one whose split is incomplete. A page that is not in use
    /// may look like one.
    fn looks_flagged(&mut self, id: u64) -> (b: bool)
        requires
            old(self).wf(),
        ensures
            final(self).wf(),
            final(self).same(old(self)),
            final(self).next_page() == old(self).next_page(),
            old(self).pages().nodes.contains_key(id) && flagged(old(self).pages().nodes[id]) ==> b,
    {
        let ghost m0 = self.pool;
        proof {
            reveal(guarded);
            assert(intact(self.pool.disk, id));
        }
        let b = page_bytes(&mut self.pool, id);
        proof {
            lemma_moved(
                m0,
                self.pool,
                self.base@,
                self.pages@,
                self.used@,
                self.log@,
                self.durable@,
                self.sent@,
            );
            self.durable@ = durable_after(m0, self.pool, self.log@.len() as int, self.durable@);
            if self.pages@.nodes.contains_key(id) {
                assert(present(self.pages@, id));
                lemma_readable(m0, self.pages@, self.used@, id);
                law_node_roundtrip(self.pages@.nodes[id]);
            }
        }
        match decode_node(&b) {
            Some(n) => is_flagged(&n),
            None => false,
        }
    }

    /// Counts the pages whose split is incomplete, and those not in use that look as
    /// if theirs were.
    pub fn count_flagged(&mut self) -> (n: u64)
        requires
            old(self).wf(),
        ensures
            final(self).wf(),
            final(self).same(old(self)),
            final(self).next_page() == old(self).next_page(),
            flags(old(self).pages().nodes).len() <= n,
            n <= old(self).next_page(),
    {
        let ghost m = self.pages().nodes;
        let end: u64 = self.next_page_id();
        let mut id: u64 = 0;
        let mut n: u64 = 0;
        proof {
            lemma_flags_few(*self);
            assert(flags_below(m, 0) =~= Set::empty());
        }
        while id < end
            invariant
                self.wf(),
                self.same(old(self)),
                self.next_page() == end,
                end == old(self).next_page(),
                m == old(self).pages().nodes,
                id <= end,
                n <= id,
                flags(m).finite(),
                flags_below(m, id as int).finite(),
                flags_below(m, id as int).len() <= n,
            decreases end - id,
        {
            let more = self.looks_flagged(id);
            proof {
                let s = flags_below(m, id as int);
                let s2 = flags_below(m, id + 1);
                if m.contains_key(id) && flagged(m[id]) {
                    assert(s2 =~= s.insert(id));
                } else {
                    assert(s2 =~= s);
                }
            }
            if more {
                n = n + 1;
            }
            id = id + 1;
        }
        proof {
            self.lemma_next_page();
            self.lemma_wf();
            assert(flags_below(m, end as int) =~= flags(m)) by {
                assert forall|p: u64| #[trigger] flags(m).contains(p) implies p < end by {
                    assert(m.contains_key(p));
                }
            }
        }
        n
    }

    /// Reads a page of an overflow chain.
    pub fn load_chunk(&mut self, id: u64) -> (c: Chunk)
        requires
            old(self).wf(),
            old(self).pages().chunks.contains_key(id),
        ensures
            final(self).wf(),
            final(self).same(old(self)),
            c@ == old(self).pages().chunks[id],
            c@.wf(),
    {
        assert(present(self.pages@, id));
        let b = self.read(id);
        proof {
            law_chunk_roundtrip(id, self.pages@.chunks[id]);
        }
        match decode_chunk(&b) {
            Some(c) => c,
            None => vstd::pervasive::unreached(),
        }
    }

    /// Gives out a page that is not in use.
    pub fn allocate(&mut self) -> (id: u64)
        requires
            old(self).wf(),
            old(self).budget() >= 1,
        ensures
            final(self).wf(),
            !old(self).used().contains(id),
            id != 0,
            final(self).used() == old(self).used().insert(id),
            final(self).pages() == old(self).pages(),
            final(self).base() == old(self).base(),
            final(self).log() == old(self).log(),
            final(self).since() == old(self).since(),
            final(self).next_lsn() == old(self).next_lsn(),
            final(self).budget() >= old(self).budget() - 1,
    {
        let ghost m0 = self.pool;
        proof {
            lemma_guarded(m0);
            reveal(numbered);
        }
        let id = new_id(&mut self.pool);
        proof {
            lemma_moved(
                m0,
                self.pool,
                self.base@,
                self.pages@,
                self.used@,
                self.log@,
                self.durable@,
                self.sent@,
            );
            self.durable@ = durable_after(m0, self.pool, self.log@.len() as int, self.durable@);
            self.used@ = self.used@.insert(id);
        }
        id
    }

    /// Writes the bytes that a page has in a new state; through to the file for
    /// the first record.
    fn put(&mut self, id: u64, b: Vec<u8>, lsn: Option<u64>, first: bool, q: Ghost<Pages>)
        requires
            old(self).joined(),
            first ==> old(self).starts(),
            id < old(self).pool.next_page_id,
            q@.wf(),
            numbered(old(self).pool, q@, old(self).used@),
            b@.len() == PAGE_SIZE,
            present(q@, id),
            exact(q@, id, b@),
            stamp(q@, id) < old(self).next_lsn() || stamp(q@, id) == 0,
            first ==> stamp(q@, id) == 0,
            !first ==> page_past(old(self).base@, old(self).log@, id, b@),
            forall|x: u64| x != id && #[trigger] present(q@, x) ==> same_page(
                old(self).pages@,
                q@,
                x,
            ),
            first ==> forall|x: u64| x != id ==> #[trigger] present(q@, x) == present(
                old(self).pages@,
                x,
            ),
        ensures
            final(self).joined(),
            final(self).pages@ == q@,
            final(self).used@ == old(self).used@,
            final(self).log@ == old(self).log@,
            final(self).since@ == old(self).since@,
            !first ==> final(self).base@ == old(self).base@,
            first ==> final(self).starts(),
            final(self).next_lsn() == old(self).next_lsn(),
            final(self).budget() == old(self).budget(),
            final(self).pool.next_page_id == old(self).pool.next_page_id,
    {
        let ghost m0 = self.pool;
        let ghost bytes = b@;
        proof {
            lemma_exact(q@, id, bytes);
            lemma_guarded(m0);
        }
        write_page(&mut self.pool, id, b, lsn);
        if first {
            let ghost m1 = self.pool;
            proof {
                lemma_stored_rest(m0, m1, id, bytes);
            }
            self.pool.flush_page(id);
            proof {
                lemma_flushed_moved(m1, self.pool);
                lemma_put_through(
                    m0,
                    m1,
                    self.pool,
                    self.base@,
                    self.pages@,
                    q@,
                    self.log@,
                    self.sent@,
                    id,
                    bytes,
                    self.used@,
                );
                self.pages@ = q@;
                self.base@ = q@;
                lemma_alike_refl(q@);
                lemma_rooted_zero(self.pool.wal.next_lsn, q@, self.log@, self.since@);
            }
            return;
        }
        proof {
            lemma_stored(
                m0,
                self.pool,
                self.base@,
                self.pages@,
                q@,
                self.log@,
                self.durable@,
                self.sent@,
                id,
                bytes,
                self.used@,
            );
            self.durable@ = durable_after(m0, self.pool, self.log@.len() as int, self.durable@);
            self.pages@ = q@;
        }
    }

    /// Makes one change; the log is the caller's.
    fn apply(&mut self, id: u64, c: &Change, lsn: u64, first: bool)
        requires
            old(self).joined(),
            first ==> old(self).starts() && lsn == 0,
            fits(old(self).pages@, id, c@),
            c@ is SetRoot || old(self).used@.contains(id),
            lsn < old(self).next_lsn(),
            !first && !(c@ is Free) ==> forall|b: Seq<u8>| #[trigger]
                exact(apply_one(old(self).pages@, id, c@, lsn), id, b) ==> page_past(
                    old(self).base@,
                    old(self).log@,
                    id,
                    b,
                ),
        ensures
            final(self).joined(),
            final(self).pages@ == apply_one(old(self).pages@, id, c@, lsn),
            final(self).used@ == used_after_one(old(self).used@, id, c@),
            final(self).log@ == old(self).log@,
            final(self).since@ == old(self).since@,
            !first ==> final(self).base@ == old(self).base@,
            first ==> final(self).starts(),
            final(self).next_lsn() == old(self).next_lsn(),
            final(self).budget() == old(self).budget(),
    {
        let ghost p0 = self.pages@;
        let ghost q = apply_one(p0, id, c@, lsn);
        proof {
            lemma_apply_one_wf(p0, id, c@, lsn);
            lemma_id_ok(self.pool, p0, self.used@, id);
            if !(c@ is Free) {
                lemma_numbered_change(self.pool, p0, self.used@, id, c@, lsn);
            }
            assert forall|x: u64| x != id && #[trigger] present(q, x) implies same_page(
                p0,
                q,
                x,
            ) by {}
        }
        match c {
            Change::Image(m) => {
                let mut m = m.copy();
                match m {
                    Node::Leaf(ref mut l) => {
                        l.lsn = lsn;
                    },
                    Node::Internal(ref mut p) => {
                        p.lsn = lsn;
                    },
                }
                assert(m@ == q.nodes[id]);
                let b = encode_node(&m);
                assert(exact(q, id, b@));
                self.put(id, b, Some(lsn), first, Ghost(q));
            },
            Change::Chunk(k) => {
                let mut k = k.copy();
                k.lsn = lsn;
                let b = encode_chunk(id, &k);
                assert(exact(q, id, b@));
                self.put(id, b, Some(lsn), first, Ghost(q));
            },
            Change::Free => {
                if first {
                    self.erase(id);
                }
                let ghost p1 = self.pages@;
                let ghost m0 = self.pool;
                proof {
                    lemma_guarded(m0);
                }
                drop_page(&mut self.pool, id);
                proof {
                    lemma_moved(
                        m0,
                        self.pool,
                        self.base@,
                        self.pages@,
                        self.used@,
                        self.log@,
                        self.durable@,
                        self.sent@,
                    );
                    self.durable@ = durable_after(
                        m0,
                        self.pool,
                        self.log@.len() as int,
                        self.durable@,
                    );
                    assert(held(self.pool, q)) by {
                        reveal(held);
                        assert forall|x: u64| #[trigger] present(q, x) implies (self.pool.holds(
                            x,
                        ) matches Some(b) && exact(q, x, b)) by {
                            assert(present(p1, x));
                        }
                    }
                    assert(numbered(self.pool, q, self.used@.remove(id))) by {
                        reveal(numbered);
                    }
                    self.pages@ = q;
                    self.used@ = self.used@.remove(id);
                }
            },
            Change::SetRoot(r) => {
                self.apply_root(*r, lsn, first);
            },
            _ => {
                self.apply_node(id, c, lsn, first);
            },
        }
    }

    /// Writes zeros over a page that the first record gives back.
    fn erase(&mut self, id: u64)
        requires
            old(self).joined(),
            old(self).starts(),
            id < old(self).pool.next_page_id,
            id != 0,
        ensures
            final(self).joined(),
            final(self).starts(),
            final(self).pages@ == apply_one(old(self).pages@, id, ChangeView::Free, 0),
            final(self).used@ == old(self).used@,
            final(self).log@ == old(self).log@,
            final(self).since@ == old(self).since@,
            final(self).next_lsn() == old(self).next_lsn(),
            final(self).budget() == old(self).budget(),
    {
        let ghost m0 = self.pool;
        let ghost q = apply_one(self.pages@, id, ChangeView::Free, 0);
        let mut b: Vec<u8> = Vec::new();
        pad_to(&mut b, PAGE_SIZE);
        let ghost bytes = b@;
        proof {
            assert(bytes =~= zeros(PAGE_SIZE as nat));
            lemma_zero_page();
            lemma_guarded(m0);
            lemma_apply_one_wf(self.pages@, id, ChangeView::Free, 0);
            assert(numbered(m0, q, self.used@)) by {
                reveal(numbered);
            }
        }
        write_page(&mut self.pool, id, b, None);
        let ghost m1 = self.pool;
        proof {
            lemma_stored_rest(m0, m1, id, bytes);
        }
        self.pool.flush_page(id);
        proof {
            lemma_flushed_moved(m1, self.pool);
            lemma_put_through(
                m0,
                m1,
                self.pool,
                self.base@,
                self.pages@,
                q,
                self.log@,
                self.sent@,
                id,
                bytes,
                self.used@,
            );
            self.pages@ = q;
            self.base@ = q;
            lemma_alike_refl(q);
            lemma_rooted_zero(self.pool.wal.next_lsn, q, self.log@, self.since@);
        }
    }

    fn apply_root(&mut self, r: u64, lsn: u64, first: bool)
        requires
            old(self).joined(),
            first ==> old(self).starts() && lsn == 0,
            fits(old(self).pages@, 0, ChangeView::SetRoot(r)),
            lsn < old(self).next_lsn(),
            !first ==> forall|b: Seq<u8>| #[trigger]
                exact(apply_one(old(self).pages@, 0, ChangeView::SetRoot(r), lsn), 0, b)
                    ==> page_past(old(self).base@, old(self).log@, 0, b),
        ensures
            final(self).joined(),
            final(self).pages@ == apply_one(old(self).pages@, 0, ChangeView::SetRoot(r), lsn),
            final(self).used@ == old(self).used@,
            final(self).log@ == old(self).log@,
            final(self).since@ == old(self).since@,
            !first ==> final(self).base@ == old(self).base@,
            first ==> final(self).starts(),
            final(self).next_lsn() == old(self).next_lsn(),
            final(self).budget() == old(self).budget(),
    {
        let ghost p0 = self.pages@;
        let ghost c = ChangeView::SetRoot(r);
        let ghost q = apply_one(p0, 0, c, lsn);
        assert(present(p0, 0));
        let mut b = self.read(0);
        let ghost b0 = b@;
        proof {
            lemma_blank(b0);
        }
        set_root(b.as_mut_slice(), r);
        set_lsn(&mut b, lsn);
        clear_checksum(&mut b);
        proof {
            lemma_meta_redo(b0, r, lsn);
            lemma_apply_one_wf(p0, 0, c, lsn);
            lemma_id_ok(self.pool, p0, self.used@, 0);
            lemma_numbered_change(self.pool, p0, self.used@, 0, c, lsn);
            assert(exact(q, 0, b@));
        }
        self.put(0, b, Some(lsn), first, Ghost(q));
    }

    fn apply_node(&mut self, id: u64, c: &Change, lsn: u64, first: bool)
        requires
            old(self).joined(),
            first ==> old(self).starts() && lsn == 0,
            fits(old(self).pages@, id, c@),
            !(c@ is Image),
            !(c@ is Chunk),
            !(c@ is Free),
            !(c@ is SetRoot),
            old(self).used@.contains(id),
            lsn < old(self).next_lsn(),
            !first ==> forall|b: Seq<u8>| #[trigger]
                exact(apply_one(old(self).pages@, id, c@, lsn), id, b) ==> page_past(
                    old(self).base@,
                    old(self).log@,
                    id,
                    b,
                ),
        ensures
            final(self).joined(),
            final(self).pages@ == apply_one(old(self).pages@, id, c@, lsn),
            final(self).used@ == old(self).used@,
            final(self).log@ == old(self).log@,
            final(self).since@ == old(self).since@,
            !first ==> final(self).base@ == old(self).base@,
            first ==> final(self).starts(),
            final(self).next_lsn() == old(self).next_lsn(),
            final(self).budget() == old(self).budget(),
    {
        let ghost p0 = self.pages@;
        let ghost q = apply_one(p0, id, c@, lsn);
        proof {
            lemma_node_change(p0, id, c@, lsn);
            lemma_id_ok(self.pool, p0, self.used@, id);
        }
        let b = self.read(id);
        let b = changed_page(&b, c, lsn, Ghost(p0.nodes[id]));
        proof {
            lemma_id_ok(self.pool, p0, self.used@, id);
            lemma_numbered_change(self.pool, p0, self.used@, id, c@, lsn);
        }
        self.put(id, b, Some(lsn), first, Ghost(q));
    }

    /// Appends the record with the number zero, and makes it durable.
    fn append_first(
        &mut self,
        kind: WalRecordType,
        txn_id: u64,
        blocks: &Vec<Block>,
        main: Option<Vec<u8>>,
        e: Ghost<LogEntry>,
    )
        requires
            old(self).wf(),
            old(self).next_lsn() == 0,
            old(self).budget() >= 1,
            e@.lsn == 0,
            e@.kind == kind,
            e@.txn_id == txn_id,
            entry_ok(replay(old(self).base@, old(self).log@), e@),
            forall|k: int|
                0 <= k < e@.changes.len() ==> (#[trigger] e@.changes[k]).0 != INVALID_FRAME_ID,
            parts_ok(block_views(blocks@), opt_bytes(main)),
            block_views(blocks@) == entry_blocks(kind, e@.changes),
            opt_bytes(main) == entry_main(kind, e@.changes, e@.main),
        ensures
            final(self).joined(),
            final(self).starts(),
            final(self).next_lsn() == 1,
            final(self).pages@ == old(self).pages@,
            final(self).used@ == old(self).used@,
            final(self).base@ == old(self).base@,
            final(self).since@ == 1,
            old(self).log@.len() == 0,
            final(self).log@ == old(self).log@.push(e@),
            final(self).budget() >= old(self).budget() - 1,
            final(self).durable() == final(self).log().len(),
            final(self).synced(),
    {
        let ghost m0 = self.pool;
        let ghost log0 = self.log@;
        self.pool.wal.append(kind, txn_id, blocks, main);
        let ghost m1 = self.pool;
        self.pool.wal.flush_all(&mut self.pool.disk.out);
        proof {
            let out = self.pool.disk.out;
            assert(out@[out@.len() - 1] == IoView::SyncLog);
            assert(out@[out@.len() - 1] == out.actions@[out@.len() - 1]@);
            lemma_no_records(m0.wal.next_lsn, self.base@, log0);
            assert(log0.push(e@).len() == 1);
            lemma_first_appended(
                m0,
                m1,
                self.pool,
                self.base@,
                self.pages@,
                self.used@,
                log0,
                self.durable@,
                self.sent@,
                e@,
            );
            self.log@ = log0.push(e@);
            self.durable@ = 1;
            self.since@ = 1;
            lemma_rooted_zero(1, self.base@, self.log@, 1);
        }
    }

    /// Appends a record; its changes are the caller's.
    fn append(&mut self, kind: WalRecordType, txn_id: u64, changes: &Vec<PageChange>) -> (lsn: u64)
        requires
            old(self).wf(),
            old(self).next_lsn() > 0,
            old(self).budget() >= 1,
            all_fit(old(self).pages@, change_views(changes@), old(self).next_lsn()),
            loggable(kind, change_views(changes@)),
            forall|i: int|
                0 <= i < changes@.len() ==> (#[trigger] changes@[i]).page_id != INVALID_FRAME_ID,
        ensures
            final(self).joined(),
            lsn == old(self).next_lsn(),
            final(self).next_lsn() == lsn + 1,
            final(self).pages@ == old(self).pages@,
            final(self).used@ == old(self).used@,
            final(self).base@ == old(self).base@,
            final(self).since@ == old(self).since@,
            final(self).log@ == old(self).log@.push(
                LogEntry { lsn, kind, txn_id, changes: change_views(changes@), main: None },
            ),
            replay(final(self).base@, final(self).log@) == apply_all(
                replay(old(self).base@, old(self).log@),
                change_views(changes@),
                lsn,
            ),
            final(self).budget() >= old(self).budget() - 1,
    {
        let ghost cs = change_views(changes@);
        let ghost m0 = self.pool;
        let ghost log0 = self.log@;
        let (blocks, main) = encode_changes(kind, changes);
        let ghost e = LogEntry { lsn: self.pool.wal.next_lsn, kind, txn_id, changes: cs, main: None };
        proof {
            lemma_entry_clean(e);
        }
        let lsn: u64 = self.pool.wal.append(kind, txn_id, &blocks, main);
        proof {
            lemma_alike_all(self.pages@, replay(self.base@, log0), cs, lsn);
            assert forall|i: int, k: int|
                0 <= i < log0.push(e).len() && 0 <= k < log0.push(e)[i].changes.len() implies (
            #[trigger] log0.push(e)[i].changes[k]).0 != INVALID_FRAME_ID by {
                if i == log0.len() {
                    assert(changes@[k].page_id != INVALID_FRAME_ID);
                } else {
                    reveal(follows);
                    assert(log0[i].changes[k].0 != INVALID_FRAME_ID);
                }
            }
            lemma_appended(m0, self.pool, self.base@, self.pages@, self.used@, log0, self.durable@, self.sent@, e);
            lemma_rooted_push(self.base@, log0, e, self.since@);
            self.log@ = log0.push(e);
        }
        lsn
    }

    /// Logs a list of changes as one record and makes them.
    pub fn write(&mut self, kind: WalRecordType, txn_id: u64, changes: &Vec<PageChange>) -> (lsn:
        u64)
        requires
            old(self).wf(),
            old(self).budget() >= 1,
            all_fit(old(self).pages(), change_views(changes@), old(self).next_lsn()),
            all_used(old(self).used(), change_views(changes@)),
            loggable(kind, change_views(changes@)),
        ensures
            final(self).wf(),
            lsn == old(self).next_lsn(),
            final(self).pages() == apply_all(old(self).pages(), change_views(changes@), lsn),
            final(self).used() == used_after(old(self).used(), change_views(changes@)),
            final(self).log() == old(self).log().push(
                LogEntry { lsn, kind, txn_id, changes: change_views(changes@), main: None },
            ),
            final(self).follows_on(old(self)),
            final(self).next_lsn() == lsn + 1,
            final(self).budget() >= old(self).budget() - 1,
    {
        let ghost cs = change_views(changes@);
        let ghost p0 = self.pages@;
        let ghost q0 = replay(self.base@, self.log@);
        proof {
            assert forall|i: int| 0 <= i < changes@.len() implies (
            #[trigger] changes@[i]).page_id != INVALID_FRAME_ID by {
                lemma_prefix_fits(p0, self.used@, cs, self.next_lsn(), i);
                assert(cs[i] == (changes@[i].page_id, changes@[i].change@));
                lemma_used_shrinks(self.used@, cs.subrange(0, i));
                if !(cs[i].1 is SetRoot) {
                    assert(self.used@.contains(cs[i].0));
                    lemma_id_ok(self.pool, p0, self.used@, cs[i].0);
                }
            }
        }
        if self.pool.wal.next_lsn == 0 {
            self.write_first(kind, txn_id, changes);
            return 0;
        }
        let lsn: u64 = self.append(kind, txn_id, changes);
        let ghost s1 = *self;
        let mut i: usize = 0;
        proof {
            assert(cs.subrange(0, 0) =~= Seq::<(u64, ChangeView)>::empty());
            lemma_alike_all(p0, q0, cs, lsn);
        }
        while i < changes.len()
            invariant
                i <= changes.len(),
                cs == change_views(changes@),
                self.joined(),
                loggable(kind, cs),
                all_fit(p0, cs, lsn),
                all_used(s1.used@, cs),
                alike(p0, q0),
                lsn < s1.next_lsn(),
                s1.log@.len() > 0,
                replay(s1.base@, s1.log@) == apply_all(q0, cs, lsn),
                self.pages@ == apply_all(p0, cs.subrange(0, i as int), lsn),
                self.used@ == used_after(s1.used@, cs.subrange(0, i as int)),
                self.log@ == s1.log@,
                self.since@ == s1.since@,
                self.base@ == s1.base@,
                self.next_lsn() == s1.next_lsn(),
                self.budget() == s1.budget(),
            decreases changes.len() - i,
        {
            proof {
                lemma_prefix_fits(p0, s1.used@, cs, lsn, i as int);
                lemma_prefix_page(p0, cs, lsn, i as int);
                assert(cs.subrange(0, i + 1).drop_last() =~= cs.subrange(0, i as int));
                assert(cs[i as int] == (changes@[i as int].page_id, changes@[i as int].change@));
                let id = cs[i as int].0;
                let c = cs[i as int].1;
                let q = apply_one(self.pages@, id, c, lsn);
                if !(c is Free) {
                    assert forall|b: Seq<u8>| #[trigger] exact(q, id, b) implies page_past(
                        self.base@,
                        self.log@,
                        id,
                        b,
                    ) by {
                        lemma_same_change(p0, self.pages@, id, c, lsn, b);
                        lemma_change_shown(p0, q0, cs, lsn, i as int, b);
                        let n = self.log@.len() as int;
                        assert(self.log@.subrange(0, n) =~= self.log@);
                        assert(shown_at(self.base@, self.log@, n, id, b));
                    }
                }
            }
            self.apply(changes[i].page_id, &changes[i].change, lsn, false);
            i = i + 1;
        }
        proof {
            assert(cs.subrange(0, cs.len() as int) =~= cs);
        }
        lsn
    }

    /// Logs a list of changes under the number zero and makes them. Pages that no
    /// record has changed carry that number too, so that redo could not tell
    /// whether a page has seen the record: the pages go to the file right away.
    fn write_first(&mut self, kind: WalRecordType, txn_id: u64, changes: &Vec<PageChange>)
        requires
            old(self).wf(),
            old(self).next_lsn() == 0,
            old(self).budget() >= 1,
            all_fit(old(self).pages@, change_views(changes@), 0),
            all_used(old(self).used@, change_views(changes@)),
            loggable(kind, change_views(changes@)),
            forall|i: int|
                0 <= i < changes@.len() ==> (#[trigger] changes@[i]).page_id != INVALID_FRAME_ID,
        ensures
            final(self).wf(),
            final(self).pages@ == apply_all(old(self).pages@, change_views(changes@), 0),
            final(self).used@ == used_after(old(self).used@, change_views(changes@)),
            old(self).log@.len() == 0,
            final(self).log@ == old(self).log@.push(
                LogEntry { lsn: 0, kind, txn_id, changes: change_views(changes@), main: None },
            ),
            final(self).since@ == 1,
            final(self).next_lsn() == 1,
            final(self).budget() >= old(self).budget() - 1,
    {
        let ghost cs = change_views(changes@);
        let ghost p0 = self.pages@;
        let (blocks, main) = encode_changes(kind, changes);
        let ghost e = LogEntry { lsn: 0, kind, txn_id, changes: cs, main: None };
        proof {
            lemma_entry_clean(e);
            assert forall|k: int| 0 <= k < cs.len() implies (#[trigger] cs[k]).0
                != INVALID_FRAME_ID by {
                assert(changes@[k].page_id != INVALID_FRAME_ID);
            }
        }
        self.append_first(kind, txn_id, &blocks, main, Ghost(e));
        let ghost s1 = *self;
        let mut i: usize = 0;
        proof {
            assert(cs.subrange(0, 0) =~= Seq::<(u64, ChangeView)>::empty());
        }
        while i < changes.len()
            invariant
                i <= changes.len(),
                cs == change_views(changes@),
                self.joined(),
                self.starts(),
                all_fit(p0, cs, 0),
                all_used(s1.used@, cs),
                self.next_lsn() == 1,
                self.pages@ == apply_all(p0, cs.subrange(0, i as int), 0),
                self.used@ == used_after(s1.used@, cs.subrange(0, i as int)),
                self.log@ == s1.log@,
                self.since@ == 1,
                self.budget() == s1.budget(),
            decreases changes.len() - i,
        {
            proof {
                lemma_prefix_fits(p0, s1.used@, cs, 0, i as int);
                assert(cs.subrange(0, i + 1).drop_last() =~= cs.subrange(0, i as int));
                assert(cs[i as int] == (changes@[i as int].page_id, changes@[i as int].change@));
            }
            self.apply(changes[i].page_id, &changes[i].change, 0, true);
            i = i + 1;
        }
        proof {
            assert(cs.subrange(0, cs.len() as int) =~= cs);
            lemma_single_replay(self.base@, self.log@);
        }
    }

    /// Logs one change as a record and makes it.
    pub fn write_one(&mut self, kind: WalRecordType, txn_id: u64, page_id: u64, change: Change) -> (
    lsn: u64)
        requires
            old(self).wf(),
            old(self).budget() >= 1,
            fits(old(self).pages(), page_id, change@),
            change@ is SetRoot || old(self).used().contains(page_id),
            loggable(kind, seq![(page_id, change@)]),
        ensures
            final(self).wf(),
            lsn == old(self).next_lsn(),
            final(self).pages() == apply_one(old(self).pages(), page_id, change@, lsn),
            final(self).used() == used_after_one(old(self).used(), page_id, change@),
            final(self).log() == old(self).log().push(
                LogEntry { lsn, kind, txn_id, changes: seq![(page_id, change@)], main: None },
            ),
            final(self).follows_on(old(self)),
            final(self).next_lsn() == lsn + 1,
            final(self).budget() >= old(self).budget() - 1,
    {
        let ghost c = change@;
        proof {
            lemma_one_change(self.pages(), self.used(), page_id, c, self.next_lsn());
        }
        let mut cs: Vec<PageChange> = Vec::new();
        cs.push(PageChange { page_id, change });
        assert(change_views(cs@) =~= seq![(page_id, c)]);
        self.write(kind, txn_id, &cs)
    }

    // ── Creating and opening ─────────────────────────────────────────────────
    /// A new database: the superblock, and an empty leaf as the root. The leaf is
    /// written before the superblock that names it. Nothing is logged.
    pub fn create() -> (s: PageStore)
        ensures
            s.wf(),
            s.pages() == new_pages(),
            s.base() == new_pages(),
            s.used() == set![1u64],
            s.log() == Seq::<LogEntry>::empty(),
            s.next_lsn() == 0,
            s.since() == 0,
            s.durable() == 0,
            s.budget() == u64::MAX - 2,
            s.next_page() == 2,
    {
        let empty: Vec<u8> = Vec::new();
        proof {
            assert(empty@ =~= Seq::<u8>::empty());
            assert(records_from(empty@, 0) == Seq::<WalRecordView>::empty());
            assert(records_end(empty@, 0) == 0);
        }
        let (wal, _n) = match Wal::new(empty) {
            Ok(r) => r,
            Err(_) => vstd::pervasive::unreached(),
        };
        let disk = DiskManager::new();
        let ghost d0 = disk;
        let ghost w0 = wal;
        let mut pool = BufferPoolManager::new(disk, wal);
        let ghost m1 = pool;
        proof {
            lemma_begun_new(d0, w0, m1);
        }
        let meta_id = new_id(&mut pool);
        let ghost m2 = pool;
        proof {
            lemma_begun_step(m1, m2, Map::empty(), 0, Seq::empty());
            lemma_guarded(m2);
        }
        let root_id = new_id(&mut pool);
        let ghost m3 = pool;
        proof {
            lemma_begun_step(m2, m3, Map::empty(), 0, Seq::empty());
            lemma_guarded(m3);
        }
        let leaf = LeafPage {
            page_id: root_id,
            lsn: 0,
            incomplete_split: false,
            half_dead: false,
            rightlink: None,
            prev_page: None,
            high_key: None,
            entries: Vec::new(),
        };
        proof {
            assert(leaf@.entries =~= Seq::<RecordView>::empty());
            assert(leaf@ == new_leaf());
            lemma_new_leaf();
        }
        let b = encode_node(&Node::Leaf(leaf));
        let ghost lb = b@;
        write_page(&mut pool, root_id, b, None);
        let ghost m4 = pool;
        let ghost c1 = Map::<u64, Seq<u8>>::empty().insert(1, lb);
        proof {
            lemma_begun_step(m3, m4, Map::empty(), 1, lb);
            lemma_guarded(m4);
            lemma_at_rest(m4);
            lemma_stored_facts(m3, m4, 1, lb);
        }
        pool.flush_page(root_id);
        let ghost m5 = pool;
        proof {
            lemma_flushed_moved(m4, m5);
            lemma_begun_step(m4, m5, c1, 0, Seq::empty());
            lemma_guarded(m5);
        }
        let mut b: Vec<u8> = Vec::new();
        pad_to(&mut b, PAGE_SIZE);
        assert(b@ =~= zeros(PAGE_SIZE as nat));
        init(b.as_mut_slice());
        set_root(b.as_mut_slice(), root_id);
        let ghost mb = b@;
        proof {
            lemma_new_meta(mb);
        }
        write_page(&mut pool, meta_id, b, None);
        let ghost m6 = pool;
        proof {
            lemma_begun_step(m5, m6, c1, 0, mb);
            lemma_guarded(m6);
            lemma_at_rest(m6);
            lemma_stored_facts(m5, m6, 0, mb);
        }
        pool.flush_page(meta_id);
        let ghost m7 = pool;
        proof {
            lemma_flushed_moved(m6, m7);
            lemma_begun_step(m6, m7, c1.insert(0, mb), 0, Seq::empty());
            lemma_grown_clean(m1, m2);
            lemma_grown_clean(m2, m3);
            lemma_stored_facts(m3, m4, 1, lb);
            lemma_stored_facts(m5, m6, 0, mb);
            assert(m5.holds(1) == m4.holds(1));
            assert(m6.holds(1) == m5.holds(1));
            assert(m7.holds(1) == m6.holds(1));
            assert(m7.holds(0) == m6.holds(0));
            reveal(begun);
            lemma_no_dirty(m3, m4, m5, m6, m7);
            lemma_created(m7, c1.insert(0, mb), lb, mb);
            lemma_rooted_zero(0, new_pages(), Seq::empty(), 0);
        }
        let ghost used = set![1u64];
        PageStore {
            pool,
            base: Ghost(new_pages()),
            pages: Ghost(new_pages()),
            used: Ghost(used),
            log: Ghost(Seq::empty()),
            durable: Ghost(0),
            sent: Ghost(Seq::empty()),
            since: Ghost(0),
        }
    }

    /// The pages that recovery has restored behind a pool, with the history that
    /// they come from.
    pub(crate) fn open(
        pool: BufferPoolManager,
        Ghost(base): Ghost<Pages>,
        Ghost(log): Ghost<Seq<LogEntry>>,
    ) -> (s: PageStore)
        requires
            reopened(pool, base, log),
        ensures
            s.wf(),
            alike(s.pages(), replay(base, log)),
            s.base() == base,
            s.log() == log,
            s.since() == log.len(),
            s.durable() == log.len(),
            s.next_lsn() == pool.wal.next_lsn,
            forall|id: u64| #[trigger]
                s.used().contains(id) <==> 0 < id < pool.next_page_id,
            s.budget() == if pool.wal.next_lsn >= pool.next_page_id {
                u64::MAX - pool.wal.next_lsn
            } else {
                u64::MAX - pool.next_page_id
            },
    {
        let ghost p = restored_pages(pool, replay(base, log));
        let ghost used = Set::new(|id: u64| 0 < id < pool.next_page_id);
        let ghost sent = log_bytes(log_records(log));
        proof {
            lemma_reopened(pool, base, log);
        }
        PageStore {
            pool,
            base: Ghost(base),
            pages: Ghost(p),
            used: Ghost(used),
            log: Ghost(log),
            durable: Ghost(log.len() as int),
            sent: Ghost(sent),
            since: Ghost(log.len() as int),
        }
    }

    /// The root that the superblock names.
    pub fn root(&mut self) -> (root: u64)
        requires
            old(self).wf(),
        ensures
            final(self).wf(),
            final(self).same(old(self)),
            root == old(self).pages().root,
    {
        assert(present(self.pages@, 0));
        let b = self.read(0);
        proof {
            lemma_blank_root(b@);
        }
        read_root(b.as_slice())
    }

    // ── Records without changes, and durability ──────────────────────────────
    /// Logs a record that changes no page.
    pub fn note(&mut self, kind: WalRecordType, txn_id: u64, main: Option<Vec<u8>>) -> (lsn: u64)
        requires
            old(self).wf(),
            old(self).budget() >= 1,
            note_ok(kind, opt_bytes(main)),
        ensures
            final(self).wf(),
            lsn == old(self).next_lsn(),
            final(self).pages() == old(self).pages(),
            final(self).used() == old(self).used(),
            final(self).log() == old(self).log().push(
                LogEntry { lsn, kind, txn_id, changes: Seq::empty(), main: opt_bytes(main) },
            ),
            final(self).follows_on(old(self)),
            final(self).next_lsn() == lsn + 1,
            final(self).budget() >= old(self).budget() - 1,
            final(self).durable() == old(self).durable() || final(self).synced() && final(self).durable()
                == final(self).log().len(),
    {
        let ghost m0 = self.pool;
        let ghost log0 = self.log@;
        let ghost e = LogEntry {
            lsn: self.pool.wal.next_lsn,
            kind,
            txn_id,
            changes: Seq::empty(),
            main: opt_bytes(main),
        };
        let blocks: Vec<Block> = Vec::new();
        proof {
            lemma_note_clean(e);
            assert(block_views(blocks@) =~= Seq::<BlockView>::empty());
        }
        if self.pool.wal.next_lsn == 0 {
            self.append_first(kind, txn_id, &blocks, main, Ghost(e));
            proof {
                lemma_single_replay(self.base@, self.log@);
            }
            return 0;
        }
        let lsn: u64 = self.pool.wal.append(kind, txn_id, &blocks, main);
        proof {
            reveal(follows);
            assert forall|i: int, k: int|
                0 <= i < log0.push(e).len() && 0 <= k < log0.push(e)[i].changes.len() implies (
            #[trigger] log0.push(e)[i].changes[k]).0 != INVALID_FRAME_ID by {
                assert(i < log0.len());
                assert(log0[i].changes[k].0 != INVALID_FRAME_ID);
            }
            lemma_appended(
                m0,
                self.pool,
                self.base@,
                self.pages@,
                self.used@,
                log0,
                self.durable@,
                self.sent@,
                e,
            );
            lemma_rooted_push(self.base@, log0, e, self.since@);
            self.log@ = log0.push(e);
        }
        lsn
    }

    /// Makes the records up to and including `lsn` durable.
    pub fn flush_log(&mut self, lsn: u64)
        requires
            old(self).wf(),
            lsn < old(self).next_lsn(),
        ensures
            final(self).wf(),
            final(self).same(old(self)),
            forall|i: int|
                0 <= i < final(self).log().len() && (#[trigger] final(self).log()[i]).lsn <= lsn
                    ==> i < final(self).durable(),
            final(self).synced() || final(self).waiting() == old(self).waiting()
                && final(self).durable() == old(self).durable(),
    {
        let ghost m0 = self.pool;
        self.pool.wal.flush_up_to(lsn, &mut self.pool.disk.out);
        proof {
            let out = self.pool.disk.out;
            if m0.wal.needs_flush(lsn) {
                assert(out@[out@.len() - 1] == IoView::SyncLog);
                assert(out@[out@.len() - 1] == out.actions@[out@.len() - 1]@);
            }
        }
        proof {
            lemma_log_flushed(
                m0,
                self.pool,
                self.base@,
                self.pages@,
                self.used@,
                self.log@,
                self.durable@,
                self.sent@,
                lsn,
            );
            if m0.wal.needs_flush(lsn) {
                self.durable@ = self.log@.len() as int;
            } else {
                reveal(passed_on);
            }
        }
    }

    /// Whether the file holds every page as it is.
    pub closed spec fn clean(&self) -> bool {
        forall|id: u64| !(#[trigger] self.pool.dirty(id))
    }

    /// When the file holds every page, redo has nothing to start from.
    pub proof fn law_clean_needs_no_redo(&self, lsn: u64)
        requires
            self.wf(),
            self.clean(),
        ensures
            self.is_redo_point(lsn) <==> lsn == self.next_lsn(),
    {
        lemma_guarded(self.pool);
        lemma_at_rest(self.pool);
        assert forall|i: int, f: int| !(#[trigger] self.awaits_write(i, f)) by {
            if self.awaits_write(i, f) {
                let s = self.pool.shards@[i];
                assert(s.wf(self.pool.disk));
                let id = s.metadata@[f].page_id;
                assert(has_rec_lsn(s.metadata@[f]));
                assert(s.cached(id));
                assert(self.pool.shard(id) == s);
                assert(self.pool.dirty(id));
            }
        }
    }

    /// Writes all changed pages to the file.
    pub fn flush_pages(&mut self)
        requires
            old(self).wf(),
        ensures
            final(self).wf(),
            final(self).same(old(self)),
            final(self).clean(),
            final(self).waiting().len() > 0,
            final(self).waiting().last()@ == IoView::SyncData,
    {
        let ghost m0 = self.pool;
        proof {
            lemma_guarded(m0);
            lemma_at_rest(m0);
        }
        self.pool.flush_all_pages();
        proof {
            let out = self.pool.disk.out;
            assert(out@[out@.len() - 1] == out.actions@[out@.len() - 1]@);
            lemma_flushed_moved(m0, self.pool);
            lemma_moved(
                m0,
                self.pool,
                self.base@,
                self.pages@,
                self.used@,
                self.log@,
                self.durable@,
                self.sent@,
            );
            self.durable@ = durable_after(m0, self.pool, self.log@.len() as int, self.durable@);
        }
    }

    /// Whether a number is that of the oldest record whose page has not been
    /// written since, or the next number if there is no such page.
    pub closed spec fn is_redo_point(&self, lsn: u64) -> bool {
        if exists|i: int, f: int| #[trigger] self.awaits_write(i, f) {
            &&& forall|i: int, f: int| #[trigger]
                self.awaits_write(i, f) ==> lsn <= self.pool.shards@[i].metadata@[f].rec_lsn->0
            &&& exists|i: int, f: int| #[trigger]
                self.awaits_write(i, f) && lsn == self.pool.shards@[i].metadata@[f].rec_lsn->0
        } else {
            lsn == self.next_lsn()
        }
    }

    /// Whether a frame holds a page that a record has changed since it was written.
    closed spec fn awaits_write(&self, i: int, f: int) -> bool {
        &&& 0 <= i < self.pool.shards@.len()
        &&& 0 <= f < self.pool.shards@[i].size()
        &&& has_rec_lsn(self.pool.shards@[i].metadata@[f])
    }

    /// The number that redo has to start from: that of the oldest record whose
    /// page has not been written since, or the next number if there is none.
    pub fn redo_point(&self) -> (lsn: u64)
        requires
            self.wf(),
        ensures
            self.is_redo_point(lsn),
    {
        proof {
            lemma_guarded(self.pool);
            lemma_at_rest(self.pool);
        }
        match self.pool.min_rec_lsn() {
            Some(lsn) => {
                proof {
                    let i = choose|i: int|
                        0 <= i < NUM_SHARDS && (#[trigger] self.pool.shards@[i]).min_rec_lsn == Some(
                            lsn,
                        );
                    let s = self.pool.shards@[i];
                    assert(s.wf(self.pool.disk));
                    let f = choose|f: int|
                        0 <= f < s.metadata@.len() && has_rec_lsn(#[trigger] s.metadata@[f])
                            && s.metadata@[f].rec_lsn == Some(lsn);
                    assert(self.awaits_write(i, f));
                    assert forall|i: int, f: int| #[trigger] self.awaits_write(i, f) implies lsn
                        <= self.pool.shards@[i].metadata@[f].rec_lsn->0 by {
                        assert(has_rec_lsn(self.pool.shards@[i].metadata@[f]));
                    }
                }
                lsn
            },
            None => {
                proof {
                    assert forall|i: int, f: int| !(#[trigger] self.awaits_write(i, f)) by {
                        if self.awaits_write(i, f) {
                            assert(has_rec_lsn(self.pool.shards@[i].metadata@[f]));
                        }
                    }
                }
                self.pool.wal.next_lsn
            },
        }
    }

    /// The first record that has changed the page in a frame since the page was written.
    pub closed spec fn unwritten_since(&self, i: int, f: int) -> Option<u64> {
        if 0 <= i < self.pool.shards@.len() && 0 <= f < self.pool.shards@[i].metadata@.len()
            && self.pool.shards@[i].metadata@[f].is_dirty {
            self.pool.shards@[i].metadata@[f].rec_lsn
        } else {
            None
        }
    }

    /// Redo may start at the redo point: no page has been changed by an earlier record since
    /// it was written. And it cannot start later: the redo point is the number of the first
    /// record that has changed some page since that was written, or the next number if there
    /// is no such page.
    pub proof fn law_redo_starts_early_enough(&self, lsn: u64, i: int, f: int)
        requires
            self.is_redo_point(lsn),
        ensures
            self.unwritten_since(i, f) matches Some(x) ==> lsn <= x,
            (exists|j: int, g: int| #[trigger] self.unwritten_since(j, g) == Some(lsn)) || (lsn
                == self.next_lsn() && forall|j: int, g: int| #[trigger]
                self.unwritten_since(j, g) is None),
    {
        if self.unwritten_since(i, f) is Some {
            assert(self.awaits_write(i, f));
        }
        if exists|j: int, g: int| #[trigger] self.awaits_write(j, g) {
            let (j, g) = choose|j: int, g: int| #[trigger]
                self.awaits_write(j, g) && lsn == self.pool.shards@[j].metadata@[g].rec_lsn->0;
            assert(self.unwritten_since(j, g) == Some(lsn));
        } else {
            assert forall|j: int, g: int| #[trigger] self.unwritten_since(j, g) is None by {
                assert(!self.awaits_write(j, g));
            }
        }
    }

    /// Whether the pool has been told that the last checkpoint has this redo point.
    pub closed spec fn knows_redo_point(&self, redo_point: u64) -> bool {
        forall|i: int|
            0 <= i < NUM_SHARDS ==> (#[trigger] self.pool.shards@[i]).last_checkpoint_redo_point
                == redo_point
    }

    /// Tells the pool the redo point of a checkpoint.
    pub fn note_redo_point(&mut self, redo_point: u64)
        requires
            old(self).wf(),
        ensures
            final(self).wf(),
            final(self).same(old(self)),
            final(self).durable() == old(self).durable(),
            final(self).waiting() == old(self).waiting(),
            final(self).knows_redo_point(redo_point),
    {
        let ghost m0 = self.pool;
        proof {
            lemma_guarded(m0);
            lemma_at_rest(m0);
        }
        self.pool.update_checkpoint_redo_point(redo_point);
        proof {
            lemma_redo_point_noted(
                m0,
                self.pool,
                self.base@,
                self.pages@,
                self.used@,
                self.log@,
                self.durable@,
                self.sent@,
            );
        }
    }

    /// The next page id that will be given out.
    pub closed spec fn next_page(&self) -> u64 {
        self.pool.next_page_id
    }

    /// All pages in use are below the next page id.
    pub proof fn lemma_next_page(&self)
        requires
            self.wf(),
        ensures
            self.next_page() > 0,
            forall|x: u64| #[trigger] self.used().contains(x) ==> x < self.next_page(),
    {
        reveal(numbered);
    }

    /// The next page id that will be given out.
    pub fn next_page_id(&self) -> (id: u64)
        ensures
            id == self.next_page(),
    {
        self.pool.next_page_id()
    }

    /// How many more records and pages there are numbers for.
    pub fn room(&self) -> (n: u64)
        ensures
            n == self.budget(),
    {
        let lsn: u64 = self.pool.wal.next_lsn;
        let id: u64 = self.pool.next_page_id;
        if lsn >= id {
            u64::MAX - lsn
        } else {
            u64::MAX - id
        }
    }

    /// The log.
    pub fn wal(&self) -> (w: &Wal)
        ensures
            w.next_lsn == self.next_lsn(),
            w.flushed_lsn == self.flushed_lsn(),
    {
        &self.pool.wal
    }

    /// Hands the host the file operations that have accumulated, in order.
    pub fn take_actions(&mut self) -> (v: Vec<IoAction>)
        requires
            old(self).wf(),
        ensures
            final(self).wf(),
            final(self).same(old(self)),
            final(self).durable() == old(self).durable(),
            final(self).file() == old(self).file(),
            final(self).log_file() == old(self).log_file(),
            v@ == old(self).waiting(),
            final(self).waiting() == Seq::<IoAction>::empty(),
    {
        let ghost m0 = self.pool;
        let v = self.pool.disk.out.take();
        proof {
            lemma_actions_taken(
                m0,
                self.pool,
                self.base@,
                self.pages@,
                self.used@,
                self.log@,
                self.durable@,
                self.sent@,
            );
            self.sent@ = self.sent@ + log_of(m0.disk.out@);
            assert(log_of(self.pool.disk.out@) =~= Seq::<u8>::empty());
            assert(self.log_file() =~= old(self).log_file());
            assert forall|id: u64| #[trigger] self.pool.disk.at(id) == m0.disk.at(id) by {}
            assert(self.file() =~= old(self).file());
        }
        v
    }

    /// The operations that wait for the host.
    pub closed spec fn waiting(&self) -> Seq<IoAction> {
        self.pool.disk.out.actions@
    }

    /// Whether the last thing that the host is asked for is to make the log durable.
    pub open spec fn synced(&self) -> bool {
        self.waiting().len() > 0 && self.waiting().last()@ == IoView::SyncLog
    }

    /// What the log file holds when the host has done all it was asked for.
    pub closed spec fn log_file(&self) -> Seq<u8> {
        self.sent@ + log_of(self.pool.disk.out@)
    }

    /// What the data file holds when the host has done all it was asked for,
    /// checksums aside.
    pub closed spec fn file(&self) -> Map<u64, Seq<u8>> {
        Map::new(|id: u64| true, |id: u64| blank(self.pool.disk.at(id)))
    }

    /// The data file can be read at any place.
    pub proof fn lemma_file(&self)
        ensures
            forall|id: u64| #[trigger] self.file().contains_key(id),
    {
    }

    /// The log is ahead of the pages: when a page of the file has seen a record,
    /// the host was asked to write that record and all records before it.
    pub proof fn law_log_before_pages(&self, id: u64, i: int)
        requires
            self.wf(),
            0 <= i < self.log().len(),
            self.log()[i].lsn <= lsn_of(self.file()[id]),
        ensures
            i < self.durable(),
    {
        reveal(guarded);
        reveal(passed_on);
        lemma_at_rest(self.pool);
        let b = self.pool.disk.at(id);
        if self.pool.disk.pages@.contains_key(id) {
            lemma_blank(b);
        } else {
            lemma_zero_page();
        }
    }

    /// The bytes of the log file when the host has done the first `k` of the file
    /// operations that wait for it.
    pub closed spec fn log_file_then(&self, k: int) -> Seq<u8> {
        self.sent@ + log_of(self.pool.disk.out@.take(k))
    }

    /// The log goes first: when the host comes to writing a page, the log file has
    /// all records that have changed the page.
    pub proof fn law_log_goes_first(&self, k: int, i: int) -> (n: int)
        requires
            self.wf(),
            0 <= k < self.waiting().len(),
            self.waiting()[k]@ is WritePage,
            lsn_of(self.waiting()[k]@->WritePage_1) > 0,
            0 <= i < self.log().len(),
            self.log()[i].lsn <= lsn_of(self.waiting()[k]@->WritePage_1),
        ensures
            i < n <= self.durable(),
            self.log_file_then(k) == log_bytes(log_records(self.log()).subrange(0, n)),
    {
        reveal(passed_on);
        reveal(queued);
        let out = self.pool.disk.out@;
        let log = self.log();
        assert(out[k] == self.waiting()[k]@);
        assert(in_turn(self.next_lsn(), log, self.durable(), self.sent@, out, k));
        let b = out[k]->WritePage_1;
        choose|n: int|
            0 <= n <= self.durable() && self.sent@ + log_of(out.take(k)) == #[trigger] log_bytes(
                log_records(log).subrange(0, n),
            ) && forall|j: int| n <= j < log.len() ==> lsn_of(b) < (#[trigger] log[j]).lsn
    }

    /// The log survives as far as the host was asked to write it: redoing it on
    /// the pages of the file, whatever of the log each of them has seen, gives the
    /// pages as they were when the last of those records had been made.
    pub proof fn law_crash_recovery(&self)
        requires
            self.wf(),
        ensures
            0 <= self.durable() <= self.log().len(),
            log_ok(self.base(), self.log().subrange(0, self.durable())),
            ids_ok(self.log().subrange(0, self.durable())),
            recoverable(
                self.base(),
                self.log().subrange(0, self.durable()),
                self.file(),
            ),
            self.log_file() == log_bytes(log_records(self.log().subrange(0, self.durable()))),
            ({
                let given = self.log().subrange(0, self.durable());
                let redone = redo_all(self.file(), log_records(given));
                &&& redone is Some
                &&& forall|id: u64|
                    #![trigger page_in(redone->0, id)]
                    present(replay(self.base(), given), id) ==> shown(
                        replay(self.base(), given),
                        id,
                        page_in(redone->0, id),
                    )
            }),
    {
        reveal(follows);
        reveal(passed_on);
        reveal(guarded);
        reveal(aged);
        let d = self.durable();
        let given = self.log().subrange(0, d);
        lemma_at_rest(self.pool);
        lemma_log_prefix(self.base(), self.log(), d);
        assert forall|id: u64| page_past(self.base(), given, id, #[trigger] page_in(
            self.file(),
            id,
        )) by {
            let b = blank(self.pool.disk.at(id));
            assert(settled(self.base(), self.log(), self.pool.wal.next_lsn, id, b));
            if self.pool.disk.pages@.contains_key(id) {
                lemma_blank(self.pool.disk.at(id));
                lemma_past_prefix(self.base(), self.log(), d, id, b);
            } else {
                lemma_hole_past(self.base(), self.log(), d, id);
            }
        }
        law_redo_restores(self.base(), given, self.file());
        assert(log_records(given) =~= log_records(self.log()).subrange(0, d));
    }
}

/// The root of a new database.
pub open spec fn new_leaf() -> LeafView {
    LeafView {
        page_id: 1,
        lsn: 0,
        incomplete_split: false,
        half_dead: false,
        rightlink: None,
        prev_page: None,
        high_key: None,
        entries: Seq::empty(),
    }
}

/// The pages of a new database.
pub open spec fn new_pages() -> Pages {
    Pages {
        nodes: map![1u64 => NodeView::Leaf(new_leaf())],
        chunks: Map::empty(),
        root: 1,
        root_lsn: 0,
    }
}

proof fn lemma_new_leaf()
    ensures
        NodeView::Leaf(new_leaf()).wf(),
        lsn_of(node_page(NodeView::Leaf(new_leaf()))) == 0,
        blank(node_page(NodeView::Leaf(new_leaf()))) == node_page(NodeView::Leaf(new_leaf())),
{
    law_node_roundtrip(NodeView::Leaf(new_leaf()));
}

proof fn lemma_new_meta(b: Seq<u8>)
    requires
        b == with_root(put(zeros(PAGE_SIZE as nat), 0, seq![META]), 1),
    ensures
        b.len() == PAGE_SIZE,
        b[0] == META,
        root_of(b) == 1,
        lsn_of(b) == 0,
        blank(b) == b,
{
    let z = zeros(PAGE_SIZE as nat);
    let a = put(z, 0, seq![META]);
    law_root_roundtrip(a, 1);
    lemma_zero_ints(z, 16);
    assert(a[0] == META);
    crate::bytes::lemma_le(0, 0, 1);
    assert forall|i: int| 16 <= i < 24 implies b[i] == z[i] by {}
    assert(blank(b) =~= b);
}

/// What holds while the pages of a new database are made: the pool holds them,
/// and no record has changed any.
#[verifier::opaque]
spec fn begun(m: BufferPoolManager, c: Map<u64, Seq<u8>>) -> bool {
    &&& guarded(m)
    &&& m.wal.next_lsn == 0
    &&& m.wal.flushed_lsn matches Some(f) ==> f == 0
    &&& m.wal.pending@.len() == 0
    &&& log_of(m.disk.out@).len() == 0
    &&& backed(m.disk, m.wal)
    &&& m.free_pool@.len() == 0
    &&& forall|id: u64| #[trigger] content(m, id) == page_in(c, id)
    &&& forall|id: u64| lsn_of(#[trigger] page_in(c, id)) == 0
}

proof fn lemma_zero_page()
    ensures
        lsn_of(zeros(PAGE_SIZE as nat)) == 0,
        blank(zeros(PAGE_SIZE as nat)) == zeros(PAGE_SIZE as nat),
{
    lemma_blank_zeros();
    lemma_zero_ints(zeros(PAGE_SIZE as nat), 16);
}

proof fn lemma_begun_new(d: DiskManager, w: Wal, m: BufferPoolManager)
    requires
        d.wf(),
        d.num_pages == 0,
        d.out@ == Seq::<IoView>::empty(),
        w.next_lsn == 0,
        w.flushed_lsn is None,
        w.pending@.len() == 0,
        m.wal.flushed_lsn == w.flushed_lsn,
        m.wf(),
        m.next_page_id == 0,
        m.free_pool@ == Seq::<u64>::empty(),
        io_ok(d, w, m.disk, m.wal),
        forall|id: u64| #[trigger] m.pins(id) == 0,
        m.disk.num_pages == 0,
        forall|id: u64| #[trigger] m.disk.at(id) == d.at(id),
    ensures
        begun(m, Map::empty()),
        at_rest(m),
{
    reveal(begun);
    reveal(guarded);
    reveal(at_rest);
    lemma_zero_page();
    lemma_backed(d, w, m.disk, m.wal);
    let c = Map::<u64, Seq<u8>>::empty();
    assert forall|id: u64| #[trigger] content(m, id) == page_in(c, id) by {
        lemma_new_clean(m, id);
        assert(m.disk.at(id) == d.at(id));
        assert(!d.pages@.contains_key(id));
    }
    assert(log_of(m.disk.out@) + m.wal.pending@ == log_of(d.out@) + w.pending@);
    assert(m.wal.pending@ =~= Seq::<u8>::empty());
    assert(w.pending@ =~= Seq::<u8>::empty());
    assert(log_of(m.disk.out@) + Seq::<u8>::empty() =~= log_of(m.disk.out@));
    assert(log_of(d.out@) =~= Seq::<u8>::empty());
}

proof fn lemma_new_clean(m: BufferPoolManager, id: u64)
    requires
        m.wf(),
        m.next_page_id == 0,
    ensures
        !m.dirty(id),
{
    assert(id & crate::constants::SHARD_MASK < 8) by (bit_vector);
    if m.dirty(id) {
        assert(m.shards@[shard_of(id)].cached(id));
    }
}

proof fn lemma_begun_step(
    m0: BufferPoolManager,
    m: BufferPoolManager,
    c: Map<u64, Seq<u8>>,
    x: u64,
    b: Seq<u8>,
)
    requires
        begun(m0, c),
        moved(m0, m) || grown(m0, m) || (stored(m0, m, x, b) && blank(b) == b && lsn_of(b) == 0),
    ensures
        guarded(m),
        m.free_pool@.len() == 0,
        moved(m0, m) || grown(m0, m) ==> begun(m, c),
        stored(m0, m, x, b) && blank(b) == b && lsn_of(b) == 0 ==> begun(m, c.insert(x, b)),
        moved(m0, m) || stored(m0, m, x, b) ==> m.next_page_id == m0.next_page_id,
        grown(m0, m) ==> m.next_page_id == m0.next_page_id + 1,
{
    reveal(begun);
    reveal(guarded);
    reveal(moved);
    reveal(grown);
    reveal(stored);
    let e = Seq::<u8>::empty();
    assert(flush_asked(m0, m));
    lemma_backed(m0.disk, m0.wal, m.disk, m.wal);
    if m.wal.flushed_lsn != m0.wal.flushed_lsn {
        let id = choose|id: u64|
            #![trigger m0.dirty(id)]
            m0.dirty(id) && m.wal.flushed_lsn == Some(lsn_of(m0.holds(id)->0));
        assert(content(m0, id) == page_in(c, id));
        assert(m0.holds(id)->0 == content(m0, id));
    }
    assert(m.wal.pending@ =~= e);
    assert(m0.wal.pending@ =~= e);
    assert(log_of(m.disk.out@) + e =~= log_of(m.disk.out@));
    assert(log_of(m0.disk.out@) + e =~= log_of(m0.disk.out@));
    if moved(m0, m) {
        lemma_content_moved(m0, m);
    }
    if grown(m0, m) {
        lemma_content_grown(m0, m);
    }
    if stored(m0, m, x, b) {
        lemma_content_stored(m0, m, x, b);
        let c2 = c.insert(x, b);
        assert forall|id: u64| #[trigger] page_in(c2, id) == (if id == x {
            b
        } else {
            page_in(c, id)
        }) by {}
    }
    if moved(m0, m) || grown(m0, m) {
        assert forall|id: u64| #[trigger] content(m, id) == page_in(c, id) by {
            assert(content(m, id) == content(m0, id));
        }
    }
}

proof fn lemma_grown_clean(m0: BufferPoolManager, m: BufferPoolManager)
    requires
        grown(m0, m),
        forall|id: u64| !(#[trigger] m0.dirty(id)),
    ensures
        forall|id: u64| !(#[trigger] m.dirty(id)),
{
    reveal(grown);
}

proof fn lemma_stored_facts(m0: BufferPoolManager, m: BufferPoolManager, x: u64, b: Seq<u8>)
    requires
        stored(m0, m, x, b),
    ensures
        forall|id: u64| #[trigger] m.dirty(id) ==> m0.dirty(id) || id == x,
        m.dirty(x),
        m.holds(x) is Some,
        forall|id: u64|
            id != x && m0.holds(id) is Some ==> #[trigger] m.holds(id) == m0.holds(id),
{
    reveal(stored);
}

/// Both pages have been written.
proof fn lemma_no_dirty(
    m3: BufferPoolManager,
    m4: BufferPoolManager,
    m5: BufferPoolManager,
    m6: BufferPoolManager,
    m7: BufferPoolManager,
)
    requires
        forall|id: u64| !(#[trigger] m3.dirty(id)),
        forall|id: u64| #[trigger] m4.dirty(id) ==> m3.dirty(id) || id == 1,
        forall|id: u64| #[trigger] m5.dirty(id) ==> m4.dirty(id),
        !m5.dirty(1),
        forall|id: u64| #[trigger] m6.dirty(id) ==> m5.dirty(id) || id == 0,
        forall|id: u64| #[trigger] m7.dirty(id) ==> m6.dirty(id),
        !m7.dirty(0),
    ensures
        forall|id: u64| !(#[trigger] m7.dirty(id)),
{
    assert forall|id: u64| !(#[trigger] m7.dirty(id)) by {
        if m7.dirty(id) {
            assert(m6.dirty(id));
            assert(m5.dirty(id));
            assert(m4.dirty(id));
            assert(m3.dirty(id));
        }
    }
}

/// The pages of a new database are in place.
proof fn lemma_created(m: BufferPoolManager, c: Map<u64, Seq<u8>>, lb: Seq<u8>, mb: Seq<u8>)
    requires
        begun(m, c),
        c == Map::<u64, Seq<u8>>::empty().insert(1, lb).insert(0, mb),
        lb == node_page(NodeView::Leaf(new_leaf())),
        mb.len() == PAGE_SIZE,
        mb[0] == META,
        root_of(mb) == 1,
        lsn_of(mb) == 0,
        blank(mb) == mb,
        forall|id: u64| !(#[trigger] m.dirty(id)),
        m.holds(0) is Some,
        m.holds(1) is Some,
        m.next_page_id == 2,
    ensures
        guarded(m),
        new_pages().wf(),
        held(m, new_pages()),
        numbered(m, new_pages(), set![1u64]),
        aged(m, new_pages(), Seq::empty()),
        passed_on(m, Seq::empty(), 0, Seq::empty()),
        follows(0, new_pages(), Seq::empty()),
        replay(new_pages(), Seq::empty()) == new_pages(),
        alike(new_pages(), new_pages()),
{
    reveal(begun);
    let p = new_pages();
    let log = Seq::<LogEntry>::empty();
    lemma_alike_refl(p);
    lemma_new_leaf();
    lemma_zero_page();
    assert(p.nodes.dom() =~= set![1u64]);
    assert(p.wf());
    assert(log.subrange(0, 0) =~= Seq::<LogEntry>::empty());
    assert(state(p, log, 0) == p);
    assert(held(m, p)) by {
        reveal(held);
        assert forall|id: u64| #[trigger] present(p, id) implies (m.holds(id) matches Some(b)
            && exact(p, id, b)) by {
            assert(id == 0 || id == 1);
            assert(!m.dirty(id));
            assert(content(m, id) == page_in(c, id));
        }
    }
    assert(numbered(m, p, set![1u64])) by {
        reveal(numbered);
    }
    assert(aged(m, p, log)) by {
        reveal(aged);
        assert forall|id: u64|
            settled(p, log, m.wal.next_lsn, id, blank(#[trigger] m.disk.at(id))) by {
            assert(!m.dirty(id));
            assert(content(m, id) == page_in(c, id));
            let b = page_in(c, id);
            if id == 1 {
                assert(NodeView::Leaf(new_leaf()) == p.nodes[1]);
                assert(shown(p, 1, b));
                assert(shown_at(p, log, 0, id, b));
            } else if id == 0 {
                assert(shown(p, 0, b));
                assert(shown_at(p, log, 0, id, b));
            }
        }
    }
    assert(passed_on(m, log, 0, Seq::empty())) by {
        reveal(passed_on);
        let rs = log_records(log);
        assert(rs.subrange(0, 0) =~= Seq::<WalRecordView>::empty());
        assert(m.wal.pending@ =~= Seq::<u8>::empty());
        assert(log_bytes(Seq::<WalRecordView>::empty()) =~= Seq::<u8>::empty());
        assert(Seq::<u8>::empty() + log_of(m.disk.out@) =~= Seq::<u8>::empty());
        assert(queued(0, log, 0, Seq::empty(), m.disk.out@)) by {
            reveal(queued);
            reveal(begun);
        }
    }
    assert(follows(0, p, log)) by {
        reveal(follows);
    }
}

/// Where no number has been given out, nothing has been logged.
proof fn lemma_no_records(next: u64, base: Pages, log: Seq<LogEntry>)
    requires
        follows(next, base, log),
        next == 0,
    ensures
        log.len() == 0,
{
    reveal(follows);
    if log.len() > 0 {
        assert(log[0].lsn < next);
    }
}

/// The record with the number zero is not redone.
proof fn lemma_single_replay(base: Pages, log: Seq<LogEntry>)
    requires
        single(log),
    ensures
        replay(base, log) == base,
        forall|k: int| 0 <= k <= 1 ==> #[trigger] state(base, log, k) == base,
{
    assert(log.drop_last() =~= Seq::<LogEntry>::empty());
    assert(log.subrange(0, 0) =~= Seq::<LogEntry>::empty());
    assert(log.subrange(0, 1) =~= log);
    assert(replay(base, Seq::<LogEntry>::empty()) == base);
    assert(apply_all(base, effect(log.last()), 0) == base);
}

/// The record with the number zero has been appended and made durable.
proof fn lemma_first_appended(
    m0: BufferPoolManager,
    m1: BufferPoolManager,
    m: BufferPoolManager,
    base: Pages,
    p: Pages,
    used: Set<u64>,
    log: Seq<LogEntry>,
    d: int,
    sent: Seq<u8>,
    e: LogEntry,
)
    requires
        guarded(m0),
        held(m0, p),
        numbered(m0, p, used),
        aged(m0, base, log),
        passed_on(m0, log, d, sent),
        follows(0, base, log),
        alike(p, replay(base, log)),
        entry_ok(replay(base, log), e),
        e.lsn == 0,
        log.len() == 0,
        m0.wal.next_lsn == 0,
        forall|k: int| 0 <= k < e.changes.len() ==> (#[trigger] e.changes[k]).0 != INVALID_FRAME_ID,
        log_only(m0, m1),
        m1.wal.next_lsn == 1,
        m1.wal.pending@ == m0.wal.pending@ + crate::wal::record_bytes(entry_record(e)),
        m.shards == m1.shards,
        m.disk.pages == m1.disk.pages,
        m.disk.num_pages == m1.disk.num_pages,
        m.next_page_id == m1.next_page_id,
        m.free_pool == m1.free_pool,
        m.wal.next_lsn == 1,
        m.disk.out@ == m1.disk.out@.push(IoView::AppendLog(m1.wal.pending@)).push(IoView::SyncLog),
        m.wal.pending@ == Seq::<u8>::empty(),
        m.wal.flushed_lsn == Some(0u64),
    ensures
        guarded(m),
        held(m, p),
        numbered(m, p, used),
        aged(m, base, log.push(e)),
        passed_on(m, log.push(e), 1, sent),
        follows(1, base, log.push(e)),
        alike(p, base),
        single(log.push(e)),
{
    let l2 = log.push(e);
    lemma_log_only(m0, m1, p, used);
    assert(ids_ok(l2));
    lemma_follows_push(0, base, log, e);
    lemma_aged_push(m0, m1, base, log, e);
    lemma_out_only(m1, m, base, p, used, l2);
    assert(guarded(m)) by {
        reveal(guarded);
        lemma_out_rest(m1, m);
        assert forall|id: u64| #[trigger] m.disk.at(id) == m1.disk.at(id) by {}
        assert forall|id: u64| #[trigger] intact(m.disk, id) by {
            assert(intact(m1.disk, id));
        }
        assert forall|id: u64| #[trigger] m.disk.pages@.contains_key(id) implies (lsn_of(
            m.disk.at(id),
        ) == 0 || (m.wal.flushed_lsn matches Some(f) && lsn_of(m.disk.at(id)) <= f)) by {
            assert(m1.disk.pages@.contains_key(id));
            reveal(passed_on);
        }
    }
    assert(passed_on(m, l2, 1, sent)) by {
        reveal(passed_on);
        let o = m1.disk.out@;
        let a = IoView::AppendLog(m1.wal.pending@);
        let r = entry_record(e);
        lemma_log_of(o, a);
        lemma_log_of(o.push(a), IoView::SyncLog);
        let none = Seq::<WalRecordView>::empty();
        assert(log_records(log) =~= none);
        assert(log_records(log).subrange(0, 0) =~= none);
        assert(log_records(l2) =~= none.push(r));
        assert(log_records(l2).subrange(0, 1) =~= none.push(r));
        assert(log_records(l2).subrange(1, 1) =~= none);
        lemma_log_bytes_push(none, r);
        assert(log_bytes(none) =~= Seq::<u8>::empty());
        assert(m0.wal.pending@ =~= Seq::<u8>::empty());
        assert(sent + log_of(m.disk.out@) =~= (sent + log_of(o)) + m1.wal.pending@);
        assert(sent + log_of(o) =~= Seq::<u8>::empty());
        lemma_queued_more(0, log, 0, sent, o, 1, l2, 1, m.disk.out@);
    }
}

/// What a pool is like when a page has got new bytes.
proof fn lemma_stored_rest(m0: BufferPoolManager, m: BufferPoolManager, x: u64, b: Seq<u8>)
    requires
        stored(m0, m, x, b),
    ensures
        at_rest(m),
        m.wf(),
        m.dirty(x),
{
    reveal(stored);
    lemma_at_rest(m);
}

/// A page has got new bytes, and they have been written to the file.
proof fn lemma_put_through(
    m0: BufferPoolManager,
    m1: BufferPoolManager,
    m: BufferPoolManager,
    base: Pages,
    p: Pages,
    q: Pages,
    log: Seq<LogEntry>,
    sent: Seq<u8>,
    x: u64,
    b: Seq<u8>,
    used: Set<u64>,
)
    requires
        guarded(m0),
        held(m0, p),
        numbered(m0, q, used),
        aged(m0, base, log),
        passed_on(m0, log, 1, sent),
        follows(m0.wal.next_lsn, base, log),
        m0.wal.next_lsn == 1,
        single(log),
        alike(p, base),
        q.wf(),
        stored(m0, m1, x, b),
        moved(m1, m),
        !m.dirty(x),
        b.len() == PAGE_SIZE,
        blank(b) == b,
        lsn_of(b) == 0,
        forall|id: u64| id != x && #[trigger] present(q, id) ==> same_page(p, q, id),
        forall|id: u64| id != x ==> #[trigger] present(q, id) == present(p, id),
        present(q, x) ==> exact(q, x, b) && stamp(q, x) == 0,
        !present(q, x) ==> b == zeros(PAGE_SIZE as nat),
    ensures
        guarded(m),
        held(m, q),
        numbered(m, q, used),
        aged(m, q, log),
        passed_on(m, log, 1, sent),
        follows(m.wal.next_lsn, q, log),
        m.wal.next_lsn == m0.wal.next_lsn,
        m.next_page_id == m0.next_page_id,
{
    let next = m0.wal.next_lsn;
    lemma_single_replay(base, log);
    lemma_single_replay(q, log);
    lemma_zero_page();
    lemma_content_stored(m0, m1, x, b);
    lemma_content_moved(m1, m);
    assert(content(m, x) == content(m1, x));
    assert(blank(m.disk.at(x)) == b);
    assert(follows(next, q, log)) by {
        reveal(follows);
        assert forall|id: u64| #[trigger] present(q, id) implies stamp(q, id) == 0 by {
            if id != x {
                assert(present(p, id) && same_page(p, q, id));
                assert(present(base, id));
                assert(stamp(q, id) == stamp(base, id));
            }
        }
    }
    lemma_through_pool(m0, m1, m, p, q, x, b, used, next);
    assert forall|id: u64| #[trigger] m1.dirty(id) implies (m1.holds(id) matches Some(c) && known(
        c,
        next,
    )) by {
        reveal(stored);
        reveal(aged);
        if id != x {
            assert(m0.dirty(id));
            assert(m1.holds(id) == m0.holds(id));
        }
    }
    assert(passed_on(m1, log, 1, sent)) by {
        reveal(stored);
        reveal(aged);
        lemma_passed_on(m0, m1, log, 1, sent);
    }
    assert(passed_on(m, log, 1, sent)) by {
        reveal(stored);
        reveal(moved);
        lemma_passed_on(m1, m, log, 1, sent);
    }
    assert(aged(m, q, log)) by {
        reveal(aged);
        assert forall|id: u64| settled(q, log, next, id, blank(#[trigger] m.disk.at(id))) by {
            if id == x {
                lemma_through_shown(p, base, q, log, x, b);
            } else {
                lemma_through_disk(m0, m1, m, base, log, x, b, id);
                lemma_rebased(p, base, q, log, id, blank(m.disk.at(id)));
            }
        }
        assert forall|id: u64| #[trigger] m.dirty(id) implies (m.holds(id) matches Some(c)
            && settled(q, log, next, id, c)) by {
            assert(m1.dirty(id) && m0.dirty(id) && m.holds(id) == m0.holds(id) && id != x) by {
                reveal(stored);
                reveal(moved);
            }
            lemma_rebased(p, base, q, log, id, m.holds(id)->0);
        }
    }
}

/// The page itself.
proof fn lemma_through_shown(p: Pages, base: Pages, q: Pages, log: Seq<LogEntry>, x: u64, b: Seq<u8>)
    requires
        single(log),
        present(q, x) ==> exact(q, x, b),
        !present(q, x) ==> b == zeros(PAGE_SIZE as nat),
    ensures
        page_past(q, log, x, b),
{
    lemma_single_replay(q, log);
    if present(q, x) {
        lemma_alike_refl(q);
        crate::history::lemma_exact_shown(q, q, x, b);
        assert(shown_at(q, log, 0, x, b));
    }
}

/// Another page.
proof fn lemma_rebased(p: Pages, base: Pages, q: Pages, log: Seq<LogEntry>, id: u64, b: Seq<u8>)
    requires
        single(log),
        alike(p, base),
        page_past(base, log, id, b),
        present(q, id) == present(p, id),
        present(q, id) ==> same_page(p, q, id),
    ensures
        page_past(q, log, id, b),
{
    lemma_single_replay(base, log);
    lemma_single_replay(q, log);
    if exists|k: int| #[trigger] shown_at(base, log, k, id, b) {
        let k = choose|k: int| #[trigger] shown_at(base, log, k, id, b);
        assert(state(base, log, k) == base);
        assert(present(p, id));
        if id != 0 && base.nodes.contains_key(id) {
            assert(p.nodes.contains_key(id));
            let n = base.nodes[id];
            assert(n == q.nodes[id] && b == node_page(n));
        }
        assert(shown(q, id, b));
        assert(shown_at(q, log, 0, id, b));
    }
}

/// The file but for the page.
proof fn lemma_through_disk(
    m0: BufferPoolManager,
    m1: BufferPoolManager,
    m: BufferPoolManager,
    base: Pages,
    log: Seq<LogEntry>,
    x: u64,
    b: Seq<u8>,
    id: u64,
)
    requires
        guarded(m0),
        aged(m0, base, log),
        stored(m0, m1, x, b),
        moved(m1, m),
        id != x,
    ensures
        settled(base, log, m0.wal.next_lsn, id, blank(m.disk.at(id))),
{
    reveal(aged);
    reveal(stored);
    reveal(moved);
    lemma_guarded(m0);
    lemma_at_rest(m0);
    lemma_at_rest(m1);
    assert(settled(base, log, m0.wal.next_lsn, id, blank(m0.disk.at(id))));
    assert(settled(base, log, m0.wal.next_lsn, id, blank(m1.disk.at(id)))) by {
        if blank(m1.disk.at(id)) != blank(m0.disk.at(id)) {
            assert(m0.holds(id) == Some(blank(m1.disk.at(id))));
            if !m0.dirty(id) {
                assert(m0.holds(id) == Some(blank(m0.disk.at(id))));
            }
        }
    }
    if blank(m.disk.at(id)) != blank(m1.disk.at(id)) {
        assert(m1.holds(id) == Some(blank(m.disk.at(id))));
        if m1.dirty(id) {
            assert(m0.dirty(id));
            assert(m1.holds(id) == m0.holds(id));
        } else {
            assert(m1.holds(id) == Some(blank(m1.disk.at(id))));
        }
    }
}

/// The pool has the new state.
proof fn lemma_through_pool(
    m0: BufferPoolManager,
    m1: BufferPoolManager,
    m: BufferPoolManager,
    p: Pages,
    q: Pages,
    x: u64,
    b: Seq<u8>,
    used: Set<u64>,
    next: u64,
)
    requires
        guarded(m0),
        held(m0, p),
        numbered(m0, q, used),
        stored(m0, m1, x, b),
        moved(m1, m),
        blank(b) == b,
        forall|id: u64| id != x && #[trigger] present(q, id) ==> same_page(p, q, id),
        present(q, x) ==> exact(q, x, b),
        m0.wal.next_lsn == next,
    ensures
        guarded(m),
        held(m, q),
        numbered(m, q, used),
        m.wal.next_lsn == next,
        m.next_page_id == m0.next_page_id,
{
    reveal(stored);
    reveal(moved);
    reveal(guarded);
    assert(held(m, q)) by {
        reveal(held);
        assert forall|id: u64| #[trigger] present(q, id) implies (m.holds(id) matches Some(c)
            && exact(q, id, c)) by {
            if id != x {
                assert(present(p, id));
                assert(m0.holds(id) is Some);
                assert(m1.holds(id) == m0.holds(id));
            }
            assert(m.holds(id) == m1.holds(id));
        }
    }
    assert(numbered(m, q, used)) by {
        reveal(numbered);
    }
}

proof fn lemma_blank_root(b: Seq<u8>)
    requires
        b.len() == PAGE_SIZE,
        blank(b)[0] == META,
    ensures
        root_of(blank(b)) == root_of(b),
{
    lemma_blank(b);
    assert forall|i: int| 24 <= i < 32 implies blank(b)[i] == b[i] by {}
}

/// Whether a pool holds the pages that a history ends with, with nothing left to
/// write.
pub open spec fn reopened(m: BufferPoolManager, base: Pages, log: Seq<LogEntry>) -> bool {
    &&& guarded(m)
    &&& solid(m)
    &&& forall|id: u64| !(#[trigger] m.dirty(id))
    &&& m.free_pool@.len() == 0
    &&& m.wal.pending@.len() == 0
    &&& log_of(m.disk.out@).len() == 0
    &&& backed(m.disk, m.wal)
    &&& m.wal.flushed_lsn matches Some(f) ==> f < m.wal.next_lsn || f == 0
    &&& follows(m.wal.next_lsn, base, log)
    &&& rooted(base, log, log.len() as int)
    &&& forall|id: u64| page_past(base, log, id, #[trigger] content(m, id))
    &&& forall|id: u64| #[trigger]
        present(replay(base, log), id) ==> shown(replay(base, log), id, content(m, id))
}

/// The pages that a pool holds of a state.
pub open spec fn restored_pages(m: BufferPoolManager, r: Pages) -> Pages {
    Pages {
        nodes: Map::new(
            |id: u64| r.nodes.contains_key(id),
            |id: u64| node_at(content(m, id))->0,
        ),
        ..r
    }
}

proof fn lemma_reopened_node(m: BufferPoolManager, r: Pages, id: u64)
    requires
        r.wf(),
        r.nodes.contains_key(id),
        shown(r, id, content(m, id)),
    ensures
        ({
            let n = restored_pages(m, r).nodes[id];
            &&& restored_pages(m, r).nodes.contains_key(id)
            &&& n == r.nodes[id]
            &&& n.wf()
            &&& n.page_id() == id
            &&& content(m, id) == node_page(n)
        }),
{
    let n = r.nodes[id];
    assert(id != 0);
    assert(n == r.nodes[id] && content(m, id) == node_page(n));
    law_node_roundtrip(n);
}

/// A page that is not a page of zeros is in the file.
proof fn lemma_reopened_held(m: BufferPoolManager, r: Pages, id: u64)
    requires
        r.wf(),
        m.wf(),
        solid(m),
        present(r, id),
        shown(r, id, content(m, id)),
        !m.dirty(id),
    ensures
        m.holds(id) == Some(content(m, id)),
        id < m.next_page_id,
{
    lemma_not_zeros(r, id, content(m, id));
    lemma_blank_zeros();
    if m.holds(id) is None {
        assert(content(m, id) == blank(zeros(PAGE_SIZE as nat)));
    }
}

proof fn lemma_reopened(m: BufferPoolManager, base: Pages, log: Seq<LogEntry>)
    requires
        reopened(m, base, log),
    ensures
        ({
            let r = replay(base, log);
            let p = restored_pages(m, r);
            let used = Set::new(|id: u64| 0 < id < m.next_page_id);
            &&& p.wf()
            &&& alike(p, r)
            &&& held(m, p)
            &&& numbered(m, p, used)
            &&& aged(m, base, log)
            &&& passed_on(m, log, log.len() as int, log_bytes(log_records(log)))
        }),
{
    let r = replay(base, log);
    let p = restored_pages(m, r);
    let n = log.len() as int;
    let used = Set::new(|id: u64| 0 < id < m.next_page_id);
    assert(log.subrange(0, n) =~= log);
    assert(r.wf()) by {
        reveal(follows);
        lemma_state_wf(base, log, n);
    }
    lemma_guarded(m);
    lemma_at_rest(m);
    assert forall|id: u64| #[trigger] present(p, id) implies present(r, id) by {}
    assert forall|id: u64| #[trigger] p.nodes.contains_key(id) implies p.nodes[id] == r.nodes[id] && p.nodes[id].wf() && p.nodes[id].page_id() == id && content(m, id) == node_page(
        p.nodes[id],
    ) by {
        assert(present(r, id));
        lemma_reopened_node(m, r, id);
    }
    assert(p.nodes.dom() =~= r.nodes.dom());
    assert(p.wf());
    assert(alike(p, r));
    assert(held(m, p)) by {
        reveal(held);
        assert forall|id: u64| #[trigger] present(p, id) implies (m.holds(id) matches Some(b)
            && exact(p, id, b)) by {
            assert(present(r, id));
            assert(!m.dirty(id));
            lemma_reopened_held(m, r, id);
            if id != 0 && p.nodes.contains_key(id) {
                assert(content(m, id) == node_page(p.nodes[id]));
            }
        }
    }
    assert(numbered(m, p, used)) by {
        reveal(numbered);
        assert forall|id: u64| #[trigger] present(r, id) implies id < m.next_page_id by {
            assert(!m.dirty(id));
            lemma_reopened_held(m, r, id);
        }
        assert(present(r, 0));
        assert forall|id: u64| #[trigger] p.nodes.contains_key(id) implies used.contains(id) by {
            assert(present(r, id));
            assert(p.nodes[id].wf() && p.nodes[id].page_id() == id);
        }
        assert forall|id: u64| #[trigger] p.chunks.contains_key(id) implies used.contains(id) by {
            assert(present(r, id));
        }
    }
    assert(aged(m, base, log)) by {
        reveal(aged);
        assert forall|id: u64|
            settled(base, log, m.wal.next_lsn, id, blank(#[trigger] m.disk.at(id))) by {
            assert(!m.dirty(id));
            assert(page_past(base, log, id, content(m, id)));
            lemma_past_number(m.wal.next_lsn, base, log, id, content(m, id));
        }
    }
    assert(passed_on(m, log, n, log_bytes(log_records(log)))) by {
        reveal(passed_on);
        let rs = log_records(log);
        assert(rs.subrange(0, n) =~= rs);
        assert(rs.subrange(n, n) =~= Seq::<WalRecordView>::empty());
        assert(m.wal.pending@ =~= Seq::<u8>::empty());
        assert(log_bytes(Seq::<WalRecordView>::empty()) =~= Seq::<u8>::empty());
        assert(log_bytes(rs) + log_of(m.disk.out@) =~= log_bytes(rs));
        lemma_queued_again(m, log);
    }
}

proof fn lemma_queued_again(m: BufferPoolManager, log: Seq<LogEntry>)
    requires
        backed(m.disk, m.wal),
        log_of(m.disk.out@).len() == 0,
        m.wal.flushed_lsn matches Some(f) ==> f < m.wal.next_lsn || f == 0,
    ensures
        queued(
            m.wal.next_lsn,
            log,
            log.len() as int,
            log_bytes(log_records(log)),
            m.disk.out@,
        ),
{
    reveal(queued);
    let rs = log_records(log);
    let n = log.len() as int;
    let out = m.disk.out@;
    assert(rs.subrange(0, n) =~= rs);
    assert forall|k: int| 0 <= k < out.len() implies #[trigger] in_turn(
        m.wal.next_lsn,
        log,
        n,
        log_bytes(rs),
        out,
        k,
    ) by {
        lemma_log_grows(out, k);
        assert(log_bytes(rs) + log_of(out.take(k)) =~= log_bytes(rs.subrange(0, n)));
        assert(out[k] == m.disk.out@[k]);
    }
}

/// The number on a page of the past has been given out.
pub proof fn lemma_past_number(next: u64, base: Pages, log: Seq<LogEntry>, id: u64, b: Seq<u8>)
    requires
        follows(next, base, log),
        page_past(base, log, id, b),
    ensures
        known(b, next),
{
    if exists|k: int| #[trigger] shown_at(base, log, k, id, b) {
        let k = choose|k: int| #[trigger] shown_at(base, log, k, id, b);
        lemma_follows_prefix(next, base, log, k);
        assert(log_ok(base, log)) by {
            reveal(follows);
        }
        lemma_state_wf(base, log, k);
        lemma_last_stamp(next, base, log.subrange(0, k), id);
        lemma_shown_stamp(state(base, log, k), id, b);
    } else {
        lemma_zero_page();
    }
}

proof fn lemma_follows_prefix(next: u64, base: Pages, log: Seq<LogEntry>, k: int)
    requires
        follows(next, base, log),
        0 <= k <= log.len(),
    ensures
        follows(next, base, log.subrange(0, k)),
{
    reveal(follows);
    lemma_log_prefix(base, log, k);
    let l2 = log.subrange(0, k);
    assert forall|i: int| 0 <= i < l2.len() implies (#[trigger] l2[i]).lsn < next by {
        assert(l2[i] == log[i]);
    }
}

/// A page that nobody has written.
proof fn lemma_hole_past(base: Pages, log: Seq<LogEntry>, d: int, id: u64)
    requires
        log_ok(base, log),
        0 <= d <= log.len(),
        page_past(base, log, id, blank(zeros(PAGE_SIZE as nat))),
    ensures
        page_past(base, log.subrange(0, d), id, blank(zeros(PAGE_SIZE as nat))),
{
    let z = zeros(PAGE_SIZE as nat);
    lemma_blank_zeros();
    if exists|k: int| #[trigger] shown_at(base, log, k, id, z) {
        let k = choose|k: int| #[trigger] shown_at(base, log, k, id, z);
        lemma_state_wf(base, log, k);
        lemma_not_zeros(state(base, log, k), id, z);
    }
}

/// A page of zeros has no checksum.
proof fn lemma_blank_zeros()
    ensures
        blank(zeros(PAGE_SIZE as nat)) == zeros(PAGE_SIZE as nat),
{
    let z = zeros(PAGE_SIZE as nat);
    assert(blank(z) =~= z);
}

/// No page of a state is a page of zeros.
proof fn lemma_not_zeros(p: Pages, id: u64, b: Seq<u8>)
    requires
        p.wf(),
        present(p, id),
        shown(p, id, b),
    ensures
        b != zeros(PAGE_SIZE as nat),
{
    if id == 0 {
        assert(b[0] == META);
    } else if p.nodes.contains_key(id) {
        let n = p.nodes[id];
        law_node_roundtrip(n);
        assert(node_at(b) is Some);
        assert(b[0] != 0);
    } else {
        law_chunk_roundtrip(id, p.chunks[id]);
        assert(b[0] != 0);
    }
}

/// The number on a page has been given out.
proof fn lemma_last_stamp(next: u64, base: Pages, log: Seq<LogEntry>, id: u64)
    requires
        follows(next, base, log),
        present(replay(base, log), id),
    ensures
        stamp(replay(base, log), id) < next || stamp(replay(base, log), id) == 0,
    decreases log.len(),
{
    reveal(follows);
    if log.len() > 0 {
        let n = log.len() - 1;
        let e = log[n];
        assert(log.subrange(0, n) =~= log.drop_last());
        assert(log.subrange(0, n + 1) =~= log);
        crate::history::lemma_step_page(base, log, n, id);
        lemma_state_wf(base, log, n);
        if crate::history::touches(e, id) {
            let i = choose|i: int| 0 <= i < e.changes.len() && (#[trigger] e.changes[i]).0 == id;
            let c = e.changes[i].1;
            if c is Free && id == 0 {
                lemma_prefix_follows(next, base, log);
                lemma_last_stamp(next, base, log.drop_last(), id);
            }
        } else {
            lemma_prefix_follows(next, base, log);
            lemma_last_stamp(next, base, log.drop_last(), id);
        }
    }
}

proof fn lemma_prefix_follows(next: u64, base: Pages, log: Seq<LogEntry>)
    requires
        follows(next, base, log),
        log.len() > 0,
    ensures
        follows(next, base, log.drop_last()),
{
    reveal(follows);
    let l2 = log.drop_last();
    assert forall|i: int| 0 <= i < l2.len() implies entry_ok(
        state(base, l2, i),
        #[trigger] l2[i],
    ) by {
        assert(l2[i] == log[i]);
        assert(l2.subrange(0, i) =~= log.subrange(0, i));
    }
    assert forall|i: int, j: int| 0 <= i < j < l2.len() implies (#[trigger] l2[i]).lsn < (
    #[trigger] l2[j]).lsn by {
        assert(l2[i] == log[i] && l2[j] == log[j]);
    }
    assert forall|i: int, id: u64|
        0 <= i < l2.len() && effect(l2[i]).len() > 0 && #[trigger] present(base, id) implies stamp(
        base,
        id,
    ) < (#[trigger] l2[i]).lsn by {
        assert(l2[i] == log[i]);
    }
    assert forall|i: int, k: int|
        0 <= i < l2.len() && 0 <= k < l2[i].changes.len() implies (#[trigger] l2[i].changes[k]).0
        != INVALID_FRAME_ID by {
        assert(log[i].changes[k].0 != INVALID_FRAME_ID);
    }
    assert forall|i: int| 0 <= i < l2.len() implies (#[trigger] l2[i]).lsn < next by {
        assert(l2[i] == log[i]);
    }
}

/// Whether nothing but the log differs.
spec fn log_only(m0: BufferPoolManager, m: BufferPoolManager) -> bool {
    &&& m.shards == m0.shards
    &&& m.disk == m0.disk
    &&& m.next_page_id == m0.next_page_id
    &&& m.free_pool == m0.free_pool
    &&& m.wal.flushed_lsn == m0.wal.flushed_lsn
}

proof fn lemma_log_only(m0: BufferPoolManager, m: BufferPoolManager, p: Pages, used: Set<u64>)
    requires
        log_only(m0, m),
        guarded(m0),
        held(m0, p),
        numbered(m0, p, used),
    ensures
        guarded(m),
        held(m, p),
        numbered(m, p, used),
        forall|id: u64| #[trigger] m.dirty(id) == m0.dirty(id),
        forall|id: u64| #[trigger] m.holds(id) == m0.holds(id),
{
    reveal(guarded);
    reveal(at_rest);
    reveal(held);
    reveal(numbered);
    assert forall|id: u64| #[trigger] m.holds(id) == m0.holds(id) by {}
    assert forall|id: u64| #[trigger] m.dirty(id) == m0.dirty(id) by {}
    assert forall|id: u64| #[trigger] m.pins(id) == 0 by {
        assert(m0.pins(id) == 0);
    }
    assert(m.wf()) by {
        assert forall|i: int| 0 <= i < m.shards@.len() implies (#[trigger] m.shards@[i]).wf(
            m.disk,
        ) by {
            assert(m0.shards@[i].wf(m0.disk));
        }
    }
    assert forall|id: u64| #[trigger] present(p, id) implies (m.holds(id) matches Some(b) && exact(
        p,
        id,
        b,
    )) by {
        assert(m0.holds(id) == m.holds(id));
    }
}

/// A record has been appended to the log.
proof fn lemma_appended(
    m0: BufferPoolManager,
    m: BufferPoolManager,
    base: Pages,
    p: Pages,
    used: Set<u64>,
    log: Seq<LogEntry>,
    d: int,
    sent: Seq<u8>,
    e: LogEntry,
)
    requires
        guarded(m0),
        held(m0, p),
        numbered(m0, p, used),
        aged(m0, base, log),
        passed_on(m0, log, d, sent),
        follows(m0.wal.next_lsn, base, log),
        entry_ok(replay(base, log), e),
        e.lsn == m0.wal.next_lsn,
        e.lsn > 0,
        ids_ok(log.push(e)),
        log_only(m0, m),
        m.wal.next_lsn == e.lsn + 1,
        m.wal.pending@ == m0.wal.pending@ + crate::wal::record_bytes(entry_record(e)),
    ensures
        guarded(m),
        held(m, p),
        numbered(m, p, used),
        aged(m, base, log.push(e)),
        passed_on(m, log.push(e), d, sent),
        follows(m.wal.next_lsn, base, log.push(e)),
        replay(base, log.push(e)) == apply_all(replay(base, log), effect(e), e.lsn),
{
    lemma_log_only(m0, m, p, used);
    lemma_follows_push(m0.wal.next_lsn, base, log, e);
    lemma_aged_push(m0, m, base, log, e);
    lemma_passed_on_push(m0, m, log, d, sent, e);
}

proof fn lemma_follows_push(next: u64, base: Pages, log: Seq<LogEntry>, e: LogEntry)
    requires
        follows(next, base, log),
        entry_ok(replay(base, log), e),
        e.lsn == next,
        next < u64::MAX,
        ids_ok(log.push(e)),
    ensures
        follows((next + 1) as u64, base, log.push(e)),
        replay(base, log.push(e)) == apply_all(replay(base, log), effect(e), e.lsn),
{
    reveal(follows);
    lemma_log_push(base, log, e);
    let l2 = log.push(e);
    assert forall|i: int| 0 <= i < l2.len() implies (#[trigger] l2[i]).lsn < next + 1 by {
        if i < log.len() {
            assert(l2[i] == log[i]);
        }
    }
}

proof fn lemma_aged_push(
    m0: BufferPoolManager,
    m: BufferPoolManager,
    base: Pages,
    log: Seq<LogEntry>,
    e: LogEntry,
)
    requires
        aged(m0, base, log),
        m.disk == m0.disk,
        m.wal.next_lsn >= m0.wal.next_lsn,
        forall|id: u64| #[trigger] m.dirty(id) == m0.dirty(id),
        forall|id: u64| #[trigger] m.holds(id) == m0.holds(id),
    ensures
        aged(m, base, log.push(e)),
{
    reveal(aged);
    let l2 = log.push(e);
    assert forall|id: u64|
        settled(base, l2, m.wal.next_lsn, id, blank(#[trigger] m.disk.at(id))) by {
        assert(settled(base, log, m0.wal.next_lsn, id, blank(m0.disk.at(id))));
        lemma_past_push(base, log, e, id, blank(m.disk.at(id)));
    }
    assert forall|id: u64| #[trigger] m.dirty(id) implies (m.holds(id) matches Some(b) && settled(
        base,
        l2,
        m.wal.next_lsn,
        id,
        b,
    )) by {
        assert(m0.dirty(id));
        assert(m0.holds(id) == m.holds(id));
        lemma_past_push(base, log, e, id, m.holds(id)->0);
    }
}

proof fn lemma_passed_on_push(
    m0: BufferPoolManager,
    m: BufferPoolManager,
    log: Seq<LogEntry>,
    d: int,
    sent: Seq<u8>,
    e: LogEntry,
)
    requires
        passed_on(m0, log, d, sent),
        e.lsn == m0.wal.next_lsn,
        e.lsn > 0,
        m.disk == m0.disk,
        m.wal.flushed_lsn == m0.wal.flushed_lsn,
        m.wal.next_lsn == e.lsn + 1,
        m.wal.pending@ == m0.wal.pending@ + crate::wal::record_bytes(entry_record(e)),
    ensures
        passed_on(m, log.push(e), d, sent),
{
    reveal(passed_on);
    let l2 = log.push(e);
    let rs = log_records(log);
    let n = log.len() as int;
    assert(log_records(l2).subrange(d, n + 1) =~= rs.subrange(d, n).push(entry_record(e)));
    assert(log_records(l2).subrange(0, d) =~= rs.subrange(0, d));
    lemma_log_bytes_push(rs.subrange(d, n), entry_record(e));
    assert forall|i: int|
        d <= i < l2.len() && m.wal.flushed_lsn is Some implies m.wal.flushed_lsn->0 < (
    #[trigger] l2[i]).lsn by {
        if i < n {
            assert(l2[i] == log[i]);
        }
    }
    let out = m.disk.out@;
    lemma_queued_more(m0.wal.next_lsn, log, d, sent, out, m.wal.next_lsn, l2, d, out);
}

proof fn lemma_guarded(m: BufferPoolManager)
    requires
        guarded(m),
    ensures
        at_rest(m),
        sound(m.disk),
        covered(m.disk, m.wal),
{
    reveal(guarded);
}

proof fn lemma_id_ok(m: BufferPoolManager, p: Pages, used: Set<u64>, id: u64)
    requires
        numbered(m, p, used),
        used.contains(id) || id == 0,
    ensures
        id < m.next_page_id,
        used.contains(id) ==> id != 0 && id != INVALID_FRAME_ID,
{
    reveal(numbered);
}

proof fn lemma_numbered_change(
    m: BufferPoolManager,
    p: Pages,
    used: Set<u64>,
    id: u64,
    c: ChangeView,
    lsn: u64,
)
    requires
        numbered(m, p, used),
        fits(p, id, c),
        c is SetRoot || used.contains(id),
    ensures
        numbered(m, apply_one(p, id, c, lsn), used),
{
    reveal(numbered);
}

/// Writing all pages moves pages.
proof fn lemma_flushed_moved(m0: BufferPoolManager, m: BufferPoolManager)
    requires
        at_rest(m0),
        m.wf(),
        m.same_ids(&m0),
        io_ok(m0.disk, m0.wal, m.disk, m.wal),
        kept(m0, m),
        only_written(m0, m),
        forall|id: u64| #[trigger] m.pins(id) == m0.pins(id),
    ensures
        moved(m0, m),
{
    reveal(at_rest);
    reveal(moved);
    assert forall|id: u64| #[trigger] m.pins(id) == 0 by {
        assert(m0.pins(id) == 0);
    }
}

/// The log has been made durable.
proof fn lemma_log_flushed(
    m0: BufferPoolManager,
    m: BufferPoolManager,
    base: Pages,
    p: Pages,
    used: Set<u64>,
    log: Seq<LogEntry>,
    d: int,
    sent: Seq<u8>,
    lsn: u64,
)
    requires
        guarded(m0),
        held(m0, p),
        numbered(m0, p, used),
        aged(m0, base, log),
        passed_on(m0, log, d, sent),
        m.shards == m0.shards,
        m.disk.pages == m0.disk.pages,
        m.disk.num_pages == m0.disk.num_pages,
        m.next_page_id == m0.next_page_id,
        m.free_pool == m0.free_pool,
        m.wal.next_lsn == m0.wal.next_lsn,
        lsn < m0.wal.next_lsn,
        m0.wal.needs_flush(lsn) ==> {
            &&& m.disk.out@ == m0.disk.out@.push(IoView::AppendLog(m0.wal.pending@)).push(
                IoView::SyncLog,
            )
            &&& m.wal.pending@ == Seq::<u8>::empty()
            &&& m.wal.flushed_lsn == Some(lsn)
        },
        !m0.wal.needs_flush(lsn) ==> m.disk.out == m0.disk.out && m.wal == m0.wal,
    ensures
        guarded(m),
        held(m, p),
        numbered(m, p, used),
        aged(m, base, log),
        m0.wal.needs_flush(lsn) ==> passed_on(m, log, log.len() as int, sent),
        !m0.wal.needs_flush(lsn) ==> passed_on(m, log, d, sent),
{
    lemma_out_only(m0, m, base, p, used, log);
    assert(guarded(m)) by {
        reveal(guarded);
        lemma_out_rest(m0, m);
        assert forall|id: u64| #[trigger] m.disk.at(id) == m0.disk.at(id) by {}
        assert forall|id: u64| #[trigger] intact(m.disk, id) by {
            assert(intact(m0.disk, id));
        }
        assert forall|id: u64| #[trigger] m.disk.pages@.contains_key(id) implies (
        lsn_of(m.disk.at(id)) == 0 || (m.wal.flushed_lsn matches Some(f) && lsn_of(m.disk.at(id))
            <= f)) by {
            assert(m0.disk.pages@.contains_key(id));
        }
    }
    reveal(passed_on);
    if m0.wal.needs_flush(lsn) {
        let o = m0.disk.out@;
        let a = IoView::AppendLog(m0.wal.pending@);
        lemma_log_of(o, a);
        lemma_log_of(o.push(a), IoView::SyncLog);
        assert(log_of(m.disk.out@) + Seq::<u8>::empty() =~= log_of(o) + m0.wal.pending@);
        lemma_all_given(log, d, sent, log_of(o), m0.wal.pending@, log_of(m.disk.out@));
        let n = log.len() as int;
        let next = m.wal.next_lsn;
        lemma_queued_more(next, log, d, sent, o, next, log, n, m.disk.out@);
    }
}

/// Nothing but the operations for the host and the log differ.
proof fn lemma_out_rest(m0: BufferPoolManager, m: BufferPoolManager)
    requires
        at_rest(m0),
        m.shards == m0.shards,
        m.disk.pages == m0.disk.pages,
        m.disk.num_pages == m0.disk.num_pages,
        m.next_page_id == m0.next_page_id,
    ensures
        at_rest(m),
        forall|id: u64| #[trigger] m.dirty(id) == m0.dirty(id),
        forall|id: u64| #[trigger] m.holds(id) == m0.holds(id),
{
    reveal(at_rest);
    assert forall|id: u64| #[trigger] m.disk.at(id) == m0.disk.at(id) by {}
    assert forall|id: u64| #[trigger] m.holds(id) == m0.holds(id) by {
        assert(m.disk.at(id) == m0.disk.at(id));
    }
    assert forall|id: u64| #[trigger] m.dirty(id) == m0.dirty(id) by {}
    assert forall|id: u64| #[trigger] m.pins(id) == 0 by {
        assert(m0.pins(id) == 0);
    }
    assert(m.wf()) by {
        assert forall|i: int| 0 <= i < m.shards@.len() implies (#[trigger] m.shards@[i]).wf(
            m.disk,
        ) by {
            let s = m0.shards@[i];
            assert(s.wf(m0.disk));
            assert forall|id: u64| #[trigger]
                s.cached(id) && !s.meta(id).is_dirty && s.meta(id).pin_count == 0
                    && !s.fresh@.contains(id) implies s.in_sync(id, m.disk) by {
                assert(s.in_sync(id, m0.disk));
                assert(m.disk.at(id) == m0.disk.at(id));
            }
        }
        assert forall|i: int, id: u64|
            0 <= i < m.shards@.len() && #[trigger] m.shards@[i].cached(id) implies shard_of(id) == i
            && id < m.next_page_id by {
            assert(m0.shards@[i].cached(id));
        }
    }
}

proof fn lemma_out_only(
    m0: BufferPoolManager,
    m: BufferPoolManager,
    base: Pages,
    p: Pages,
    used: Set<u64>,
    log: Seq<LogEntry>,
)
    requires
        guarded(m0),
        held(m0, p),
        numbered(m0, p, used),
        aged(m0, base, log),
        m.shards == m0.shards,
        m.disk.pages == m0.disk.pages,
        m.disk.num_pages == m0.disk.num_pages,
        m.next_page_id == m0.next_page_id,
        m.free_pool == m0.free_pool,
        m.wal.next_lsn == m0.wal.next_lsn,
    ensures
        held(m, p),
        numbered(m, p, used),
        aged(m, base, log),
{
    lemma_guarded(m0);
    lemma_out_rest(m0, m);
    assert forall|id: u64| #[trigger] m.disk.at(id) == m0.disk.at(id) by {}
    assert(held(m, p)) by {
        reveal(held);
        assert forall|id: u64| #[trigger] present(p, id) implies (m.holds(id) matches Some(b)
            && exact(p, id, b)) by {
            assert(m.holds(id) == m0.holds(id));
        }
    }
    assert(numbered(m, p, used)) by {
        reveal(numbered);
    }
    assert(aged(m, base, log)) by {
        reveal(aged);
        assert forall|id: u64|
            settled(base, log, m.wal.next_lsn, id, blank(#[trigger] m.disk.at(id))) by {
            assert(settled(base, log, m0.wal.next_lsn, id, blank(m0.disk.at(id))));
        }
        assert forall|id: u64| #[trigger] m.dirty(id) implies (m.holds(id) matches Some(b)
            && settled(base, log, m.wal.next_lsn, id, b)) by {
            assert(m0.dirty(id));
            assert(m.holds(id) == m0.holds(id));
        }
    }
}

/// The host has taken the operations.
proof fn lemma_actions_taken(
    m0: BufferPoolManager,
    m: BufferPoolManager,
    base: Pages,
    p: Pages,
    used: Set<u64>,
    log: Seq<LogEntry>,
    d: int,
    sent: Seq<u8>,
)
    requires
        guarded(m0),
        held(m0, p),
        numbered(m0, p, used),
        aged(m0, base, log),
        passed_on(m0, log, d, sent),
        m.shards == m0.shards,
        m.disk.pages == m0.disk.pages,
        m.disk.num_pages == m0.disk.num_pages,
        m.next_page_id == m0.next_page_id,
        m.free_pool == m0.free_pool,
        m.wal == m0.wal,
        m.disk.out@ == Seq::<IoView>::empty(),
    ensures
        guarded(m),
        held(m, p),
        numbered(m, p, used),
        aged(m, base, log),
        passed_on(m, log, d, sent + log_of(m0.disk.out@)),
{
    lemma_out_only(m0, m, base, p, used, log);
    assert(guarded(m)) by {
        reveal(guarded);
        lemma_out_rest(m0, m);
        assert forall|id: u64| #[trigger] m.disk.at(id) == m0.disk.at(id) by {}
        assert forall|id: u64| #[trigger] intact(m.disk, id) by {
            assert(intact(m0.disk, id));
        }
        assert forall|id: u64| #[trigger] m.disk.pages@.contains_key(id) implies (
        lsn_of(m.disk.at(id)) == 0 || (m.wal.flushed_lsn matches Some(f) && lsn_of(m.disk.at(id))
            <= f)) by {
            assert(m0.disk.pages@.contains_key(id));
        }
    }
    reveal(passed_on);
    assert(log_of(m.disk.out@) == Seq::<u8>::empty());
    let s2 = sent + log_of(m0.disk.out@);
    assert(s2 + Seq::<u8>::empty() =~= s2);
    reveal(queued);
}

/// The pool has been told a redo point.
proof fn lemma_redo_point_noted(
    m0: BufferPoolManager,
    m: BufferPoolManager,
    base: Pages,
    p: Pages,
    used: Set<u64>,
    log: Seq<LogEntry>,
    d: int,
    sent: Seq<u8>,
)
    requires
        guarded(m0),
        held(m0, p),
        numbered(m0, p, used),
        aged(m0, base, log),
        passed_on(m0, log, d, sent),
        m.wf(),
        m.same_ids(&m0),
        m.disk == m0.disk,
        m.wal == m0.wal,
        forall|id: u64| #[trigger] m.holds(id) == m0.holds(id),
        forall|id: u64| #[trigger] m.pins(id) == m0.pins(id),
        forall|id: u64| #[trigger] m.dirty(id) == m0.dirty(id),
    ensures
        guarded(m),
        held(m, p),
        numbered(m, p, used),
        aged(m, base, log),
        passed_on(m, log, d, sent),
{
    assert(guarded(m)) by {
        reveal(guarded);
        reveal(at_rest);
        assert forall|id: u64| #[trigger] m.pins(id) == 0 by {
            assert(m0.pins(id) == 0);
        }
    }
    assert(held(m, p)) by {
        reveal(held);
        assert forall|id: u64| #[trigger] present(p, id) implies (m.holds(id) matches Some(b)
            && exact(p, id, b)) by {
            assert(m.holds(id) == m0.holds(id));
        }
    }
    assert(numbered(m, p, used)) by {
        reveal(numbered);
    }
    assert(aged(m, base, log)) by {
        reveal(aged);
        assert forall|id: u64| #[trigger] m.dirty(id) implies (m.holds(id) matches Some(b)
            && settled(base, log, m.wal.next_lsn, id, b)) by {
            assert(m0.dirty(id));
            assert(m.holds(id) == m0.holds(id));
        }
    }
    assert(passed_on(m, log, d, sent)) by {
        reveal(passed_on);
    }
}

/// A page of a well-formed store can be read.
proof fn lemma_readable(m: BufferPoolManager, p: Pages, used: Set<u64>, id: u64)
    requires
        guarded(m),
        held(m, p),
        numbered(m, p, used),
        present(p, id),
    ensures
        at_rest(m),
        sound(m.disk),
        m.holds(id) is Some,
        exact(p, id, m.holds(id)->0),
        id < m.next_page_id,
{
    reveal(guarded);
    reveal(held);
    reveal(numbered);
    if id != 0 {
        assert(used.contains(id));
    }
}

proof fn lemma_used_shrinks(used: Set<u64>, cs: Seq<(u64, ChangeView)>)
    ensures
        forall|id: u64| #[trigger] used_after(used, cs).contains(id) ==> used.contains(id),
    decreases cs.len(),
{
    if cs.len() > 0 {
        let rest = cs.drop_last();
        lemma_used_shrinks(used, rest);
        assert forall|id: u64| #[trigger] used_after(used, cs).contains(id) implies used.contains(
            id,
        ) by {
            assert(used_after(used, rest).contains(id));
        }
    }
}

/// A list of one change.
pub proof fn lemma_one_change(p: Pages, used: Set<u64>, id: u64, c: ChangeView, lsn: u64)
    ensures
        ({
            let cs = seq![(id, c)];
            &&& all_fit(p, cs, lsn) == fits(p, id, c)
            &&& apply_all(p, cs, lsn) == apply_one(p, id, c, lsn)
            &&& used_after(used, cs) == used_after_one(used, id, c)
            &&& all_used(used, cs) == (c is SetRoot || used.contains(id))
        }),
{
    let e = Seq::<(u64, ChangeView)>::empty();
    assert(seq![(id, c)] =~= e.push((id, c)));
    assert(apply_all(p, e, lsn) == p);
    assert(all_fit(p, e, lsn));
    assert(used_after(used, e) == used);
    assert(all_used(used, e));
    lemma_more_changes(p, used, e, id, c, lsn);
}

/// A list with one change more.
pub proof fn lemma_more_changes(
    p: Pages,
    used: Set<u64>,
    cs: Seq<(u64, ChangeView)>,
    id: u64,
    c: ChangeView,
    lsn: u64,
)
    ensures
        ({
            let ds = cs.push((id, c));
            let q = apply_all(p, cs, lsn);
            let u = used_after(used, cs);
            &&& all_fit(p, ds, lsn) == (all_fit(p, cs, lsn) && fits(q, id, c))
            &&& apply_all(p, ds, lsn) == apply_one(q, id, c, lsn)
            &&& used_after(used, ds) == used_after_one(u, id, c)
            &&& all_used(used, ds) == (all_used(used, cs) && (c is SetRoot || u.contains(id)))
        }),
{
    let ds = cs.push((id, c));
    assert(ds.drop_last() =~= cs);
    assert(ds.last() == (id, c));
}

/// The pages in use after one change.
pub open spec fn used_after_one(used: Set<u64>, id: u64, c: ChangeView) -> Set<u64> {
    if c is Free {
        used.remove(id)
    } else {
        used
    }
}

/// The pages in use after a list of changes.
pub open spec fn used_after(used: Set<u64>, cs: Seq<(u64, ChangeView)>) -> Set<u64>
    decreases cs.len(),
{
    if cs.len() == 0 {
        used
    } else {
        used_after_one(used_after(used, cs.drop_last()), cs.last().0, cs.last().1)
    }
}

/// Whether each change of a list is to a page in use at that point.
pub open spec fn all_used(used: Set<u64>, cs: Seq<(u64, ChangeView)>) -> bool
    decreases cs.len(),
{
    cs.len() == 0 || (all_used(used, cs.drop_last()) && (cs.last().1 is SetRoot || used_after(
        used,
        cs.drop_last(),
    ).contains(cs.last().0)))
}

proof fn lemma_prefix_fits(
    p: Pages,
    used: Set<u64>,
    cs: Seq<(u64, ChangeView)>,
    lsn: u64,
    i: int,
)
    requires
        all_fit(p, cs, lsn),
        all_used(used, cs),
        0 <= i < cs.len(),
    ensures
        fits(apply_all(p, cs.subrange(0, i), lsn), cs[i].0, cs[i].1),
        cs[i].1 is SetRoot || used_after(used, cs.subrange(0, i)).contains(cs[i].0),
    decreases cs.len(),
{
    if i == cs.len() - 1 {
        assert(cs.subrange(0, i) =~= cs.drop_last());
    } else {
        lemma_prefix_fits(p, used, cs.drop_last(), lsn, i);
        assert(cs.drop_last().subrange(0, i) =~= cs.subrange(0, i));
    }
}

} // verus!
