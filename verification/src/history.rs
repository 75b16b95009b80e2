//! What the log says about the pages: the states that it leads through, and why
//! redoing it on pages of different ages restores the last of them.

use vstd::prelude::*;

use crate::bytes::{lemma_zero_ints, slice, zeros};
use crate::change::{
    all_fit, apply_all, apply_one, changed, effect, fits, fits_node, lemma_apply_all_wf,
    lemma_changed_wf, replay, with_lsn, ChangeView, ChunkView, LogEntry, Pages,
};
use crate::codec::{law_node_roundtrip, lemma_node_page_len, node_at, node_lsn, node_page};
use crate::constants::{INVALID_FRAME_ID, PAGE_SIZE};
use crate::log_codec::{
    block_of, entry_blocks, entry_main, entry_record, image, law_change_roundtrip,
    lemma_entry_clean, loggable, suits, Redo,
};
use crate::meta::{law_root_roundtrip, root_of, with_root};
use crate::node::NodeView;
use crate::overflow_page::{chunk_page, law_chunk_roundtrip};
use crate::page::{blank, lemma_blank, lemma_restamped, lsn_of, restamped, META};
use crate::redo::{lemma_chunk_restamped, lemma_node_restamped, redo_page};
use crate::wal::{
    all_clean, law_log_roundtrip, log_bytes, part, parts_ok, record_clean, records_end,
    records_from, WalRecordType, WalRecordView,
};

verus! {

// ── Redo of a log ────────────────────────────────────────────────────────────
/// A page; pages that are not there are pages of zeros.
pub open spec fn page_in(m: Map<u64, Seq<u8>>, id: u64) -> Seq<u8> {
    if m.contains_key(id) {
        m[id]
    } else {
        zeros(PAGE_SIZE as nat)
    }
}

/// The pages after the first `n` blocks of a record have been redone. A block is
/// skipped where its page has seen the record. Nothing if a block does not
/// describe a change of its page.
pub open spec fn redo_blocks(m: Map<u64, Seq<u8>>, r: WalRecordView, n: nat) -> Option<
    Map<u64, Seq<u8>>,
>
    decreases n,
{
    if n == 0 {
        Some(m)
    } else {
        match redo_blocks(m, r, (n - 1) as nat) {
            None => None,
            Some(m1) => {
                let k = r.blocks[n - 1];
                let page = page_in(m1, k.page_id);
                if k.page_id == INVALID_FRAME_ID {
                    None
                } else if r.lsn <= lsn_of(page) {
                    Some(m1)
                } else {
                    match redo_page(page, r.entry_type, n - 1, k, r.lsn) {
                        None => None,
                        Some(b) => Some(m1.insert(k.page_id, blank(b))),
                    }
                }
            },
        }
    }
}

/// The pages after a record has been redone.
pub open spec fn redo_one(m: Map<u64, Seq<u8>>, r: WalRecordView) -> Option<Map<u64, Seq<u8>>> {
    match r.entry_type {
        WalRecordType::Commit => Some(m),
        WalRecordType::Abort => Some(m),
        WalRecordType::Checkpoint => Some(m),
        WalRecordType::OverflowFree => if r.main_data is Some && part(r.main_data).len() % 8 == 0 {
            Some(m)
        } else {
            None
        },
        _ => redo_blocks(m, r, r.blocks.len()),
    }
}

/// The pages after a list of records has been redone.
pub open spec fn redo_all(m: Map<u64, Seq<u8>>, rs: Seq<WalRecordView>) -> Option<
    Map<u64, Seq<u8>>,
>
    decreases rs.len(),
{
    if rs.len() == 0 {
        Some(m)
    } else {
        match redo_all(m, rs.drop_last()) {
            None => None,
            Some(m1) => redo_one(m1, rs.last()),
        }
    }
}

// ── States ───────────────────────────────────────────────────────────────────
/// Whether two states hold the same pages.
pub open spec fn alike(p: Pages, q: Pages) -> bool {
    &&& p.nodes.dom() == q.nodes.dom()
    &&& forall|id: u64| #[trigger] p.nodes.contains_key(id) ==> p.nodes[id] == q.nodes[id]
    &&& p.chunks == q.chunks
    &&& p.root == q.root
    &&& p.root_lsn == q.root_lsn
}

/// The pages after the first `k` records.
pub open spec fn state(base: Pages, log: Seq<LogEntry>, k: int) -> Pages {
    replay(base, log.subrange(0, k))
}

/// Whether a page exists; the superblock always does.
pub open spec fn present(p: Pages, id: u64) -> bool {
    p.nodes.contains_key(id) || p.chunks.contains_key(id) || id == 0
}

/// Whether bytes are the page of a state.
pub open spec fn shown(p: Pages, id: u64, b: Seq<u8>) -> bool {
    if id == 0 {
        &&& b.len() == PAGE_SIZE
        &&& b[0] == META
        &&& root_of(b) == p.root
        &&& lsn_of(b) == p.root_lsn
        &&& blank(b) == b
    } else if p.nodes.contains_key(id) {
        b == node_page(p.nodes[id])
    } else {
        p.chunks.contains_key(id) && b == chunk_page(id, p.chunks[id])
    }
}

/// The record that changed a page last.
pub open spec fn stamp(p: Pages, id: u64) -> u64 {
    if id == 0 {
        p.root_lsn
    } else if p.nodes.contains_key(id) {
        node_lsn(p.nodes[id])
    } else {
        p.chunks[id].lsn
    }
}

/// Whether a record changes a page.
pub open spec fn touches(e: LogEntry, id: u64) -> bool {
    e.lsn > 0 && exists|i: int| 0 <= i < e.changes.len() && (#[trigger] e.changes[i]).0 == id
}

/// Whether a record without changes can be logged: it tells the fate of a
/// transaction or is a checkpoint, and its data fits.
pub open spec fn note_ok(kind: WalRecordType, main: Option<Seq<u8>>) -> bool {
    &&& kind == WalRecordType::Commit || kind == WalRecordType::Abort || kind
        == WalRecordType::Checkpoint
    &&& main matches Some(b) ==> 0 < b.len() <= 65535
}

/// Whether a record can follow a state.
pub open spec fn entry_ok(p: Pages, e: LogEntry) -> bool {
    if e.changes.len() == 0 {
        note_ok(e.kind, e.main)
    } else {
        &&& loggable(e.kind, e.changes)
        &&& e.lsn > 0 ==> all_fit(p, e.changes, e.lsn)
        &&& e.main is None
    }
}

/// Whether records can follow a state one after the other, with growing numbers
/// that the state has not seen.
pub open spec fn log_ok(base: Pages, log: Seq<LogEntry>) -> bool {
    &&& base.wf()
    &&& forall|i: int| 0 <= i < log.len() ==> entry_ok(state(base, log, i), #[trigger] log[i])
    &&& forall|i: int, j: int|
        0 <= i < j < log.len() ==> (#[trigger] log[i]).lsn < (#[trigger] log[j]).lsn
    &&& forall|i: int, id: u64|
        0 <= i < log.len() && effect(log[i]).len() > 0 && #[trigger] present(base, id) ==> stamp(
            base,
            id,
        ) < (#[trigger] log[i]).lsn
}

/// Whether bytes are a page of the state after the first `k` records.
pub open spec fn shown_at(base: Pages, log: Seq<LogEntry>, k: int, id: u64, b: Seq<u8>) -> bool {
    0 <= k <= log.len() && present(state(base, log, k), id) && shown(state(base, log, k), id, b)
}

/// Whether bytes are what a page was at some time: what one of the states shows,
/// or zeros where nothing has been written yet.
pub open spec fn page_past(base: Pages, log: Seq<LogEntry>, id: u64, b: Seq<u8>) -> bool {
    ||| exists|k: int| #[trigger] shown_at(base, log, k, id, b)
    ||| b == zeros(PAGE_SIZE as nat) && !present(base, id)
}

/// Whether every page is what it was at some time.
pub open spec fn recoverable(base: Pages, log: Seq<LogEntry>, m: Map<u64, Seq<u8>>) -> bool {
    forall|id: u64| page_past(base, log, id, #[trigger] page_in(m, id))
}

/// The records of a log.
pub open spec fn log_records(log: Seq<LogEntry>) -> Seq<WalRecordView> {
    Seq::new(log.len(), |i: int| entry_record(log[i]))
}

// ── One page of a state ──────────────────────────────────────────────────────
/// Whether two states agree on a page.
pub open spec fn same_page(p: Pages, q: Pages, id: u64) -> bool {
    &&& p.nodes.contains_key(id) == q.nodes.contains_key(id)
    &&& p.nodes.contains_key(id) ==> p.nodes[id] == q.nodes[id]
    &&& p.chunks.contains_key(id) == q.chunks.contains_key(id)
    &&& p.chunks.contains_key(id) ==> p.chunks[id] == q.chunks[id]
    &&& id == 0 ==> p.root == q.root && p.root_lsn == q.root_lsn
}

proof fn lemma_untouched(p: Pages, cs: Seq<(u64, ChangeView)>, lsn: u64, id: u64)
    requires
        all_fit(p, cs, lsn),
        forall|i: int| 0 <= i < cs.len() ==> (#[trigger] cs[i]).0 != id,
    ensures
        same_page(p, apply_all(p, cs, lsn), id),
    decreases cs.len(),
{
    if cs.len() > 0 {
        let rest = cs.drop_last();
        assert forall|i: int| 0 <= i < rest.len() implies (#[trigger] rest[i]).0 != id by {
            assert(rest[i] == cs[i]);
        }
        lemma_untouched(p, rest, lsn, id);
        assert(cs[cs.len() - 1].0 != id);
    }
}

/// What one of several changes to different pages does to its page.
pub proof fn lemma_touched_page(p: Pages, cs: Seq<(u64, ChangeView)>, lsn: u64, i: int)
    requires
        all_fit(p, cs, lsn),
        0 <= i < cs.len(),
        forall|a: int, b: int|
            0 <= a < cs.len() && 0 <= b < cs.len() && a != b ==> (#[trigger] cs[a]).0 != (
            #[trigger] cs[b]).0,
    ensures
        same_page(apply_one(p, cs[i].0, cs[i].1, lsn), apply_all(p, cs, lsn), cs[i].0),
        fits(p, cs[i].0, cs[i].1),
    decreases cs.len(),
{
    let rest = cs.drop_last();
    let id = cs[i].0;
    let q = apply_all(p, rest, lsn);
    assert forall|a: int, b: int| 0 <= a < rest.len() && 0 <= b < rest.len() && a != b implies (
    #[trigger] rest[a]).0 != (#[trigger] rest[b]).0 by {
        assert(rest[a] == cs[a] && rest[b] == cs[b]);
    }
    if i == cs.len() - 1 {
        assert forall|a: int| 0 <= a < rest.len() implies (#[trigger] rest[a]).0 != id by {
            assert(rest[a] == cs[a]);
            assert(cs[a].0 != cs[i].0);
        }
        lemma_untouched(p, rest, lsn, id);
    } else {
        lemma_touched_page(p, rest, lsn, i);
        assert(rest[i] == cs[i]);
        assert(cs[i].0 != cs[cs.len() - 1].0);
    }
}

proof fn lemma_state_step(base: Pages, log: Seq<LogEntry>, k: int)
    requires
        0 <= k < log.len(),
    ensures
        state(base, log, k + 1) == apply_all(state(base, log, k), effect(log[k]), log[k].lsn),
{
    assert(log.subrange(0, k + 1).drop_last() =~= log.subrange(0, k));
    assert(log.subrange(0, k + 1).last() == log[k]);
}

/// All states can be stored.
pub proof fn lemma_state_wf(base: Pages, log: Seq<LogEntry>, k: int)
    requires
        log_ok(base, log),
        0 <= k <= log.len(),
    ensures
        state(base, log, k).wf(),
    decreases k,
{
    if k > 0 {
        lemma_state_wf(base, log, k - 1);
        lemma_state_step(base, log, k - 1);
        assert(entry_ok(state(base, log, k - 1), log[k - 1]));
        if effect(log[k - 1]).len() > 0 {
            lemma_apply_all_wf(state(base, log, k - 1), log[k - 1].changes, log[k - 1].lsn);
        }
    } else {
        assert(log.subrange(0, 0) =~= Seq::<LogEntry>::empty());
    }
}

/// What a record does to a page: nothing, or the one change that it has for it.
pub proof fn lemma_step_page(base: Pages, log: Seq<LogEntry>, k: int, id: u64)
    requires
        log_ok(base, log),
        0 <= k < log.len(),
    ensures
        !touches(log[k], id) ==> same_page(
            state(base, log, k),
            state(base, log, k + 1),
            id,
        ),
        forall|i: int|
            log[k].lsn > 0 && 0 <= i < log[k].changes.len() && (#[trigger] log[k].changes[i]).0
                == id ==> {
                let c = log[k].changes[i].1;
                &&& same_page(
                    apply_one(state(base, log, k), id, c, log[k].lsn),
                    state(base, log, k + 1),
                    id,
                )
                &&& fits(state(base, log, k), id, c)
                &&& suits(log[k].kind, i, c)
            },
{
    lemma_state_step(base, log, k);
    let e = log[k];
    let p = state(base, log, k);
    assert(entry_ok(p, e));
    if effect(e).len() > 0 {
        if !touches(e, id) {
            assert forall|i: int| 0 <= i < e.changes.len() implies (#[trigger] e.changes[i]).0
                != id by {}
            lemma_untouched(p, e.changes, e.lsn, id);
        }
        assert forall|i: int|
            0 <= i < e.changes.len() && (#[trigger] e.changes[i]).0 == id implies {
            let c = e.changes[i].1;
            &&& same_page(apply_one(p, id, c, e.lsn), state(base, log, k + 1), id)
            &&& fits(p, id, c)
            &&& suits(e.kind, i, c)
        } by {
            lemma_touched_page(p, e.changes, e.lsn, i);
        }
    }
}

/// The number on a page is below those of later records, and not below those of
/// the earlier records that changed the page.
pub proof fn lemma_stamps(base: Pages, log: Seq<LogEntry>, k: int, id: u64)
    requires
        log_ok(base, log),
        0 <= k <= log.len(),
        present(state(base, log, k), id),
    ensures
        forall|j: int|
            k <= j < log.len() && effect(#[trigger] log[j]).len() > 0 ==> stamp(
                state(base, log, k),
                id,
            ) < log[j].lsn,
        forall|j: int|
            0 <= j < k && #[trigger] touches(log[j], id) && log[j].kind
                != WalRecordType::OverflowFree ==> log[j].lsn <= stamp(state(base, log, k), id),
    decreases k,
{
    if k == 0 {
        assert(log.subrange(0, 0) =~= Seq::<LogEntry>::empty());
        assert(state(base, log, 0) == base);
    } else {
        let p = state(base, log, k - 1);
        let q = state(base, log, k);
        let e = log[k - 1];
        lemma_step_page(base, log, k - 1, id);
        lemma_state_wf(base, log, k - 1);
        if touches(e, id) {
            let i = choose|i: int| 0 <= i < e.changes.len() && (#[trigger] e.changes[i]).0 == id;
            let c = e.changes[i].1;
            assert(entry_ok(p, e));
            if c is Free {
                if id == 0 {
                    lemma_stamps(base, log, k - 1, id);
                    assert(e.kind == WalRecordType::OverflowFree);
                }
            } else {
                assert(stamp(q, id) == e.lsn);
            }
        } else {
            assert(present(p, id));
            lemma_stamps(base, log, k - 1, id);
        }
    }
}

// ── Bytes and states ─────────────────────────────────────────────────────────
/// The number on the bytes of a page is the number on the page.
pub proof fn lemma_shown_stamp(p: Pages, id: u64, b: Seq<u8>)
    requires
        p.wf(),
        present(p, id),
        shown(p, id, b),
    ensures
        b.len() == PAGE_SIZE,
        lsn_of(b) == stamp(p, id),
{
    if id != 0 {
        if p.nodes.contains_key(id) {
            let n = p.nodes[id];
            law_node_roundtrip(n);
            lemma_node_page_len(n);
        } else {
            law_chunk_roundtrip(id, p.chunks[id]);
        }
    }
}

pub proof fn lemma_shown_same(p: Pages, q: Pages, id: u64, b: Seq<u8>)
    requires
        same_page(p, q, id),
    ensures
        present(p, id) == present(q, id),
        present(p, id) ==> shown(p, id, b) == shown(q, id, b),
        present(p, id) ==> stamp(p, id) == stamp(q, id),
{
}

pub proof fn lemma_meta_redo(b: Seq<u8>, r: u64, lsn: u64)
    requires
        b.len() == PAGE_SIZE,
        b[0] == META,
    ensures
        ({
            let c = blank(restamped(with_root(b, r), lsn));
            &&& c.len() == PAGE_SIZE
            &&& c[0] == META
            &&& root_of(c) == r
            &&& lsn_of(c) == lsn
            &&& blank(c) == c
        }),
{
    let d = with_root(b, r);
    law_root_roundtrip(b, r);
    lemma_restamped(d, lsn);
    let e = restamped(d, lsn);
    crate::bytes::lemma_le(0, 0, lsn);
    lemma_blank(e);
    let c = blank(e);
    assert forall|i: int| 24 <= i < 32 implies c[i] == d[i] by {}
}

proof fn lemma_redo_image(b: Seq<u8>, kind: WalRecordType, i: int, id: u64, c: ChangeView, lsn: u64)
    requires
        image(id, c) is Some,
    ensures
        redo_page(b, kind, i, block_of(id, c), lsn) == Some(restamped(image(id, c)->0, lsn)),
{
    reveal(redo_page);
}

proof fn lemma_redo_root(b: Seq<u8>, kind: WalRecordType, i: int, id: u64, r: u64, lsn: u64)
    requires
        suits(kind, i, ChangeView::SetRoot(r)),
    ensures
        redo_page(b, kind, i, block_of(id, ChangeView::SetRoot(r)), lsn) == Some(
            restamped(with_root(b, r), lsn),
        ),
{
    law_change_roundtrip(kind, i, id, ChangeView::SetRoot(r));
    reveal(redo_page);
}

proof fn lemma_redo_node(
    b: Seq<u8>,
    n: NodeView,
    kind: WalRecordType,
    i: int,
    id: u64,
    c: ChangeView,
    lsn: u64,
)
    requires
        suits(kind, i, c),
        image(id, c) is None,
        !(c is Free),
        !(c is SetRoot),
        node_at(blank(b)) == Some(n),
        fits_node(n, c),
    ensures
        redo_page(b, kind, i, block_of(id, c), lsn) == Some(
            node_page(with_lsn(changed(n, c), lsn)),
        ),
{
    law_change_roundtrip(kind, i, id, c);
    reveal(redo_page);
}

/// Redoing a block on the page that the record was made for gives the page that
/// the record made.
proof fn lemma_redo_shown(
    p: Pages,
    id: u64,
    b: Seq<u8>,
    kind: WalRecordType,
    i: int,
    c: ChangeView,
    lsn: u64,
)
    requires
        p.wf(),
        suits(kind, i, c),
        fits(p, id, c),
        !(c is Free),
        present(p, id) ==> shown(p, id, b),
    ensures
        redo_page(b, kind, i, block_of(id, c), lsn) is Some,
        present(apply_one(p, id, c, lsn), id),
        shown(
            apply_one(p, id, c, lsn),
            id,
            blank(redo_page(b, kind, i, block_of(id, c), lsn)->0),
        ),
{
    let q = apply_one(p, id, c, lsn);
    if c is Image {
        let n = c->Image_0;
        lemma_redo_image(b, kind, i, id, c, lsn);
        lemma_node_restamped(n, lsn);
        law_node_roundtrip(with_lsn(n, lsn));
        assert(with_lsn(n, lsn) == q.nodes[id]);
    } else if c is Chunk {
        let k = c->Chunk_0;
        lemma_redo_image(b, kind, i, id, c, lsn);
        lemma_chunk_restamped(id, k, lsn);
        law_chunk_roundtrip(id, ChunkView { lsn, ..k });
    } else if c is SetRoot {
        let r = c->SetRoot_0;
        lemma_redo_root(b, kind, i, id, r, lsn);
        lemma_meta_redo(b, r, lsn);
    } else {
        let n0 = p.nodes[id];
        assert(p.nodes.contains_key(id) && fits_node(n0, c));
        assert(id != 0) by {
            assert(n0.wf() && n0.page_id() == id);
        }
        let n = p.nodes[id];
        law_node_roundtrip(n);
        lemma_changed_wf(n, c);
        let m = with_lsn(changed(n, c), lsn);
        lemma_wf_lsn(changed(n, c), lsn);
        law_node_roundtrip(m);
        lemma_redo_node(b, n, kind, i, id, c, lsn);
        assert(q.nodes[id] == with_lsn(changed(n0, c), lsn));
        assert(m == q.nodes[id]);
    }
}

pub proof fn lemma_wf_lsn(n: NodeView, lsn: u64)
    requires
        n.wf(),
    ensures
        with_lsn(n, lsn).wf(),
{
    lemma_node_restamped(n, lsn);
}

// ── The law ──────────────────────────────────────────────────────────────────
/// What holds of a page when the first `j` records have been redone: it is the
/// page of that state or a later one, or there is no such page yet and the bytes
/// have seen none of the records to come.
#[verifier::opaque]
spec fn due(base: Pages, log: Seq<LogEntry>, j: int, id: u64, b: Seq<u8>) -> bool {
    ||| exists|k: int| j <= k && #[trigger] shown_at(base, log, k, id, b)
    ||| {
        &&& !present(state(base, log, j), id)
        &&& b.len() == PAGE_SIZE
        &&& forall|i: int|
            j <= i < log.len() && effect(#[trigger] log[i]).len() > 0 ==> lsn_of(b) < log[i].lsn
    }
}

proof fn lemma_due_untouched(base: Pages, log: Seq<LogEntry>, j: int, id: u64, b: Seq<u8>)
    requires
        log_ok(base, log),
        0 <= j < log.len(),
        due(base, log, j, id, b),
        !touches(log[j], id),
    ensures
        due(base, log, j + 1, id, b),
{
    reveal(due);
    lemma_step_page(base, log, j, id);
    let p = state(base, log, j);
    let q = state(base, log, j + 1);
    lemma_shown_same(p, q, id, b);
    if exists|k: int| j <= k && #[trigger] shown_at(base, log, k, id, b) {
        let k = choose|k: int| j <= k && #[trigger] shown_at(base, log, k, id, b);
        if k == j {
            assert(shown_at(base, log, j + 1, id, b));
        }
    }
}

/// Pages that are given back keep their bytes.
proof fn lemma_due_freed(base: Pages, log: Seq<LogEntry>, j: int, id: u64, b: Seq<u8>)
    requires
        log_ok(base, log),
        0 <= j < log.len(),
        due(base, log, j, id, b),
        log[j].kind == WalRecordType::OverflowFree,
    ensures
        due(base, log, j + 1, id, b),
{
    reveal(due);
    let e = log[j];
    assert(entry_ok(state(base, log, j), e));
    if !touches(e, id) {
        lemma_due_untouched(base, log, j, id, b);
    } else {
        lemma_step_page(base, log, j, id);
        let i = choose|i: int| 0 <= i < e.changes.len() && (#[trigger] e.changes[i]).0 == id;
        assert(suits(e.kind, i, e.changes[i].1));
        let p = state(base, log, j);
        let q = state(base, log, j + 1);
        lemma_state_wf(base, log, j);
        if exists|k: int| j <= k && #[trigger] shown_at(base, log, k, id, b) {
            let k = choose|k: int| j <= k && #[trigger] shown_at(base, log, k, id, b);
            if k == j {
                if id == 0 {
                    assert(shown_at(base, log, j + 1, id, b));
                } else {
                    lemma_shown_stamp(p, id, b);
                    lemma_stamps(base, log, j, id);
                    assert(!present(q, id));
                }
            }
        } else {
            assert(!present(q, id));
        }
    }
}

/// Redoing one block of a record.
proof fn lemma_due_block(base: Pages, log: Seq<LogEntry>, j: int, i: int, b: Seq<u8>)
    requires
        log_ok(base, log),
        0 <= j < log.len(),
        0 <= i < log[j].changes.len(),
        log[j].lsn > 0,
        log[j].kind != WalRecordType::OverflowFree,
        due(base, log, j, log[j].changes[i].0, b),
    ensures
        ({
            let e = log[j];
            let id = e.changes[i].0;
            let r = redo_page(b, e.kind, i, block_of(id, e.changes[i].1), e.lsn);
            if e.lsn <= lsn_of(b) {
                due(base, log, j + 1, id, b)
            } else {
                &&& r is Some
                &&& due(base, log, j + 1, id, blank(r->0))
                &&& page_past(base, log, id, blank(r->0))
            }
        }),
{
    reveal(due);
    let e = log[j];
    let id = e.changes[i].0;
    let c = e.changes[i].1;
    let p = state(base, log, j);
    let q = state(base, log, j + 1);
    assert(entry_ok(p, e));
    lemma_step_page(base, log, j, id);
    lemma_state_wf(base, log, j);
    assert(touches(e, id));
    assert(!(c is Free));
    if exists|k: int| j < k && #[trigger] shown_at(base, log, k, id, b) {
        let k = choose|k: int| j < k && #[trigger] shown_at(base, log, k, id, b);
        lemma_state_wf(base, log, k);
        lemma_shown_stamp(state(base, log, k), id, b);
        lemma_stamps(base, log, k, id);
        assert(e.lsn <= lsn_of(b));
    } else {
        if exists|k: int| j <= k && #[trigger] shown_at(base, log, k, id, b) {
            let k = choose|k: int| j <= k && #[trigger] shown_at(base, log, k, id, b);
            assert(k == j);
            lemma_shown_stamp(p, id, b);
            lemma_stamps(base, log, j, id);
        }
        assert(lsn_of(b) < e.lsn);
        lemma_redo_shown(p, id, b, e.kind, i, c, e.lsn);
        let r = redo_page(b, e.kind, i, block_of(id, c), e.lsn)->0;
        lemma_shown_same(apply_one(p, id, c, e.lsn), q, id, blank(r));
        assert(shown_at(base, log, j + 1, id, blank(r)));
    }
}

/// Redoing the first `n` blocks of a record.
#[verifier::rlimit(60)]
#[verifier::spinoff_prover]
proof fn lemma_due_blocks(base: Pages, log: Seq<LogEntry>, j: int, m: Map<u64, Seq<u8>>, n: nat)
    requires
        log_ok(base, log),
        0 <= j < log.len(),
        n <= log[j].changes.len(),
        log[j].lsn > 0,
        log[j].kind != WalRecordType::OverflowFree,
        forall|i: int|
            0 <= i < log[j].changes.len() ==> (#[trigger] log[j].changes[i]).0 != INVALID_FRAME_ID,
        forall|id: u64| due(base, log, j, id, #[trigger] page_in(m, id)),
        recoverable(base, log, m),
    ensures
        ({
            let r = redo_blocks(m, entry_record(log[j]), n);
            &&& r is Some
            &&& recoverable(base, log, r->0)
            &&& forall|id: u64|
                (forall|i: int| 0 <= i < n ==> (#[trigger] log[j].changes[i]).0 != id) ==> due(
                    base,
                    log,
                    j,
                    id,
                    #[trigger] page_in(r->0, id),
                )
            &&& forall|i: int|
                0 <= i < n ==> due(
                    base,
                    log,
                    j + 1,
                    log[j].changes[i].0,
                    page_in(r->0, (#[trigger] log[j].changes[i]).0),
                )
        }),
    decreases n,
{
    if n > 0 {
        lemma_due_blocks(base, log, j, m, (n - 1) as nat);
        let e = log[j];
        assert(entry_ok(state(base, log, j), e));
        let rec = entry_record(e);
        let m1 = redo_blocks(m, rec, (n - 1) as nat)->0;
        let i = n - 1;
        let id = e.changes[i].0;
        let b = page_in(m1, id);
        assert(rec.blocks[i] == block_of(id, e.changes[i].1));
        assert forall|a: int| 0 <= a < i implies (#[trigger] e.changes[a]).0 != id by {
            assert(e.changes[a].0 != e.changes[i].0);
        }
        lemma_due_block(base, log, j, i, b);
        let m2 = redo_blocks(m, rec, n)->0;
        assert forall|x: u64| page_past(base, log, x, #[trigger] page_in(m2, x)) by {
            assert(page_past(base, log, x, page_in(m1, x)));
            if x != id {
                assert(page_in(m2, x) == page_in(m1, x));
            }
        }
        assert forall|x: u64|
            (forall|a: int| 0 <= a < n ==> (#[trigger] e.changes[a]).0 != x) implies due(
            base,
            log,
            j,
            x,
            #[trigger] page_in(m2, x),
        ) by {
            assert(e.changes[i].0 != x);
            assert(page_in(m2, x) == page_in(m1, x));
        }
        assert forall|a: int| 0 <= a < n implies due(
            base,
            log,
            j + 1,
            e.changes[a].0,
            page_in(m2, (#[trigger] e.changes[a]).0),
        ) by {
            if a < i {
                assert(e.changes[a].0 != id);
                assert(page_in(m2, e.changes[a].0) == page_in(m1, e.changes[a].0));
            }
        }
    }
}

/// Whether no record names the id that stands for no page.
pub open spec fn ids_ok(log: Seq<LogEntry>) -> bool {
    forall|i: int, k: int|
        0 <= i < log.len() && 0 <= k < log[i].changes.len() ==> (#[trigger] log[i].changes[k]).0
            != INVALID_FRAME_ID
}

/// No block of the record with the number zero is redone.
proof fn lemma_first_skipped(m: Map<u64, Seq<u8>>, r: WalRecordView, n: nat)
    requires
        r.lsn == 0,
        n <= r.blocks.len(),
        forall|i: int| 0 <= i < n ==> (#[trigger] r.blocks[i]).page_id != INVALID_FRAME_ID,
    ensures
        redo_blocks(m, r, n) == Some(m),
    decreases n,
{
    if n > 0 {
        lemma_first_skipped(m, r, (n - 1) as nat);
        assert(r.blocks[n - 1].page_id != INVALID_FRAME_ID);
    }
}

/// Redoing the first `j` records.
proof fn lemma_due_records(base: Pages, log: Seq<LogEntry>, m: Map<u64, Seq<u8>>, j: int)
    requires
        log_ok(base, log),
        ids_ok(log),
        recoverable(base, log, m),
        0 <= j <= log.len(),
    ensures
        ({
            let r = redo_all(m, log_records(log).subrange(0, j));
            &&& r is Some
            &&& recoverable(base, log, r->0)
            &&& forall|id: u64| due(base, log, j, id, #[trigger] page_in(r->0, id))
        }),
    decreases j,
{
    let rs = log_records(log);
    if j == 0 {
        assert(rs.subrange(0, 0) =~= Seq::<WalRecordView>::empty());
        assert(log.subrange(0, 0) =~= Seq::<LogEntry>::empty());
        assert(state(base, log, 0) == base);
        assert forall|id: u64| due(base, log, 0, id, #[trigger] page_in(m, id)) by {
            reveal(due);
            let b = page_in(m, id);
            assert(page_past(base, log, id, b));
            if exists|k: int| #[trigger] shown_at(base, log, k, id, b) {
                let k = choose|k: int| #[trigger] shown_at(base, log, k, id, b);
                assert(0 <= k && shown_at(base, log, k, id, b));
            } else {
                lemma_zero_ints(b, 16);
                assert forall|i: int|
                    0 <= i < log.len() && effect(#[trigger] log[i]).len() > 0 implies lsn_of(b)
                    < log[i].lsn by {
                    assert(present(base, 0));
                    assert(stamp(base, 0) < log[i].lsn);
                }
            }
        }
    } else {
        let e = log[j - 1];
        lemma_due_records(base, log, m, j - 1);
        assert(rs.subrange(0, j).drop_last() =~= rs.subrange(0, j - 1));
        assert(rs.subrange(0, j).last() == entry_record(e));
        let m1 = redo_all(m, rs.subrange(0, j - 1))->0;
        let rec = entry_record(e);
        assert(entry_ok(state(base, log, j - 1), e));
        if e.changes.len() == 0 {
            assert forall|id: u64| due(base, log, j, id, #[trigger] page_in(m1, id)) by {
                assert(!touches(e, id));
                lemma_due_untouched(base, log, j - 1, id, page_in(m1, id));
            }
        } else if e.kind == WalRecordType::OverflowFree {
            lemma_free_main(e);
            assert forall|id: u64| due(base, log, j, id, #[trigger] page_in(m1, id)) by {
                lemma_due_freed(base, log, j - 1, id, page_in(m1, id));
            }
        } else if e.lsn == 0 {
            assert(suits(e.kind, 0, e.changes[0].1));
            assert forall|i: int| 0 <= i < rec.blocks.len() implies (#[trigger] rec.blocks[i]).page_id
                != INVALID_FRAME_ID by {
                assert(rec.blocks[i] == block_of(e.changes[i].0, e.changes[i].1));
                assert(log[j - 1].changes[i].0 != INVALID_FRAME_ID);
            }
            lemma_first_skipped(m1, rec, rec.blocks.len());
            assert forall|id: u64| due(base, log, j, id, #[trigger] page_in(m1, id)) by {
                lemma_due_untouched(base, log, j - 1, id, page_in(m1, id));
            }
        } else {
            assert(suits(e.kind, 0, e.changes[0].1));
            let n = e.changes.len();
            assert forall|i: int| 0 <= i < n implies (#[trigger] e.changes[i]).0
                != INVALID_FRAME_ID by {
                assert(log[j - 1].changes[i].0 != INVALID_FRAME_ID);
            }
            lemma_due_blocks(base, log, j - 1, m1, n);
            let m2 = redo_blocks(m1, rec, n)->0;
            assert(rec.blocks.len() == n);
            assert forall|id: u64| due(base, log, j, id, #[trigger] page_in(m2, id)) by {
                if touches(e, id) {
                    let i = choose|i: int|
                        0 <= i < e.changes.len() && (#[trigger] e.changes[i]).0 == id;
                    assert(due(base, log, j, e.changes[i].0, page_in(m2, e.changes[i].0)));
                } else {
                    assert forall|i: int| 0 <= i < n implies (#[trigger] e.changes[i]).0
                        != id by {}
                    lemma_due_untouched(base, log, j - 1, id, page_in(m2, id));
                }
            }
        }
    }
}

proof fn lemma_free_main(e: LogEntry)
    requires
        e.kind == WalRecordType::OverflowFree,
    ensures
        entry_record(e).main_data is Some,
        part(entry_record(e).main_data).len() % 8 == 0,
{
    crate::log_codec::lemma_ids_len(e.changes);
}

/// Redoing a log on pages of different ages never fails, and gives the pages of
/// the state that the log ends with, whatever each page had seen of the log.
/// Every page still is what it was at some time.
pub proof fn law_redo_restores(base: Pages, log: Seq<LogEntry>, m: Map<u64, Seq<u8>>)
    requires
        log_ok(base, log),
        ids_ok(log),
        recoverable(base, log, m),
    ensures
        redo_all(m, log_records(log)) is Some,
        recoverable(base, log, redo_all(m, log_records(log))->0),
        forall|id: u64|
            #![trigger page_in(redo_all(m, log_records(log))->0, id)]
            present(replay(base, log), id) ==> shown(
                replay(base, log),
                id,
                page_in(redo_all(m, log_records(log))->0, id),
            ),
{
    let rs = log_records(log);
    let n = log.len() as int;
    lemma_due_records(base, log, m, n);
    assert(rs.subrange(0, n) =~= rs);
    assert(log.subrange(0, n) =~= log);
    let r = redo_all(m, rs)->0;
    assert forall|id: u64|
        #![trigger page_in(r, id)]
        present(replay(base, log), id) implies shown(
        replay(base, log),
        id,
        page_in(r, id),
    ) by {
        assert(due(base, log, n, id, page_in(r, id)));
        reveal(due);
        let k = choose|k: int| n <= k && #[trigger] shown_at(base, log, k, id, page_in(r, id));
        assert(k == n);
    }
}

// ── Longer logs ──────────────────────────────────────────────────────────────
/// One more record.
pub proof fn lemma_log_push(base: Pages, log: Seq<LogEntry>, e: LogEntry)
    requires
        log_ok(base, log),
        entry_ok(replay(base, log), e),
        forall|i: int| 0 <= i < log.len() ==> (#[trigger] log[i]).lsn < e.lsn,
        effect(e).len() > 0 ==> forall|id: u64| #[trigger]
            present(base, id) ==> stamp(base, id) < e.lsn,
    ensures
        log_ok(base, log.push(e)),
        forall|k: int|
            0 <= k <= log.len() ==> #[trigger] state(base, log.push(e), k) == state(base, log, k),
        replay(base, log.push(e)) == apply_all(replay(base, log), effect(e), e.lsn),
{
    let l2 = log.push(e);
    assert(l2.drop_last() =~= log);
    assert forall|k: int| 0 <= k <= log.len() implies #[trigger] state(base, l2, k) == state(
        base,
        log,
        k,
    ) by {
        assert(l2.subrange(0, k) =~= log.subrange(0, k));
    }
    assert(log.subrange(0, log.len() as int) =~= log);
    assert forall|i: int| 0 <= i < l2.len() implies entry_ok(
        state(base, l2, i),
        #[trigger] l2[i],
    ) by {
        if i < log.len() {
            assert(l2[i] == log[i]);
        }
    }
    assert forall|i: int, j: int| 0 <= i < j < l2.len() implies (#[trigger] l2[i]).lsn < (
    #[trigger] l2[j]).lsn by {
        if j < log.len() {
            assert(l2[i] == log[i] && l2[j] == log[j]);
        } else {
            assert(l2[i] == log[i]);
        }
    }
    assert forall|i: int, id: u64|
        0 <= i < l2.len() && effect(l2[i]).len() > 0 && #[trigger] present(base, id) implies stamp(
        base,
        id,
    ) < (#[trigger] l2[i]).lsn by {
        if i < log.len() {
            assert(l2[i] == log[i]);
        }
    }
}

/// What a page was at some time stays in the past.
pub proof fn lemma_past_push(base: Pages, log: Seq<LogEntry>, e: LogEntry, id: u64, b: Seq<u8>)
    requires
        page_past(base, log, id, b),
    ensures
        page_past(base, log.push(e), id, b),
{
    if exists|k: int| #[trigger] shown_at(base, log, k, id, b) {
        let k = choose|k: int| #[trigger] shown_at(base, log, k, id, b);
        assert(log.push(e).subrange(0, k) =~= log.subrange(0, k));
        assert(shown_at(base, log.push(e), k, id, b));
    }
}

/// Being alike goes both ways, and from one to the next.
pub proof fn lemma_alike_refl(p: Pages)
    ensures
        alike(p, p),
{
}

proof fn lemma_alike_one(p: Pages, q: Pages, id: u64, c: ChangeView, lsn: u64)
    requires
        alike(p, q),
        fits(p, id, c),
    ensures
        fits(q, id, c),
        alike(apply_one(p, id, c, lsn), apply_one(q, id, c, lsn)),
{
    let p2 = apply_one(p, id, c, lsn);
    let q2 = apply_one(q, id, c, lsn);
    assert(p.nodes.contains_key(id) == q.nodes.contains_key(id));
    match c {
        ChangeView::Image(_) => {},
        ChangeView::Chunk(_) => {},
        ChangeView::Free => {},
        ChangeView::SetRoot(_) => {},
        _ => {
        },
    }
    assert forall|x: u64| #[trigger] p2.nodes.contains_key(x) implies p2.nodes[x] == q2.nodes[x] by {
        if x != id {
            assert(p.nodes.contains_key(x));
        }
    }
    assert(p2.nodes.dom() =~= q2.nodes.dom());
    assert(p2.chunks =~= q2.chunks);
}

/// States that are alike stay alike.
pub proof fn lemma_alike_all(p: Pages, q: Pages, cs: Seq<(u64, ChangeView)>, lsn: u64)
    requires
        alike(p, q),
        all_fit(p, cs, lsn),
    ensures
        all_fit(q, cs, lsn),
        alike(apply_all(p, cs, lsn), apply_all(q, cs, lsn)),
    decreases cs.len(),
{
    if cs.len() > 0 {
        lemma_alike_all(p, q, cs.drop_last(), lsn);
        lemma_alike_one(
            apply_all(p, cs.drop_last(), lsn),
            apply_all(q, cs.drop_last(), lsn),
            cs.last().0,
            cs.last().1,
            lsn,
        );
    }
}

/// The bytes of a page of a state.
pub open spec fn exact(p: Pages, id: u64, b: Seq<u8>) -> bool {
    if id == 0 {
        shown(p, id, b)
    } else if p.nodes.contains_key(id) {
        b == node_page(p.nodes[id])
    } else {
        p.chunks.contains_key(id) && b == chunk_page(id, p.chunks[id])
    }
}

/// The bytes of a page are shown by every state that is alike.
pub proof fn lemma_exact_shown(p: Pages, q: Pages, id: u64, b: Seq<u8>)
    requires
        alike(p, q),
        present(p, id),
        exact(p, id, b),
    ensures
        present(q, id),
        shown(q, id, b),
{
    if id != 0 {
        assert(p.nodes.contains_key(id) == q.nodes.contains_key(id));
        if p.nodes.contains_key(id) {
            assert(p.nodes[id] == q.nodes[id]);
        }
    }
}

/// The page that one of the changes of a record makes is shown by the state after
/// the record.
pub proof fn lemma_change_shown(
    p: Pages,
    q: Pages,
    cs: Seq<(u64, ChangeView)>,
    lsn: u64,
    i: int,
    b: Seq<u8>,
)
    requires
        alike(p, q),
        all_fit(p, cs, lsn),
        0 <= i < cs.len(),
        forall|a: int, b: int|
            0 <= a < cs.len() && 0 <= b < cs.len() && a != b ==> (#[trigger] cs[a]).0 != (
            #[trigger] cs[b]).0,
        !(cs[i].1 is Free),
        exact(apply_one(p, cs[i].0, cs[i].1, lsn), cs[i].0, b),
        present(apply_one(p, cs[i].0, cs[i].1, lsn), cs[i].0),
    ensures
        present(apply_all(q, cs, lsn), cs[i].0),
        shown(apply_all(q, cs, lsn), cs[i].0, b),
        fits(p, cs[i].0, cs[i].1),
{
    let id = cs[i].0;
    let c = cs[i].1;
    lemma_alike_all(p, q, cs, lsn);
    lemma_touched_page(p, cs, lsn, i);
    lemma_touched_page(q, cs, lsn, i);
    lemma_alike_one(p, q, id, c, lsn);
    lemma_exact_shown(apply_one(p, id, c, lsn), apply_one(q, id, c, lsn), id, b);
    lemma_shown_same(apply_one(q, id, c, lsn), apply_all(q, cs, lsn), id, b);
}

/// A page that the changes before have not touched is as it was.
pub proof fn lemma_prefix_page(p: Pages, cs: Seq<(u64, ChangeView)>, lsn: u64, i: int)
    requires
        all_fit(p, cs, lsn),
        0 <= i < cs.len(),
        forall|a: int, b: int|
            0 <= a < cs.len() && 0 <= b < cs.len() && a != b ==> (#[trigger] cs[a]).0 != (
            #[trigger] cs[b]).0,
    ensures
        same_page(p, apply_all(p, cs.subrange(0, i), lsn), cs[i].0),
        all_fit(p, cs.subrange(0, i), lsn),
    decreases cs.len(),
{
    let rest = cs.drop_last();
    if i == cs.len() - 1 {
        assert(cs.subrange(0, i) =~= rest);
        assert forall|a: int| 0 <= a < rest.len() implies (#[trigger] rest[a]).0 != cs[i].0 by {
            assert(rest[a] == cs[a]);
            assert(cs[a].0 != cs[i].0);
        }
        lemma_untouched(p, rest, lsn, cs[i].0);
    } else {
        assert forall|a: int, b: int| 0 <= a < rest.len() && 0 <= b < rest.len() && a != b implies (
        #[trigger] rest[a]).0 != (#[trigger] rest[b]).0 by {
            assert(rest[a] == cs[a] && rest[b] == cs[b]);
        }
        lemma_prefix_page(p, rest, lsn, i);
        assert(rest.subrange(0, i) =~= cs.subrange(0, i));
        assert(rest[i] == cs[i]);
    }
}

/// The records of a log read back as they were written.
pub proof fn lemma_log_clean(base: Pages, log: Seq<LogEntry>)
    requires
        log_ok(base, log),
    ensures
        all_clean(log_records(log)),
{
    assert forall|i: int| 0 <= i < log.len() implies record_clean(
        #[trigger] log_records(log)[i],
    ) by {
        let e = log[i];
        assert(entry_ok(state(base, log, i), e));
        if e.changes.len() == 0 {
            lemma_note_clean(e);
        } else {
            lemma_entry_clean(e);
        }
    }
}

/// A log reads back: parsing its bytes gives its records.
pub proof fn law_log_reads_back(base: Pages, log: Seq<LogEntry>)
    requires
        log_ok(base, log),
    ensures
        records_from(log_bytes(log_records(log)), 0) == log_records(log),
        records_end(log_bytes(log_records(log)), 0) == log_bytes(log_records(log)).len(),
{
    lemma_log_clean(base, log);
    let b = log_bytes(log_records(log));
    assert(slice(b, 0, b.len() as int) =~= b);
    law_log_roundtrip(b, 0, log_records(log));
}

/// A record without changes reads back as it was written.
pub proof fn lemma_note_clean(e: LogEntry)
    requires
        e.changes.len() == 0,
        note_ok(e.kind, e.main),
    ensures
        record_clean(entry_record(e)),
        parts_ok(entry_blocks(e.kind, e.changes), entry_main(e.kind, e.changes, e.main)),
        entry_blocks(e.kind, e.changes) == Seq::<crate::wal::BlockView>::empty(),
        entry_main(e.kind, e.changes, e.main) == e.main,
{
    assert(entry_blocks(e.kind, e.changes) =~= Seq::<crate::wal::BlockView>::empty());
}

// ── Shorter logs ─────────────────────────────────────────────────────────────
/// The first records of a log.
pub proof fn lemma_log_prefix(base: Pages, log: Seq<LogEntry>, d: int)
    requires
        log_ok(base, log),
        ids_ok(log),
        0 <= d <= log.len(),
    ensures
        log_ok(base, log.subrange(0, d)),
        ids_ok(log.subrange(0, d)),
        forall|k: int|
            0 <= k <= d ==> #[trigger] state(base, log.subrange(0, d), k) == state(base, log, k),
{
    let l2 = log.subrange(0, d);
    assert forall|k: int| 0 <= k <= d implies #[trigger] state(base, l2, k) == state(base, log, k) by {
        assert(l2.subrange(0, k) =~= log.subrange(0, k));
    }
    assert forall|i: int| 0 <= i < l2.len() implies entry_ok(
        state(base, l2, i),
        #[trigger] l2[i],
    ) by {
        assert(l2[i] == log[i]);
        assert(l2.subrange(0, i) =~= log.subrange(0, i));
    }
    assert forall|i: int, j: int| 0 <= i < j < l2.len() implies (#[trigger] l2[i]).lsn < (
    #[trigger] l2[j]).lsn by {
        assert(l2[i] == log[i] && l2[j] == log[j]);
    }
    assert forall|i: int, id: u64|
        0 <= i < l2.len() && effect(l2[i]).len() > 0 && #[trigger] present(base, id) implies stamp(
        base,
        id,
    ) < (#[trigger] l2[i]).lsn by {
        assert(l2[i] == log[i]);
    }
    assert forall|i: int, k: int|
        0 <= i < l2.len() && 0 <= k < l2[i].changes.len() implies (#[trigger] l2[i].changes[k]).0
        != INVALID_FRAME_ID by {
        assert(log[i].changes[k].0 != INVALID_FRAME_ID);
    }
}

/// A page that has seen none of the later records of a log is what it was at some
/// time before them.
pub proof fn lemma_past_prefix(
    base: Pages,
    log: Seq<LogEntry>,
    d: int,
    id: u64,
    b: Seq<u8>,
)
    requires
        log_ok(base, log),
        ids_ok(log),
        0 <= d <= log.len(),
        page_past(base, log, id, b),
        forall|i: int| d <= i < log.len() ==> lsn_of(b) < (#[trigger] log[i]).lsn,
    ensures
        page_past(base, log.subrange(0, d), id, b),
{
    lemma_log_prefix(base, log, d);
    if exists|k: int| #[trigger] shown_at(base, log, k, id, b) {
        let k = choose|k: int| #[trigger] shown_at(base, log, k, id, b);
        lemma_state_wf(base, log, k);
        lemma_shown_stamp(state(base, log, k), id, b);
        if k > d {
            lemma_back(base, log, d, k, id);
            lemma_shown_same(state(base, log, d), state(base, log, k), id, b);
            assert(shown_at(base, log.subrange(0, d), d, id, b));
        } else {
            assert(shown_at(base, log.subrange(0, d), k, id, b));
        }
    }
}

/// A page whose number is below those of some records has not been changed by
/// them.
proof fn lemma_back(base: Pages, log: Seq<LogEntry>, d: int, k: int, id: u64)
    requires
        log_ok(base, log),
        0 <= d <= k <= log.len(),
        present(state(base, log, k), id),
        forall|i: int| d <= i < k ==> stamp(state(base, log, k), id) < (#[trigger] log[i]).lsn,
    ensures
        same_page(state(base, log, d), state(base, log, k), id),
    decreases k - d,
{
    if d < k {
        let e = log[k - 1];
        lemma_step_page(base, log, k - 1, id);
        lemma_state_wf(base, log, k - 1);
        lemma_stamps(base, log, k, id);
        assert(entry_ok(state(base, log, k - 1), e));
        if touches(e, id) {
            let i = choose|i: int| 0 <= i < e.changes.len() && (#[trigger] e.changes[i]).0 == id;
            let c = e.changes[i].1;
            assert(suits(e.kind, i, c));
            if e.kind == WalRecordType::OverflowFree {
                assert(c is Free);
                if id != 0 {
                    assert(!present(state(base, log, k), id));
                }
            } else {
                assert(e.lsn <= stamp(state(base, log, k), id));
            }
        }
        assert(same_page(state(base, log, k - 1), state(base, log, k), id));
        lemma_shown_same(state(base, log, k - 1), state(base, log, k), id, Seq::empty());
        lemma_back(base, log, d, k - 1, id);
    }
}

} // verus!
