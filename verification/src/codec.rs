//! How nodes are laid out on their pages.
//!
//! A page starts with its type (1 byte), flags (1), 6 unused bytes, the page id
//! (8), the number of the last record (8), the right neighbour (8, 0 for none),
//! the left neighbour of a leaf or the first child of an internal page (8), the
//! number of entries (2), the length of the high key (2, all ones for none) and
//! the checksum (4). The high key and the entries follow.

use vstd::prelude::*;

use crate::bytes::{
    law_integers_give_their_bytes_back, holds, le16, le64, lemma_holds_add, lemma_holds_byte,
    lemma_holds_int, lemma_le, pad_to, push_bytes, push_u16, push_u64, read_u16, read_u64, slice,
    u16_at, u64_at, zeros,
};
use crate::constants::{MAX_KEY_SIZE, OVERFLOW_THRESHOLD, PAGE_SIZE};
use crate::node::{
    key_views, opt_key, record_size, record_views, records_size, separators_size, InternalPage,
    InternalView, LeafPage, LeafView, Node, NodeView, Record, RecordView, NODE_HEADER_SIZE,
    RECORD_OVERHEAD, SEPARATOR_OVERHEAD,
};
use crate::page::{blank, clear_checksum, INTERNAL, LEAF};

verus! {

/// Flag of a page whose right neighbour has no downlink yet.
pub const FLAG_INCOMPLETE_SPLIT: u8 = 1;

/// Flag of a leaf that is about to leave the chain.
pub const FLAG_HALF_DEAD: u8 = 2;

/// The length that stands for no high key.
pub const NO_HIGH_KEY: u16 = 0xffff;

// ── Writing ──────────────────────────────────────────────────────────────────
/// The number that stands for an optional page id.
pub open spec fn link(id: Option<u64>) -> u64 {
    match id {
        Some(x) => x,
        None => 0,
    }
}

/// The page id that a number stands for.
pub open spec fn unlink(x: u64) -> Option<u64> {
    if x == 0 {
        None
    } else {
        Some(x)
    }
}

/// The flags of a page.
pub open spec fn flag_byte(incomplete_split: bool, half_dead: bool) -> u8 {
    if incomplete_split {
        if half_dead {
            3
        } else {
            1
        }
    } else if half_dead {
        2
    } else {
        0
    }
}

/// The bytes of a high key.
pub open spec fn high_key_bytes(k: Option<Seq<u8>>) -> Seq<u8> {
    match k {
        Some(x) => x,
        None => Seq::empty(),
    }
}

/// The length of a high key as it is written.
pub open spec fn high_key_code(k: Option<Seq<u8>>) -> u16 {
    match k {
        Some(x) => x.len() as u16,
        None => NO_HIGH_KEY,
    }
}

/// The header of a page.
pub open spec fn header(
    kind: u8,
    flags: u8,
    page_id: u64,
    lsn: u64,
    right: u64,
    fifth: u64,
    count: u16,
    hk: u16,
) -> Seq<u8> {
    seq![kind] + (seq![flags] + (zeros(6) + (le64(page_id) + (le64(lsn) + (le64(right) + (le64(
        fifth,
    ) + (le16(count) + (le16(hk) + zeros(4)))))))))
}

/// The bytes of a leaf record.
pub open spec fn entry_bytes(r: RecordView) -> Seq<u8> {
    le16(r.key.len() as u16) + (le16(r.value.len() as u16) + (seq![r.rec_type] + (le64(r.xmin) + (
    le64(r.xmax) + (r.key + r.value)))))
}

/// The bytes of a list of leaf records.
pub open spec fn entries_bytes(s: Seq<RecordView>) -> Seq<u8>
    decreases s.len(),
{
    if s.len() == 0 {
        Seq::empty()
    } else {
        entries_bytes(s.drop_last()) + entry_bytes(s.last())
    }
}

/// The bytes of a separator and the child to its right.
pub open spec fn separator_bytes(k: Seq<u8>, child: u64) -> Seq<u8> {
    le16(k.len() as u16) + (le64(child) + k)
}

/// The bytes of a list of separators and the children to their right.
pub open spec fn separators_bytes(ks: Seq<Seq<u8>>, cs: Seq<u64>) -> Seq<u8>
    decreases ks.len(),
{
    if ks.len() == 0 {
        Seq::empty()
    } else {
        separators_bytes(ks.drop_last(), cs) + separator_bytes(ks.last(), cs[ks.len() as int])
    }
}

/// The used bytes of a node's page.
pub open spec fn node_body(n: NodeView) -> Seq<u8> {
    match n {
        NodeView::Leaf(l) => header(
            LEAF,
            flag_byte(l.incomplete_split, l.half_dead),
            l.page_id,
            l.lsn,
            link(l.rightlink),
            link(l.prev_page),
            l.entries.len() as u16,
            high_key_code(l.high_key),
        ) + (high_key_bytes(l.high_key) + entries_bytes(l.entries)),
        NodeView::Internal(p) => header(
            INTERNAL,
            flag_byte(p.incomplete_split, false),
            p.page_id,
            p.lsn,
            link(p.rightlink),
            p.children[0],
            p.keys.len() as u16,
            high_key_code(p.high_key),
        ) + (high_key_bytes(p.high_key) + separators_bytes(p.keys, p.children)),
    }
}

/// The page of a node, without its checksum.
pub open spec fn node_page(n: NodeView) -> Seq<u8> {
    node_body(n) + zeros((PAGE_SIZE - node_body(n).len()) as nat)
}

// ── Reading ──────────────────────────────────────────────────────────────────
/// The leaf record at `pos` and where it ends.
pub open spec fn entry_at(b: Seq<u8>, pos: int) -> Option<(RecordView, int)> {
    if pos + RECORD_OVERHEAD > b.len() {
        None
    } else {
        let k = u16_at(b, pos) as int;
        let v = u16_at(b, pos + 2) as int;
        let end = pos + RECORD_OVERHEAD + k + v;
        if end > b.len() {
            None
        } else {
            Some(
                (
                    RecordView {
                        key: slice(b, pos + RECORD_OVERHEAD, k),
                        value: slice(b, pos + RECORD_OVERHEAD + k, v),
                        rec_type: b[pos + 4],
                        xmin: u64_at(b, pos + 5),
                        xmax: u64_at(b, pos + 13),
                    },
                    end,
                ),
            )
        }
    }
}

/// The `n` leaf records from `pos` on and where they end.
pub open spec fn entries_at(b: Seq<u8>, pos: int, n: nat) -> Option<(Seq<RecordView>, int)>
    decreases n,
{
    if n == 0 {
        Some((Seq::empty(), pos))
    } else {
        match entries_at(b, pos, (n - 1) as nat) {
            None => None,
            Some((s, q)) => match entry_at(b, q) {
                None => None,
                Some((r, e)) => Some((s.push(r), e)),
            },
        }
    }
}

/// The separator at `pos`, the child to its right, and where they end.
pub open spec fn separator_at(b: Seq<u8>, pos: int) -> Option<(Seq<u8>, u64, int)> {
    if pos + SEPARATOR_OVERHEAD > b.len() {
        None
    } else {
        let k = u16_at(b, pos) as int;
        let end = pos + SEPARATOR_OVERHEAD + k;
        if end > b.len() {
            None
        } else {
            Some((slice(b, pos + SEPARATOR_OVERHEAD, k), u64_at(b, pos + 2), end))
        }
    }
}

/// The `n` separators from `pos` on, with their children, and where they end.
pub open spec fn separators_at(b: Seq<u8>, pos: int, first: u64, n: nat) -> Option<
    (Seq<Seq<u8>>, Seq<u64>, int),
>
    decreases n,
{
    if n == 0 {
        Some((Seq::empty(), seq![first], pos))
    } else {
        match separators_at(b, pos, first, (n - 1) as nat) {
            None => None,
            Some((ks, cs, q)) => match separator_at(b, q) {
                None => None,
                Some((k, c, e)) => Some((ks.push(k), cs.push(c), e)),
            },
        }
    }
}

/// The length of the high key on a page.
pub open spec fn high_key_len(b: Seq<u8>) -> int {
    if u16_at(b, 42) == NO_HIGH_KEY {
        0
    } else {
        u16_at(b, 42) as int
    }
}

/// The high key on a page.
pub open spec fn high_key_at(b: Seq<u8>) -> Option<Seq<u8>> {
    if u16_at(b, 42) == NO_HIGH_KEY {
        None
    } else {
        Some(slice(b, NODE_HEADER_SIZE as int, high_key_len(b)))
    }
}

/// The leaf on a page.
pub open spec fn leaf_at(b: Seq<u8>) -> Option<LeafView> {
    if high_key_len(b) > MAX_KEY_SIZE {
        None
    } else {
        match entries_at(b, NODE_HEADER_SIZE + high_key_len(b), u16_at(b, 40) as nat) {
            None => None,
            Some((entries, _)) => {
                let l = LeafView {
                    page_id: u64_at(b, 8),
                    lsn: u64_at(b, 16),
                    incomplete_split: b[1] & FLAG_INCOMPLETE_SPLIT != 0,
                    half_dead: b[1] & FLAG_HALF_DEAD != 0,
                    rightlink: unlink(u64_at(b, 24)),
                    prev_page: unlink(u64_at(b, 32)),
                    high_key: high_key_at(b),
                    entries,
                };
                if l.wf() {
                    Some(l)
                } else {
                    None
                }
            },
        }
    }
}

/// The internal node on a page.
pub open spec fn internal_at(b: Seq<u8>) -> Option<InternalView> {
    if high_key_len(b) > MAX_KEY_SIZE {
        None
    } else {
        match separators_at(
            b,
            NODE_HEADER_SIZE + high_key_len(b),
            u64_at(b, 32),
            u16_at(b, 40) as nat,
        ) {
            None => None,
            Some((keys, children, _)) => {
                let p = InternalView {
                    page_id: u64_at(b, 8),
                    lsn: u64_at(b, 16),
                    incomplete_split: b[1] & FLAG_INCOMPLETE_SPLIT != 0,
                    rightlink: unlink(u64_at(b, 24)),
                    high_key: high_key_at(b),
                    keys,
                    children,
                };
                if p.wf() {
                    Some(p)
                } else {
                    None
                }
            },
        }
    }
}

/// The node on a page, if there is one.
pub open spec fn node_at(b: Seq<u8>) -> Option<NodeView> {
    if b[0] == LEAF {
        match leaf_at(b) {
            Some(l) => Some(NodeView::Leaf(l)),
            None => None,
        }
    } else if b[0] == INTERNAL {
        match internal_at(b) {
            Some(p) => Some(NodeView::Internal(p)),
            None => None,
        }
    } else {
        None
    }
}

// ── Law: a node is read back from its page ───────────────────────────────────
proof fn lemma_entry_len(r: RecordView)
    ensures
        entry_bytes(r).len() == record_size(r),
{
    lemma_le(r.key.len() as u16, 0, r.xmin);
    lemma_le(r.value.len() as u16, 0, r.xmax);
}

/// A list of records takes the bytes that its size says.
pub proof fn lemma_entries_len(s: Seq<RecordView>)
    ensures
        entries_bytes(s).len() == records_size(s),
        records_size(s) >= RECORD_OVERHEAD * s.len(),
    decreases s.len(),
{
    if s.len() > 0 {
        lemma_entries_len(s.drop_last());
        lemma_entry_len(s.last());
    }
}

/// A list of separators takes the bytes that its size says.
pub proof fn lemma_separators_len(ks: Seq<Seq<u8>>, cs: Seq<u64>)
    ensures
        separators_bytes(ks, cs).len() == separators_size(ks),
        separators_size(ks) >= SEPARATOR_OVERHEAD * ks.len(),
    decreases ks.len(),
{
    if ks.len() > 0 {
        lemma_separators_len(ks.drop_last(), cs);
        lemma_le(ks.last().len() as u16, 0, cs[ks.len() as int]);
    }
}

proof fn lemma_header_len(
    kind: u8,
    flags: u8,
    page_id: u64,
    lsn: u64,
    right: u64,
    fifth: u64,
    count: u16,
    hk: u16,
)
    ensures
        header(kind, flags, page_id, lsn, right, fifth, count, hk).len() == NODE_HEADER_SIZE,
{
    lemma_le(count, 0, page_id);
    lemma_le(hk, 0, lsn);
    lemma_le(0, 0, right);
    lemma_le(0, 0, fifth);
}

/// The page of a node is a page.
pub proof fn lemma_node_page_len(n: NodeView)
    requires
        n.wf(),
    ensures
        node_page(n).len() == PAGE_SIZE,
        node_body(n).len() <= PAGE_SIZE,
        match n {
            NodeView::Leaf(l) => node_body(n).len() == l.size() && l.entries.len() <= 65535,
            NodeView::Internal(p) => node_body(n).len() == p.size() && p.keys.len() <= 65535,
        },
{
    match n {
        NodeView::Leaf(l) => {
            lemma_header_len(
                LEAF,
                flag_byte(l.incomplete_split, l.half_dead),
                l.page_id,
                l.lsn,
                link(l.rightlink),
                link(l.prev_page),
                l.entries.len() as u16,
                high_key_code(l.high_key),
            );
            lemma_entries_len(l.entries);
        },
        NodeView::Internal(p) => {
            lemma_header_len(
                INTERNAL,
                flag_byte(p.incomplete_split, false),
                p.page_id,
                p.lsn,
                link(p.rightlink),
                p.children[0],
                p.keys.len() as u16,
                high_key_code(p.high_key),
            );
            lemma_separators_len(p.keys, p.children);
        },
    }
}

proof fn lemma_entry_roundtrip(b: Seq<u8>, pos: int, r: RecordView)
    requires
        holds(b, pos, entry_bytes(r)),
        r.key.len() <= MAX_KEY_SIZE,
        r.value.len() <= OVERFLOW_THRESHOLD,
    ensures
        entry_at(b, pos) == Some((r, pos + record_size(r))),
{
    let k = r.key.len() as u16;
    let v = r.value.len() as u16;
    lemma_le(k, 0, r.xmin);
    lemma_le(v, 0, r.xmax);
    let s5 = r.key + r.value;
    let s4 = le64(r.xmax) + s5;
    let s3 = le64(r.xmin) + s4;
    let s2 = seq![r.rec_type] + s3;
    let s1 = le16(v) + s2;
    lemma_holds_add(b, pos, le16(k), s1);
    lemma_holds_add(b, pos + 2, le16(v), s2);
    lemma_holds_add(b, pos + 4, seq![r.rec_type], s3);
    lemma_holds_add(b, pos + 5, le64(r.xmin), s4);
    lemma_holds_add(b, pos + 13, le64(r.xmax), s5);
    lemma_holds_add(b, pos + 21, r.key, r.value);
    lemma_holds_int(b, pos, k, 0, 0);
    lemma_holds_int(b, pos + 2, v, 0, 0);
    lemma_holds_byte(b, pos + 4, r.rec_type);
    lemma_holds_int(b, pos + 5, 0, 0, r.xmin);
    lemma_holds_int(b, pos + 13, 0, 0, r.xmax);
}

proof fn lemma_entries_roundtrip(b: Seq<u8>, pos: int, s: Seq<RecordView>)
    requires
        holds(b, pos, entries_bytes(s)),
        forall|i: int|
            0 <= i < s.len() ==> (#[trigger] s[i]).key.len() <= MAX_KEY_SIZE && s[i].value.len()
                <= OVERFLOW_THRESHOLD,
    ensures
        entries_at(b, pos, s.len()) == Some((s, pos + records_size(s))),
    decreases s.len(),
{
    if s.len() > 0 {
        let p = s.drop_last();
        lemma_entries_len(p);
        lemma_holds_add(b, pos, entries_bytes(p), entry_bytes(s.last()));
        lemma_entries_roundtrip(b, pos, p);
        assert(s[s.len() - 1].key.len() <= MAX_KEY_SIZE);
        lemma_entry_roundtrip(b, pos + records_size(p), s.last());
        assert(p.push(s.last()) =~= s);
    } else {
        assert(s =~= Seq::empty());
    }
}

proof fn lemma_separators_roundtrip(b: Seq<u8>, pos: int, ks: Seq<Seq<u8>>, cs: Seq<u64>)
    requires
        holds(b, pos, separators_bytes(ks, cs)),
        cs.len() > ks.len(),
        forall|i: int| 0 <= i < ks.len() ==> (#[trigger] ks[i]).len() <= MAX_KEY_SIZE,
    ensures
        separators_at(b, pos, cs[0], ks.len()) == Some(
            (ks, cs.subrange(0, ks.len() as int + 1), pos + separators_size(ks)),
        ),
    decreases ks.len(),
{
    if ks.len() > 0 {
        let p = ks.drop_last();
        let k = ks.last();
        let c = cs[ks.len() as int];
        lemma_separators_len(p, cs);
        lemma_holds_add(b, pos, separators_bytes(p, cs), separator_bytes(k, c));
        lemma_separators_roundtrip(b, pos, p, cs);
        assert(ks[ks.len() - 1].len() <= MAX_KEY_SIZE);
        let q = pos + separators_size(p);
        lemma_le(k.len() as u16, 0, c);
        lemma_holds_add(b, q, le16(k.len() as u16), le64(c) + k);
        lemma_holds_add(b, q + 2, le64(c), k);
        lemma_holds_int(b, q, k.len() as u16, 0, 0);
        lemma_holds_int(b, q + 2, 0, 0, c);
        assert(p.push(k) =~= ks);
        assert(cs.subrange(0, p.len() as int + 1).push(c) =~= cs.subrange(0, ks.len() as int + 1));
    } else {
        assert(ks =~= Seq::empty());
        assert(cs.subrange(0, 1) =~= seq![cs[0]]);
    }
}

proof fn lemma_flags(i: bool, h: bool)
    ensures
        (flag_byte(i, h) & FLAG_INCOMPLETE_SPLIT != 0) == i,
        (flag_byte(i, h) & FLAG_HALF_DEAD != 0) == h,
{
    assert(0u8 & 1 == 0 && 0u8 & 2 == 0 && 1u8 & 1 != 0 && 1u8 & 2 == 0 && 2u8 & 1 == 0 && 2u8 & 2
        != 0 && 3u8 & 1 != 0 && 3u8 & 2 != 0) by (bit_vector);
}

proof fn lemma_header_roundtrip(
    b: Seq<u8>,
    kind: u8,
    flags: u8,
    page_id: u64,
    lsn: u64,
    right: u64,
    fifth: u64,
    count: u16,
    hk: u16,
)
    requires
        holds(b, 0, header(kind, flags, page_id, lsn, right, fifth, count, hk)),
    ensures
        b[0] == kind,
        b[1] == flags,
        u64_at(b, 8) == page_id,
        u64_at(b, 16) == lsn,
        u64_at(b, 24) == right,
        u64_at(b, 32) == fifth,
        u16_at(b, 40) == count,
        u16_at(b, 42) == hk,
        holds(b, 44, zeros(4)),
{
    lemma_le(count, 0, page_id);
    lemma_le(hk, 0, lsn);
    lemma_le(0, 0, right);
    lemma_le(0, 0, fifth);
    let s9 = le16(hk) + zeros(4);
    let s8 = le16(count) + s9;
    let s7 = le64(fifth) + s8;
    let s6 = le64(right) + s7;
    let s5 = le64(lsn) + s6;
    let s4 = le64(page_id) + s5;
    let s3 = zeros(6) + s4;
    let s2 = seq![flags] + s3;
    lemma_holds_add(b, 0, seq![kind], s2);
    lemma_holds_add(b, 1, seq![flags], s3);
    lemma_holds_add(b, 2, zeros(6), s4);
    lemma_holds_add(b, 8, le64(page_id), s5);
    lemma_holds_add(b, 16, le64(lsn), s6);
    lemma_holds_add(b, 24, le64(right), s7);
    lemma_holds_add(b, 32, le64(fifth), s8);
    lemma_holds_add(b, 40, le16(count), s9);
    lemma_holds_add(b, 42, le16(hk), zeros(4));
    lemma_holds_byte(b, 0, kind);
    lemma_holds_byte(b, 1, flags);
    lemma_holds_int(b, 8, 0, 0, page_id);
    lemma_holds_int(b, 16, 0, 0, lsn);
    lemma_holds_int(b, 24, 0, 0, right);
    lemma_holds_int(b, 32, 0, 0, fifth);
    lemma_holds_int(b, 40, count, 0, 0);
    lemma_holds_int(b, 42, hk, 0, 0);
}

proof fn lemma_leaf_roundtrip(b: Seq<u8>, l: LeafView)
    requires
        l.wf(),
        b.len() == PAGE_SIZE,
        holds(b, 0, node_body(NodeView::Leaf(l))),
    ensures
        leaf_at(b) == Some(l),
        b[0] == LEAF,
        u64_at(b, 16) == l.lsn,
        holds(b, 44, zeros(4)),
{
    lemma_node_page_len(NodeView::Leaf(l));
    let flags = flag_byte(l.incomplete_split, l.half_dead);
    let right = link(l.rightlink);
    let prev = link(l.prev_page);
    let count = l.entries.len() as u16;
    let code = high_key_code(l.high_key);
    let h = header(LEAF, flags, l.page_id, l.lsn, right, prev, count, code);
    let hk = high_key_bytes(l.high_key);
    let es = entries_bytes(l.entries);
    lemma_header_len(LEAF, flags, l.page_id, l.lsn, right, prev, count, code);
    lemma_holds_add(b, 0, h, hk + es);
    lemma_holds_add(b, 48, hk, es);
    lemma_header_roundtrip(b, LEAF, flags, l.page_id, l.lsn, right, prev, count, code);
    lemma_flags(l.incomplete_split, l.half_dead);
    lemma_entries_roundtrip(b, 48 + hk.len() as int, l.entries);
    assert(high_key_at(b) == l.high_key);
    assert(high_key_len(b) == hk.len());
}

proof fn lemma_internal_roundtrip(b: Seq<u8>, p: InternalView)
    requires
        p.wf(),
        b.len() == PAGE_SIZE,
        holds(b, 0, node_body(NodeView::Internal(p))),
    ensures
        internal_at(b) == Some(p),
        b[0] == INTERNAL,
        u64_at(b, 16) == p.lsn,
        holds(b, 44, zeros(4)),
{
    lemma_node_page_len(NodeView::Internal(p));
    let flags = flag_byte(p.incomplete_split, false);
    let right = link(p.rightlink);
    let first = p.children[0];
    let count = p.keys.len() as u16;
    let code = high_key_code(p.high_key);
    let h = header(INTERNAL, flags, p.page_id, p.lsn, right, first, count, code);
    let hk = high_key_bytes(p.high_key);
    let es = separators_bytes(p.keys, p.children);
    lemma_header_len(INTERNAL, flags, p.page_id, p.lsn, right, first, count, code);
    lemma_holds_add(b, 0, h, hk + es);
    lemma_holds_add(b, 48, hk, es);
    lemma_header_roundtrip(b, INTERNAL, flags, p.page_id, p.lsn, right, first, count, code);
    lemma_flags(p.incomplete_split, false);
    lemma_separators_roundtrip(b, 48 + hk.len() as int, p.keys, p.children);
    assert(p.children.subrange(0, p.keys.len() as int + 1) =~= p.children);
    assert(high_key_at(b) == p.high_key);
    assert(high_key_len(b) == hk.len());
}

/// A node is read back from its page.
pub proof fn law_node_roundtrip(n: NodeView)
    requires
        n.wf(),
    ensures
        node_at(node_page(n)) == Some(n),
        blank(node_page(n)) == node_page(n),
        u64_at(node_page(n), 16) == node_lsn(n),
{
    lemma_node_page_len(n);
    let b = node_page(n);
    let body = node_body(n);
    let z = zeros((PAGE_SIZE - body.len()) as nat);
    assert(holds(b, 0, body + z)) by {
        assert(slice(b, 0, b.len() as int) =~= b);
    }
    lemma_holds_add(b, 0, body, z);
    match n {
        NodeView::Leaf(l) => {
            lemma_leaf_roundtrip(b, l);
        },
        NodeView::Internal(p) => {
            lemma_internal_roundtrip(b, p);
        },
    }
    assert forall|i: int| 44 <= i < 48 implies b[i] == 0 by {
        assert(slice(b, 44, 4)[i - 44] == b[i]);
    }
    assert(blank(b) =~= b);
}

/// The number of the last record that changed a node.
pub open spec fn node_lsn(n: NodeView) -> u64 {
    match n {
        NodeView::Leaf(l) => l.lsn,
        NodeView::Internal(p) => p.lsn,
    }
}

// ── Pages ────────────────────────────────────────────────────────────────────
fn push_link(v: &mut Vec<u8>, id: Option<u64>)
    ensures
        final(v)@ == old(v)@ + le64(link(id)),
{
    match id {
        Some(x) => push_u64(v, x),
        None => push_u64(v, 0),
    }
}

fn encode_header(
    v: &mut Vec<u8>,
    kind: u8,
    incomplete_split: bool,
    half_dead: bool,
    page_id: u64,
    lsn: u64,
    rightlink: Option<u64>,
    fifth: u64,
    count: u16,
    high_key: &Option<Vec<u8>>,
)
    requires
        old(v)@.len() == 0,
        opt_key(*high_key) matches Some(k) ==> k.len() <= MAX_KEY_SIZE,
    ensures
        final(v)@ == header(
            kind,
            flag_byte(incomplete_split, half_dead),
            page_id,
            lsn,
            link(rightlink),
            fifth,
            count,
            high_key_code(opt_key(*high_key)),
        ) + high_key_bytes(opt_key(*high_key)),
{
    let flags: u8 = if incomplete_split {
        if half_dead {
            3
        } else {
            1
        }
    } else if half_dead {
        2
    } else {
        0
    };
    v.push(kind);
    v.push(flags);
    pad_to(v, 8);
    push_u64(v, page_id);
    push_u64(v, lsn);
    push_link(v, rightlink);
    push_u64(v, fifth);
    push_u16(v, count);
    let code: u16 = match high_key {
        Some(k) => k.len() as u16,
        None => NO_HIGH_KEY,
    };
    push_u16(v, code);
    proof {
        lemma_le(count, 0, page_id);
        lemma_le(code, 0, lsn);
        lemma_le(0, 0, link(rightlink));
        lemma_le(0, 0, fifth);
    }
    pad_to(v, NODE_HEADER_SIZE);
    assert(v@ =~= header(
        kind,
        flags,
        page_id,
        lsn,
        link(rightlink),
        fifth,
        count,
        high_key_code(opt_key(*high_key)),
    ));
    if let Some(k) = high_key {
        push_bytes(v, k.as_slice());
    }
}

/// The page of a node, without its checksum.
pub fn encode_node(n: &Node) -> (b: Vec<u8>)
    requires
        n@.wf(),
    ensures
        b@ == node_page(n@),
        b@.len() == PAGE_SIZE,
{
    let mut v: Vec<u8> = Vec::new();
    proof {
        lemma_node_page_len(n@);
    }
    match n {
        Node::Leaf(l) => {
            let prev: u64 = match l.prev_page {
                Some(x) => x,
                None => 0,
            };
            let ghost es = l@.entries;
            assert(es.len() == l.entries@.len());
            encode_header(
                &mut v,
                LEAF,
                l.incomplete_split,
                l.half_dead,
                l.page_id,
                l.lsn,
                l.rightlink,
                prev,
                l.entries.len() as u16,
                &l.high_key,
            );
            let ghost h = v@;
            let mut i: usize = 0;
            assert(es.subrange(0, 0) =~= Seq::<RecordView>::empty());
            assert(h + entries_bytes(es.subrange(0, 0)) =~= h);
            while i < l.entries.len()
                invariant
                    i <= l.entries@.len(),
                    es == l@.entries,
                    l@.wf(),
                    v@ == h + entries_bytes(es.subrange(0, i as int)),
                decreases l.entries.len() - i,
            {
                let r: &Record = &l.entries[i];
                let ghost v0 = v@;
                proof {
                    assert(es.subrange(0, i + 1).drop_last() =~= es.subrange(0, i as int));
                    assert(es[i as int] == l.entries@[i as int]@);
                    assert(es[i as int].key.len() <= MAX_KEY_SIZE);
                }
                push_u16(&mut v, r.key.len() as u16);
                push_u16(&mut v, r.value.len() as u16);
                v.push(r.rec_type);
                push_u64(&mut v, r.xmin);
                push_u64(&mut v, r.xmax);
                push_bytes(&mut v, r.key.as_slice());
                push_bytes(&mut v, r.value.as_slice());
                assert(v@ =~= v0 + entry_bytes(es[i as int]));
                assert(v@ =~= h + (entries_bytes(es.subrange(0, i as int)) + entry_bytes(
                    es[i as int],
                )));
                i = i + 1;
            }
            assert(es.subrange(0, es.len() as int) =~= es);
            assert(v@ =~= node_body(n@));
        },
        Node::Internal(p) => {
            let ghost ks = p@.keys;
            let ghost cs = p@.children;
            assert(ks.len() == p.keys@.len());
            encode_header(
                &mut v,
                INTERNAL,
                p.incomplete_split,
                false,
                p.page_id,
                p.lsn,
                p.rightlink,
                p.children[0],
                p.keys.len() as u16,
                &p.high_key,
            );
            let ghost h = v@;
            let mut i: usize = 0;
            assert(ks.subrange(0, 0) =~= Seq::<Seq<u8>>::empty());
            assert(h + separators_bytes(ks.subrange(0, 0), cs) =~= h);
            while i < p.keys.len()
                invariant
                    i <= p.keys@.len(),
                    ks == p@.keys,
                    cs == p@.children,
                    p@.wf(),
                    v@ == h + separators_bytes(ks.subrange(0, i as int), cs),
                decreases p.keys.len() - i,
            {
                let k: &Vec<u8> = &p.keys[i];
                let ghost v0 = v@;
                proof {
                    assert(ks.subrange(0, i + 1).drop_last() =~= ks.subrange(0, i as int));
                    assert(ks[i as int] == p.keys@[i as int]@);
                    assert(ks[i as int].len() <= MAX_KEY_SIZE);
                }
                push_u16(&mut v, k.len() as u16);
                push_u64(&mut v, p.children[i + 1]);
                push_bytes(&mut v, k.as_slice());
                assert(v@ =~= v0 + separator_bytes(ks[i as int], cs[i + 1]));
                assert(v@ =~= h + (separators_bytes(ks.subrange(0, i as int), cs)
                    + separator_bytes(ks[i as int], cs[i + 1])));
                i = i + 1;
            }
            assert(ks.subrange(0, ks.len() as int) =~= ks);
            assert(v@ =~= node_body(n@));
        },
    }
    pad_to(&mut v, PAGE_SIZE);
    v
}

/// Copies the bytes `[from, from + n)`.
fn copy_slice(b: &Vec<u8>, from: usize, n: usize) -> (r: Vec<u8>)
    requires
        from + n <= b@.len(),
    ensures
        r@ == slice(b@, from as int, n as int),
{
    let len: usize = b.len();
    assert(from + n <= len);
    vstd::slice::slice_to_vec(vstd::slice::slice_subrange(b.as_slice(), from, from + n))
}

proof fn lemma_entries_at(b: Seq<u8>, pos: int, n: nat)
    requires
        0 <= pos,
    ensures
        entries_at(b, pos, n) matches Some((s, e)) ==> s.len() == n && e == pos + records_size(s)
            && (pos <= b.len() ==> e <= b.len()),
    decreases n,
{
    if n > 0 {
        lemma_entries_at(b, pos, (n - 1) as nat);
        if let Some((s, q)) = entries_at(b, pos, (n - 1) as nat) {
            if let Some((r, e)) = entry_at(b, q) {
                assert(s.push(r).drop_last() =~= s);
            }
        }
    } else {
        assert(records_size(Seq::<RecordView>::empty()) == 0);
    }
}

proof fn lemma_entries_at_none(b: Seq<u8>, pos: int, m: nat, n: nat)
    requires
        entries_at(b, pos, m) is None,
        m <= n,
    ensures
        entries_at(b, pos, n) is None,
    decreases n,
{
    if m < n {
        lemma_entries_at_none(b, pos, m, (n - 1) as nat);
    }
}

proof fn lemma_separators_at(b: Seq<u8>, pos: int, first: u64, n: nat)
    requires
        0 <= pos,
    ensures
        separators_at(b, pos, first, n) matches Some((ks, cs, e)) ==> ks.len() == n && cs.len() == n
            + 1 && e == pos + separators_size(ks) && (pos <= b.len() ==> e <= b.len()),
    decreases n,
{
    if n > 0 {
        lemma_separators_at(b, pos, first, (n - 1) as nat);
        if let Some((ks, cs, q)) = separators_at(b, pos, first, (n - 1) as nat) {
            if let Some((k, c, e)) = separator_at(b, q) {
                assert(ks.push(k).drop_last() =~= ks);
            }
        }
    } else {
        assert(separators_size(Seq::<Seq<u8>>::empty()) == 0);
    }
}

proof fn lemma_separators_at_none(b: Seq<u8>, pos: int, first: u64, m: nat, n: nat)
    requires
        separators_at(b, pos, first, m) is None,
        m <= n,
    ensures
        separators_at(b, pos, first, n) is None,
    decreases n,
{
    if m < n {
        lemma_separators_at_none(b, pos, first, m, (n - 1) as nat);
    }
}

/// Reads the leaf records from `pos` on. Also returns whether all of them have
/// legal sizes.
fn read_entries(b: &Vec<u8>, pos: usize, n: u16) -> (r: Option<(Vec<Record>, bool)>)
    requires
        pos <= b@.len() <= PAGE_SIZE,
    ensures
        match entries_at(b@, pos as int, n as nat) {
            None => r is None,
            Some((s, _)) => r matches Some((v, ok)) && record_views(v@) == s && ok == (forall|i: int|
                0 <= i < s.len() ==> (#[trigger] s[i]).key.len() <= MAX_KEY_SIZE && s[i].value.len()
                    <= OVERFLOW_THRESHOLD),
        },
{
    let len: usize = b.len();
    let mut v: Vec<Record> = Vec::new();
    let mut ok: bool = true;
    let mut at: usize = pos;
    let mut i: u16 = 0;
    assert(record_views(v@) =~= Seq::<RecordView>::empty());
    while i < n
        invariant
            i <= n,
            pos <= len <= PAGE_SIZE,
            len == b@.len(),
            at <= len,
            entries_at(b@, pos as int, i as nat) == Some((record_views(v@), at as int)),
            ok == (forall|k: int|
                0 <= k < record_views(v@).len() ==> (#[trigger] record_views(v@)[k]).key.len()
                    <= MAX_KEY_SIZE && record_views(v@)[k].value.len() <= OVERFLOW_THRESHOLD),
        decreases n - i,
    {
        if len - at < RECORD_OVERHEAD {
            proof {
                assert(entries_at(b@, pos as int, (i + 1) as nat) is None);
                lemma_entries_at_none(b@, pos as int, (i + 1) as nat, n as nat);
            }
            return None;
        }
        let klen: usize = read_u16(b.as_slice(), at) as usize;
        let vlen: usize = read_u16(b.as_slice(), at + 2) as usize;
        if len - at - RECORD_OVERHEAD < klen + vlen {
            proof {
                assert(entries_at(b@, pos as int, (i + 1) as nat) is None);
                lemma_entries_at_none(b@, pos as int, (i + 1) as nat, n as nat);
            }
            return None;
        }
        let rec_type: u8 = b[at + 4];
        let xmin: u64 = read_u64(b.as_slice(), at + 5);
        let xmax: u64 = read_u64(b.as_slice(), at + 13);
        let key: Vec<u8> = copy_slice(b, at + RECORD_OVERHEAD, klen);
        let value: Vec<u8> = copy_slice(b, at + RECORD_OVERHEAD + klen, vlen);
        let ghost s0 = record_views(v@);
        let r = Record { key, value, rec_type, xmin, xmax };
        let ghost rv = r@;
        if r.key.len() > MAX_KEY_SIZE || r.value.len() > OVERFLOW_THRESHOLD {
            ok = false;
        }
        let good: bool = r.key.len() <= MAX_KEY_SIZE && r.value.len() <= OVERFLOW_THRESHOLD;
        v.push(r);
        proof {
            assert(record_views(v@) =~= s0.push(rv));
            let s1 = record_views(v@);
            if ok {
                assert forall|k: int| 0 <= k < s1.len() implies (#[trigger] s1[k]).key.len()
                    <= MAX_KEY_SIZE && s1[k].value.len() <= OVERFLOW_THRESHOLD by {
                    if k < s0.len() {
                        assert(s1[k] == s0[k]);
                    }
                }
            } else if forall|k: int|
                0 <= k < s1.len() ==> (#[trigger] s1[k]).key.len() <= MAX_KEY_SIZE
                    && s1[k].value.len() <= OVERFLOW_THRESHOLD {
                assert(s1[s0.len() as int] == rv);
                assert(good);
                assert forall|k: int| 0 <= k < s0.len() implies (#[trigger] s0[k]).key.len()
                    <= MAX_KEY_SIZE && s0[k].value.len() <= OVERFLOW_THRESHOLD by {
                    assert(s1[k] == s0[k]);
                }
            }
        }
        at = at + RECORD_OVERHEAD + klen + vlen;
        i = i + 1;
    }
    Some((v, ok))
}

/// Reads the separators from `pos` on, with their children. Also returns whether
/// all of them have legal sizes.
fn read_separators(b: &Vec<u8>, pos: usize, first: u64, n: u16) -> (r: Option<
    (Vec<Vec<u8>>, Vec<u64>, bool),
>)
    requires
        pos <= b@.len() <= PAGE_SIZE,
    ensures
        match separators_at(b@, pos as int, first, n as nat) {
            None => r is None,
            Some((ks, cs, _)) => r matches Some((v, w, ok)) && key_views(v@) == ks && w@ == cs && ok
                == (forall|i: int|
                0 <= i < ks.len() ==> (#[trigger] ks[i]).len() <= MAX_KEY_SIZE),
        },
{
    let len: usize = b.len();
    let mut v: Vec<Vec<u8>> = Vec::new();
    let mut w: Vec<u64> = Vec::new();
    w.push(first);
    let mut ok: bool = true;
    let mut at: usize = pos;
    let mut i: u16 = 0;
    assert(key_views(v@) =~= Seq::<Seq<u8>>::empty());
    assert(w@ =~= seq![first]);
    while i < n
        invariant
            i <= n,
            pos <= len <= PAGE_SIZE,
            len == b@.len(),
            at <= len,
            separators_at(b@, pos as int, first, i as nat) == Some(
                (key_views(v@), w@, at as int),
            ),
            ok == (forall|k: int|
                0 <= k < key_views(v@).len() ==> (#[trigger] key_views(v@)[k]).len()
                    <= MAX_KEY_SIZE),
        decreases n - i,
    {
        if len - at < SEPARATOR_OVERHEAD {
            proof {
                assert(separators_at(b@, pos as int, first, (i + 1) as nat) is None);
                lemma_separators_at_none(b@, pos as int, first, (i + 1) as nat, n as nat);
            }
            return None;
        }
        let klen: usize = read_u16(b.as_slice(), at) as usize;
        if len - at - SEPARATOR_OVERHEAD < klen {
            proof {
                assert(separators_at(b@, pos as int, first, (i + 1) as nat) is None);
                lemma_separators_at_none(b@, pos as int, first, (i + 1) as nat, n as nat);
            }
            return None;
        }
        let child: u64 = read_u64(b.as_slice(), at + 2);
        let key: Vec<u8> = copy_slice(b, at + SEPARATOR_OVERHEAD, klen);
        let ghost s0 = key_views(v@);
        let ghost kv = key@;
        if key.len() > MAX_KEY_SIZE {
            ok = false;
        }
        let good: bool = key.len() <= MAX_KEY_SIZE;
        v.push(key);
        w.push(child);
        proof {
            assert(key_views(v@) =~= s0.push(kv));
            let s1 = key_views(v@);
            if ok {
                assert forall|k: int| 0 <= k < s1.len() implies (#[trigger] s1[k]).len()
                    <= MAX_KEY_SIZE by {
                    if k < s0.len() {
                        assert(s1[k] == s0[k]);
                    }
                }
            } else if forall|k: int| 0 <= k < s1.len() ==> (#[trigger] s1[k]).len() <= MAX_KEY_SIZE {
                assert(s1[s0.len() as int] == kv);
                assert(good);
                assert forall|k: int| 0 <= k < s0.len() implies (#[trigger] s0[k]).len()
                    <= MAX_KEY_SIZE by {
                    assert(s1[k] == s0[k]);
                }
            }
        }
        at = at + SEPARATOR_OVERHEAD + klen;
        i = i + 1;
    }
    Some((v, w, ok))
}

fn read_link(b: &Vec<u8>, off: usize) -> (r: Option<u64>)
    requires
        off + 8 <= b@.len(),
    ensures
        r == unlink(u64_at(b@, off as int)),
{
    let x: u64 = read_u64(b.as_slice(), off);
    if x == 0 {
        None
    } else {
        Some(x)
    }
}

/// The node on a page whose checksum is zero, if there is one.
fn decode_blank(b: &Vec<u8>) -> (r: Option<Node>)
    requires
        b@.len() == PAGE_SIZE,
    ensures
        match node_at(b@) {
            None => r is None,
            Some(n) => r matches Some(m) && m@ == n,
        },
{
    let kind: u8 = b[0];
    if kind != LEAF && kind != INTERNAL {
        return None;
    }
    let page_id: u64 = read_u64(b.as_slice(), 8);
    let lsn: u64 = read_u64(b.as_slice(), 16);
    let incomplete_split: bool = b[1] & FLAG_INCOMPLETE_SPLIT != 0;
    let rightlink: Option<u64> = read_link(b, 24);
    let count: u16 = read_u16(b.as_slice(), 40);
    let code: u16 = read_u16(b.as_slice(), 42);
    let hk_len: usize = if code == NO_HIGH_KEY {
        0
    } else {
        code as usize
    };
    if hk_len > MAX_KEY_SIZE {
        return None;
    }
    let high_key: Option<Vec<u8>> = if code == NO_HIGH_KEY {
        None
    } else {
        Some(copy_slice(b, NODE_HEADER_SIZE, hk_len))
    };
    let pos: usize = NODE_HEADER_SIZE + hk_len;
    assert(opt_key(high_key) == high_key_at(b@));
    if kind == LEAF {
        let half_dead: bool = b[1] & FLAG_HALF_DEAD != 0;
        let prev_page: Option<u64> = read_link(b, 32);
        proof {
            lemma_entries_at(b@, pos as int, count as nat);
        }
        match read_entries(b, pos, count) {
            None => None,
            Some((entries, ok)) => {
                let l = LeafPage {
                    page_id,
                    lsn,
                    incomplete_split,
                    half_dead,
                    rightlink,
                    prev_page,
                    high_key,
                    entries,
                };
                assert(l@.size() <= PAGE_SIZE);
                if !ok || page_id == 0 {
                    return None;
                }
                Some(Node::Leaf(l))
            },
        }
    } else {
        let first: u64 = read_u64(b.as_slice(), 32);
        proof {
            lemma_separators_at(b@, pos as int, first, count as nat);
        }
        match read_separators(b, pos, first, count) {
            None => None,
            Some((keys, children, ok)) => {
                let p = InternalPage {
                    page_id,
                    lsn,
                    incomplete_split,
                    rightlink,
                    high_key,
                    keys,
                    children,
                };
                assert(p@.size() <= PAGE_SIZE);
                if !ok || page_id == 0 {
                    return None;
                }
                Some(Node::Internal(p))
            },
        }
    }
}

/// The node on a page, if there is one. The checksum is not looked at.
pub fn decode_node(b: &Vec<u8>) -> (r: Option<Node>)
    requires
        b@.len() == PAGE_SIZE,
    ensures
        match node_at(blank(b@)) {
            None => r is None,
            Some(n) => r matches Some(m) && m@ == n,
        },
{
    let mut c: Vec<u8> = crate::node::copy_bytes(b);
    clear_checksum(&mut c);
    decode_blank(&c)
}

/// Where a page has what: its type at byte 0, 1 for a leaf and 2 for an internal page; bit 0
/// of byte 1 is set while a split is incomplete, bit 1 while a leaf is half dead; its id at
/// byte 8, the number of its last record at 16, its right neighbour at 24, and at 32 the
/// left neighbour of a leaf or the first child of an internal page, 0 for none; the number
/// of its records or separators at 40; and at 42 the length of its high key, 65535 for none,
/// which follows at 48.
pub proof fn law_nodes_are_laid_out(n: NodeView)
    requires
        n.wf(),
    ensures
        ({
            let b = node_page(n);
            match n {
                NodeView::Leaf(l) => {
                    &&& b[0] == 1
                    &&& b[1] == (if l.incomplete_split {
                        1int
                    } else {
                        0
                    }) + (if l.half_dead {
                        2int
                    } else {
                        0
                    })
                    &&& u64_at(b, 8) == l.page_id
                    &&& u64_at(b, 16) == l.lsn
                    &&& u64_at(b, 24) == (if l.rightlink is Some {
                        l.rightlink->0
                    } else {
                        0
                    })
                    &&& u64_at(b, 32) == (if l.prev_page is Some {
                        l.prev_page->0
                    } else {
                        0
                    })
                    &&& u16_at(b, 40) == l.entries.len()
                    &&& match l.high_key {
                        Some(k) => u16_at(b, 42) == k.len() && slice(b, 48, k.len() as int) == k,
                        None => u16_at(b, 42) == 65535,
                    }
                },
                NodeView::Internal(p) => {
                    &&& b[0] == 2
                    &&& b[1] == (if p.incomplete_split {
                        1int
                    } else {
                        0
                    })
                    &&& u64_at(b, 8) == p.page_id
                    &&& u64_at(b, 16) == p.lsn
                    &&& u64_at(b, 24) == (if p.rightlink is Some {
                        p.rightlink->0
                    } else {
                        0
                    })
                    &&& u64_at(b, 32) == p.children[0]
                    &&& u16_at(b, 40) == p.keys.len()
                    &&& match p.high_key {
                        Some(k) => u16_at(b, 42) == k.len() && slice(b, 48, k.len() as int) == k,
                        None => u16_at(b, 42) == 65535,
                    }
                },
            }
        }),
{
    let b = node_page(n);
    lemma_node_page_len(n);
    assert(slice(b, 0, node_body(n).len() as int) =~= node_body(n));
    match n {
        NodeView::Leaf(l) => {
            let (kind, flags) = (LEAF, flag_byte(l.incomplete_split, l.half_dead));
            let (right, fifth) = (link(l.rightlink), link(l.prev_page));
            let (count, hk) = (l.entries.len() as u16, high_key_code(l.high_key));
            let h = header(kind, flags, l.page_id, l.lsn, right, fifth, count, hk);
            lemma_header_len(kind, flags, l.page_id, l.lsn, right, fifth, count, hk);
            let rest = high_key_bytes(l.high_key) + entries_bytes(l.entries);
            lemma_holds_add(b, 0, h, rest);
            lemma_holds_add(b, 48, high_key_bytes(l.high_key), entries_bytes(l.entries));
            lemma_header_roundtrip(b, kind, flags, l.page_id, l.lsn, right, fifth, count, hk);
        },
        NodeView::Internal(p) => {
            let (kind, flags) = (INTERNAL, flag_byte(p.incomplete_split, false));
            let (right, fifth) = (link(p.rightlink), p.children[0]);
            let (count, hk) = (p.keys.len() as u16, high_key_code(p.high_key));
            let h = header(kind, flags, p.page_id, p.lsn, right, fifth, count, hk);
            lemma_header_len(kind, flags, p.page_id, p.lsn, right, fifth, count, hk);
            let rest = high_key_bytes(p.high_key) + separators_bytes(p.keys, p.children);
            lemma_holds_add(b, 0, h, rest);
            lemma_holds_add(
                b,
                48,
                high_key_bytes(p.high_key),
                separators_bytes(p.keys, p.children),
            );
            lemma_header_roundtrip(b, kind, flags, p.page_id, p.lsn, right, fifth, count, hk);
        },
    }
}

// ── Laws: what is read was written ───────────────────────────────────────────
proof fn lemma_entries_written(b: Seq<u8>, pos: int, n: nat)
    requires
        0 <= pos <= b.len(),
    ensures
        entries_at(b, pos, n) matches Some((s, e)) ==> holds(b, pos, entries_bytes(s)) && e == pos
            + entries_bytes(s).len() && s.len() == n,
    decreases n,
{
    if n > 0 {
        lemma_entries_written(b, pos, (n - 1) as nat);
        if let Some((s, q)) = entries_at(b, pos, (n - 1) as nat) {
            if let Some((r, e)) = entry_at(b, q) {
                let k = u16_at(b, q) as int;
                let v = u16_at(b, q + 2) as int;
                law_integers_give_their_bytes_back(b, q);
                law_integers_give_their_bytes_back(b, q + 2);
                law_integers_give_their_bytes_back(b, q + 5);
                law_integers_give_their_bytes_back(b, q + 13);
                assert(r.key.len() as u16 == k && r.value.len() as u16 == v);
                assert(entry_bytes(r) =~= slice(b, q, e - q));
                assert(s.push(r).drop_last() =~= s);
                assert(entries_bytes(s) + entry_bytes(r) =~= slice(b, pos, e - pos));
            }
        }
    } else {
        assert(slice(b, pos, 0) =~= Seq::<u8>::empty());
    }
}

proof fn lemma_separators_front(ks: Seq<Seq<u8>>, cs: Seq<u64>, c: u64)
    requires
        cs.len() == ks.len() + 1,
    ensures
        separators_bytes(ks, cs.push(c)) == separators_bytes(ks, cs),
    decreases ks.len(),
{
    if ks.len() > 0 {
        let t = ks.drop_last();
        lemma_separators_cut(t, cs.push(c), cs);
        assert(cs.push(c)[ks.len() as int] == cs[ks.len() as int]);
    }
}

proof fn lemma_separators_cut(ks: Seq<Seq<u8>>, a: Seq<u64>, b: Seq<u64>)
    requires
        forall|i: int| 0 <= i <= ks.len() ==> a[i] == b[i],
    ensures
        separators_bytes(ks, a) == separators_bytes(ks, b),
    decreases ks.len(),
{
    if ks.len() > 0 {
        lemma_separators_cut(ks.drop_last(), a, b);
        assert(a[ks.len() as int] == b[ks.len() as int]);
    }
}

proof fn lemma_separators_written(b: Seq<u8>, pos: int, first: u64, n: nat)
    requires
        0 <= pos <= b.len(),
    ensures
        separators_at(b, pos, first, n) matches Some((ks, cs, e)) ==> holds(
            b,
            pos,
            separators_bytes(ks, cs),
        ) && e == pos + separators_bytes(ks, cs).len() && ks.len() == n && cs.len() == n + 1 && cs[0]
            == first,
    decreases n,
{
    if n > 0 {
        lemma_separators_written(b, pos, first, (n - 1) as nat);
        if let Some((ks, cs, q)) = separators_at(b, pos, first, (n - 1) as nat) {
            if let Some((k, c, e)) = separator_at(b, q) {
                law_integers_give_their_bytes_back(b, q);
                law_integers_give_their_bytes_back(b, q + 2);
                assert(k.len() as u16 == u16_at(b, q));
                assert(separator_bytes(k, c) =~= slice(b, q, e - q));
                assert(ks.push(k).drop_last() =~= ks);
                lemma_separators_front(ks, cs, c);
                assert(separators_bytes(ks, cs) + separator_bytes(k, c) =~= slice(
                    b,
                    pos,
                    e - pos,
                ));
            }
        }
    } else {
        assert(slice(b, pos, 0) =~= Seq::<u8>::empty());
    }
}

/// Nothing passes for a leaf but a page of type 1 that fits its records, with its id, its
/// links, its high key and each record where they would be written.
pub proof fn law_leaves_stand_as_written(b: Seq<u8>, l: LeafView)
    requires
        b.len() == PAGE_SIZE,
        node_at(b) == Some(NodeView::Leaf(l)),
    ensures
        b[0] == 1,
        l.wf(),
        u64_at(b, 8) == l.page_id,
        u64_at(b, 16) == l.lsn,
        u64_at(b, 24) == (if l.rightlink is Some {
            l.rightlink->0
        } else {
            0
        }),
        u64_at(b, 32) == (if l.prev_page is Some {
            l.prev_page->0
        } else {
            0
        }),
        u16_at(b, 40) == l.entries.len(),
        match l.high_key {
            Some(k) => u16_at(b, 42) == k.len() && holds(b, 48, k) && holds(
                b,
                48 + k.len() as int,
                entries_bytes(l.entries),
            ),
            None => u16_at(b, 42) == 65535 && holds(b, 48, entries_bytes(l.entries)),
        },
{
    let q = NODE_HEADER_SIZE + high_key_len(b);
    lemma_entries_written(b, q, u16_at(b, 40) as nat);
}

/// Nothing passes for an internal page but a page of type 2 that fits its separators, with
/// its id, its links, its high key, and each separator and child where they would be
/// written.
pub proof fn law_internal_pages_stand_as_written(b: Seq<u8>, p: InternalView)
    requires
        b.len() == PAGE_SIZE,
        node_at(b) == Some(NodeView::Internal(p)),
    ensures
        b[0] == 2,
        p.wf(),
        u64_at(b, 8) == p.page_id,
        u64_at(b, 16) == p.lsn,
        u64_at(b, 24) == (if p.rightlink is Some {
            p.rightlink->0
        } else {
            0
        }),
        u64_at(b, 32) == p.children[0],
        u16_at(b, 40) == p.keys.len(),
        match p.high_key {
            Some(k) => u16_at(b, 42) == k.len() && holds(b, 48, k) && holds(
                b,
                48 + k.len() as int,
                separators_bytes(p.keys, p.children),
            ),
            None => u16_at(b, 42) == 65535 && holds(
                b,
                48,
                separators_bytes(p.keys, p.children),
            ),
        },
{
    let q = NODE_HEADER_SIZE + high_key_len(b);
    lemma_separators_written(b, q, u64_at(b, 32), u16_at(b, 40) as nat);
}

} // verus!
