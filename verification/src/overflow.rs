//! Overflow chains: values that do not fit a leaf record live on pages of their
//! own, linked from first to last.

use vstd::prelude::*;
use vstd::slice::{slice_subrange, slice_to_vec};

use crate::bytes::{
    le32, le64, lemma_holds_int, lemma_le, push_u32, push_u64, read_u32, read_u64, slice, u32_at,
    u64_at,
};
use crate::change::{
    all_fit, apply_all, apply_one, change_views, Change, ChangeView, Chunk, ChunkView, PageChange,
    Pages, OVERFLOW_PAYLOAD_SIZE,
};
use crate::log_codec::MAX_FREES;
use crate::store::{all_used, lemma_one_change, used_after, PageStore};
use crate::trace::{carries_on, lemma_padded_start, lemma_padded_step, padded};
use crate::wal::WalRecordType;

verus! {

/// Bytes of a serialized [`OverflowDescriptor`].
pub const OVERFLOW_DESCRIPTOR_SIZE: usize = 12;

/// Where an overflow chain starts and how long its value is.
#[derive(Debug, Clone, Copy, PartialEq, Eq, Structural)]
pub struct OverflowDescriptor {
    pub first_page_id: u64,
    pub total_size: u32,
}

impl OverflowDescriptor {
    /// The bytes of a descriptor.
    pub open spec fn bytes(self) -> Seq<u8> {
        le64(self.first_page_id) + le32(self.total_size)
    }

    pub fn to_bytes(self) -> (b: Vec<u8>)
        ensures
            b@ == self.bytes(),
            b@.len() == OVERFLOW_DESCRIPTOR_SIZE,
    {
        let mut b: Vec<u8> = Vec::new();
        push_u64(&mut b, self.first_page_id);
        push_u32(&mut b, self.total_size);
        assert(b@ =~= self.bytes());
        b
    }

    /// The descriptor at the start of `bytes`, if they are enough.
    pub fn from_bytes(bytes: &[u8]) -> (d: Option<OverflowDescriptor>)
        ensures
            d is Some <==> bytes@.len() >= OVERFLOW_DESCRIPTOR_SIZE,
            d matches Some(x) ==> x == descriptor_of(bytes@),
    {
        if bytes.len() < OVERFLOW_DESCRIPTOR_SIZE {
            return None;
        }
        Some(
            OverflowDescriptor {
                first_page_id: read_u64(bytes, 0),
                total_size: read_u32(bytes, 8),
            },
        )
    }
}

/// The descriptor at the start of a byte string.
pub open spec fn descriptor_of(b: Seq<u8>) -> OverflowDescriptor {
    OverflowDescriptor {
        first_page_id: u64_at(b, 0),
        total_size: u32_at(b, 8),
    }
}

/// A descriptor survives being written down.
pub proof fn law_descriptor_roundtrip(d: OverflowDescriptor)
    ensures
        d.bytes().len() == OVERFLOW_DESCRIPTOR_SIZE,
        descriptor_of(d.bytes()) == d,
{
    lemma_le(0, d.total_size, d.first_page_id);
    let b = d.bytes();
    assert(slice(b, 0, 8) =~= le64(d.first_page_id));
    assert(slice(b, 8, 4) =~= le32(d.total_size));
    lemma_holds_int(b, 0, 0, 0, d.first_page_id);
    lemma_holds_int(b, 8, 0, d.total_size, 0);
}

/// `ids` are the pages of a chain, from first to last.
pub open spec fn is_chain(chunks: Map<u64, ChunkView>, first: u64, ids: Seq<u64>) -> bool {
    &&& ids.len() >= 1
    &&& ids[0] == first
    &&& ids.no_duplicates()
    &&& forall|i: int| 0 <= i < ids.len() ==> chunk_linked(chunks, ids, i)
}

/// The `i`-th page of a chain is there and linked to the next one.
pub open spec fn chunk_linked(chunks: Map<u64, ChunkView>, ids: Seq<u64>, i: int) -> bool {
    &&& chunks.contains_key(ids[i])
    &&& ids[i] != 0
    &&& chunks[ids[i]].next == (if i + 1 < ids.len() {
        Some(ids[i + 1])
    } else {
        None
    })
}

/// The value on a chain of pages.
pub open spec fn chain_value(chunks: Map<u64, ChunkView>, ids: Seq<u64>) -> Seq<u8>
    decreases ids.len(),
{
    if ids.len() == 0 {
        Seq::empty()
    } else {
        chain_value(chunks, ids.drop_last()) + chunks[ids.last()].data
    }
}

/// A chain keeps its shape and value while its pages stay as they are.
pub proof fn lemma_chain_frame(
    c1: Map<u64, ChunkView>,
    c2: Map<u64, ChunkView>,
    first: u64,
    ids: Seq<u64>,
)
    requires
        is_chain(c1, first, ids),
        forall|i: int|
            0 <= i < ids.len() ==> c2.contains_key(#[trigger] ids[i]) && c2[ids[i]] == c1[ids[i]],
    ensures
        is_chain(c2, first, ids),
        chain_value(c2, ids) == chain_value(c1, ids),
{
    assert forall|i: int| 0 <= i < ids.len() implies chunk_linked(c2, ids, i) by {
        assert(chunk_linked(c1, ids, i));
    }
    lemma_value_frame(c1, c2, ids);
}

proof fn lemma_value_frame(c1: Map<u64, ChunkView>, c2: Map<u64, ChunkView>, ids: Seq<u64>)
    requires
        forall|i: int| 0 <= i < ids.len() ==> c2[#[trigger] ids[i]] == c1[ids[i]],
    ensures
        chain_value(c2, ids) == chain_value(c1, ids),
    decreases ids.len(),
{
    if ids.len() > 0 {
        assert(ids.last() == ids[ids.len() - 1]);
        assert forall|i: int| 0 <= i < ids.drop_last().len() implies c2[
            #[trigger] ids.drop_last()[i]] == c1[ids.drop_last()[i]] by {
            assert(ids.drop_last()[i] == ids[i]);
        }
        lemma_value_frame(c1, c2, ids.drop_last());
    }
}

/// The pages of a chain follow from its first one.
pub proof fn lemma_chain_unique(
    chunks: Map<u64, ChunkView>,
    first: u64,
    a: Seq<u64>,
    b: Seq<u64>,
)
    requires
        is_chain(chunks, first, a),
        is_chain(chunks, first, b),
    ensures
        a == b,
{
    assert forall|i: int| 0 <= i < a.len() && i < b.len() implies a[i] == b[i] by {
        lemma_chain_agrees(chunks, first, a, b, i);
    }
    if a.len() < b.len() {
        lemma_chain_agrees(chunks, first, a, b, a.len() - 1);
        assert(chunk_linked(chunks, a, a.len() - 1));
        assert(chunk_linked(chunks, b, a.len() - 1));
    } else if b.len() < a.len() {
        lemma_chain_agrees(chunks, first, a, b, b.len() - 1);
        assert(chunk_linked(chunks, a, b.len() - 1));
        assert(chunk_linked(chunks, b, b.len() - 1));
    }
    assert(a =~= b);
}

proof fn lemma_chain_agrees(
    chunks: Map<u64, ChunkView>,
    first: u64,
    a: Seq<u64>,
    b: Seq<u64>,
    i: int,
)
    requires
        is_chain(chunks, first, a),
        is_chain(chunks, first, b),
        0 <= i < a.len(),
        i < b.len(),
    ensures
        a[i] == b[i],
    decreases i,
{
    if i > 0 {
        lemma_chain_agrees(chunks, first, a, b, i - 1);
        assert(chunk_linked(chunks, a, i - 1));
        assert(chunk_linked(chunks, b, i - 1));
    }
}

/// How many pages a value of `len` bytes takes.
pub open spec fn pages_for(len: nat) -> nat {
    (len + OVERFLOW_PAYLOAD_SIZE as nat - 1) as nat / OVERFLOW_PAYLOAD_SIZE as nat
}

/// Puts a value on a chain of fresh pages, each page logged as an image.
pub fn write_overflow_chain(value: &[u8], store: &mut PageStore, txn_id: u64) -> (d:
    OverflowDescriptor)
    requires
        old(store).wf(),
        1 <= value@.len() <= u32::MAX,
        old(store).budget() >= 2 * pages_for(value@.len()),
    ensures
        final(store).wf(),
        d.total_size == value@.len(),
        final(store).budget() >= old(store).budget() - 2 * pages_for(value@.len()),
        final(store).pages().nodes == old(store).pages().nodes,
        final(store).pages().root == old(store).pages().root,
        exists|ids: Seq<u64>| #[trigger]
            chain_written(old(store), final(store), d.first_page_id, ids, value@),
        padded(*old(store), *final(store)),
        carries_on(old(store).log(), final(store).log(), txn_id),
{
    let total_size: u32 = value.len() as u32;
    let n: usize = (value.len() - 1) / OVERFLOW_PAYLOAD_SIZE + 1;
    let mut ids: Vec<u64> = Vec::new();
    let mut i: usize = 0;
    proof {
        store.lemma_wf();
    }
    // Give out all pages first, so that each knows its successor.
    while i < n
        invariant
            i <= n,
            n == pages_for(value@.len()),
            store.wf(),
            store.pages() == old(store).pages(),
            store.base() == old(store).base(),
            store.log() == old(store).log(),
            store.since() == old(store).since(),
            store.next_lsn() == old(store).next_lsn(),
            store.budget() >= old(store).budget() - i,
            old(store).budget() >= 2 * n,
            ids@.len() == i,
            ids@.no_duplicates(),
            forall|k: int|
                0 <= k < i ==> !old(store).used().contains(#[trigger] ids@[k])
                    && store.used().contains(ids@[k]) && ids@[k] != 0,
            forall|id: u64| #[trigger]
                store.used().contains(id) <==> old(store).used().contains(id) || ids@.contains(id),
        decreases n - i,
    {
        let ghost before = ids@;
        let id: u64 = store.allocate();
        ids.push(id);
        proof {
            assert(ids@ =~= before.push(id));
            assert(ids@[i as int] == id);
            assert forall|x: u64| #[trigger]
                store.used().contains(x) <==> old(store).used().contains(x) || ids@.contains(x) by {
                if before.contains(x) {
                    let k = choose|k: int| 0 <= k < before.len() && before[k] == x;
                    assert(ids@[k] == x);
                }
                if ids@.contains(x) && x != id {
                    let k = choose|k: int| 0 <= k < ids@.len() && ids@[k] == x;
                    assert(before[k] == x);
                }
            }
            assert(ids@.no_duplicates()) by {
                assert forall|a: int, b: int|
                    0 <= a < ids@.len() && 0 <= b < ids@.len() && a != b implies ids@[a]
                        != ids@[b] by {
                    if a < i {
                        assert(before[a] == ids@[a]);
                    }
                    if b < i {
                        assert(before[b] == ids@[b]);
                    }
                }
            }
        }
        i = i + 1;
    }
    let ghost mid = *store;
    let ghost used = store.used();
    let mut j: usize = n;
    proof {
        lemma_pages_cover(value@.len());
        mid.lemma_wf();
        old(store).lemma_wf();
        lemma_padded_start(*old(store), *store);
        assert forall|id: u64| #[trigger]
            old(store).pages().chunks.contains_key(id) implies !ids@.contains(id) by {
            assert(old(store).used().contains(id));
            if ids@.contains(id) {
                let k = choose|k: int| 0 <= k < ids@.len() && ids@[k] == id;
                assert(!old(store).used().contains(ids@[k]));
            }
        }
    }
    while j > 0
        invariant
            j <= n,
            n == pages_for(value@.len()),
            n * OVERFLOW_PAYLOAD_SIZE >= value@.len() > (n - 1) * OVERFLOW_PAYLOAD_SIZE,
            value@.len() <= u32::MAX,
            store.wf(),
            store.used() == used,
            padded(*old(store), *store),
            carries_on(old(store).log(), store.log(), txn_id),
            forall|id: u64| #[trigger]
                old(store).pages().chunks.contains_key(id) ==> !ids@.contains(id),
            store.pages().nodes == old(store).pages().nodes,
            store.pages().root == old(store).pages().root,
            store.budget() >= old(store).budget() - n - (n - j),
            old(store).budget() >= 2 * n,
            ids@.len() == n,
            ids@.no_duplicates(),
            forall|k: int|
                0 <= k < n ==> !old(store).used().contains(#[trigger] ids@[k]) && used.contains(
                    ids@[k],
                ) && ids@[k] != 0 && !old(store).pages().nodes.contains_key(ids@[k]),
            forall|k: int|
                j <= k < n ==> {
                    &&& chunk_linked(store.pages().chunks, ids@, k)
                    &&& store.pages().chunks[#[trigger] ids@[k]].data == chunk_of(value@, k)
                },
            forall|id: u64|
                !ids@.contains(id) ==> (#[trigger] store.pages().chunks.contains_key(id) == old(
                    store,
                ).pages().chunks.contains_key(id) && (store.pages().chunks.contains_key(id)
                    ==> store.pages().chunks[id] == old(store).pages().chunks[id])),
        decreases j,
    {
        j = j - 1;
        assert(j * OVERFLOW_PAYLOAD_SIZE <= (n - 1) * OVERFLOW_PAYLOAD_SIZE) by (nonlinear_arith)
            requires
                j <= n - 1,
        ;
        let from: usize = j * OVERFLOW_PAYLOAD_SIZE;
        let to: usize = if value.len() - from > OVERFLOW_PAYLOAD_SIZE {
            from + OVERFLOW_PAYLOAD_SIZE
        } else {
            value.len()
        };
        let next: Option<u64> = if j + 1 < n {
            Some(ids[j + 1])
        } else {
            None
        };
        let ghost before = store.pages();
        let ghost s0 = *store;
        let chunk = Chunk { lsn: 0, next, data: slice_to_vec(slice_subrange(value, from, to)) };
        let ghost cv = chunk@;
        let id: u64 = ids[j];
        proof {
            lemma_one_change(before, used, id, ChangeView::Chunk(cv), store.next_lsn());
            if j + 1 < n {
                assert(ids@[j + 1] != 0);
            }
            assert(ids@[j as int] == id);
            assert((j + 1) * OVERFLOW_PAYLOAD_SIZE == j * OVERFLOW_PAYLOAD_SIZE
                + OVERFLOW_PAYLOAD_SIZE) by (nonlinear_arith);
            if j == n - 1 {
            } else {
                assert((j + 1) * OVERFLOW_PAYLOAD_SIZE <= (n - 1) * OVERFLOW_PAYLOAD_SIZE)
                    by (nonlinear_arith)
                    requires
                        j + 1 <= n - 1,
                ;
            }
            assert(cv.data =~= chunk_of(value@, j as int));
        }
        let mut cs: Vec<PageChange> = Vec::new();
        cs.push(PageChange { page_id: id, change: Change::Chunk(chunk) });
        assert(change_views(cs@) =~= seq![(id, ChangeView::Chunk(cv))]);
        let lsn: u64 = store.write(WalRecordType::PageCompact, txn_id, &cs);
        proof {
            let after = store.pages();
            assert(after == apply_one(before, id, ChangeView::Chunk(cv), lsn));
            assert(after.nodes =~= before.nodes);
            assert forall|k: int| j <= k < n implies {
                &&& chunk_linked(after.chunks, ids@, k)
                &&& after.chunks[#[trigger] ids@[k]].data == chunk_of(value@, k)
            } by {
                if k > j {
                    assert(ids@[k] != ids@[j as int]);
                    assert(chunk_linked(before.chunks, ids@, k));
                }
            }
            assert forall|x: u64| !ids@.contains(x) implies (
            #[trigger] after.chunks.contains_key(x) == old(store).pages().chunks.contains_key(x)
                && (after.chunks.contains_key(x) ==> after.chunks[x] == old(
                store,
            ).pages().chunks[x])) by {
                assert(ids@.contains(id));
                assert(x != id);
                assert(before.chunks.contains_key(x) == old(store).pages().chunks.contains_key(x));
            }
            assert forall|x: u64| #[trigger] old(store).pages().chunks.contains_key(x) implies {
                &&& after.chunks.contains_key(x)
                &&& after.chunks[x] == old(store).pages().chunks[x]
            } by {
                assert(!ids@.contains(x));
                assert(after.chunks.contains_key(x) == old(store).pages().chunks.contains_key(x));
            }
            lemma_padded_step(*old(store), s0, *store);
        }
    }
    let d = OverflowDescriptor { first_page_id: ids[0], total_size };
    proof {
        lemma_chunks_make_value(store.pages().chunks, ids@, value@, n as int);
        assert(ids@.subrange(0, n as int) =~= ids@);
        assert(value@.subrange(0, value@.len() as int) =~= value@);
        assert(chain_written(old(store), store, d.first_page_id, ids@, value@)) by {
            let c0 = old(store).pages().chunks;
            let c1 = store.pages().chunks;
            assert forall|id: u64| #[trigger]
                c1.contains_key(id) <==> c0.contains_key(id) || ids@.contains(id) by {
                if ids@.contains(id) {
                    let k = choose|k: int| 0 <= k < ids@.len() && ids@[k] == id;
                    assert(chunk_linked(c1, ids@, k));
                }
            }
            assert forall|id: u64| #[trigger] c0.contains_key(id) implies c1[id] == c0[id]
                && !ids@.contains(id) by {
                if ids@.contains(id) {
                    let k = choose|k: int| 0 <= k < ids@.len() && ids@[k] == id;
                    assert(!old(store).used().contains(ids@[k]));
                }
                assert(c1.contains_key(id));
            }
        }
    }
    d
}

/// The part of a value that goes on the `k`-th page of its chain.
pub open spec fn chunk_of(value: Seq<u8>, k: int) -> Seq<u8> {
    let from = k * OVERFLOW_PAYLOAD_SIZE;
    let to = if value.len() - from > OVERFLOW_PAYLOAD_SIZE {
        from + OVERFLOW_PAYLOAD_SIZE
    } else {
        value.len() as int
    };
    value.subrange(from, to)
}

/// What writing a chain does: `ids` are fresh pages that hold the value, and no
/// other overflow page changes.
pub open spec fn chain_written(
    before: &PageStore,
    after: &PageStore,
    first: u64,
    ids: Seq<u64>,
    value: Seq<u8>,
) -> bool {
    &&& is_chain(after.pages().chunks, first, ids)
    &&& chain_value(after.pages().chunks, ids) == value
    &&& forall|k: int|
        0 <= k < ids.len() ==> after.pages().chunks[#[trigger] ids[k]].data == chunk_of(value, k)
    &&& ids.len() == pages_for(value.len())
    &&& forall|id: u64| #[trigger] ids.contains(id) ==> !before.used().contains(id)
    &&& forall|id: u64| #[trigger]
        after.used().contains(id) <==> before.used().contains(id) || ids.contains(id)
    &&& forall|id: u64| #[trigger]
        after.pages().chunks.contains_key(id) <==> before.pages().chunks.contains_key(id)
            || ids.contains(id)
    &&& forall|id: u64| #[trigger]
        before.pages().chunks.contains_key(id) ==> after.pages().chunks[id]
            == before.pages().chunks[id]
}

proof fn lemma_pages_cover(len: nat)
    requires
        len >= 1,
    ensures
        pages_for(len) >= 1,
        pages_for(len) * OVERFLOW_PAYLOAD_SIZE >= len,
        len > (pages_for(len) - 1) * OVERFLOW_PAYLOAD_SIZE,
{
    let q = pages_for(len) as int;
    let a = (len + OVERFLOW_PAYLOAD_SIZE - 1) as int;
    assert(q == a / 4048);
    assert(4048 * (a / 4048) <= a < 4048 * (a / 4048) + 4048) by (nonlinear_arith);
}

proof fn lemma_chunks_make_value(
    chunks: Map<u64, ChunkView>,
    ids: Seq<u64>,
    value: Seq<u8>,
    n: int,
)
    requires
        0 <= n <= ids.len(),
        ids.len() == pages_for(value.len()),
        value.len() >= 1,
        forall|k: int| 0 <= k < ids.len() ==> chunks[#[trigger] ids[k]].data == chunk_of(value, k),
    ensures
        n < ids.len() ==> n * OVERFLOW_PAYLOAD_SIZE <= value.len(),
        chain_value(chunks, ids.subrange(0, n)) == value.subrange(
            0,
            if n < ids.len() {
                n * OVERFLOW_PAYLOAD_SIZE
            } else {
                value.len() as int
            },
        ),
    decreases n,
{
    lemma_pages_cover(value.len());
    if n == 0 {
        assert(chain_value(chunks, ids.subrange(0, 0)) =~= value.subrange(0, 0));
    } else {
        lemma_chunks_make_value(chunks, ids, value, n - 1);
        let s = ids.subrange(0, n);
        assert(s.drop_last() =~= ids.subrange(0, n - 1));
        assert(s.last() == ids[n - 1]);
        let from = (n - 1) * OVERFLOW_PAYLOAD_SIZE;
        assert(n * OVERFLOW_PAYLOAD_SIZE == from + OVERFLOW_PAYLOAD_SIZE) by (nonlinear_arith)
            requires
                from == (n - 1) * OVERFLOW_PAYLOAD_SIZE,
        ;
        assert(n * OVERFLOW_PAYLOAD_SIZE <= (ids.len() - 1) * OVERFLOW_PAYLOAD_SIZE || n
            == ids.len()) by (nonlinear_arith)
            requires
                n <= ids.len(),
        ;
        let to = if n < ids.len() {
            n * OVERFLOW_PAYLOAD_SIZE
        } else {
            value.len() as int
        };
        assert(chunk_of(value, n - 1) =~= value.subrange(from, to));
        assert(value.subrange(0, from) + value.subrange(from, to) =~= value.subrange(0, to));
    }
}

/// The value of a chain.
pub fn read_overflow_chain(desc: OverflowDescriptor, store: &mut PageStore) -> (v: Vec<u8>)
    requires
        old(store).wf(),
        exists|ids: Seq<u64>| #[trigger]
            is_chain(old(store).pages().chunks, desc.first_page_id, ids),
    ensures
        final(store).wf(),
        final(store).same(old(store)),
        forall|ids: Seq<u64>| #[trigger]
            is_chain(old(store).pages().chunks, desc.first_page_id, ids) ==> v@ == chain_value(
                old(store).pages().chunks,
                ids,
            ),
{
    let ghost chunks = store.pages().chunks;
    let ghost ids = choose|ids: Seq<u64>| #[trigger] is_chain(chunks, desc.first_page_id, ids);
    let ghost mut i: int = 0;
    let mut result: Vec<u8> = Vec::new();
    let mut current: Option<u64> = Some(desc.first_page_id);
    assert(ids.subrange(0, 0) =~= Seq::<u64>::empty());
    while current.is_some()
        invariant
            store.wf(),
            store.same(old(store)),
            chunks == old(store).pages().chunks,
            is_chain(chunks, desc.first_page_id, ids),
            0 <= i <= ids.len(),
            current == (if i < ids.len() {
                Some(ids[i])
            } else {
                None
            }),
            result@ == chain_value(chunks, ids.subrange(0, i)),
        decreases ids.len() - i,
    {
        let pid: u64 = current.unwrap();
        assert(chunk_linked(chunks, ids, i));
        let mut c = store.load_chunk(pid);
        current = c.next;
        result.append(&mut c.data);
        proof {
            assert(ids.subrange(0, i + 1).drop_last() =~= ids.subrange(0, i));
            assert(ids.subrange(0, i + 1).last() == ids[i]);
            i = i + 1;
        }
    }
    proof {
        assert(ids.subrange(0, i) =~= ids);
        assert forall|other: Seq<u64>| #[trigger]
            is_chain(chunks, desc.first_page_id, other) implies result@ == chain_value(
            chunks,
            other,
        ) by {
            lemma_chain_unique(chunks, desc.first_page_id, ids, other);
        }
    }
    result
}

/// The pages of a chain, from first to last.
pub fn collect_overflow_page_ids(first_page_id: u64, store: &mut PageStore) -> (v: Vec<u64>)
    requires
        old(store).wf(),
        exists|ids: Seq<u64>| #[trigger] is_chain(old(store).pages().chunks, first_page_id, ids),
    ensures
        final(store).wf(),
        final(store).same(old(store)),
        is_chain(old(store).pages().chunks, first_page_id, v@),
{
    let ghost chunks = store.pages().chunks;
    let ghost ids = choose|ids: Seq<u64>| #[trigger] is_chain(chunks, first_page_id, ids);
    let mut result: Vec<u64> = Vec::new();
    let mut current: Option<u64> = Some(first_page_id);
    while current.is_some()
        invariant
            store.wf(),
            store.same(old(store)),
            chunks == old(store).pages().chunks,
            is_chain(chunks, first_page_id, ids),
            result@.len() <= ids.len(),
            result@ =~= ids.subrange(0, result@.len() as int),
            current == (if result@.len() < ids.len() {
                Some(ids[result@.len() as int])
            } else {
                None
            }),
        decreases ids.len() - result@.len(),
    {
        let pid: u64 = current.unwrap();
        assert(chunk_linked(chunks, ids, result@.len() as int));
        let c = store.load_chunk(pid);
        result.push(pid);
        current = c.next;
    }
    assert(result@ =~= ids);
    result
}

/// The changes that give pages back.
pub open spec fn frees(ids: Seq<u64>) -> Seq<(u64, ChangeView)> {
    Seq::new(ids.len(), |i: int| (ids[i], ChangeView::Free))
}

/// Giving overflow pages back takes them, and nothing else, away.
pub proof fn lemma_frees(p: Pages, used: Set<u64>, ids: Seq<u64>, lsn: u64)
    requires
        p.wf(),
        ids.no_duplicates(),
        forall|i: int|
            0 <= i < ids.len() ==> p.chunks.contains_key(#[trigger] ids[i]) && used.contains(
                ids[i],
            ),
    ensures
        all_fit(p, frees(ids), lsn),
        all_used(used, frees(ids)),
        apply_all(p, frees(ids), lsn) == (Pages {
            chunks: p.chunks.remove_keys(ids.to_set()),
            ..p
        }),
        used_after(used, frees(ids)) == used.difference(ids.to_set()),
    decreases ids.len(),
{
    let cs = frees(ids);
    if ids.len() == 0 {
        assert(p.chunks.remove_keys(ids.to_set()) =~= p.chunks);
        assert(used.difference(ids.to_set()) =~= used);
    } else {
        let rest = ids.drop_last();
        let id = ids.last();
        assert forall|i: int| 0 <= i < rest.len() implies p.chunks.contains_key(#[trigger] rest[i])
            && used.contains(rest[i]) by {
            assert(rest[i] == ids[i]);
        }
        assert(ids[ids.len() - 1] == id);
        lemma_frees(p, used, rest, lsn);
        assert(cs.drop_last() =~= frees(rest));
        assert(cs.last() == (id, ChangeView::Free));
        assert(!rest.contains(id)) by {
            if rest.contains(id) {
                let k = choose|k: int| 0 <= k < rest.len() && rest[k] == id;
                assert(ids[k] == ids[ids.len() - 1]);
            }
        }
        assert forall|x: u64| ids.to_set().contains(x) <==> rest.to_set().contains(x) || x
            == id by {
            if ids.contains(x) && x != id {
                let k = choose|k: int| 0 <= k < ids.len() && ids[k] == x;
                assert(rest[k] == x);
            }
            if rest.contains(x) {
                let k = choose|k: int| 0 <= k < rest.len() && rest[k] == x;
                assert(ids[k] == x);
            }
        }
        assert(p.chunks.remove_keys(rest.to_set()).remove(id) =~= p.chunks.remove_keys(
            ids.to_set(),
        ));
        assert(p.nodes.remove(id) =~= p.nodes);
        assert(used.difference(rest.to_set()).remove(id) =~= used.difference(ids.to_set()));
    }
}

/// Gives the pages of a chain back, logged before they go.
pub fn free_overflow_chain(first_page_id: u64, store: &mut PageStore)
    requires
        old(store).wf(),
        old(store).budget() >= 1,
        exists|ids: Seq<u64>| #[trigger]
            is_chain(old(store).pages().chunks, first_page_id, ids) && ids.len() <= MAX_FREES,
    ensures
        final(store).wf(),
        final(store).budget() >= old(store).budget() - 1,
        final(store).log() == old(store).log().push(final(store).log().last()),
        final(store).follows_on(old(store)),
        carries_on(old(store).log(), final(store).log(), 0),
        forall|ids: Seq<u64>| #[trigger]
            is_chain(old(store).pages().chunks, first_page_id, ids) ==> {
                &&& final(store).pages() == (Pages {
                    chunks: old(store).pages().chunks.remove_keys(ids.to_set()),
                    ..old(store).pages()
                })
                &&& final(store).used() == old(store).used().difference(ids.to_set())
            },
{
    let ids = collect_overflow_page_ids(first_page_id, store);
    let ghost p = store.pages();
    let mut cs: Vec<PageChange> = Vec::new();
    let mut i: usize = 0;
    while i < ids.len()
        invariant
            i <= ids.len(),
            change_views(cs@) =~= frees(ids@.subrange(0, i as int)),
        decreases ids.len() - i,
    {
        let ghost before = cs@;
        cs.push(PageChange { page_id: ids[i], change: Change::Free });
        assert(change_views(cs@) =~= change_views(before).push((ids@[i as int], ChangeView::Free)));
        i = i + 1;
    }
    assert(ids@.subrange(0, i as int) =~= ids@);
    proof {
        store.lemma_wf();
        assert forall|k: int| 0 <= k < ids@.len() implies p.chunks.contains_key(
            #[trigger] ids@[k],
        ) && store.used().contains(ids@[k]) by {
            assert(chunk_linked(p.chunks, ids@, k));
        }
        lemma_frees(p, store.used(), ids@, store.next_lsn());
        let other = choose|other: Seq<u64>| #[trigger]
            is_chain(p.chunks, first_page_id, other) && other.len() <= MAX_FREES;
        lemma_chain_unique(p.chunks, first_page_id, ids@, other);
        let fs = change_views(cs@);
        assert(fs == frees(ids@));
        assert forall|i: int, j: int|
            0 <= i < fs.len() && 0 <= j < fs.len() && i != j implies (#[trigger] fs[i]).0 != (
        #[trigger] fs[j]).0 by {
            assert(ids@[i] != ids@[j]);
        }
    }
    store.write(WalRecordType::OverflowFree, 0, &cs);
    proof {
        assert forall|other: Seq<u64>| #[trigger]
            is_chain(old(store).pages().chunks, first_page_id, other) implies other == ids@ by {
            lemma_chain_unique(old(store).pages().chunks, first_page_id, ids@, other);
        }
    }
}

/// A value is spread over as few pages as hold it: 4048 bytes to a page, all pages full but
/// the last one, which is not empty.
pub proof fn law_chains_are_short(
    before: &PageStore,
    after: &PageStore,
    first: u64,
    ids: Seq<u64>,
    value: Seq<u8>,
    k: int,
)
    requires
        chain_written(before, after, first, ids, value),
        value.len() >= 1,
        0 <= k < ids.len(),
    ensures
        ids.len() * 4048 >= value.len(),
        (ids.len() - 1) * 4048 < value.len(),
        after.pages().chunks[ids[k]].data == value.subrange(
            k * 4048,
            if k + 1 < ids.len() {
                (k + 1) * 4048
            } else {
                value.len() as int
            },
        ),
{
    lemma_pages_cover(value.len());
}

} // verus!
