//! The states that a log leads through, seen as indexes.

use vstd::prelude::*;

use crate::change::{replay, LogEntry, Pages};
use crate::history::{alike, state};
use crate::index::{first_page, spilled};
use crate::index_open::{indexes, is_index, lemma_alike_indexes, lemma_alike_sym, tree_of};
use crate::key::Key;
use crate::store::PageStore;
use crate::value_lemmas::{lemma_chain_pages, lemma_values_frame};
use crate::wal::WalRecordType;

verus! {

/// Whether every state of a log, from the one after the first `since` records on,
/// is an index.
#[verifier::opaque]
pub open spec fn sustained<K: Key>(base: Pages, log: Seq<LogEntry>, since: int) -> bool {
    forall|k: int| since <= k <= log.len() ==> is_index::<K>(#[trigger] state(base, log, k))
}

/// Whether a record says what became of transactions.
pub open spec fn settles(e: LogEntry) -> bool {
    e.kind == WalRecordType::Commit || e.kind == WalRecordType::Abort || e.kind
        == WalRecordType::Checkpoint
}

/// Whether a log goes on with records of changes, all of them the system's or those
/// of one transaction.
pub open spec fn carries_on(a: Seq<LogEntry>, b: Seq<LogEntry>, id: u64) -> bool {
    &&& a.len() <= b.len()
    &&& forall|i: int|
        0 <= i < b.len() ==> if i < a.len() {
            #[trigger] b[i] == a[i]
        } else {
            !settles(b[i]) && (b[i].txn_id == 0 || b[i].txn_id == id)
        }
}

/// Whether a transaction has a record.
pub open spec fn wrote(log: Seq<LogEntry>, id: u64) -> bool {
    exists|i: int| 0 <= i < log.len() && (#[trigger] log[i]).txn_id == id
}

pub proof fn lemma_wrote_stays(a: Seq<LogEntry>, b: Seq<LogEntry>, by: u64, id: u64)
    requires
        carries_on(a, b, by),
        wrote(a, id),
    ensures
        wrote(b, id),
{
    let i = choose|i: int| 0 <= i < a.len() && (#[trigger] a[i]).txn_id == id;
    assert(b[i] == a[i]);
}

/// Whether pages hold the tree that others hold, and all of their chunks.
pub open spec fn holds_more(p: Pages, q: Pages) -> bool {
    &&& p.nodes.dom() == q.nodes.dom()
    &&& forall|id: u64| #[trigger] p.nodes.contains_key(id) ==> q.nodes[id] == p.nodes[id]
    &&& q.root == p.root
    &&& forall|id: u64| #[trigger]
        p.chunks.contains_key(id) ==> q.chunks.contains_key(id) && q.chunks[id] == p.chunks[id]
}

/// Whether a store goes on with the log of another, with records that only add
/// chunks.
#[verifier::opaque]
pub open spec fn padded(s0: PageStore, s: PageStore) -> bool {
    let n = s0.log().len() as int;
    &&& n <= s.log().len()
    &&& s0.log() == s.log().subrange(0, n)
    &&& s.log().len() > n && s0.next_lsn() == 0 ==> n == 0 && s.since() == 1
    &&& s.log().len() == n || s0.next_lsn() > 0 ==> s.base() == s0.base() && s.since()
        == s0.since()
    &&& s.log().len() == n ==> s.next_lsn() == s0.next_lsn()
    &&& s.log().len() > n ==> s.next_lsn() > 0
    &&& forall|k: int|
        n < k <= s.log().len() && s.since() <= k ==> holds_more(
            s0.pages(),
            #[trigger] state(s.base(), s.log(), k),
        )
}

/// More chunks do not matter to an index.
proof fn lemma_more_index<K: Key>(p: Pages, q: Pages)
    requires
        is_index::<K>(p),
        holds_more(p, q),
    ensures
        is_index::<K>(q),
{
    let (levels, lows, chains) = choose|
        levels: Seq<Seq<u64>>,
        lows: Map<u64, Option<Seq<u8>>>,
        chains: Map<u64, Seq<u64>>,
    | #[trigger]
        indexes::<K>(p, levels, lows, chains);
    let r = Pages { nodes: q.nodes, ..p };
    assert(alike(r, p));
    lemma_alike_indexes::<K>(r, p, levels, lows, chains);
    let recs = tree_of(r, levels, lows).records();
    assert(tree_of(q, levels, lows) == tree_of(r, levels, lows));
    assert forall|i: int| 0 <= i < recs.len() && spilled(#[trigger] recs[i]) implies chains.contains_key(
        first_page(recs[i]),
    ) by {
        reveal(crate::index::values_ok);
        assert(crate::index::value_in_place(r.chunks, chains, recs[i]));
    }
    assert forall|i: int, id: u64|
        0 <= i < recs.len() && spilled(recs[i]) && #[trigger] chains[first_page(
            #[trigger] recs[i],
        )].contains(id) implies q.chunks.contains_key(id) && q.chunks[id] == r.chunks[id] by {
        lemma_chain_pages(recs, r.chunks, chains, i);
        assert(p.chunks.contains_key(id));
    }
    lemma_values_frame(recs, r.chunks, chains, q.chunks, chains);
    assert(indexes::<K>(q, levels, lows, chains));
}

/// The states of a log do not change when records follow.
proof fn lemma_state_push(base: Pages, log: Seq<LogEntry>, e: LogEntry, k: int)
    requires
        0 <= k <= log.len(),
    ensures
        state(base, log.push(e), k) == state(base, log, k),
{
    assert(log.push(e).subrange(0, k) =~= log.subrange(0, k));
}

/// One more record, after which the pages are an index.
pub proof fn lemma_sustained_step<K: Key>(
    s0: PageStore,
    s: PageStore,
    levels: Seq<Seq<u64>>,
    lows: Map<u64, Option<Seq<u8>>>,
    chains: Map<u64, Seq<u64>>,
)
    requires
        s.wf(),
        sustained::<K>(s0.base(), s0.log(), s0.since()),
        0 <= s0.since(),
        s.log() == s0.log().push(s.log().last()),
        s.follows_on(&s0),
        indexes::<K>(s.pages(), levels, lows, chains),
    ensures
        sustained::<K>(s.base(), s.log(), s.since()),
{
    reveal(sustained);
    s.lemma_wf();
    let n = s.log().len() as int;
    let last = replay(s.base(), s.log());
    lemma_alike_sym(s.pages(), last);
    lemma_alike_indexes::<K>(last, s.pages(), levels, lows, chains);
    assert(is_index::<K>(last));
    assert(s.log().subrange(0, n) =~= s.log());
    assert forall|k: int| s.since() <= k <= n implies is_index::<K>(
        #[trigger] state(s.base(), s.log(), k),
    ) by {
        if k < n && s0.next_lsn() > 0 {
            lemma_state_push(s.base(), s0.log(), s.log().last(), k);
            assert(is_index::<K>(state(s0.base(), s0.log(), k)));
        }
    }
}

/// Nothing has been logged.
pub proof fn lemma_padded_start(s0: PageStore, s: PageStore)
    requires
        s.log() == s0.log(),
        s.base() == s0.base(),
        s.since() == s0.since(),
        s.next_lsn() == s0.next_lsn(),
    ensures
        padded(s0, s),
{
    reveal(padded);
    assert(s.log().subrange(0, s.log().len() as int) =~= s.log());
}

/// One more record that only adds chunks.
pub proof fn lemma_padded_step(s0: PageStore, s1: PageStore, s: PageStore)
    requires
        s.wf(),
        padded(s0, s1),
        s.log() == s1.log().push(s.log().last()),
        s.follows_on(&s1),
        s.next_lsn() > 0,
        holds_more(s0.pages(), s.pages()),
    ensures
        padded(s0, s),
{
    reveal(padded);
    s.lemma_wf();
    let n = s0.log().len() as int;
    let m = s.log().len() as int;
    assert(s.log().subrange(0, n) =~= s1.log().subrange(0, n));
    assert(s.log().subrange(0, m) =~= s.log());
    let last = replay(s.base(), s.log());
    assert(holds_more(s0.pages(), last)) by {
        assert forall|id: u64| #[trigger] s0.pages().nodes.contains_key(id) implies last.nodes[id] == s0.pages().nodes[id] by {
            assert(s.pages().nodes.contains_key(id));
        }
    }
    assert forall|k: int| n < k <= m && s.since() <= k implies holds_more(
        s0.pages(),
        #[trigger] state(s.base(), s.log(), k),
    ) by {
        if k < m {
            lemma_state_push(s.base(), s1.log(), s.log().last(), k);
            assert(holds_more(s0.pages(), state(s1.base(), s1.log(), k)));
        }
    }
}

/// Records that only add chunks.
pub proof fn lemma_sustained_padded<K: Key>(s0: PageStore, s: PageStore)
    requires
        sustained::<K>(s0.base(), s0.log(), s0.since()),
        is_index::<K>(s0.pages()),
        padded(s0, s),
        s.wf(),
    ensures
        sustained::<K>(s.base(), s.log(), s.since()),
{
    reveal(sustained);
    reveal(padded);
    s.lemma_wf();
    let n = s0.log().len() as int;
    assert forall|k: int| s.since() <= k <= s.log().len() implies is_index::<K>(
        #[trigger] state(s.base(), s.log(), k),
    ) by {
        if k <= n {
            assert(s.log().subrange(0, k) =~= s0.log().subrange(0, k));
            assert(is_index::<K>(state(s0.base(), s0.log(), k)));
        } else {
            lemma_more_index::<K>(s0.pages(), state(s.base(), s.log(), k));
        }
    }
}

} // verus!
