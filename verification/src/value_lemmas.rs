//! What edits of the records keep of the values: every value stays in place and
//! no two records share an overflow page.

use vstd::prelude::*;

use crate::change::ChunkView;
use crate::index::{content, disjoint, first_page, spilled, value_in_place, values_ok};
use crate::mvcc::{cleared, dead, deads, survivors, Settled};
use crate::node::RecordView;
use crate::overflow::{chunk_linked, is_chain, lemma_chain_frame};

verus! {

/// Whether a record may join others: its value is in place and on overflow
/// pages that none of them uses.
pub open spec fn value_fresh(
    recs: Seq<RecordView>,
    chunks: Map<u64, ChunkView>,
    chains: Map<u64, Seq<u64>>,
    r: RecordView,
) -> bool {
    &&& value_in_place(chunks, chains, r)
    &&& forall|i: int|
        0 <= i < recs.len() && spilled(r) && spilled(#[trigger] recs[i]) ==> disjoint(
            chains[first_page(r)],
            chains[first_page(recs[i])],
        )
}

/// Having no page in common goes both ways.
pub proof fn lemma_disjoint_sym(a: Seq<u64>, b: Seq<u64>)
    requires
        disjoint(a, b),
    ensures
        disjoint(b, a),
{
    assert forall|id: u64| #[trigger] b.contains(id) implies !a.contains(id) by {
        if a.contains(id) {
            assert(!b.contains(id));
        }
    }
}

pub proof fn lemma_values_insert(
    recs: Seq<RecordView>,
    chunks: Map<u64, ChunkView>,
    chains: Map<u64, Seq<u64>>,
    k: int,
    r: RecordView,
)
    requires
        values_ok(recs, chunks, chains),
        0 <= k <= recs.len(),
        value_fresh(recs, chunks, chains, r),
    ensures
        values_ok(recs.insert(k, r), chunks, chains),
{
    reveal(values_ok);
    let t = recs.insert(k, r);
    assert forall|i: int| 0 <= i < t.len() implies value_in_place(chunks, chains, #[trigger] t[i]) by {
        if i < k {
            assert(t[i] == recs[i]);
        } else if i > k {
            assert(t[i] == recs[i - 1]);
        }
    }
    assert forall|i: int, j: int|
        0 <= i < t.len() && 0 <= j < t.len() && i != j && spilled(#[trigger] t[i]) && spilled(
            #[trigger] t[j],
        ) implies disjoint(chains[first_page(t[i])], chains[first_page(t[j])]) by {
        let i0 = if i > k {
            i - 1
        } else {
            i
        };
        let j0 = if j > k {
            j - 1
        } else {
            j
        };
        if i == k {
            assert(t[j] == recs[j0]);
        } else if j == k {
            assert(t[i] == recs[i0]);
            lemma_disjoint_sym(chains[first_page(r)], chains[first_page(recs[i0])]);
        } else {
            assert(t[i] == recs[i0] && t[j] == recs[j0]);
        }
    }
}

/// The first of some records.
pub proof fn lemma_values_prefix(
    recs: Seq<RecordView>,
    more: Seq<RecordView>,
    chunks: Map<u64, ChunkView>,
    chains: Map<u64, Seq<u64>>,
)
    requires
        values_ok(recs + more, chunks, chains),
    ensures
        values_ok(recs, chunks, chains),
{
    reveal(values_ok);
    let t = recs + more;
    assert forall|i: int| 0 <= i < recs.len() implies value_in_place(
        chunks,
        chains,
        #[trigger] recs[i],
    ) by {
        assert(t[i] == recs[i]);
    }
    assert forall|i: int, j: int|
        0 <= i < recs.len() && 0 <= j < recs.len() && i != j && spilled(#[trigger] recs[i])
            && spilled(#[trigger] recs[j]) implies disjoint(
        chains[first_page(recs[i])],
        chains[first_page(recs[j])],
    ) by {
        assert(t[i] == recs[i] && t[j] == recs[j]);
    }
}

pub proof fn lemma_values_restamp(
    recs: Seq<RecordView>,
    chunks: Map<u64, ChunkView>,
    chains: Map<u64, Seq<u64>>,
    k: int,
    r: RecordView,
)
    requires
        values_ok(recs, chunks, chains),
        0 <= k < recs.len(),
        r.value == recs[k].value,
        r.rec_type == recs[k].rec_type,
    ensures
        values_ok(recs.update(k, r), chunks, chains),
{
    reveal(values_ok);
    let t = recs.update(k, r);
    assert forall|i: int| 0 <= i < t.len() implies value_in_place(chunks, chains, #[trigger] t[i]) by {
        assert(value_in_place(chunks, chains, recs[i]));
    }
    assert forall|i: int, j: int|
        0 <= i < t.len() && 0 <= j < t.len() && i != j && spilled(#[trigger] t[i]) && spilled(
            #[trigger] t[j],
        ) implies disjoint(chains[first_page(t[i])], chains[first_page(t[j])]) by {
        assert(spilled(recs[i]) && spilled(recs[j]));
    }
}

pub proof fn lemma_values_remove(
    recs: Seq<RecordView>,
    chunks: Map<u64, ChunkView>,
    chains: Map<u64, Seq<u64>>,
    k: int,
)
    requires
        values_ok(recs, chunks, chains),
        0 <= k < recs.len(),
    ensures
        values_ok(recs.remove(k), chunks, chains),
        value_fresh(recs.remove(k), chunks, chains, recs[k]),
{
    reveal(values_ok);
    let t = recs.remove(k);
    assert forall|i: int| 0 <= i < t.len() implies value_in_place(chunks, chains, #[trigger] t[i])
        && (spilled(recs[k]) && spilled(t[i]) ==> disjoint(
        chains[first_page(recs[k])],
        chains[first_page(t[i])],
    )) by {
        let i0 = if i >= k {
            i + 1
        } else {
            i
        };
        assert(t[i] == recs[i0]);
        assert(value_in_place(chunks, chains, recs[i0]));
    }
    assert forall|i: int, j: int|
        0 <= i < t.len() && 0 <= j < t.len() && i != j && spilled(#[trigger] t[i]) && spilled(
            #[trigger] t[j],
        ) implies disjoint(chains[first_page(t[i])], chains[first_page(t[j])]) by {
        let i0 = if i >= k {
            i + 1
        } else {
            i
        };
        let j0 = if j >= k {
            j + 1
        } else {
            j
        };
        assert(t[i] == recs[i0] && t[j] == recs[j0]);
    }
}

/// Values stay in place while the pages that they use stay as they are.
pub proof fn lemma_values_frame(
    recs: Seq<RecordView>,
    c1: Map<u64, ChunkView>,
    n1: Map<u64, Seq<u64>>,
    c2: Map<u64, ChunkView>,
    n2: Map<u64, Seq<u64>>,
)
    requires
        values_ok(recs, c1, n1),
        forall|i: int|
            0 <= i < recs.len() && spilled(#[trigger] recs[i]) ==> n2.contains_key(
                first_page(recs[i]),
            ) && n2[first_page(recs[i])] == n1[first_page(recs[i])],
        forall|i: int, id: u64|
            0 <= i < recs.len() && spilled(recs[i]) && #[trigger] n1[first_page(
                #[trigger] recs[i],
            )].contains(id) ==> c2.contains_key(id) && c2[id] == c1[id],
    ensures
        values_ok(recs, c2, n2),
        forall|i: int|
            0 <= i < recs.len() ==> content(c2, n2, #[trigger] recs[i]) == content(
                c1,
                n1,
                recs[i],
            ),
{
    reveal(values_ok);
    assert forall|i: int| 0 <= i < recs.len() implies value_in_place(c2, n2, #[trigger] recs[i])
        && content(c2, n2, recs[i]) == content(c1, n1, recs[i]) by {
        assert(value_in_place(c1, n1, recs[i]));
        if spilled(recs[i]) {
            let f = first_page(recs[i]);
            let ids = n1[f];
            assert forall|k: int| 0 <= k < ids.len() implies c2.contains_key(#[trigger] ids[k])
                && c2[ids[k]] == c1[ids[k]] by {
                assert(n1[first_page(recs[i])].contains(ids[k]));
            }
            lemma_chain_frame(c1, c2, f, ids);
        }
    }
}

/// A sweep of part of the records keeps the values in place, of what is left
/// and of what goes, here moved to the end.
pub proof fn lemma_values_partition(
    e: Settled,
    a: Seq<RecordView>,
    x: Seq<RecordView>,
    b: Seq<RecordView>,
    d: Seq<RecordView>,
    chunks: Map<u64, ChunkView>,
    chains: Map<u64, Seq<u64>>,
)
    requires
        values_ok(a + x + b + d, chunks, chains),
    ensures
        values_ok(a + survivors(e, x) + b + (deads(e, x) + d), chunks, chains),
    decreases x.len(),
{
    if x.len() == 0 {
        assert(survivors(e, x) =~= x);
        assert(deads(e, x) + d =~= d);
    } else {
        let x1 = x.drop_last();
        let r = x.last();
        let b1 = seq![r] + b;
        assert(a + x + b + d =~= a + x1 + b1 + d);
        lemma_values_partition(e, a, x1, b1, d, chunks, chains);
        let s1 = survivors(e, x1);
        let d1 = deads(e, x1);
        let k = (a + s1).len() as int;
        let all = a + s1 + b1 + (d1 + d);
        assert(all[k] == r);
        if dead(e, r) {
            lemma_values_remove(all, chunks, chains, k);
            let rest = all.remove(k);
            assert(rest =~= a + s1 + b + (d1 + d));
            let m = (a + s1 + b + d1).len() as int;
            lemma_values_insert(rest, chunks, chains, m, r);
            assert(rest.insert(m, r) =~= a + s1 + b + (d1.push(r) + d));
        } else {
            lemma_values_restamp(all, chunks, chains, k, cleared(e, r));
            assert(all.update(k, cleared(e, r)) =~= a + s1.push(cleared(e, r)) + b + (d1 + d));
        }
    }
}

/// The overflow pages of records that are in place exist.
pub proof fn lemma_chain_pages(
    recs: Seq<RecordView>,
    chunks: Map<u64, ChunkView>,
    chains: Map<u64, Seq<u64>>,
    i: int,
)
    requires
        values_ok(recs, chunks, chains),
        0 <= i < recs.len(),
        spilled(recs[i]),
    ensures
        is_chain(chunks, first_page(recs[i]), chains[first_page(recs[i])]),
        chains[first_page(recs[i])].contains(first_page(recs[i])),
        forall|id: u64| #[trigger]
            chains[first_page(recs[i])].contains(id) ==> chunks.contains_key(id),
{
    reveal(values_ok);
    let f = first_page(recs[i]);
    let ids = chains[f];
    assert(value_in_place(chunks, chains, recs[i]));
    assert(ids[0] == f);
    assert forall|id: u64| #[trigger] ids.contains(id) implies chunks.contains_key(id) by {
        let k = choose|k: int| 0 <= k < ids.len() && ids[k] == id;
        assert(chunk_linked(chunks, ids, k));
    }
}

} // verus!
