//! Pages determine the index that they form.

use vstd::prelude::*;

use crate::change::{ChunkView, Pages};
use crate::codec::{law_node_roundtrip, node_page};
use crate::history::{present, shown};
use crate::index::{content, first_page, spilled, value_in_place, values_ok, BTreeIndex};
use crate::index_open::{indexes, tree_of};
use crate::key::Key;
use crate::node::NodeView;
use crate::overflow::{chain_value, chunk_linked, is_chain};
use crate::overflow_page::law_chunk_roundtrip;
use crate::tree_spec::{child_ok, children_ok, entries_of, lemma_flat_frame, Tree};

verus! {

/// Whether states do not contradict each other: pages that are in both hold the
/// same, flags of incomplete splits aside.
pub open spec fn agree(p: Pages, q: Pages) -> bool {
    &&& p.root == q.root
    &&& forall|id: u64| #[trigger]
        p.nodes.contains_key(id) && q.nodes.contains_key(id) ==> p.nodes[id] == q.nodes[id]
    &&& forall|id: u64| #[trigger]
        p.chunks.contains_key(id) && q.chunks.contains_key(id) ==> p.chunks[id] == q.chunks[id]
}

/// States whose pages show in the same bytes agree.
pub proof fn lemma_shown_agree(p: Pages, q: Pages, m: spec_fn(u64) -> Seq<u8>)
    requires
        p.wf(),
        q.wf(),
        forall|id: u64| #[trigger] present(p, id) ==> shown(p, id, m(id)),
        forall|id: u64| #[trigger] present(q, id) ==> shown(q, id, m(id)),
    ensures
        agree(p, q),
{
    assert(present(p, 0) && present(q, 0));
    assert forall|id: u64| #[trigger]
        p.nodes.contains_key(id) && q.nodes.contains_key(id) implies p.nodes[id] == q.nodes[id] by {
        assert(present(p, id) && present(q, id));
        let a = p.nodes[id];
        let b = q.nodes[id];
        assert(a == p.nodes[id] && m(id) == node_page(a));
        assert(b == q.nodes[id] && m(id) == node_page(b));
        law_node_roundtrip(a);
        law_node_roundtrip(b);
    }
    assert forall|id: u64| #[trigger]
        p.chunks.contains_key(id) && q.chunks.contains_key(id) implies p.chunks[id]
        == q.chunks[id] by {
        assert(present(p, id) && present(q, id));
        law_chunk_roundtrip(id, p.chunks[id]);
        law_chunk_roundtrip(id, q.chunks[id]);
    }
}

/// Chains of pages that start alike are alike, as the pages are linked.
proof fn lemma_same_place<K: Key>(s: Tree, t: Tree, h: int, g: int, i: int)
    requires
        s.wf::<K>(),
        t.wf::<K>(),
        forall|id: u64| #[trigger]
            s.nodes.contains_key(id) && t.nodes.contains_key(id) ==> s.nodes[id] == t.nodes[id],
        s.valid(h, i),
        t.valid(g, 0),
        s.page(h, 0) == t.page(g, 0),
    ensures
        t.valid(g, i),
        s.page(h, i) == t.page(g, i),
    decreases i,
{
    if i > 0 {
        assert(s.valid(h, i - 1));
        lemma_same_place::<K>(s, t, h, g, i - 1);
        assert(s.page_ok::<K>(h, i - 1));
        assert(t.page_ok::<K>(g, i - 1));
        let x = s.page(h, i - 1);
        assert(s.nodes.contains_key(x) && t.nodes.contains_key(x));
        assert(s.linked(h, i - 1) && t.linked(g, i - 1));
    }
}

proof fn lemma_agree_sym(s: Tree, t: Tree)
    requires
        forall|id: u64| #[trigger]
            s.nodes.contains_key(id) && t.nodes.contains_key(id) ==> s.nodes[id] == t.nodes[id],
    ensures
        forall|id: u64| #[trigger]
            t.nodes.contains_key(id) && s.nodes.contains_key(id) ==> t.nodes[id] == s.nodes[id],
{
}

proof fn lemma_same_level<K: Key>(s: Tree, t: Tree, h: int, g: int)
    requires
        s.wf::<K>(),
        t.wf::<K>(),
        forall|id: u64| #[trigger]
            s.nodes.contains_key(id) && t.nodes.contains_key(id) ==> s.nodes[id] == t.nodes[id],
        s.valid(h, 0),
        t.valid(g, 0),
        s.page(h, 0) == t.page(g, 0),
    ensures
        s.levels[h] == t.levels[g],
        h == 0 <==> g == 0,
{
    lemma_agree_sym(s, t);
    let a = s.levels[h];
    let b = t.levels[g];
    lemma_same_place::<K>(s, t, h, g, a.len() - 1);
    lemma_same_place::<K>(t, s, g, h, b.len() - 1);
    assert forall|i: int| 0 <= i < a.len() implies a[i] == b[i] by {
        lemma_same_place::<K>(s, t, h, g, i);
        assert(s.page(h, i) == t.page(g, i));
    }
    assert(a =~= b);
    assert(s.page_ok::<K>(h, 0) && t.page_ok::<K>(g, 0));
    let x = s.page(h, 0);
}

/// The first child of the first page of a level is the first page of the level
/// below.
proof fn lemma_first_child<K: Key>(t: Tree, h: int)
    requires
        t.wf::<K>(),
        t.valid(h, 0),
        h > 0,
    ensures
        t.valid(h - 1, 0),
        t.nodes[t.page(h, 0)] matches NodeView::Internal(v) && v.children.len() > 0
            && v.children[0] == t.page(h - 1, 0),
{
    assert(t.page_ok::<K>(h, 0));
    assert(t.linked(h, 0));
    let x = t.page(h, 0);
    let v = t.nodes[x]->Internal_0;
    reveal(children_ok);
    let c = v.children[0];
    assert(child_ok::<K>(t.levels[h - 1], t.lows, v, 0));
    let lower = t.levels[h - 1];
    let j = choose|j: int| 0 <= j < lower.len() && lower[j] == c;
    assert(t.valid(h - 1, j));
    assert(t.page_ok::<K>(h - 1, j));
    assert(t.linked(h - 1, j));
    if j > 0 {
        assert(t.valid(h - 1, j - 1));
        assert(t.page_ok::<K>(h - 1, j - 1));
        assert(t.linked(h - 1, j - 1));
    }
}

/// The levels `d` below the top are the same.
proof fn lemma_same_depth<K: Key>(s: Tree, t: Tree, d: int)
    requires
        s.wf::<K>(),
        t.wf::<K>(),
        s.root == t.root,
        forall|id: u64| #[trigger]
            s.nodes.contains_key(id) && t.nodes.contains_key(id) ==> s.nodes[id] == t.nodes[id],
        0 <= d < s.levels.len(),
    ensures
        d < t.levels.len(),
        s.levels[s.levels.len() - 1 - d] == t.levels[t.levels.len() - 1 - d],
        s.levels.len() - 1 - d == 0 <==> t.levels.len() - 1 - d == 0,
    decreases d,
{
    let h = s.levels.len() - 1 - d;
    let g = t.levels.len() - 1 - d;
    assert(s.shape() && t.shape());
    if d > 0 {
        lemma_same_depth::<K>(s, t, d - 1);
        assert(s.levels[h + 1].len() >= 1);
        assert(t.levels[g + 1].len() >= 1);
        lemma_first_child::<K>(s, h + 1);
        lemma_first_child::<K>(t, g + 1);
        let x = s.page(h + 1, 0);
        assert(s.page_ok::<K>(h + 1, 0) && t.page_ok::<K>(g + 1, 0));
        assert(s.page(h, 0) == t.page(g, 0));
    }
    assert(s.levels[h].len() >= 1);
    assert(t.levels[g].len() >= 1);
    lemma_same_level::<K>(s, t, h, g);
}

/// States that agree have the same tree, if both have one.
proof fn lemma_same_tree<K: Key>(s: Tree, t: Tree)
    requires
        s.wf::<K>(),
        t.wf::<K>(),
        s.root == t.root,
        forall|id: u64| #[trigger]
            s.nodes.contains_key(id) && t.nodes.contains_key(id) ==> s.nodes[id] == t.nodes[id],
    ensures
        s.levels == t.levels,
        s.records() == t.records(),
{
    let n = s.levels.len() as int;
    lemma_same_depth::<K>(s, t, n - 1);
    assert forall|h: int| 0 <= h < n implies s.levels[h] == t.levels[h] by {
        lemma_same_depth::<K>(s, t, n - 1 - h);
    }
    assert(s.levels =~= t.levels);
    let chain = s.levels[0];
    assert forall|i: int| 0 <= i < chain.len() implies entries_of(s.nodes, #[trigger] chain[i])
        == entries_of(t.nodes, chain[i]) by {
        assert(s.valid(0, i) && t.valid(0, i));
        assert(s.page_ok::<K>(0, i) && t.page_ok::<K>(0, i));
    }
    lemma_flat_frame(s.nodes, t.nodes, chain);
}

/// Chains of overflow pages that start alike are alike.
proof fn lemma_same_chunk(
    c: Map<u64, ChunkView>,
    d: Map<u64, ChunkView>,
    first: u64,
    a: Seq<u64>,
    b: Seq<u64>,
    i: int,
)
    requires
        is_chain(c, first, a),
        is_chain(d, first, b),
        forall|id: u64| #[trigger]
            c.contains_key(id) && d.contains_key(id) ==> c[id] == d[id],
        0 <= i < a.len(),
    ensures
        i < b.len(),
        a[i] == b[i],
        c[a[i]] == d[a[i]],
    decreases i,
{
    if i > 0 {
        lemma_same_chunk(c, d, first, a, b, i - 1);
        assert(chunk_linked(c, a, i - 1));
        assert(chunk_linked(d, b, i - 1));
    }
    assert(chunk_linked(c, a, i));
    assert(chunk_linked(d, b, i));
}

proof fn lemma_same_value(c: Map<u64, ChunkView>, d: Map<u64, ChunkView>, ids: Seq<u64>)
    requires
        forall|i: int| 0 <= i < ids.len() ==> c[#[trigger] ids[i]] == d[ids[i]],
    ensures
        chain_value(c, ids) == chain_value(d, ids),
    decreases ids.len(),
{
    if ids.len() > 0 {
        let rest = ids.drop_last();
        assert forall|i: int| 0 <= i < rest.len() implies c[#[trigger] rest[i]] == d[rest[i]] by {
            assert(rest[i] == ids[i]);
        }
        lemma_same_value(c, d, rest);
        assert(ids.last() == ids[ids.len() - 1]);
    }
}

proof fn lemma_same_chain(
    c: Map<u64, ChunkView>,
    d: Map<u64, ChunkView>,
    first: u64,
    a: Seq<u64>,
    b: Seq<u64>,
)
    requires
        is_chain(c, first, a),
        is_chain(d, first, b),
        forall|id: u64| #[trigger]
            c.contains_key(id) && d.contains_key(id) ==> c[id] == d[id],
    ensures
        chain_value(c, a) == chain_value(d, b),
{
    assert forall|i: int| 0 <= i < a.len() implies i < b.len() && a[i] == b[i] && c[
        #[trigger] a[i]] == d[a[i]] by {
        lemma_same_chunk(c, d, first, a, b, i);
    }
    lemma_same_chunk(c, d, first, a, b, a.len() - 1);
    lemma_same_chunk(d, c, first, b, a, b.len() - 1);
    assert(a =~= b);
    lemma_same_value(c, d, a);
}

/// Whether an index is the one that pages form: whatever way they are read as an
/// index, it has the same records with the same values.
pub open spec fn reads<K: Key>(ix: BTreeIndex<K>, p: Pages) -> bool {
    forall|
        levels: Seq<Seq<u64>>,
        lows: Map<u64, Option<Seq<u8>>>,
        chains: Map<u64, Seq<u64>>,
    | #[trigger]
        indexes::<K>(p, levels, lows, chains) ==> {
            &&& ix.levels@ == levels
            &&& ix.records() == tree_of(p, levels, lows).records()
            &&& forall|k: int|
                0 <= k < ix.records().len() ==> ix.content(#[trigger] ix.records()[k]) == content(
                    p.chunks,
                    chains,
                    ix.records()[k],
                )
        }
}

/// Pages that agree with those of an index form no other index.
pub proof fn lemma_reads<K: Key>(ix: BTreeIndex<K>, p: Pages)
    requires
        ix.sound(),
        agree(ix.store.pages(), p),
    ensures
        reads::<K>(ix, p),
{
    assert forall|
        levels: Seq<Seq<u64>>,
        lows: Map<u64, Option<Seq<u8>>>,
        chains: Map<u64, Seq<u64>>,
    | #[trigger] indexes::<K>(p, levels, lows, chains) implies {
        &&& ix.levels@ == levels
        &&& ix.records() == tree_of(p, levels, lows).records()
        &&& forall|k: int|
            0 <= k < ix.records().len() ==> ix.content(#[trigger] ix.records()[k]) == content(
                p.chunks,
                chains,
                ix.records()[k],
            )
    } by {
        let q = ix.store.pages();
        let t = tree_of(p, levels, lows);
        lemma_same_tree::<K>(ix.tree(), t);
        let recs = ix.records();
        assert forall|k: int| 0 <= k < recs.len() implies ix.content(#[trigger] recs[k]) == content(
            p.chunks,
            chains,
            recs[k],
        ) by {
            if spilled(recs[k]) {
                reveal(values_ok);
                assert(value_in_place(q.chunks, ix.chains@, recs[k]));
                assert(value_in_place(p.chunks, chains, recs[k]));
                let first = first_page(recs[k]);
                lemma_same_chain(q.chunks, p.chunks, first, ix.chains@[first], chains[first]);
            }
        }
    }
}

} // verus!
