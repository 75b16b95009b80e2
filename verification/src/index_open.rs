//! Creating and opening the index.

use std::marker::PhantomData;

use vstd::prelude::*;

use crate::change::{replay, LogEntry, Pages};
use crate::chronicle::{chronicle, lemma_formed, rows_in};
use crate::downlinks::laced;
use crate::error::IndexError;
use crate::history::{alike, state};
use crate::index::{lemma_page, values_ok, BTreeIndex};
use crate::index_edit::flags;
use crate::index_write::lemma_levels_few;
use crate::key::Key;
use crate::manager::BufferPoolManager;
use crate::node::{Node, NodeView, RecordView};
use crate::store::{new_leaf, new_pages, reopened, PageStore};
use crate::trace::sustained;
use crate::tree_spec::{child_ok, children_ok, entries_of, flat, records_ok, Tree};

verus! {

/// The tree that pages form, given its levels and the lower bounds of its pages.
pub open spec fn tree_of(p: Pages, levels: Seq<Seq<u64>>, lows: Map<u64, Option<Seq<u8>>>) -> Tree {
    Tree { nodes: p.nodes, levels, lows, root: p.root }
}

/// Whether pages form a tree whose values are in place.
pub open spec fn indexes<K: Key>(
    p: Pages,
    levels: Seq<Seq<u64>>,
    lows: Map<u64, Option<Seq<u8>>>,
    chains: Map<u64, Seq<u64>>,
) -> bool {
    &&& tree_of(p, levels, lows).wf::<K>()
    &&& laced(tree_of(p, levels, lows))
    &&& values_ok(tree_of(p, levels, lows).records(), p.chunks, chains)
}

/// The same pages form the same index.
pub proof fn lemma_alike_indexes<K: Key>(
    p: Pages,
    q: Pages,
    levels: Seq<Seq<u64>>,
    lows: Map<u64, Option<Seq<u8>>>,
    chains: Map<u64, Seq<u64>>,
)
    requires
        alike(p, q),
        indexes::<K>(q, levels, lows, chains),
    ensures
        indexes::<K>(p, levels, lows, chains),
        tree_of(p, levels, lows).records() == tree_of(q, levels, lows).records(),
{
    assert(p.nodes =~= q.nodes);
}

proof fn lemma_new_tree<K: Key>()
    ensures
        indexes::<K>(
            new_pages(),
            seq![seq![1u64]],
            map![1u64 => None::<Seq<u8>>],
            Map::empty(),
        ),
        tree_of(new_pages(), seq![seq![1u64]], map![1u64 => None::<Seq<u8>>]).records() == Seq::<
            RecordView,
        >::empty(),
{
    let p = new_pages();
    let levels = seq![seq![1u64]];
    let lows = map![1u64 => None::<Seq<u8>>];
    let t = tree_of(p, levels, lows);
    assert(NodeView::Leaf(new_leaf()).wf());
    assert forall|h: int, i: int| t.valid(h, i) implies #[trigger] t.page_ok::<K>(h, i) by {
        assert(h == 0 && i == 0);
        reveal(records_ok);
        assert(t.nodes[1] == NodeView::Leaf(new_leaf()));
        assert(t.leaf_ok::<K>(new_leaf()));
        assert(t.linked(0, 0));
    }
    assert(levels[0].drop_last() =~= Seq::<u64>::empty());
    assert(flat(p.nodes, Seq::<u64>::empty()) =~= Seq::<RecordView>::empty());
    assert(entries_of(p.nodes, 1) =~= Seq::<RecordView>::empty());
    assert(t.records() =~= Seq::<RecordView>::empty());
    reveal(values_ok);
    reveal(laced);
}

/// Whether a pool has nothing left to write and holds the pages that a history
/// ends with. They form an index, if the superblock names a root.
pub open spec fn at_rest_with<K: Key>(
    m: BufferPoolManager,
    base: Pages,
    log: Seq<LogEntry>,
) -> bool {
    reopened(m, base, log) && (replay(base, log).root != 0 ==> is_index::<K>(replay(base, log)))
}

/// Whether pages form an index.
pub open spec fn is_index<K: Key>(p: Pages) -> bool {
    exists|
        levels: Seq<Seq<u64>>,
        lows: Map<u64, Option<Seq<u8>>>,
        chains: Map<u64, Seq<u64>>,
    | #[trigger]
        indexes::<K>(p, levels, lows, chains)
}

pub proof fn lemma_alike_sym(p: Pages, q: Pages)
    requires
        alike(p, q),
    ensures
        alike(q, p),
{
    assert forall|id: u64| #[trigger] q.nodes.contains_key(id) implies q.nodes[id] == p.nodes[id] by {
        assert(p.nodes.contains_key(id));
    }
}

/// Counts the levels of a tree, from the root down.
fn count_levels<K: Key>(
    store: &mut PageStore,
    root: u64,
    Ghost(levels): Ghost<Seq<Seq<u64>>>,
    Ghost(lows): Ghost<Map<u64, Option<Seq<u8>>>>,
) -> (n: u64)
    requires
        old(store).wf(),
        tree_of(old(store).pages(), levels, lows).wf::<K>(),
        root == old(store).pages().root,
    ensures
        final(store).wf(),
        final(store).same(old(store)),
        final(store).base() == old(store).base(),
        n == levels.len(),
{
    let ghost t = tree_of(store.pages(), levels, lows);
    let ghost mut h: int = levels.len() - 1;
    let mut pid: u64 = root;
    let mut n: u64 = 1;
    proof {
        lemma_levels_few::<K>(t, *store);
        assert(t.levels[h].len() >= 1);
        assert(t.valid(h, 0));
        assert(t.page_ok::<K>(h, 0));
        assert(t.levels[h].contains(t.page(h, 0)));
    }
    loop
        invariant
            store.wf(),
            store.same(old(store)),
            t == tree_of(old(store).pages(), levels, lows),
            t.wf::<K>(),
            t.levels == levels,
            0 <= h < levels.len() <= u64::MAX,
            levels[h].contains(pid),
            n == levels.len() - h,
        decreases h,
    {
        proof {
            let i = lemma_page::<K>(t, h, pid);
        }
        match store.load(pid) {
            Node::Leaf(_) => {
                return n;
            },
            Node::Internal(p) => {
                let child: u64 = p.children[0];
                proof {
                    reveal(children_ok);
                    assert(t.internal_ok::<K>(h, p@));
                    let _ = p@.children[0];
                    assert(child_ok::<K>(t.levels[h - 1], t.lows, p@, 0));
                    h = h - 1;
                }
                pid = child;
                n = n + 1;
            },
        }
    }
}

impl<K: Key> BTreeIndex<K> {
    /// An empty index in a new database, and its root.
    pub fn create() -> (r: (BTreeIndex<K>, u64))
        ensures
            r.0.wf(),
            r.0.records() == Seq::<RecordView>::empty(),
            r.0.root == 1,
            r.1 == 1,
            r.0.store.pages() == new_pages(),
            r.0.store.next_lsn() == 0,
            r.0.store.log() == Seq::<LogEntry>::empty(),
            r.0.store.base() == new_pages(),
            r.0.store.durable() == 0,
            r.0.pending_recycle@ == Seq::<(u64, u64)>::empty(),
            r.0.store.budget() == u64::MAX - 2,
            r.0.store.next_page() == 2,
            r.0.levels@ == seq![seq![1u64]],
            flags(r.0.tree().nodes) == Set::<u64>::empty(),
            r.0.work() == 180600,
            r.0.height == 1,
            r.0.incomplete == 0,
    {
        let store = PageStore::create();
        proof {
            lemma_new_tree::<K>();
        }
        let ghost levels = seq![seq![1u64]];
        let ghost lows = map![1u64 => None::<Seq<u8>>];
        let ghost past = seq![Seq::<(RecordView, Seq<u8>)>::empty()];
        let ix = BTreeIndex {
            store,
            root: 1,
            pending_recycle: Vec::new(),
            height: 1,
            incomplete: 0,
            levels: Ghost(levels),
            lows: Ghost(lows),
            chains: Ghost(Map::empty()),
            past: Ghost(past),
            key_type: PhantomData,
        };
        proof {
            assert(ix.tree() == tree_of(new_pages(), levels, lows));
            assert(indexes::<K>(new_pages(), levels, lows, Map::empty()));
            let log = Seq::<LogEntry>::empty();
            assert(log.subrange(0, 0) =~= log);
            assert(state(new_pages(), log, 0) == new_pages());
            reveal(sustained);
            reveal(chronicle);
            lemma_formed::<K>(ix, new_pages());
            assert(ix.rows() =~= Seq::empty());
            assert(flags(ix.tree().nodes) =~= Set::<u64>::empty());
            assert(crate::index_write::work(1, 0) == 180600) by (nonlinear_arith);
        }
        (ix, 1)
    }

    /// The index behind a pool that has nothing left to write. The superblock
    /// names its root; a database without one is corrupt.
    pub fn open(pool: BufferPoolManager) -> (r: Result<BTreeIndex<K>, IndexError>)
        requires
            exists|base: Pages, log: Seq<LogEntry>| #[trigger] at_rest_with::<K>(pool, base, log),
        ensures
            exists|base: Pages, log: Seq<LogEntry>| #[trigger]
                at_rest_with::<K>(pool, base, log) && (r is Ok <==> replay(base, log).root != 0)
                    && (r matches Ok(ix) ==> {
                    &&& ix.wf()
                    &&& ix.root == replay(base, log).root
                    &&& alike(ix.store.pages(), replay(base, log))
                    &&& ix.records() == tree_of(
                        replay(base, log),
                        ix.levels@,
                        ix.lows@,
                    ).records()
                    &&& ix.store.next_lsn() == pool.wal.next_lsn
                    &&& ix.store.base() == base
                    &&& ix.store.log() == log
                    &&& ix.pending_recycle@ == Seq::<(u64, u64)>::empty()
                }),
            r matches Err(e) ==> e == IndexError::CorruptMetadata,
    {
        let ghost (base, log) = choose|base: Pages, log: Seq<LogEntry>| #[trigger]
            at_rest_with::<K>(pool, base, log);
        let ghost p = replay(base, log);
        let store = PageStore::open(pool, Ghost(base), Ghost(log));
        let ghost q = store.pages();
        proof {
            lemma_alike_sym(q, p);
            if p.root != 0 {
                let (levels, lows, chains) = choose|
                    levels: Seq<Seq<u64>>,
                    lows: Map<u64, Option<Seq<u8>>>,
                    chains: Map<u64, Seq<u64>>,
                | #[trigger]
                    indexes::<K>(p, levels, lows, chains);
                lemma_alike_indexes::<K>(q, p, levels, lows, chains);
            }
        }
        let r = Self::of_store(store);
        proof {
            if r is Ok {
                let ix = r->Ok_0;
                lemma_alike_indexes::<K>(p, q, ix.levels@, ix.lows@, ix.chains@);
                assert(ix.tree() == tree_of(q, ix.levels@, ix.lows@));
            }
            assert(at_rest_with::<K>(pool, base, log));
        }
        r
    }

    /// The index of a database.
    pub(crate) fn of_store(store: PageStore) -> (r: Result<BTreeIndex<K>, IndexError>)
        requires
            store.wf(),
            store.since() == store.log().len(),
            store.pages().root != 0 ==> exists|
                levels: Seq<Seq<u64>>,
                lows: Map<u64, Option<Seq<u8>>>,
                chains: Map<u64, Seq<u64>>,
            | #[trigger]
                indexes::<K>(store.pages(), levels, lows, chains),
        ensures
            r is Ok <==> store.pages().root != 0,
            r matches Err(e) ==> e == IndexError::CorruptMetadata,
            r matches Ok(ix) ==> {
                &&& ix.wf()
                &&& ix.root == store.pages().root
                &&& ix.store.same(&store)
                &&& ix.store.base() == store.base()
                &&& ix.pending_recycle@ == Seq::<(u64, u64)>::empty()
                &&& indexes::<K>(store.pages(), ix.levels@, ix.lows@, ix.chains@)
            },
    {
        let ghost p = store.pages();
        let ghost store_log = store.log();
        let mut store = store;
        let root: u64 = store.root();
        if root == 0 {
            return Err(IndexError::CorruptMetadata);
        }
        let incomplete: u64 = store.count_flagged();
        let ghost (levels, lows, chains) = choose|
            levels: Seq<Seq<u64>>,
            lows: Map<u64, Option<Seq<u8>>>,
            chains: Map<u64, Seq<u64>>,
        | #[trigger]
            indexes::<K>(p, levels, lows, chains);
        let height: u64 = count_levels::<K>(&mut store, root, Ghost(levels), Ghost(lows));
        let ghost past = Seq::new(
            store_log.len() + 1,
            |i: int| rows_in(p, levels, lows, chains),
        );
        let ix = BTreeIndex {
            store,
            root,
            pending_recycle: Vec::new(),
            height,
            incomplete,
            levels: Ghost(levels),
            lows: Ghost(lows),
            chains: Ghost(chains),
            past: Ghost(past),
            key_type: PhantomData,
        };
        proof {
            assert(ix.tree() == tree_of(p, levels, lows));
            let (base, log) = (ix.store.base(), ix.store.log());
            let r = replay(base, log);
            ix.store.lemma_wf();
            lemma_alike_sym(p, r);
            lemma_alike_indexes::<K>(r, p, levels, lows, chains);
            assert(is_index::<K>(r));
            assert(log.subrange(0, log.len() as int) =~= log);
            reveal(sustained);
            reveal(chronicle);
            lemma_formed::<K>(ix, r);
            assert(ix.rows() =~= rows_in(p, levels, lows, chains));
        }
        Ok(ix)
    }
}

} // verus!
