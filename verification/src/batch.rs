//! Vacuum in batches: sweeping some leaves at a time, so that other work can go on in
//! between.

use vstd::prelude::*;

use crate::chronicle::{drift, fresh, lemma_on, lemma_present};
use crate::compact::swept_part;
use crate::constants::VACUUM_BATCH_MAX_LEAVES;
use crate::index::{lemma_page, place, BTreeIndex};
use crate::index_write::{kin, lemma_kin_self, lemma_kin_swept, lemma_kin_trans, lemma_leaves_few};
use crate::key::{Key, KeyOrder};
use crate::leaf_lemmas::lemma_leaf_count;
use crate::mvcc::{cleared, dead, is_dead, lemma_survivors_noop, survivors, Settled};
use crate::node::{copy_bytes, LeafPage, RecordView};
use crate::scan::{cut_at, lemma_member, lemma_place_order, KeyBound};
use crate::sweep::lemma_flat_swept;
use crate::trace::carries_on;
use crate::transaction_manager::TransactionManager;
use crate::tree_spec::{
    bound_le, entries_of, flat, lemma_flat_add, lemma_flat_frame, lemma_lows_monotone, records_ok,
    Tree,
};

verus! {

/// What a batch of a sweep did: how many leaves it changed, how many versions went, and
/// from which key on the next batch has to go on, if the sweep is not at its end.
#[derive(Debug)]
pub struct Batch {
    pub touched: usize,
    pub gone: usize,
    pub next: Option<Vec<u8>>,
}

/// Whether a sweep has something to do on a leaf.
pub open spec fn stale(e: Settled, s: Seq<RecordView>) -> bool {
    exists|i: int| 0 <= i < s.len() && (dead(e, #[trigger] s[i]) || cleared(e, s[i]) != s[i])
}

/// On how many of the `m` leaves from index `i` on a sweep has something to do.
pub open spec fn stale_leaves(e: Settled, t: Tree, i: int, m: int) -> nat
    decreases m,
{
    if m <= 0 {
        0
    } else {
        stale_leaves(e, t, i, m - 1) + if stale(e, t.leaf(i + m - 1).entries) {
            1nat
        } else {
            0nat
        }
    }
}

/// Whether the leaf at index `x` ends beyond the key of a bound.
pub open spec fn beyond<K: Key>(t: Tree, from: &KeyBound, x: int) -> bool {
    t.leaf(x).high_key matches Some(h) ==> match from {
        KeyBound::Included(k) => !K::le(h, k@),
        KeyBound::Excluded(k) => !K::le(h, k@),
        KeyBound::Unbounded => true,
    }
}

/// Whether the `m` leaves from index `i` on are those of a batch that starts at a bound:
/// they begin with the leaf where the bound cuts, and they are as many as a batch has, or
/// all that are left; more only where fewer would not get beyond the versions of the key
/// that the batch starts with.
pub open spec fn batch_span<K: Key>(t: Tree, from: &KeyBound, i: int, m: int) -> bool {
    &&& t.valid(0, i)
    &&& exists|s: int|
        0 <= s <= t.leaf(i).entries.len() && cut_at::<K>(
            t.records(),
            #[trigger] place(t, i, s),
            from,
        )
    &&& 1 <= m
    &&& i + m <= t.levels[0].len()
    &&& i + m < t.levels[0].len() ==> m >= VACUUM_BATCH_MAX_LEAVES && beyond::<K>(
        t,
        from,
        i + m - 1,
    )
    &&& forall|j: int|
        VACUUM_BATCH_MAX_LEAVES <= j < m ==> !(#[trigger] beyond::<K>(t, from, i + j - 1))
}

/// Whether there are numbers enough for a batch of `m` leaves, and its versions can be
/// counted.
pub open spec fn batch_fits<K: Key>(index: BTreeIndex<K>, m: int) -> bool {
    &&& index.store.budget() >= 193 * m
    &&& 192 * m <= usize::MAX
}

/// The records of the leaves from index `i` to index `j`.
pub open spec fn on_leaves(t: Tree, i: int, j: int) -> Seq<RecordView> {
    flat(t.nodes, t.levels[0].subrange(i, j))
}

/// Whether an index has lost nothing but dead versions and stamps of aborted deleters.
pub open spec fn thinned<K: Key>(
    before: BTreeIndex<K>,
    after: BTreeIndex<K>,
    e: Settled,
) -> bool {
    &&& survivors(e, after.records()) == survivors(e, before.records())
    &&& forall|k: int|
        0 <= k < after.records().len() ==> kin(
            e,
            before.records(),
            #[trigger] after.records()[k],
        ) && after.content(after.records()[k]) == before.content(after.records()[k])
}

/// Whether the `m` leaves from index `i` on have been swept, and nothing else.
pub open spec fn batch_swept<K: Key>(
    before: BTreeIndex<K>,
    after: BTreeIndex<K>,
    e: Settled,
    i: int,
    m: int,
    b: Batch,
) -> bool {
    let t = before.tree();
    let n = t.levels[0].len() as int;
    &&& after.levels@ == before.levels@
    &&& after.lows@ == before.lows@
    &&& after.root == before.root
    &&& after.pending_recycle@ == before.pending_recycle@
    &&& after.height == before.height
    &&& after.incomplete == before.incomplete
    &&& swept_part(
        e,
        before.records(),
        after.records(),
        on_leaves(t, 0, i),
        on_leaves(t, i, i + m),
        on_leaves(t, i + m, n),
    )
    &&& thinned(before, after, e)
    &&& carries_on(before.store.log(), after.store.log(), 0)
    &&& forall|x: u64|
        fresh(e, x) ==> #[trigger] drift(before.past@, after.past@, after.store.log(), e, x)
    &&& b.gone + after.records().len() == before.records().len()
    &&& b.touched == stale_leaves(e, t, i, m)
    &&& b.next is Some <==> i + m < n
    &&& b.next matches Some(k) ==> t.leaf(i + m - 1).high_key == Some(k@)
}

/// Whether a sweep has something to do on a leaf.
fn is_stale(l: &LeafPage, horizon: u64, tm: &TransactionManager) -> (b: bool)
    requires
        tm.wf(),
    ensures
        b == stale(Settled { aborts: tm.aborts(), horizon }, l@.entries),
{
    let ghost e = Settled { aborts: tm.aborts(), horizon };
    let mut i: usize = 0;
    while i < l.entries.len()
        invariant
            tm.wf(),
            i <= l.entries.len(),
            e == (Settled { aborts: tm.aborts(), horizon }),
            forall|k: int|
                0 <= k < i ==> !dead(e, #[trigger] l@.entries[k]) && cleared(e, l@.entries[k])
                    == l@.entries[k],
        decreases l.entries.len() - i,
    {
        assert(l@.entries[i as int] == l.entries@[i as int]@);
        let r = &l.entries[i];
        if is_dead(r, horizon, tm) || (r.xmax != 0 && tm.is_aborted(r.xmax)) {
            assert(dead(e, l@.entries[i as int]) || cleared(e, l@.entries[i as int])
                != l@.entries[i as int]);
            return true;
        }
        i = i + 1;
    }
    false
}

impl<K: Key> BTreeIndex<K> {
    /// Finds the leaves of a batch that starts at a bound: the first one, how many they
    /// are, and where the next batch has to go on.
    fn measure_batch(&mut self, from: &KeyBound) -> (r: (u64, u64, Option<Vec<u8>>))
        requires
            old(self).wf(),
        ensures
            final(self).wf(),
            final(self).same(old(self)),
            ({
                let t = old(self).tree();
                exists|i: int|
                    {
                        &&& #[trigger] batch_span::<K>(t, from, i, r.1 as int)
                        &&& t.page(0, i) == r.0
                        &&& r.2 is Some <==> i + r.1 < t.levels[0].len()
                        &&& r.2 matches Some(k) ==> t.leaf(i + r.1 - 1).high_key == Some(k@)
                    }
            }),
    {
        let ghost t = self.tree();
        let ghost chain = t.levels[0];
        let (first, slot) = self.seek(from);
        let ghost i = lemma_page::<K>(t, 0, first);
        let mut pid: u64 = first;
        let mut m: u64 = 1;
        proof {
            lemma_leaves_few::<K>(t, self.store);
            assert(t.page(0, i) == first);
            assert(cut_at::<K>(t.records(), place(t, i, slot as int), from));
        }
        loop
            invariant
                self.wf(),
                self.same(old(self)),
                self.tree() == t,
                t == old(self).tree(),
                chain == t.levels[0],
                chain.len() <= u64::MAX,
                t.valid(0, i),
                t.page(0, i) == first,
                slot <= t.leaf(i).entries.len(),
                cut_at::<K>(t.records(), place(t, i, slot as int), from),
                1 <= m,
                i + m <= chain.len(),
                t.page(0, i + m - 1) == pid,
                forall|j: int|
                    VACUUM_BATCH_MAX_LEAVES <= j < m ==> !(#[trigger] beyond::<K>(
                        t,
                        from,
                        i + j - 1,
                    )),
            decreases chain.len() - (i + m),
        {
            let ghost x = i + m - 1;
            proof {
                assert(t.valid(0, x));
                assert(t.page_ok::<K>(0, x));
                assert(t.linked(0, x));
                assert(chain[x] == pid);
                assert(chain.contains(pid));
            }
            let l = self.load_leaf(pid);
            assert(t.leaf(x) == l@);
            let right = match l.rightlink {
                None => {
                    let r: (u64, u64, Option<Vec<u8>>) = (first, m, None);
                    assert(r.0 == first && r.1 == m && r.2 is None);
                    assert(batch_span::<K>(t, from, i, r.1 as int));
                    return r;
                },
                Some(right) => right,
            };
            let done = match &l.high_key {
                None => true,
                Some(h) => match from {
                    KeyBound::Included(k) => match K::compare(h.as_slice(), k.as_slice()) {
                        KeyOrder::Greater => true,
                        _ => false,
                    },
                    KeyBound::Excluded(k) => match K::compare(h.as_slice(), k.as_slice()) {
                        KeyOrder::Greater => true,
                        _ => false,
                    },
                    KeyBound::Unbounded => true,
                },
            };
            proof {
                K::le_laws();
                assert(done == beyond::<K>(t, from, x));
            }
            if m >= VACUUM_BATCH_MAX_LEAVES as u64 && done {
                let next: Option<Vec<u8>> = match &l.high_key {
                    None => vstd::pervasive::unreached(),
                    Some(h) => Some(copy_bytes(h)),
                };
                let r = (first, m, next);
                assert(r.0 == first && r.1 == m && r.2 == next);
                assert(batch_span::<K>(t, from, i, r.1 as int));
                return r;
            }
            proof {
                assert(t.valid(0, x + 1));
                assert(chain[x + 1] == right);
            }
            pid = right;
            m = m + 1;
        }
    }

    /// Sweeps `m` leaves from the one at index `i` on. Returns how many versions went, and
    /// how many leaves there was something to do on.
    #[verifier::rlimit(40)]
    fn sweep_run(&mut self, tm: &TransactionManager, Ghost(i): Ghost<int>, first: u64, m: u64) -> (r:
        (usize, usize))
        requires
            old(self).wf(),
            tm.wf(),
            old(self).tree().valid(0, i),
            old(self).tree().page(0, i) == first,
            i + m <= old(self).levels@[0].len(),
            batch_fits(*old(self), m as int),
        ensures
            final(self).wf(),
            forall|b: Batch|
                b.gone == r.0 && b.touched == r.1 && (b.next is Some <==> i + m < old(
                    self,
                ).levels@[0].len()) && (b.next matches Some(k) ==> old(self).tree().leaf(
                    i + m - 1,
                ).high_key == Some(k@)) ==> #[trigger] batch_swept(
                    *old(self),
                    *final(self),
                    tm.settled(),
                    i,
                    m as int,
                    b,
                ),
    {
        let ghost t0 = self.tree();
        let ghost recs0 = self.records();
        let ghost chain = t0.levels[0];
        let horizon: u64 = tm.global_xmin();
        let ghost e = tm.settled();
        let mut pid: u64 = first;
        let mut gone: usize = 0;
        let mut touched: usize = 0;
        let mut k: u64 = 0;
        proof {
            lemma_present::<K>(*self);
            assert forall|x: int| 0 <= x < recs0.len() implies kin(
                e,
                recs0,
                #[trigger] recs0[x],
            ) by {
                lemma_kin_self(e, recs0, x);
            }
        }
        while k < m
            invariant
                self.wf(),
                tm.wf(),
                e == tm.settled(),
                horizon == tm.horizon(),
                t0 == old(self).tree(),
                t0.wf::<K>(),
                chain == t0.levels[0],
                recs0 == old(self).records(),
                self.levels@ == t0.levels,
                self.lows@ == old(self).lows@,
                self.root == old(self).root,
                self.pending_recycle@ == old(self).pending_recycle@,
                self.height == old(self).height,
                self.incomplete == old(self).incomplete,
                0 <= i,
                k <= m,
                i + m <= chain.len(),
                192 * m <= usize::MAX,
                k < m ==> pid == chain[i + k],
                self.store.budget() >= 193 * (m - k),
                carries_on(old(self).store.log(), self.store.log(), 0),
                forall|x: u64|
                    fresh(e, x) ==> #[trigger] drift(
                        old(self).past@,
                        self.past@,
                        self.store.log(),
                        e,
                        x,
                    ),
                forall|j: int|
                    0 <= j < chain.len() && !(i <= j < i + k) ==> self.tree().nodes[
                        #[trigger] chain[j]] == t0.nodes[chain[j]],
                forall|j: int|
                    i <= j < i + k ==> entries_of(self.tree().nodes, #[trigger] chain[j])
                        == survivors(e, entries_of(t0.nodes, chain[j])),
                gone <= 192 * k,
                gone + self.records().len() == recs0.len(),
                touched <= k,
                touched == stale_leaves(e, t0, i, k as int),
                survivors(e, self.records()) == survivors(e, recs0),
                forall|x: int|
                    0 <= x < self.records().len() ==> kin(
                        e,
                        recs0,
                        #[trigger] self.records()[x],
                    ) && self.content(self.records()[x]) == old(self).content(self.records()[x]),
            decreases m - k,
        {
            let ghost s1 = *self;
            let ghost t1 = self.tree();
            let ghost y = i + k;
            proof {
                assert(t0.valid(0, y));
                assert(t1.valid(0, y));
                assert(t1.page_ok::<K>(0, y));
                assert(t1.page(0, y) == pid);
                assert(t1.linked(0, y));
                assert(chain.contains(pid));
                assert(t1.nodes[chain[y]] == t0.nodes[chain[y]]);
                assert(t0.leaf(y) == t1.leaf(y));
            }
            let l = self.load_leaf(pid);
            assert(t1.leaf(y) == l@);
            assert(entries_of(t0.nodes, pid) == l@.entries);
            let next = l.rightlink;
            let ghost s2 = *self;
            if is_stale(&l, horizon, tm) {
                let n: usize = self.compact_leaf(pid, horizon, tm);
                proof {
                    lemma_leaf_count(l@);
                    let x = l@.entries;
                    let (a, b) = choose|a: Seq<RecordView>, b: Seq<RecordView>| #[trigger]
                        swept_part(e, s2.records(), self.records(), a, x, b);
                    lemma_kin_swept(e, s2.records(), self.records(), a, x, b);
                    assert forall|x: int| 0 <= x < self.records().len() implies kin(
                        e,
                        recs0,
                        #[trigger] self.records()[x],
                    ) && self.content(self.records()[x]) == old(self).content(self.records()[x]) by {
                        let r = self.records()[x];
                        assert(kin(e, s2.records(), r));
                        lemma_kin_trans(e, recs0, s2.records(), r);
                        let j = choose|j: int|
                            0 <= j < s2.records().len() && (r == #[trigger] s2.records()[j] || r
                                == cleared(e, s2.records()[j]));
                        assert(s2.content(r) == s2.content(s2.records()[j]));
                        assert(s1.content(s1.records()[j]) == old(self).content(s1.records()[j]));
                        assert(old(self).content(r) == old(self).content(s2.records()[j]));
                    }
                    assert forall|x: u64| fresh(e, x) implies #[trigger] drift(
                        old(self).past@,
                        self.past@,
                        self.store.log(),
                        e,
                        x,
                    ) by {
                        lemma_on(
                            old(self).past@,
                            s2.past@,
                            s2.store.log(),
                            self.past@,
                            self.store.log(),
                            0,
                            e,
                            x,
                        );
                    }
                }
                gone = gone + n;
                touched = touched + 1;
            } else {
                proof {
                    lemma_survivors_noop(e, l@.entries);
                }
            }
            proof {
                assert forall|j: int|
                    0 <= j < chain.len() && !(i <= j < i + k + 1) implies self.tree().nodes[
                    #[trigger] chain[j]] == t0.nodes[chain[j]] by {
                    assert(t0.valid(0, y) && t0.valid(0, j));
                    assert(t0.page(0, j) != t0.page(0, y));
                }
                assert forall|j: int| i <= j < i + k + 1 implies entries_of(
                    self.tree().nodes,
                    #[trigger] chain[j],
                ) == survivors(e, entries_of(t0.nodes, chain[j])) by {
                    assert(t0.valid(0, y) && t0.valid(0, j));
                    if j < y {
                        assert(t0.page(0, j) != t0.page(0, y));
                    }
                }
            }
            k = k + 1;
            if k < m {
                proof {
                    assert(next is Some);
                    assert(t1.valid(0, y + 1));
                    assert(chain[y + 1] == next->0);
                }
                pid = match next {
                    Some(right) => right,
                    None => vstd::pervasive::unreached(),
                };
            }
        }
        proof {
            let n = chain.len() as int;
            let t2 = self.tree();
            let ca = chain.subrange(0, i);
            let cx = chain.subrange(i, i + m);
            let cb = chain.subrange(i + m, n);
            assert(chain =~= ca + cx + cb);
            lemma_flat_add(t0.nodes, ca + cx, cb);
            lemma_flat_add(t0.nodes, ca, cx);
            lemma_flat_add(t2.nodes, ca + cx, cb);
            lemma_flat_add(t2.nodes, ca, cx);
            assert forall|j: int| 0 <= j < ca.len() implies entries_of(t2.nodes, #[trigger] ca[j])
                == entries_of(t0.nodes, ca[j]) by {
                assert(ca[j] == chain[j]);
            }
            assert forall|j: int| 0 <= j < cb.len() implies entries_of(t2.nodes, #[trigger] cb[j])
                == entries_of(t0.nodes, cb[j]) by {
                assert(cb[j] == chain[i + m + j]);
            }
            lemma_flat_frame(t2.nodes, t0.nodes, ca);
            lemma_flat_frame(t2.nodes, t0.nodes, cb);
            assert forall|j: int| 0 <= j < cx.len() implies entries_of(t2.nodes, #[trigger] cx[j])
                == survivors(e, entries_of(t0.nodes, cx[j])) by {
                assert(cx[j] == chain[i + j]);
            }
            lemma_flat_swept(e, t0.nodes, t2.nodes, cx);
            assert(swept_part(
                e,
                recs0,
                self.records(),
                on_leaves(t0, 0, i),
                on_leaves(t0, i, i + m),
                on_leaves(t0, i + m, n),
            ));
            assert(thinned(*old(self), *self, e));
        }
        (gone, touched)
    }

    /// Sweeps the leaves of one batch, from a bound on. Nothing happens if there are not
    /// numbers enough for it.
    pub fn vacuum_batch(&mut self, tm: &TransactionManager, from: &KeyBound) -> (r: Option<Batch>)
        requires
            old(self).wf(),
            tm.wf(),
        ensures
            final(self).wf(),
            exists|i: int, m: int| #[trigger]
                batch_span::<K>(old(self).tree(), from, i, m) && match r {
                    None => !batch_fits(*old(self), m) && final(self).same(old(self)),
                    Some(b) => batch_fits(*old(self), m) && batch_swept(
                        *old(self),
                        *final(self),
                        tm.settled(),
                        i,
                        m,
                        b,
                    ),
                },
    {
        let ghost t = self.tree();
        let ghost ix0 = *self;
        let (first, m, next) = self.measure_batch(from);
        let ghost i = choose|i: int|
            {
                &&& #[trigger] batch_span::<K>(t, from, i, m as int)
                &&& t.page(0, i) == first
                &&& next is Some <==> i + m < t.levels[0].len()
                &&& next matches Some(k) ==> t.leaf(i + m - 1).high_key == Some(k@)
            };
        if (self.store.room() as u128) < 193 * m as u128 || 192 * m as u128 > usize::MAX as u128 {
            assert(batch_span::<K>(t, from, i, m as int) && !batch_fits(ix0, m as int));
            return None;
        }
        let ghost ix1 = *self;
        let (gone, touched) = self.sweep_run(tm, Ghost(i), first, m);
        let b = Batch { touched, gone, next };
        proof {
            assert(batch_swept(ix1, *self, tm.settled(), i, m as int, b));
            lemma_same_batch(ix0, ix1, *self, tm.settled(), i, m as int, b);
        }
        Some(b)
    }
}

proof fn lemma_same_batch<K: Key>(
    ix0: BTreeIndex<K>,
    ix1: BTreeIndex<K>,
    ix: BTreeIndex<K>,
    e: Settled,
    i: int,
    m: int,
    b: Batch,
)
    requires
        ix1.same(&ix0),
        batch_swept(ix1, ix, e, i, m, b),
    ensures
        batch_swept(ix0, ix, e, i, m, b),
{
    assert(ix1.tree() == ix0.tree());
    assert forall|r: RecordView| #[trigger] ix1.content(r) == ix0.content(r) by {}
}

/// A batch goes on where the one before it ended: it leaves out no record, and gets
/// further. So the batches of a sweep meet every record and come to an end.
pub proof fn law_batches_meet<K: Key>(
    t: Tree,
    from: &KeyBound,
    i: int,
    m: int,
    next: Vec<u8>,
    i2: int,
    m2: int,
)
    requires
        t.wf::<K>(),
        batch_span::<K>(t, from, i, m),
        i + m < t.levels[0].len(),
        t.leaf(i + m - 1).high_key == Some(next@),
        batch_span::<K>(t, &KeyBound::Included(next), i2, m2),
    ensures
        place(t, i2, 0) <= place(t, i + m, 0),
        i2 + m2 > i + m,
{
    K::le_laws();
    let k = next@;
    let bound = KeyBound::Included(next);
    let recs = t.records();
    let s = choose|s: int|
        0 <= s <= t.leaf(i2).entries.len() && cut_at::<K>(recs, #[trigger] place(t, i2, s), &bound);
    let x = i + m - 1;
    assert(t.valid(0, x) && t.valid(0, x + 1));
    assert(t.page_ok::<K>(0, x) && t.page_ok::<K>(0, x + 1));
    assert(t.linked(0, x) && t.linked(0, x + 1));
    let q = place(t, x + 1, 0);
    if place(t, i2, 0) > q {
        // The first record behind the batch would have been left out.
        assert(q < recs.len());
        let (j, u) = lemma_member::<K>(t, q);
        lemma_place_order::<K>(t, x + 1, 0, j, u);
        assert(j >= x + 1);
        assert(t.page_ok::<K>(0, j));
        lemma_lows_monotone::<K>(t, x + 1, j);
        reveal(records_ok);
        assert(t.leaf_ok::<K>(t.leaf(j)));
        assert(bound_le::<K>(t.lows[t.page(0, j)], Some(t.leaf(j).entries[u].key)));
        assert(bound.starts_before::<K>(recs[q].key));
    }
    if i2 + m2 <= i + m {
        let z = i2 + m2 - 1;
        assert(beyond::<K>(t, &bound, z));
        assert(t.valid(0, z) && t.valid(0, z + 1));
        assert(t.page_ok::<K>(0, z) && t.page_ok::<K>(0, z + 1));
        assert(t.linked(0, z) && t.linked(0, z + 1));
        lemma_lows_monotone::<K>(t, z + 1, x + 1);
    }
}

/// How many leaves a batch has: 64, or all that are left if they are fewer; and more only
/// where 64 would not get beyond the key that the batch starts with, and then no more than
/// it takes.
pub proof fn law_batches_have_sixty_four_leaves<K: Key>(t: Tree, from: &KeyBound, i: int, m: int)
    requires
        batch_span::<K>(t, from, i, m),
    ensures
        m <= 64 ==> m == 64 || i + m == t.levels[0].len(),
        m > 64 ==> (t.leaf(i + m - 2).high_key matches Some(h) && match from {
            KeyBound::Included(k) => K::le(h, k@),
            KeyBound::Excluded(k) => K::le(h, k@),
            KeyBound::Unbounded => false,
        }),
{
    if m > 64 {
        assert(!beyond::<K>(t, from, i + (m - 1) - 1));
    }
}

/// A batch counts the leaves that it changes, each once: those with a version whose creator
/// aborted, with a stamp of a deleter that aborted, or with a version whose deleter lies
/// below the horizon.
pub proof fn law_changed_leaves_are_counted(e: Settled, t: Tree, i: int, m: int)
    requires
        0 <= m,
        !e.aborts.contains_key(0),
    ensures
        stale_leaves(e, t, i, m) == changed_leaves(e, t, i, m).len(),
    decreases m,
{
    vstd::set_lib::lemma_int_range(i, i + m);
    if m > 0 {
        law_changed_leaves_are_counted(e, t, i, m - 1);
        vstd::set_lib::lemma_int_range(i, i + m - 1);
        let j = i + m - 1;
        let a = changed_leaves(e, t, i, m - 1);
        let b = changed_leaves(e, t, i, m);
        assert(a.finite()) by {
            assert(a.subset_of(vstd::set_lib::set_int_range(i, i + m - 1)));
            vstd::set_lib::lemma_len_subset(a, vstd::set_lib::set_int_range(i, i + m - 1));
        }
        assert(!a.contains(j));
        if changes(e, t.leaf(j).entries) {
            let s = t.leaf(j).entries;
            let k = choose|k: int|
                0 <= k < s.len() && {
                    let v = #[trigger] s[k];
                    ||| e.aborts.contains_key(v.xmin)
                    ||| e.aborts.contains_key(v.xmax)
                    ||| v.xmax != 0 && v.xmax < e.horizon
                };
            assert(dead(e, s[k]) || cleared(e, s[k]) != s[k]);
            assert(stale(e, s));
            assert(b =~= a.insert(j));
        } else {
            let s = t.leaf(j).entries;
            if stale(e, s) {
                let k = choose|k: int|
                    0 <= k < s.len() && (dead(e, #[trigger] s[k]) || cleared(e, s[k]) != s[k]);
                assert(changes(e, s));
            }
            assert(b =~= a);
        }
    } else {
        assert(changed_leaves(e, t, i, m) =~= Set::<int>::empty());
    }
}

/// Whether sweeping a list of versions changes it.
pub open spec fn changes(e: Settled, s: Seq<RecordView>) -> bool {
    exists|k: int|
        0 <= k < s.len() && {
            let v = #[trigger] s[k];
            ||| e.aborts.contains_key(v.xmin)
            ||| e.aborts.contains_key(v.xmax)
            ||| v.xmax != 0 && v.xmax < e.horizon
        }
}

/// The leaves among the `m` from index `i` on that a sweep changes.
pub open spec fn changed_leaves(e: Settled, t: Tree, i: int, m: int) -> Set<int> {
    Set::new(|j: int| i <= j < i + m && changes(e, t.leaf(j).entries))
}

} // verus!
