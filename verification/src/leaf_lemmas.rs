//! What edits of one leaf keep: order, bounds and size.

use vstd::prelude::*;

use crate::constants::{MAX_KEY_SIZE, OVERFLOW_THRESHOLD, PAGE_SIZE};
use crate::key::Key;
use crate::mvcc::{cleared, dead, survivors, Settled};
use crate::node::{records_size, records_sorted, LeafView, RecordView, RECORD_OVERHEAD};
use crate::tree_spec::{below, bound_le, records_ok};

verus! {

/// A slot where a version of `key` may enter: what is left of it is not above
/// the key, what is right of it not below.
pub open spec fn slot_for<K: Key>(s: Seq<RecordView>, key: Seq<u8>, slot: int) -> bool {
    &&& 0 <= slot <= s.len()
    &&& forall|i: int| 0 <= i < slot ==> K::le(#[trigger] s[i].key, key)
    &&& forall|i: int| slot <= i < s.len() ==> K::le(key, #[trigger] s[i].key)
}

/// The outcome of a binary search is such a slot.
pub proof fn lemma_position_is_slot<K: Key>(s: Seq<RecordView>, key: Seq<u8>, r: (usize, bool))
    requires
        records_sorted::<K>(s),
        r.0 <= s.len(),
        r.1 ==> r.0 < s.len() && K::le(s[r.0 as int].key, key) && K::le(key, s[r.0 as int].key),
        !r.1 ==> forall|i: int| 0 <= i < r.0 ==> !K::le(key, #[trigger] s[i].key),
        !r.1 ==> forall|i: int| r.0 <= i < s.len() ==> !K::le(#[trigger] s[i].key, key),
    ensures
        slot_for::<K>(s, key, r.0 as int),
{
    K::le_laws();
    let slot = r.0 as int;
    assert forall|i: int| 0 <= i < slot implies K::le(#[trigger] s[i].key, key) by {
        if r.1 {
            assert(K::le(s[i].key, s[slot].key));
        }
    }
    assert forall|i: int| slot <= i < s.len() implies K::le(key, #[trigger] s[i].key) by {
        if r.1 {
            assert(K::le(s[slot].key, s[i].key));
        }
    }
}

/// A version that enters at its slot keeps order and bounds.
pub proof fn lemma_insert_ok<K: Key>(
    low: Option<Seq<u8>>,
    l: LeafView,
    slot: int,
    r: RecordView,
    l2: LeafView,
)
    requires
        records_ok::<K>(low, l),
        slot_for::<K>(l.entries, r.key, slot),
        bound_le::<K>(low, Some(r.key)),
        below::<K>(r.key, l.high_key),
        l2.entries == l.entries.insert(slot, r),
        l2.high_key == l.high_key,
    ensures
        records_ok::<K>(low, l2),
{
    reveal(records_ok);
    K::le_laws();
    let s = l.entries;
    let t = l2.entries;
    assert forall|i: int| 0 <= i < t.len() implies bound_le::<K>(low, Some((#[trigger] t[i]).key))
        && below::<K>(t[i].key, l2.high_key) by {
        if i < slot {
            assert(t[i] == s[i]);
        } else if i > slot {
            assert(t[i] == s[i - 1]);
        }
    }
    assert forall|i: int, j: int| 0 <= i <= j < t.len() implies K::le(
        #[trigger] t[i].key,
        #[trigger] t[j].key,
    ) by {
        if i < slot {
            assert(t[i] == s[i]);
            assert(K::le(s[i].key, r.key));
        } else if i > slot {
            assert(t[i] == s[i - 1]);
        }
        if j < slot {
            assert(t[j] == s[j]);
        } else if j > slot {
            assert(t[j] == s[j - 1]);
            assert(K::le(r.key, s[j - 1].key));
        }
    }
}

/// A change of stamps keeps order and bounds.
pub proof fn lemma_restamp_ok<K: Key>(
    low: Option<Seq<u8>>,
    l: LeafView,
    slot: int,
    r: RecordView,
    l2: LeafView,
)
    requires
        records_ok::<K>(low, l),
        0 <= slot < l.entries.len(),
        r.key == l.entries[slot].key,
        l2.entries == l.entries.update(slot, r),
        l2.high_key == l.high_key,
    ensures
        records_ok::<K>(low, l2),
{
    reveal(records_ok);
    let s = l.entries;
    let t = l2.entries;
    assert forall|i: int| 0 <= i < t.len() implies (#[trigger] t[i]).key == s[i].key by {}
}

/// Where a survivor comes from.
pub proof fn lemma_survivor_origin(e: Settled, s: Seq<RecordView>, k: int) -> (i: int)
    requires
        0 <= k < survivors(e, s).len(),
    ensures
        0 <= i < s.len(),
        survivors(e, s)[k] == cleared(e, s[i]),
        !dead(e, s[i]),
    decreases s.len(),
{
    let t = survivors(e, s.drop_last());
    if k < t.len() {
        let i = lemma_survivor_origin(e, s.drop_last(), k);
        assert(s.drop_last()[i] == s[i]);
        i
    } else {
        s.len() - 1
    }
}

/// A sweep keeps order, bounds and size of a leaf.
pub proof fn lemma_survivors_ok<K: Key>(e: Settled, low: Option<Seq<u8>>, l: LeafView, l2: LeafView)
    requires
        records_ok::<K>(low, l),
        l2.entries == survivors(e, l.entries),
        l2.high_key == l.high_key,
    ensures
        records_ok::<K>(low, l2),
{
    reveal(records_ok);
    lemma_survivors_sorted::<K>(e, l.entries);
    let t = l2.entries;
    assert forall|k: int| 0 <= k < t.len() implies bound_le::<K>(low, Some((#[trigger] t[k]).key))
        && below::<K>(t[k].key, l2.high_key) by {
        let i = lemma_survivor_origin(e, l.entries, k);
        assert(t[k].key == l.entries[i].key);
    }
}

proof fn lemma_survivors_sorted<K: Key>(e: Settled, s: Seq<RecordView>)
    requires
        records_sorted::<K>(s),
    ensures
        records_sorted::<K>(survivors(e, s)),
    decreases s.len(),
{
    if s.len() > 0 {
        let s1 = s.drop_last();
        assert forall|i: int, j: int| 0 <= i <= j < s1.len() implies K::le(
            #[trigger] s1[i].key,
            #[trigger] s1[j].key,
        ) by {
            assert(K::le(s[i].key, s[j].key));
        }
        lemma_survivors_sorted::<K>(e, s1);
        let t1 = survivors(e, s1);
        let t = survivors(e, s);
        K::le_laws();
        assert forall|i: int, j: int| 0 <= i <= j < t.len() implies K::le(
            #[trigger] t[i].key,
            #[trigger] t[j].key,
        ) by {
            if j < t1.len() {
                assert(t[i] == t1[i] && t[j] == t1[j]);
                assert(K::le(t1[i].key, t1[j].key));
            } else if i < t1.len() {
                let k = lemma_survivor_origin(e, s1, i);
                assert(t[i] == t1[i]);
                assert(t[i].key == s[k].key);
                assert(t[j].key == s[s.len() - 1].key);
                assert(K::le(s[k].key, s[s.len() - 1].key));
            }
        }
    }
}

pub proof fn lemma_survivors_size(e: Settled, s: Seq<RecordView>)
    ensures
        records_size(survivors(e, s)) <= records_size(s),
        survivors(e, s).len() <= s.len(),
    decreases s.len(),
{
    if s.len() > 0 {
        lemma_survivors_size(e, s.drop_last());
        let t1 = survivors(e, s.drop_last());
        if !dead(e, s.last()) {
            let c = cleared(e, s.last());
            assert(t1.push(c).drop_last() =~= t1);
            assert(t1.push(c).last() == c);
        }
    }
}

/// A sweep keeps a leaf storable.
pub proof fn lemma_survivors_wf(e: Settled, l: LeafView, l2: LeafView)
    requires
        l.wf(),
        l2 == (LeafView { entries: survivors(e, l.entries), lsn: l2.lsn, ..l }),
    ensures
        l2.wf(),
{
    lemma_survivors_size(e, l.entries);
    assert forall|k: int| 0 <= k < l2.entries.len() implies (#[trigger] l2.entries[k]).key.len()
        <= MAX_KEY_SIZE && l2.entries[k].value.len() <= OVERFLOW_THRESHOLD by {
        let i = lemma_survivor_origin(e, l.entries, k);
        assert(l.entries[i].key.len() <= MAX_KEY_SIZE);
    }
}

/// Every record takes up its overhead, so a leaf holds few of them.
pub proof fn lemma_entries_bounded(s: Seq<RecordView>)
    ensures
        s.len() * RECORD_OVERHEAD <= records_size(s),
    decreases s.len(),
{
    if s.len() > 0 {
        lemma_entries_bounded(s.drop_last());
        assert(s.len() * 21 == (s.len() - 1) * 21 + 21) by (nonlinear_arith)
            requires
                s.len() > 0,
        ;
    }
}

/// A leaf holds at most 192 records.
pub proof fn lemma_leaf_count(l: LeafView)
    requires
        l.wf(),
    ensures
        l.entries.len() <= 192,
{
    lemma_entries_bounded(l.entries);
}

/// A leaf with at most one record has room for another one.
pub proof fn lemma_single_has_room(l: LeafView, key_len: nat, value_len: nat)
    requires
        l.wf(),
        l.entries.len() <= 1,
        key_len <= MAX_KEY_SIZE,
        value_len <= OVERFLOW_THRESHOLD,
    ensures
        l.size() + RECORD_OVERHEAD + key_len + value_len <= PAGE_SIZE,
{
    let s = l.entries;
    if s.len() == 1 {
        assert(s.drop_last() =~= Seq::<RecordView>::empty());
        assert(records_size(Seq::<RecordView>::empty()) == 0);
        assert(s.last() == s[0]);
    }
}

} // verus!
