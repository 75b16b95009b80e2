//! Checkpoint records: where redo has to start, the next ids to give out, and the
//! transactions whose fate later records do not tell.
//!
//! The payload is the redo point, the next transaction id, the vacuum horizon,
//! the root and the next page id (8 bytes each), the number of running
//! transactions (4) and their ids (8 each), the number of remembered aborted
//! transactions (4) and their ids (8 each).

use vstd::prelude::*;

use crate::bytes::{
    holds, law_integers_give_their_bytes_back, le32, le64, lemma_holds_add, lemma_holds_int,
    lemma_le, push_u32, push_u64, read_u32, read_u64, slice, u32_at, u64_at,
};
use crate::error::WalError;

verus! {

/// What a checkpoint record says.
#[derive(Debug)]
pub struct CheckpointData {
    pub redo_point: u64,
    pub next_txn_id: u64,
    pub vacuum_horizon: u64,
    pub root_page_id: u64,
    pub next_page_id: u64,
    pub active_txns: Vec<u64>,
    pub pinned_aborted: Vec<u64>,
}

/// Mathematical content of a [`CheckpointData`].
#[verifier::ext_equal]
pub struct CheckpointView {
    pub redo_point: u64,
    pub next_txn_id: u64,
    pub vacuum_horizon: u64,
    pub root_page_id: u64,
    pub next_page_id: u64,
    pub active_txns: Seq<u64>,
    pub pinned_aborted: Seq<u64>,
}

impl View for CheckpointData {
    type V = CheckpointView;

    open spec fn view(&self) -> CheckpointView {
        CheckpointView {
            redo_point: self.redo_point,
            next_txn_id: self.next_txn_id,
            vacuum_horizon: self.vacuum_horizon,
            root_page_id: self.root_page_id,
            next_page_id: self.next_page_id,
            active_txns: self.active_txns@,
            pinned_aborted: self.pinned_aborted@,
        }
    }
}

/// The bytes of a list of ids.
pub open spec fn ids_bytes(s: Seq<u64>) -> Seq<u8>
    decreases s.len(),
{
    if s.len() == 0 {
        Seq::empty()
    } else {
        ids_bytes(s.drop_last()) + le64(s.last())
    }
}

/// The payload of a checkpoint record.
pub open spec fn checkpoint_bytes(c: CheckpointView) -> Seq<u8> {
    le64(c.redo_point) + (le64(c.next_txn_id) + (le64(c.vacuum_horizon) + (le64(c.root_page_id) + (
    le64(c.next_page_id) + (le32(c.active_txns.len() as u32) + (ids_bytes(c.active_txns) + (le32(
        c.pinned_aborted.len() as u32,
    ) + ids_bytes(c.pinned_aborted))))))))
}

/// The `n` ids from `pos` on.
pub open spec fn ids_at(d: Seq<u8>, pos: int, n: nat) -> Seq<u64> {
    Seq::new(n, |i: int| u64_at(d, pos + 8 * i))
}

/// What a payload says, if it is whole.
pub open spec fn checkpoint_at(d: Seq<u8>) -> Option<CheckpointView> {
    if d.len() < 48 {
        None
    } else {
        let a = u32_at(d, 40) as int;
        if d.len() < 48 + 8 * a {
            None
        } else {
            let b = u32_at(d, 44 + 8 * a) as int;
            if d.len() < 48 + 8 * a + 8 * b {
                None
            } else {
                Some(
                    CheckpointView {
                        redo_point: u64_at(d, 0),
                        next_txn_id: u64_at(d, 8),
                        vacuum_horizon: u64_at(d, 16),
                        root_page_id: u64_at(d, 24),
                        next_page_id: u64_at(d, 32),
                        active_txns: ids_at(d, 44, a as nat),
                        pinned_aborted: ids_at(d, 48 + 8 * a, b as nat),
                    },
                )
            }
        }
    }
}

/// A list of ids takes eight bytes for each.
pub proof fn lemma_ids_bytes_len(s: Seq<u64>)
    ensures
        ids_bytes(s).len() == 8 * s.len(),
    decreases s.len(),
{
    if s.len() > 0 {
        lemma_ids_bytes_len(s.drop_last());
        lemma_le(0, 0, s.last());
    }
}

proof fn lemma_ids_roundtrip(d: Seq<u8>, pos: int, s: Seq<u64>)
    requires
        holds(d, pos, ids_bytes(s)),
    ensures
        ids_at(d, pos, s.len()) == s,
    decreases s.len(),
{
    if s.len() > 0 {
        let p = s.drop_last();
        lemma_ids_bytes_len(p);
        lemma_holds_add(d, pos, ids_bytes(p), le64(s.last()));
        lemma_ids_roundtrip(d, pos, p);
        lemma_holds_int(d, pos + 8 * p.len(), 0, 0, s.last());
        assert forall|i: int| 0 <= i < s.len() implies #[trigger] ids_at(d, pos, s.len())[i]
            == s[i] by {
            if i < p.len() {
                assert(ids_at(d, pos, p.len())[i] == p[i]);
            }
        }
        assert(ids_at(d, pos, s.len()) =~= s);
    } else {
        assert(ids_at(d, pos, 0) =~= s);
    }
}

/// The size of a payload.
pub proof fn lemma_checkpoint_len(c: CheckpointView)
    ensures
        checkpoint_bytes(c).len() == 48 + 8 * c.active_txns.len() + 8 * c.pinned_aborted.len(),
{
    lemma_ids_bytes_len(c.active_txns);
    lemma_ids_bytes_len(c.pinned_aborted);
    lemma_le(0, c.active_txns.len() as u32, c.redo_point);
    lemma_le(0, c.pinned_aborted.len() as u32, c.next_txn_id);
    lemma_le(0, 0, c.vacuum_horizon);
    lemma_le(0, 0, c.root_page_id);
    lemma_le(0, 0, c.next_page_id);
}

/// A checkpoint is read back from its payload.
pub proof fn law_checkpoint_roundtrip(c: CheckpointView)
    requires
        c.active_txns.len() <= u32::MAX,
        c.pinned_aborted.len() <= u32::MAX,
    ensures
        checkpoint_at(checkpoint_bytes(c)) == Some(c),
{
    let d = checkpoint_bytes(c);
    lemma_checkpoint_len(c);
    lemma_ids_bytes_len(c.active_txns);
    lemma_ids_bytes_len(c.pinned_aborted);
    let a = c.active_txns.len() as u32;
    let b = c.pinned_aborted.len() as u32;
    lemma_le(0, a, c.redo_point);
    lemma_le(0, b, c.next_txn_id);
    lemma_le(0, 0, c.vacuum_horizon);
    lemma_le(0, 0, c.root_page_id);
    lemma_le(0, 0, c.next_page_id);
    assert(slice(d, 0, d.len() as int) =~= d);
    let s8 = le32(b) + ids_bytes(c.pinned_aborted);
    let s7 = ids_bytes(c.active_txns) + s8;
    let s6 = le32(a) + s7;
    let s5 = le64(c.next_page_id) + s6;
    let s4 = le64(c.root_page_id) + s5;
    let s3 = le64(c.vacuum_horizon) + s4;
    let s2 = le64(c.next_txn_id) + s3;
    lemma_holds_add(d, 0, le64(c.redo_point), s2);
    lemma_holds_add(d, 8, le64(c.next_txn_id), s3);
    lemma_holds_add(d, 16, le64(c.vacuum_horizon), s4);
    lemma_holds_add(d, 24, le64(c.root_page_id), s5);
    lemma_holds_add(d, 32, le64(c.next_page_id), s6);
    lemma_holds_add(d, 40, le32(a), s7);
    lemma_holds_add(d, 44, ids_bytes(c.active_txns), s8);
    let q = 44 + 8 * a as int;
    lemma_holds_add(d, q, le32(b), ids_bytes(c.pinned_aborted));
    lemma_holds_int(d, 0, 0, 0, c.redo_point);
    lemma_holds_int(d, 8, 0, 0, c.next_txn_id);
    lemma_holds_int(d, 16, 0, 0, c.vacuum_horizon);
    lemma_holds_int(d, 24, 0, 0, c.root_page_id);
    lemma_holds_int(d, 32, 0, 0, c.next_page_id);
    lemma_holds_int(d, 40, 0, a, 0);
    lemma_holds_int(d, q, 0, b, 0);
    lemma_ids_roundtrip(d, 44, c.active_txns);
    lemma_ids_roundtrip(d, q + 4, c.pinned_aborted);
}

/// Ids that are read stand there as they would be written.
proof fn lemma_ids_written(d: Seq<u8>, pos: int, n: nat)
    requires
        0 <= pos,
        pos + 8 * n <= d.len(),
    ensures
        ids_bytes(ids_at(d, pos, n)) == slice(d, pos, 8 * n as int),
    decreases n,
{
    if n > 0 {
        let m = (n - 1) as nat;
        lemma_ids_written(d, pos, m);
        assert(ids_at(d, pos, n).drop_last() =~= ids_at(d, pos, m));
        law_integers_give_their_bytes_back(d, pos + 8 * m);
        assert(slice(d, pos, 8 * m as int) + slice(d, pos + 8 * m, 8) =~= slice(
            d,
            pos,
            8 * n as int,
        ));
    } else {
        assert(ids_bytes(ids_at(d, pos, 0)) =~= slice(d, pos, 0));
    }
}

/// A payload says something only if it begins with what would be written to say that.
pub proof fn law_checkpoints_stand_as_written(d: Seq<u8>, c: CheckpointView)
    requires
        checkpoint_at(d) == Some(c),
    ensures
        checkpoint_bytes(c).len() <= d.len(),
        d.subrange(0, checkpoint_bytes(c).len() as int) == checkpoint_bytes(c),
{
    let a = u32_at(d, 40);
    let b = u32_at(d, 44 + 8 * a);
    lemma_checkpoint_len(c);
    law_integers_give_their_bytes_back(d, 0);
    law_integers_give_their_bytes_back(d, 8);
    law_integers_give_their_bytes_back(d, 16);
    law_integers_give_their_bytes_back(d, 24);
    law_integers_give_their_bytes_back(d, 32);
    law_integers_give_their_bytes_back(d, 40);
    law_integers_give_their_bytes_back(d, 44 + 8 * a);
    lemma_ids_written(d, 44, a as nat);
    lemma_ids_written(d, 48 + 8 * a, b as nat);
    assert(c.active_txns.len() as u32 == a);
    assert(c.pinned_aborted.len() as u32 == b);
    assert(checkpoint_bytes(c) =~= d.subrange(0, checkpoint_bytes(c).len() as int));
}

/// A payload that was cut short says nothing, and bytes behind a payload change nothing.
pub proof fn law_checkpoints_are_whole_or_nothing(c: CheckpointView, n: int, more: Seq<u8>)
    requires
        c.active_txns.len() <= u32::MAX,
        c.pinned_aborted.len() <= u32::MAX,
        0 <= n < checkpoint_bytes(c).len(),
    ensures
        checkpoint_at(checkpoint_bytes(c).subrange(0, n)) is None,
        checkpoint_at(checkpoint_bytes(c) + more) == Some(c),
{
    let d = checkpoint_bytes(c);
    let e = d.subrange(0, n);
    let f = d + more;
    law_checkpoint_roundtrip(c);
    lemma_checkpoint_len(c);
    assert(forall|i: int| 0 <= i < n ==> e[i] == d[i]);
    assert(forall|i: int| 0 <= i < d.len() ==> f[i] == d[i]);
    let a = u32_at(d, 40);
    let b = u32_at(d, 44 + 8 * a);
    assert(ids_at(d, 44, a as nat).len() == a);
    assert(ids_at(d, 48 + 8 * a, b as nat).len() == b);
    assert(c.active_txns == ids_at(d, 44, a as nat));
    assert(c.pinned_aborted == ids_at(d, 48 + 8 * a, b as nat));
    assert(ids_at(f, 44, a as nat) =~= ids_at(d, 44, a as nat));
    assert(ids_at(f, 48 + 8 * a, b as nat) =~= ids_at(d, 48 + 8 * a, b as nat));
}

fn push_ids(v: &mut Vec<u8>, ids: &Vec<u64>)
    ensures
        final(v)@ == old(v)@ + ids_bytes(ids@),
{
    let ghost v0 = v@;
    let mut i: usize = 0;
    assert(ids@.subrange(0, 0) =~= Seq::<u64>::empty());
    assert(v0 + ids_bytes(ids@.subrange(0, 0)) =~= v0);
    while i < ids.len()
        invariant
            i <= ids@.len(),
            v@ == v0 + ids_bytes(ids@.subrange(0, i as int)),
        decreases ids.len() - i,
    {
        assert(ids@.subrange(0, i + 1).drop_last() =~= ids@.subrange(0, i as int));
        push_u64(v, ids[i]);
        assert(v@ =~= v0 + (ids_bytes(ids@.subrange(0, i as int)) + le64(ids@[i as int])));
        i = i + 1;
    }
    assert(ids@.subrange(0, ids@.len() as int) =~= ids@);
}

fn read_ids(d: &[u8], pos: usize, n: u32) -> (v: Vec<u64>)
    requires
        pos + 8 * n <= d@.len(),
    ensures
        v@ == ids_at(d@, pos as int, n as nat),
{
    let len: usize = d.len();
    let mut v: Vec<u64> = Vec::new();
    let mut at: usize = pos;
    let mut i: u32 = 0;
    while i < n
        invariant
            i <= n,
            len == d@.len(),
            at == pos + 8 * i,
            pos + 8 * n <= len,
            v@ =~= ids_at(d@, pos as int, i as nat),
        decreases n - i,
    {
        v.push(read_u64(d, at));
        at = at + 8;
        i = i + 1;
    }
    v
}

impl CheckpointData {
    /// The payload of the record.
    pub fn to_bytes(&self) -> (v: Vec<u8>)
        requires
            self.active_txns@.len() <= u32::MAX,
            self.pinned_aborted@.len() <= u32::MAX,
        ensures
            v@ == checkpoint_bytes(self@),
    {
        let mut v: Vec<u8> = Vec::new();
        push_u64(&mut v, self.redo_point);
        push_u64(&mut v, self.next_txn_id);
        push_u64(&mut v, self.vacuum_horizon);
        push_u64(&mut v, self.root_page_id);
        push_u64(&mut v, self.next_page_id);
        push_u32(&mut v, self.active_txns.len() as u32);
        push_ids(&mut v, &self.active_txns);
        push_u32(&mut v, self.pinned_aborted.len() as u32);
        push_ids(&mut v, &self.pinned_aborted);
        assert(v@ =~= checkpoint_bytes(self@));
        v
    }
}

/// Reads the payload of a checkpoint record.
pub fn parse_checkpoint(main_data: &Option<Vec<u8>>) -> (r: Result<CheckpointData, WalError>)
    ensures
        match checkpoint_at(crate::wal::part(crate::wal::opt_bytes(*main_data))) {
            Some(c) => r matches Ok(d) && d@ == c,
            None => r == Err::<CheckpointData, WalError>(WalError::CorruptedLog),
        },
{
    let empty: Vec<u8> = Vec::new();
    assert(empty@ =~= Seq::<u8>::empty());
    let d: &[u8] = match main_data {
        Some(x) => x.as_slice(),
        None => empty.as_slice(),
    };
    let len: usize = d.len();
    if len < 48 {
        return Err(WalError::CorruptedLog);
    }
    let a: u32 = read_u32(d, 40);
    if ((len - 48) / 8) < a as usize {
        return Err(WalError::CorruptedLog);
    }
    let q: usize = 44 + 8 * a as usize;
    let b: u32 = read_u32(d, q);
    if ((len - 4 - q) / 8) < b as usize {
        return Err(WalError::CorruptedLog);
    }
    Ok(
        CheckpointData {
            redo_point: read_u64(d, 0),
            next_txn_id: read_u64(d, 8),
            vacuum_horizon: read_u64(d, 16),
            root_page_id: read_u64(d, 24),
            next_page_id: read_u64(d, 32),
            active_txns: read_ids(d, 44, a),
            pinned_aborted: read_ids(d, q + 4, b),
        },
    )
}

} // verus!
